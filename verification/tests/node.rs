use gossip_node::handler::{
    Handler, HandlerError, InitializedHandler, UninitHandler,
};
use gossip_node::messages::{Message, MessageBody, TopologyEntry};
use gossip_node::unique_id::SnowflakeId;

fn init_message(src: &str, dest: &str, msg_id: u32, node_id: &str) -> Message {
    Message {
        src: src.to_string(),
        dest: dest.to_string(),
        body: MessageBody::Init {
            msg_id,
            node_id: node_id.to_string(),
            node_ids: vec![node_id.to_string()],
        },
    }
}

fn topology_message(msg_id: u32, node: &str, neighbors: &[&str]) -> Message {
    Message {
        src: "c1".to_string(),
        dest: node.to_string(),
        body: MessageBody::Topology {
            msg_id,
            topology: vec![TopologyEntry {
                node: node.to_string(),
                neighbors: neighbors.iter().map(|n| n.to_string()).collect(),
            }],
        },
    }
}

fn broadcast_message(msg_id: u32, node: &str, value: u32) -> Message {
    Message {
        src: "c1".to_string(),
        dest: node.to_string(),
        body: MessageBody::Broadcast { msg_id, message: value },
    }
}

fn read_values(handler: &mut InitializedHandler, msg_id: u32) -> Vec<u32> {
    let out = handler
        .handle_message(Message {
            src: "c1".to_string(),
            dest: "n1".to_string(),
            body: MessageBody::Read { msg_id },
        })
        .unwrap();
    assert_eq!(out.len(), 1);
    match &out[0].body {
        MessageBody::ReadOk { in_reply_to, messages } => {
            assert_eq!(*in_reply_to, msg_id);
            let mut values = messages.clone();
            values.sort();
            values
        }
        _ => panic!("expected read_ok"),
    }
}

#[test]
fn test_handshake_scenario() {
    let input = r#"{"src":"c1","dest":"n1","body":{"type":"init","msg_id":1,"node_id":"n1","node_ids":["n1"]}}"#;
    let v: serde_json::Value = serde_json::from_str(input).unwrap();
    let message = Message {
        src: v["src"].as_str().unwrap().to_string(),
        dest: v["dest"].as_str().unwrap().to_string(),
        body: MessageBody::Init {
            msg_id: v["body"]["msg_id"].as_u64().unwrap() as u32,
            node_id: v["body"]["node_id"].as_str().unwrap().to_string(),
            node_ids: v["body"]["node_ids"]
                .as_array()
                .unwrap()
                .iter()
                .map(|x| x.as_str().unwrap().to_string())
                .collect(),
        },
    };
    assert_eq!(v["body"]["type"], "init");

    let mut handler = UninitHandler::new();
    let out = handler.handle_message(message).unwrap();
    assert_eq!(out.len(), 1);

    let expected: serde_json::Value = serde_json::from_str(
        r#"{"src":"n1","dest":"c1","body":{"type":"init_ok","in_reply_to":1}}"#,
    )
    .unwrap();
    assert_eq!(out[0].src, expected["src"].as_str().unwrap());
    assert_eq!(out[0].dest, expected["dest"].as_str().unwrap());
    match &out[0].body {
        MessageBody::InitOk { in_reply_to } => {
            assert_eq!(*in_reply_to as u64, expected["body"]["in_reply_to"].as_u64().unwrap());
        }
        _ => panic!("expected init_ok"),
    }
}

#[test]
fn test_second_init_rejected() {
    let mut handler = UninitHandler::new();
    let out = handler.handle_message(init_message("c1", "n1", 1, "n1")).unwrap();
    assert_eq!(out.len(), 1);
    let second = handler.handle_message(init_message("c1", "n1", 2, "n1"));
    assert!(matches!(
        second,
        Err(HandlerError::ReceivedMessageInInvalidState(_))
    ));
}

#[test]
fn test_invalid_node_id() {
    let mut handler = UninitHandler::new();
    let r = handler.handle_message(init_message("c1", "n1", 1, "abc"));
    match r {
        Err(HandlerError::InvalidMachineId(s)) => assert_eq!(s, "abc"),
        _ => panic!("expected invalid machine id"),
    }
    let r = handler.handle_message(init_message("c1", "n1", 1, "n"));
    assert!(matches!(r, Err(HandlerError::InvalidMachineId(_))));
    let r = handler.handle_message(init_message("c1", "n1", 1, "n70000"));
    assert!(matches!(r, Err(HandlerError::InvalidMachineId(_))));
    // Still uninitialized: a well-formed init is accepted afterwards.
    let out = handler.handle_message(init_message("c1", "n1", 3, "n1")).unwrap();
    assert_eq!(out.len(), 1);
}

#[test]
fn test_uninitialized_rejects_other_requests() {
    let mut handler = UninitHandler::new();
    let r = handler.handle_message(Message {
        src: "c1".to_string(),
        dest: "n1".to_string(),
        body: MessageBody::Echo { msg_id: 1, echo: "hi".to_string() },
    });
    assert!(matches!(r, Err(HandlerError::UnprocessableMessage(_))));
    assert!(handler.get_initialized_handler().is_none());
}

#[test]
fn test_initialized_rejects_init() {
    // A duplicate initialization is a protocol-order violation.
    let mut handler = InitializedHandler::new(1);
    let r = handler.handle_message(init_message("c1", "n1", 1, "n1"));
    assert!(matches!(
        r,
        Err(HandlerError::ReceivedMessageInInvalidState(_))
    ));
}

#[test]
fn test_promotion_and_node_id_rendering() {
    let mut handler = UninitHandler::new();
    handler.handle_message(init_message("c1", "n007", 1, "n007")).unwrap();
    let mut node = handler.get_initialized_handler().unwrap();
    // The rendered node id drops the leading zeroes: gossip replies carry it
    // as the source.
    let out = node
        .handle_message(Message {
            src: "n2".to_string(),
            dest: "n007".to_string(),
            body: MessageBody::InformNewBroadcast { msg_id: 9, messages: vec![4] },
        })
        .unwrap();
    assert_eq!(out.len(), 1);
    assert_eq!(out[0].src, "n7");
    assert_eq!(out[0].dest, "n2");
    match &out[0].body {
        MessageBody::InformNewBroadcastOk { in_reply_to } => assert_eq!(*in_reply_to, 9),
        _ => panic!("expected inform_new_broadcast_ok"),
    }
}

#[test]
fn test_echo() {
    let mut handler = InitializedHandler::new(1);
    let out = handler
        .handle_message(Message {
            src: "c1".to_string(),
            dest: "n1".to_string(),
            body: MessageBody::Echo { msg_id: 7, echo: "hello".to_string() },
        })
        .unwrap();
    assert_eq!(out.len(), 1);
    assert_eq!(out[0].src, "n1");
    assert_eq!(out[0].dest, "c1");
    match &out[0].body {
        MessageBody::EchoOk { msg_id, in_reply_to, echo } => {
            assert_eq!(*msg_id, 7);
            assert_eq!(*in_reply_to, 7);
            assert_eq!(echo, "hello");
        }
        _ => panic!("expected echo_ok"),
    }
}

#[test]
fn test_generate_id_fields() {
    let mut handler = InitializedHandler::new(378);
    let out = handler
        .handle_message(Message {
            src: "c1".to_string(),
            dest: "n378".to_string(),
            body: MessageBody::Generate { msg_id: 3 },
        })
        .unwrap();
    assert_eq!(out.len(), 1);
    match &out[0].body {
        MessageBody::GenerateOk { id, in_reply_to } => {
            assert_eq!(*in_reply_to, 3);
            let id = SnowflakeId(*id);
            assert_eq!(id.machine_id(), 378);
            assert_eq!(id.sequence(), 0);
        }
        _ => panic!("expected generate_ok"),
    }
}

#[test]
fn test_idempotent_broadcast() {
    let mut handler = InitializedHandler::new(1);
    handler.handle_message(broadcast_message(1, "n1", 42)).unwrap();
    let before = handler.messages.len();
    handler.handle_message(broadcast_message(2, "n1", 42)).unwrap();
    assert_eq!(handler.messages.len(), before);
    assert_eq!(read_values(&mut handler, 3), vec![42]);
}

#[test]
fn test_topology_replacement_scenario() {
    let mut handler = InitializedHandler::new(1);
    handler.handle_message(topology_message(1, "n1", &["n2", "n3"])).unwrap();
    assert_eq!(handler.neighbors, vec!["n2".to_string(), "n3".to_string()]);
    let out = handler.handle_message(topology_message(2, "n1", &["n4"])).unwrap();
    assert_eq!(out.len(), 1);
    match &out[0].body {
        MessageBody::TopologyOk { in_reply_to } => assert_eq!(*in_reply_to, 2),
        _ => panic!("expected topology_ok"),
    }
    assert_eq!(handler.neighbors, vec!["n4".to_string()]);
    let entry = handler
        .known_messages_to_neighbors
        .iter()
        .find(|e| e.neighbor == "n4")
        .expect("fresh knowledge entry for n4");
    assert!(entry.known.is_empty());
}

#[test]
fn test_topology_without_own_entry_is_noop() {
    let mut handler = InitializedHandler::new(1);
    handler.handle_message(topology_message(1, "n1", &["n2"])).unwrap();
    // A topology that carries no entry for this node leaves everything as is.
    let out = handler
        .handle_message(Message {
            src: "c1".to_string(),
            dest: "n1".to_string(),
            body: MessageBody::Topology {
                msg_id: 2,
                topology: vec![TopologyEntry {
                    node: "n9".to_string(),
                    neighbors: vec!["n1".to_string()],
                }],
            },
        })
        .unwrap();
    assert_eq!(out.len(), 1);
    assert_eq!(handler.neighbors, vec!["n2".to_string()]);
}

#[test]
fn test_gossip_convergence() {
    let mut a = InitializedHandler::new(1);
    let mut b = InitializedHandler::new(2);
    a.handle_message(topology_message(1, "n1", &["n2"])).unwrap();
    for (i, value) in [1u32, 2, 3].iter().enumerate() {
        a.handle_message(broadcast_message(10 + i as u32, "n1", *value)).unwrap();
    }

    // One gossip round: the single neighbor is always selected.
    let sent = a.handle_gossip_timer();
    assert_eq!(sent.len(), 1);
    assert_eq!(sent[0].src, "n1");
    assert_eq!(sent[0].dest, "n2");
    let (gossip_id, gossip_values) = match &sent[0].body {
        MessageBody::InformNewBroadcast { msg_id, messages } => (*msg_id, messages.clone()),
        _ => panic!("expected inform_new_broadcast"),
    };
    let mut sorted = gossip_values.clone();
    sorted.sort();
    assert_eq!(sorted, vec![1, 2, 3]);
    assert_eq!(a.pending_messages_sent.len(), 1);

    // B learns the values and acknowledges.
    let acks = b
        .handle_message(Message {
            src: "n1".to_string(),
            dest: "n2".to_string(),
            body: MessageBody::InformNewBroadcast { msg_id: gossip_id, messages: gossip_values },
        })
        .unwrap();
    assert_eq!(read_values(&mut b, 99), vec![1, 2, 3]);
    assert_eq!(acks.len(), 1);
    assert_eq!(acks[0].src, "n2");
    assert_eq!(acks[0].dest, "n1");

    // A consumes the acknowledgment: pending empty, knowledge updated.
    let out = a.handle_message(acks.into_iter().next().unwrap()).unwrap();
    assert!(out.is_empty());
    assert!(a.pending_messages_sent.is_empty());
    let entry = a
        .known_messages_to_neighbors
        .iter()
        .find(|e| e.neighbor == "n2")
        .expect("knowledge entry for n2");
    let mut known = entry.known.clone();
    known.sort();
    assert_eq!(known, vec![1, 2, 3]);

    // No redundant gossip: the next round sends n2 nothing.
    let sent = a.handle_gossip_timer();
    assert!(sent.is_empty());
}

#[test]
fn test_gossip_reaches_every_needy_neighbor() {
    let mut a = InitializedHandler::new(1);
    a.handle_message(topology_message(1, "n1", &["n2", "n3", "n4"])).unwrap();
    a.handle_message(broadcast_message(2, "n1", 5)).unwrap();
    let sent = a.handle_gossip_timer();
    // Fewer neighbors than the round's limit: every one is selected, and
    // each is missing the value.
    assert_eq!(sent.len(), 3);
    let mut dests: Vec<String> = sent.iter().map(|m| m.dest.clone()).collect();
    dests.sort();
    assert_eq!(dests, vec!["n2".to_string(), "n3".to_string(), "n4".to_string()]);
    for m in &sent {
        match &m.body {
            MessageBody::InformNewBroadcast { messages, .. } => {
                assert_eq!(messages, &vec![5]);
            }
            _ => panic!("expected inform_new_broadcast"),
        }
    }
    assert_eq!(a.pending_messages_sent.len(), 3);
}

#[test]
fn test_unexpected_ack_is_ignored() {
    let mut handler = InitializedHandler::new(1);
    let out = handler
        .handle_message(Message {
            src: "n2".to_string(),
            dest: "n1".to_string(),
            body: MessageBody::InformNewBroadcastOk { in_reply_to: 77 },
        })
        .unwrap();
    assert!(out.is_empty());
    assert!(handler.pending_messages_sent.is_empty());
}

#[test]
fn test_gossip_from_unexpected_sender_self_heals() {
    let mut handler = InitializedHandler::new(1);
    let out = handler
        .handle_message(Message {
            src: "n9".to_string(),
            dest: "n1".to_string(),
            body: MessageBody::InformNewBroadcast { msg_id: 4, messages: vec![8, 8, 9] },
        })
        .unwrap();
    assert_eq!(out.len(), 1);
    assert_eq!(read_values(&mut handler, 5), vec![8, 9]);
    let entry = handler
        .known_messages_to_neighbors
        .iter()
        .find(|e| e.neighbor == "n9")
        .expect("entry created for unexpected sender");
    let mut known = entry.known.clone();
    known.sort();
    assert_eq!(known, vec![8, 9]);
}

#[test]
fn test_stray_responses_are_ignored() {
    let mut handler = InitializedHandler::new(1);
    let out = handler
        .handle_message(Message {
            src: "c1".to_string(),
            dest: "n1".to_string(),
            body: MessageBody::BroadcastOk { in_reply_to: 12 },
        })
        .unwrap();
    assert!(out.is_empty());
}
