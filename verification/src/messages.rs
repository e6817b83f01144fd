use vstd::prelude::*;

verus! {

/// One node's neighbor list inside a topology update: the node's id and the
/// ids of the nodes it may gossip with.
pub struct TopologyEntry {
    pub node: String,
    pub neighbors: Vec<String>,
}

/// The closed, tagged set of request and response payloads. The tag names on
/// the wire are the snake_case renderings of the variant names.
pub enum MessageBody {
    // Client requests
    Init { msg_id: u32, node_id: String, node_ids: Vec<String> },
    Echo { msg_id: u32, echo: String },
    Generate { msg_id: u32 },
    Broadcast { msg_id: u32, message: u32 },
    Read { msg_id: u32 },
    Topology { msg_id: u32, topology: Vec<TopologyEntry> },
    // Client responses
    InitOk { in_reply_to: u32 },
    EchoOk { msg_id: u32, in_reply_to: u32, echo: String },
    GenerateOk { id: i64, in_reply_to: u32 },
    BroadcastOk { in_reply_to: u32 },
    ReadOk { in_reply_to: u32, messages: Vec<u32> },
    TopologyOk { in_reply_to: u32 },
    // Gossip between nodes, in either direction
    InformNewBroadcast { msg_id: u32, messages: Vec<u32> },
    InformNewBroadcastOk { in_reply_to: u32 },
}

/// The message envelope: source node id, destination node id, payload.
pub struct Message {
    pub src: String,
    pub dest: String,
    pub body: MessageBody,
}

} // verus!
