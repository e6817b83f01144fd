use vstd::prelude::*;
use vstd::string::*;

use rand::seq::IteratorRandom;

use crate::messages::{Message, MessageBody, TopologyEntry};
use crate::unique_id::SnowflakeIdGenerator;

verus! {

broadcast use vstd::seq_lib::lemma_seq_contains_after_push;

/// The failures a handler reports to its caller; the caller decides whether
/// to log and continue or to abort.
#[derive(Debug)]
pub enum HandlerError {
    /// The message's tag cannot be processed in the current state.
    UnprocessableMessage(String),
    /// The assigned node id does not have the form `"n"` + unsigned integer.
    InvalidMachineId(String),
    /// A protocol-order violation, such as a duplicate initialization.
    ReceivedMessageInInvalidState(String),
}

/// A state of the node's lifecycle: it consumes one inbound message and
/// produces the responses to write out, or an error.
pub trait Handler: Sized {
    spec fn inv(&self) -> bool;

    spec fn handle_spec(
        pre: Self,
        message: Message,
        post: Self,
        r: Result<Vec<Message>, HandlerError>,
    ) -> bool;

    fn handle_message(&mut self, message: Message) -> (r: Result<Vec<Message>, HandlerError>)
        requires
            old(self).inv(),
        ensures
            final(self).inv(),
            Self::handle_spec(*old(self), message, *final(self), r),
    ;
}

pub open spec fn is_dec_digit(c: char) -> bool {
    48 <= c as u32 <= 57
}

pub open spec fn digit_val(c: char) -> int {
    c as u32 - 48
}

pub open spec fn all_dec_digits(s: Seq<char>) -> bool {
    forall|i: int| 0 <= i < s.len() ==> is_dec_digit(#[trigger] s[i])
}

/// The number a sequence of decimal digit characters denotes.
pub open spec fn dec_value(s: Seq<char>) -> int
    decreases s.len(),
{
    if s.len() == 0 {
        0
    } else {
        dec_value(s.drop_last()) * 10 + digit_val(s.last())
    }
}

/// The machine id a node id string denotes: the character `n` followed by
/// decimal digits whose value fits an unsigned 16-bit integer, or nothing.
pub open spec fn spec_parse_node_id(s: Seq<char>) -> Option<u16> {
    if s.len() >= 2 && s[0] == 'n' && all_dec_digits(s.skip(1)) && dec_value(s.skip(1)) <= 0xFFFF {
        Some(dec_value(s.skip(1)) as u16)
    } else {
        None
    }
}

proof fn lemma_dec_value_nonneg(s: Seq<char>)
    requires
        all_dec_digits(s),
    ensures
        dec_value(s) >= 0,
    decreases s.len(),
{
    if s.len() > 0 {
        lemma_dec_value_nonneg(s.drop_last());
    }
}

/// Appending further digits never decreases the denoted value.
proof fn lemma_dec_value_monotone(s: Seq<char>, k: int)
    requires
        0 <= k <= s.len(),
        all_dec_digits(s),
    ensures
        dec_value(s) >= dec_value(s.subrange(0, k)),
    decreases s.len() - k,
{
    if k < s.len() {
        let t = s.subrange(0, k + 1);
        assert(t.drop_last() =~= s.subrange(0, k));
        assert(all_dec_digits(s.subrange(0, k))) by {
            assert(forall|i: int|
                0 <= i < k ==> #[trigger] s.subrange(0, k)[i] == s[i] && is_dec_digit(s[i]));
        }
        lemma_dec_value_nonneg(s.subrange(0, k));
        assert(dec_value(t) == dec_value(s.subrange(0, k)) * 10 + digit_val(s[k]));
        lemma_dec_value_monotone(s, k + 1);
    } else {
        assert(s.subrange(0, k) =~= s);
    }
}

/// Parses a node id of the form `"n"` + unsigned 16-bit decimal integer into
/// the machine id it denotes.
pub fn parse_node_id(node_id: String) -> (r: Result<u16, HandlerError>)
    ensures
        match spec_parse_node_id(node_id@) {
            Some(m) => r matches Ok(got) && got == m,
            None => r matches Err(HandlerError::InvalidMachineId(s)) && s@ == node_id@,
        },
{
    let s = node_id.as_str();
    let n = s.unicode_len();
    if n < 2 {
        return Err(HandlerError::InvalidMachineId(node_id));
    }
    if s.get_char(0) != 'n' {
        return Err(HandlerError::InvalidMachineId(node_id));
    }
    let ghost digits = node_id@.skip(1);
    let mut val: u32 = 0;
    let mut i: usize = 1;
    while i < n
        invariant
            1 <= i <= n,
            n == node_id@.len(),
            s@ == node_id@,
            val <= 0xFFFF,
            digits == node_id@.skip(1),
            all_dec_digits(digits.subrange(0, i - 1)),
            val == dec_value(digits.subrange(0, i - 1)),
        decreases n - i,
    {
        let c = s.get_char(i);
        let cv = c as u32;
        proof {
            assert(digits.subrange(0, i as int) =~= digits.subrange(0, i - 1).push(
                node_id@[i as int],
            ));
            assert(digits.subrange(0, i as int).drop_last() =~= digits.subrange(0, i - 1));
        }
        if cv < 48 || cv > 57 {
            proof {
                assert(digits[i - 1] == node_id@[i as int]);
                assert(!all_dec_digits(digits));
            }
            return Err(HandlerError::InvalidMachineId(node_id));
        }
        val = val * 10 + (cv - 48);
        if val > 0xFFFF {
            proof {
                if all_dec_digits(digits) {
                    lemma_dec_value_monotone(digits, i as int);
                }
            }
            return Err(HandlerError::InvalidMachineId(node_id));
        }
        i += 1;
    }
    proof {
        assert(digits.subrange(0, n - 1) =~= digits);
    }
    Ok(val as u16)
}

/// The decimal digit characters of a number, most significant first.
pub open spec fn spec_dec_digits(v: int) -> Seq<char>
    decreases v,
{
    if v < 10 {
        seq![(48 + v) as char]
    } else {
        spec_dec_digits(v / 10).push((48 + v % 10) as char)
    }
}

/// The node id string a machine id is rendered as.
pub open spec fn spec_node_id(m: int) -> Seq<char> {
    seq!['n'] + spec_dec_digits(m)
}

proof fn lemma_dec_digits_value(v: int)
    requires
        v >= 0,
    ensures
        spec_dec_digits(v).len() >= 1,
        all_dec_digits(spec_dec_digits(v)),
        dec_value(spec_dec_digits(v)) == v,
    decreases v,
{
    if v < 10 {
        let s = spec_dec_digits(v);
        assert(s.len() == 1);
        assert(s[0] == (48 + v) as char);
        assert(s[0] as u32 == 48 + v);
        assert(s.drop_last() =~= Seq::<char>::empty());
        assert(dec_value(Seq::<char>::empty()) == 0);
    } else {
        lemma_dec_digits_value(v / 10);
        let t = spec_dec_digits(v / 10);
        let c = (48 + v % 10) as char;
        let s = t.push(c);
        assert(c as u32 == 48 + v % 10);
        assert(s.drop_last() =~= t);
        assert(s.last() == c);
        assert(dec_value(s) == dec_value(t) * 10 + digit_val(c));
        assert forall|i: int| 0 <= i < s.len() implies is_dec_digit(#[trigger] s[i]) by {
            if i < t.len() {
                assert(s[i] == t[i]);
            }
        }
    }
}

/// A rendered node id parses back to exactly the machine id it was rendered
/// from, so the identity a node announces as its gossip source is the one
/// the handshake assigned it.
pub proof fn lemma_node_id_roundtrip(m: u16)
    ensures
        spec_parse_node_id(spec_node_id(m as int)) == Some(m),
{
    lemma_dec_digits_value(m as int);
    let s = spec_node_id(m as int);
    assert(s.skip(1) =~= spec_dec_digits(m as int));
    assert(s[0] == 'n');
    assert(s.len() >= 2);
    assert(dec_value(s.skip(1)) == m as int);
}

fn digit_str(d: u32) -> (r: &'static str)
    requires
        d < 10,
    ensures
        r@ == seq![(48 + d as int) as char],
{
    proof {
        reveal_strlit("0");
        reveal_strlit("1");
        reveal_strlit("2");
        reveal_strlit("3");
        reveal_strlit("4");
        reveal_strlit("5");
        reveal_strlit("6");
        reveal_strlit("7");
        reveal_strlit("8");
        reveal_strlit("9");
    }
    let r = if d == 0 {
        "0"
    } else if d == 1 {
        "1"
    } else if d == 2 {
        "2"
    } else if d == 3 {
        "3"
    } else if d == 4 {
        "4"
    } else if d == 5 {
        "5"
    } else if d == 6 {
        "6"
    } else if d == 7 {
        "7"
    } else if d == 8 {
        "8"
    } else {
        "9"
    };
    proof {
        assert(r@ =~= seq![(48 + d as int) as char]);
    }
    r
}

fn render_u16(v: u16) -> (r: String)
    ensures
        r@ == spec_dec_digits(v as int),
    decreases v,
{
    if v < 10 {
        let r = digit_str(v as u32).to_owned();
        proof {
            assert(r@ =~= spec_dec_digits(v as int));
        }
        r
    } else {
        let mut r = render_u16(v / 10);
        r.append(digit_str((v % 10) as u32));
        proof {
            assert(r@ =~= spec_dec_digits(v as int));
        }
        r
    }
}

/// Renders a machine id as its node id string, `"n"` + decimal digits.
pub fn node_id_string(machine_id: u16) -> (r: String)
    ensures
        r@ == spec_node_id(machine_id as int),
{
    proof {
        reveal_strlit("n");
    }
    let mut r = "n".to_owned();
    let digits = render_u16(machine_id);
    r.append(digits.as_str());
    proof {
        assert(r@ =~= spec_node_id(machine_id as int));
    }
    r
}

/// The handler a node starts in: it accepts only the initialization request.
#[derive(Debug)]
pub struct UninitHandler {
    pub machine_id: Option<u16>,
}

impl UninitHandler {
    pub fn new() -> (r: Self)
        ensures
            r.machine_id is None,
    {
        Self { machine_id: None }
    }

    /// Once the handshake has assigned a machine id, the initialized handler
    /// this node is promoted to; before that, nothing.
    pub fn get_initialized_handler(&self) -> (r: Option<InitializedHandler>)
        ensures
            match self.machine_id {
                None => r is None,
                Some(m) => r matches Some(h) && fresh_handler(h, m as int),
            },
    {
        match self.machine_id {
            None => None,
            Some(m) => Some(InitializedHandler::new(m)),
        }
    }
}

impl Handler for UninitHandler {
    open spec fn inv(&self) -> bool {
        true
    }

    open spec fn handle_spec(
        pre: Self,
        message: Message,
        post: Self,
        r: Result<Vec<Message>, HandlerError>,
    ) -> bool {
        match message.body {
            MessageBody::Init { msg_id, node_id, node_ids } => match spec_parse_node_id(
                node_id@,
            ) {
                None => post == pre && (r matches Err(HandlerError::InvalidMachineId(s)) && s@
                    == node_id@),
                Some(m) => if pre.machine_id is Some {
                    post == pre && (r matches Err(
                        HandlerError::ReceivedMessageInInvalidState(_),
                    ))
                } else {
                    post.machine_id == Some(m) && (r matches Ok(out) && out@.len() == 1 && out@[0]
                        == (Message {
                        src: message.dest,
                        dest: message.src,
                        body: MessageBody::InitOk { in_reply_to: msg_id },
                    }))
                },
            },
            _ => post == pre && r matches Err(HandlerError::UnprocessableMessage(_)),
        }
    }

    /// In the uninitialized state only `init` is accepted: a well-formed one
    /// stores the parsed machine id and acknowledges; a second one, or any
    /// other request, is rejected with the matching error.
    fn handle_message(&mut self, message: Message) -> (r: Result<Vec<Message>, HandlerError>) {
        let Message { src, dest, body } = message;
        match body {
            MessageBody::Init { msg_id, node_id, node_ids: _ } => {
                let machine_id = match parse_node_id(node_id) {
                    Ok(m) => m,
                    Err(e) => {
                        return Err(e);
                    },
                };
                if self.machine_id.is_some() {
                    return Err(
                        HandlerError::ReceivedMessageInInvalidState(
                            "uninitialized handler already received an init message".to_owned(),
                        ),
                    );
                }
                self.machine_id = Some(machine_id);
                let response = Message {
                    src: dest,
                    dest: src,
                    body: MessageBody::InitOk { in_reply_to: msg_id },
                };
                Ok(vec![response])
            },
            _ => Err(HandlerError::UnprocessableMessage("we can only handle init".to_owned())),
        }
    }
}

/// A handler that has accepted `init` and is ready for every other request.
pub struct InitializedHandler {
    pub unique_id_generator: SnowflakeIdGenerator,
    pub node_id: String,
    pub neighbors: Vec<String>,
    pub current_msg_id: u32,
    /// All broadcast values seen so far, each held once.
    pub messages: Vec<u32>,
    pub known_messages_to_neighbors: Vec<KnowledgeEntry>,
    pub pending_messages_sent: Vec<PendingEntry>,
}

/// The broadcast values one neighbor is believed to already know.
pub struct KnowledgeEntry {
    pub neighbor: String,
    pub known: Vec<u32>,
}

/// A gossip packet sent and not yet acknowledged.
pub enum PendingSentMessages {
    /// An inform broadcast was sent to a neighbor; its acknowledgment proves
    /// the values arrived.
    InformBroadcast { messages: Vec<u32>, dst: String },
}

/// A pending record keyed by the gossip message id it was sent under.
pub struct PendingEntry {
    pub msg_id: u32,
    pub message: PendingSentMessages,
}

/// What a pending record means: the values sent and their destination.
pub struct PendingView {
    pub values: Set<u32>,
    pub dst: Seq<char>,
}

pub open spec fn pending_view(p: PendingSentMessages) -> PendingView {
    match p {
        PendingSentMessages::InformBroadcast { messages, dst } => PendingView {
            values: messages@.to_set(),
            dst: dst@,
        },
    }
}

pub open spec fn knowledge_key_at(entries: Seq<KnowledgeEntry>, k: Seq<char>, i: int) -> bool {
    0 <= i < entries.len() && entries[i].neighbor@ == k
}

/// The per-neighbor knowledge map an entry sequence denotes.
pub open spec fn knowledge_map(entries: Seq<KnowledgeEntry>) -> Map<Seq<char>, Set<u32>> {
    Map::new(
        |k: Seq<char>| exists|i: int| knowledge_key_at(entries, k, i),
        |k: Seq<char>|
            entries[choose|i: int| knowledge_key_at(entries, k, i)].known@.to_set(),
    )
}

pub open spec fn pending_key_at(entries: Seq<PendingEntry>, id: u32, i: int) -> bool {
    0 <= i < entries.len() && entries[i].msg_id == id
}

/// The pending-gossip map an entry sequence denotes.
pub open spec fn pending_map(entries: Seq<PendingEntry>) -> Map<u32, PendingView> {
    Map::new(
        |id: u32| exists|i: int| pending_key_at(entries, id, i),
        |id: u32| pending_view(entries[choose|i: int| pending_key_at(entries, id, i)].message),
    )
}

pub open spec fn knowledge_keys_unique(entries: Seq<KnowledgeEntry>) -> bool {
    forall|i: int, j: int|
        0 <= i < j < entries.len() ==> (#[trigger] entries[i]).neighbor@ != (
        #[trigger] entries[j]).neighbor@
}

pub open spec fn pending_keys_unique(entries: Seq<PendingEntry>) -> bool {
    forall|i: int, j: int|
        0 <= i < j < entries.len() ==> (#[trigger] entries[i]).msg_id != (
        #[trigger] entries[j]).msg_id
}

impl InitializedHandler {
    /// The set of broadcast values this node has seen.
    pub open spec fn seen(&self) -> Set<u32> {
        self.messages@.to_set()
    }

    /// The neighbor ids, in topology order.
    pub open spec fn neighbor_ids(&self) -> Seq<Seq<char>> {
        self.neighbors@.map_values(|s: String| s@)
    }

    /// The per-neighbor knowledge map.
    pub open spec fn knowledge(&self) -> Map<Seq<char>, Set<u32>> {
        knowledge_map(self.known_messages_to_neighbors@)
    }

    /// The pending gossip sends, keyed by message id.
    pub open spec fn pending(&self) -> Map<u32, PendingView> {
        pending_map(self.pending_messages_sent@)
    }

    pub open spec fn wf(&self) -> bool {
        &&& self.messages@.no_duplicates()
        &&& knowledge_keys_unique(self.known_messages_to_neighbors@)
        &&& forall|i: int|
            0 <= i < self.known_messages_to_neighbors@.len() ==> (
            #[trigger] self.known_messages_to_neighbors@[i]).known@.no_duplicates()
        &&& pending_keys_unique(self.pending_messages_sent@)
    }

    pub fn new(machine_id: u16) -> (r: Self)
        ensures
            fresh_handler(r, machine_id as int),
    {
        let unique_id_generator = SnowflakeIdGenerator::new(machine_id, 0);
        Self {
            unique_id_generator,
            neighbors: Vec::new(),
            node_id: node_id_string(machine_id),
            messages: Vec::new(),
            known_messages_to_neighbors: Vec::new(),
            pending_messages_sent: Vec::new(),
            current_msg_id: 0,
        }
    }
}

/// A handler exactly as promotion from the handshake creates it: the rendered
/// node id, the generator seeded with the machine id, and everything else
/// empty.
pub open spec fn fresh_handler(h: InitializedHandler, m: int) -> bool {
    &&& h.unique_id_generator.machine_id as int == m
    &&& h.unique_id_generator.sequence == 0
    &&& h.node_id@ == spec_node_id(m)
    &&& h.neighbors@.len() == 0
    &&& h.current_msg_id == 0
    &&& h.messages@.len() == 0
    &&& h.known_messages_to_neighbors@.len() == 0
    &&& h.pending_messages_sent@.len() == 0
    &&& h.wf()
}

/// The value a map holds at a key, or the empty set where the key is absent.
pub open spec fn map_or_empty(m: Map<Seq<char>, Set<u32>>, k: Seq<char>) -> Set<u32> {
    if m.contains_key(k) {
        m[k]
    } else {
        Set::empty()
    }
}

proof fn lemma_push_no_dup(s: Seq<u32>, x: u32)
    requires
        s.no_duplicates(),
        !s.contains(x),
    ensures
        s.push(x).no_duplicates(),
{
    let t = s.push(x);
    assert forall|i: int, j: int| 0 <= i < j < t.len() implies t[i] != t[j] by {
        if j == s.len() {
            assert(t[i] == s[i]);
            assert(!s.contains(x));
        }
    }
}

fn vec_contains(v: &Vec<u32>, x: u32) -> (r: bool)
    ensures
        r == v@.contains(x),
{
    let mut i: usize = 0;
    while i < v.len()
        invariant
            0 <= i <= v@.len(),
            forall|j: int| 0 <= j < i ==> v@[j] != x,
        decreases v@.len() - i,
    {
        if v[i] == x {
            return true;
        }
        i += 1;
    }
    false
}

/// Inserts a value into a duplicate-free vector treated as a set.
fn insert_value(v: &mut Vec<u32>, x: u32)
    requires
        old(v)@.no_duplicates(),
    ensures
        final(v)@.no_duplicates(),
        final(v)@.to_set() == old(v)@.to_set().insert(x),
{
    if !vec_contains(v, x) {
        proof {
            lemma_push_no_dup(v@, x);
        }
        v.push(x);
        proof {
            assert(v@.to_set() =~= old(v)@.to_set().insert(x));
        }
    } else {
        proof {
            assert(v@.to_set() =~= old(v)@.to_set().insert(x));
        }
    }
}

fn copy_values(v: &Vec<u32>) -> (r: Vec<u32>)
    ensures
        r@ == v@,
{
    let mut r: Vec<u32> = Vec::new();
    let mut i: usize = 0;
    while i < v.len()
        invariant
            0 <= i <= v@.len(),
            r@ == v@.subrange(0, i as int),
        decreases v@.len() - i,
    {
        r.push(v[i]);
        proof {
            assert(r@ =~= v@.subrange(0, i + 1));
        }
        i += 1;
    }
    proof {
        assert(v@.subrange(0, v@.len() as int) =~= v@);
    }
    r
}

/// The union of two value sets, the first duplicate-free.
fn set_union(a: &Vec<u32>, b: &Vec<u32>) -> (r: Vec<u32>)
    requires
        a@.no_duplicates(),
    ensures
        r@.no_duplicates(),
        r@.to_set() == a@.to_set().union(b@.to_set()),
{
    let mut r = copy_values(a);
    let mut i: usize = 0;
    while i < b.len()
        invariant
            0 <= i <= b@.len(),
            r@.no_duplicates(),
            r@.to_set() == a@.to_set().union(b@.subrange(0, i as int).to_set()),
        decreases b@.len() - i,
    {
        insert_value(&mut r, b[i]);
        proof {
            assert(b@.subrange(0, i + 1) =~= b@.subrange(0, i as int).push(b@[i as int]));
            assert(r@.to_set() =~= a@.to_set().union(b@.subrange(0, i + 1).to_set()));
        }
        i += 1;
    }
    proof {
        assert(b@.subrange(0, b@.len() as int) =~= b@);
        assert(r@.to_set() =~= a@.to_set().union(b@.to_set()));
    }
    r
}

/// The same value set with duplicates dropped.
fn dedup_values(b: &Vec<u32>) -> (r: Vec<u32>)
    ensures
        r@.no_duplicates(),
        r@.to_set() == b@.to_set(),
{
    let mut r: Vec<u32> = Vec::new();
    let mut i: usize = 0;
    while i < b.len()
        invariant
            0 <= i <= b@.len(),
            r@.no_duplicates(),
            r@.to_set() == b@.subrange(0, i as int).to_set(),
        decreases b@.len() - i,
    {
        insert_value(&mut r, b[i]);
        proof {
            assert(b@.subrange(0, i + 1) =~= b@.subrange(0, i as int).push(b@[i as int]));
            assert(r@.to_set() =~= b@.subrange(0, i + 1).to_set());
        }
        i += 1;
    }
    proof {
        assert(b@.subrange(0, b@.len() as int) =~= b@);
    }
    r
}

/// The values of the first set not yet in the second, in the first's order.
fn set_difference(a: &Vec<u32>, b: &Vec<u32>) -> (r: Vec<u32>)
    requires
        a@.no_duplicates(),
    ensures
        r@.no_duplicates(),
        r@.to_set() == a@.to_set().difference(b@.to_set()),
        r@.len() == 0 <==> a@.to_set().subset_of(b@.to_set()),
{
    let mut r: Vec<u32> = Vec::new();
    let mut i: usize = 0;
    while i < a.len()
        invariant
            0 <= i <= a@.len(),
            a@.no_duplicates(),
            r@.no_duplicates(),
            forall|x: u32|
                r@.contains(x) <==> (a@.subrange(0, i as int).contains(x) && !b@.contains(x)),
        decreases a@.len() - i,
    {
        let x = a[i];
        let ghost r0 = r@;
        if !vec_contains(b, x) {
            proof {
                if r@.contains(x) {
                    assert(a@.subrange(0, i as int).contains(x));
                    let j = choose|j: int|
                        0 <= j < i && a@.subrange(0, i as int)[j] == x;
                    assert(a@[j] == a@[i as int]);
                    assert(false);
                }
                lemma_push_no_dup(r@, x);
            }
            r.push(x);
        }
        proof {
            assert forall|y: u32|
                r@.contains(y) <==> (a@.subrange(0, i + 1).contains(y) && !b@.contains(y)) by {
                assert(a@.subrange(0, i + 1) =~= a@.subrange(0, i as int).push(a@[i as int]));
                assert(a@.subrange(0, i as int).push(a@[i as int]).contains(y) <==> (y == a@[
                i as int] || a@.subrange(0, i as int).contains(y)));
                assert(r0.push(x).contains(y) <==> (y == x || r0.contains(y)));
            }
        }
        i += 1;
    }
    proof {
        assert(a@.subrange(0, a@.len() as int) =~= a@);
        assert(r@.to_set() =~= a@.to_set().difference(b@.to_set()));
        if r@.len() == 0 {
            assert forall|x: u32| a@.to_set().contains(x) implies b@.to_set().contains(x) by {
                if !b@.contains(x) {
                    assert(r@.contains(x));
                }
            }
        } else {
            assert(r@.contains(r@[0]));
            assert(a@.to_set().contains(r@[0]) && !b@.to_set().contains(r@[0]));
        }
    }
    r
}

proof fn lemma_knowledge_at(entries: Seq<KnowledgeEntry>, i: int)
    requires
        knowledge_keys_unique(entries),
        0 <= i < entries.len(),
    ensures
        knowledge_map(entries).contains_key(entries[i].neighbor@),
        knowledge_map(entries)[entries[i].neighbor@] == entries[i].known@.to_set(),
{
    let k = entries[i].neighbor@;
    assert(knowledge_key_at(entries, k, i));
    let j = choose|j: int| knowledge_key_at(entries, k, j);
    assert(knowledge_key_at(entries, k, j));
    if j != i {
        assert(entries[i].neighbor@ == entries[j].neighbor@);
        assert(false);
    }
}

proof fn lemma_knowledge_update(entries: Seq<KnowledgeEntry>, i: int, e: KnowledgeEntry)
    requires
        knowledge_keys_unique(entries),
        0 <= i < entries.len(),
        e.neighbor@ == entries[i].neighbor@,
    ensures
        knowledge_keys_unique(entries.update(i, e)),
        knowledge_map(entries.update(i, e)) == knowledge_map(entries).insert(
            e.neighbor@,
            e.known@.to_set(),
        ),
{
    let u = entries.update(i, e);
    let k = e.neighbor@;
    assert forall|p: int| 0 <= p < u.len() implies (#[trigger] u[p]).neighbor@
        == entries[p].neighbor@ by {}
    let m1 = knowledge_map(u);
    let m2 = knowledge_map(entries).insert(k, e.known@.to_set());
    assert(knowledge_key_at(entries, k, i));
    assert(knowledge_key_at(u, k, i));
    assert forall|k2: Seq<char>| #![auto] m1.contains_key(k2) == m2.contains_key(k2) by {
        if exists|j: int| knowledge_key_at(u, k2, j) {
            let j = choose|j: int| knowledge_key_at(u, k2, j);
            assert(knowledge_key_at(entries, k2, j));
        }
        if exists|j: int| knowledge_key_at(entries, k2, j) {
            let j = choose|j: int| knowledge_key_at(entries, k2, j);
            assert(knowledge_key_at(u, k2, j));
        }
    }
    assert forall|k2: Seq<char>| #![auto] m1.contains_key(k2) implies m1[k2] == m2[k2] by {
        let j1 = choose|j: int| knowledge_key_at(u, k2, j);
        assert(knowledge_key_at(u, k2, j1));
        if k2 == k {
            if j1 != i {
                assert(u[i].neighbor@ == u[j1].neighbor@);
                assert(false);
            }
            assert(m1[k2] == e.known@.to_set());
        } else {
            assert(j1 != i);
            assert(knowledge_key_at(entries, k2, j1));
            lemma_knowledge_at(entries, j1);
            assert(m1[k2] == u[j1].known@.to_set());
        }
    }
    assert(m1 =~= m2);
}

proof fn lemma_knowledge_push(entries: Seq<KnowledgeEntry>, e: KnowledgeEntry)
    requires
        knowledge_keys_unique(entries),
        forall|j: int| 0 <= j < entries.len() ==> (#[trigger] entries[j]).neighbor@ != e.neighbor@,
    ensures
        knowledge_keys_unique(entries.push(e)),
        knowledge_map(entries.push(e)) == knowledge_map(entries).insert(
            e.neighbor@,
            e.known@.to_set(),
        ),
{
    let u = entries.push(e);
    let k = e.neighbor@;
    let m1 = knowledge_map(u);
    let m2 = knowledge_map(entries).insert(k, e.known@.to_set());
    assert(knowledge_key_at(u, k, entries.len() as int));
    assert forall|k2: Seq<char>| #![auto] m1.contains_key(k2) == m2.contains_key(k2) by {
        if exists|j: int| knowledge_key_at(u, k2, j) {
            let j = choose|j: int| knowledge_key_at(u, k2, j);
            if j < entries.len() {
                assert(knowledge_key_at(entries, k2, j));
            } else {
                assert(k2 == k);
            }
        }
        if exists|j: int| knowledge_key_at(entries, k2, j) {
            let j = choose|j: int| knowledge_key_at(entries, k2, j);
            assert(knowledge_key_at(u, k2, j));
        }
    }
    assert forall|k2: Seq<char>| #![auto] m1.contains_key(k2) implies m1[k2] == m2[k2] by {
        let j1 = choose|j: int| knowledge_key_at(u, k2, j);
        assert(knowledge_key_at(u, k2, j1));
        if k2 == k {
            if j1 != entries.len() {
                assert(entries[j1].neighbor@ == k);
                assert(false);
            }
            assert(m1[k2] == e.known@.to_set());
        } else {
            assert(j1 < entries.len());
            assert(knowledge_key_at(entries, k2, j1));
            lemma_knowledge_at(entries, j1);
            assert(m1[k2] == u[j1].known@.to_set());
        }
    }
    assert(m1 =~= m2);
}

proof fn lemma_pending_at(entries: Seq<PendingEntry>, i: int)
    requires
        pending_keys_unique(entries),
        0 <= i < entries.len(),
    ensures
        pending_map(entries).contains_key(entries[i].msg_id),
        pending_map(entries)[entries[i].msg_id] == pending_view(entries[i].message),
{
    let k = entries[i].msg_id;
    assert(pending_key_at(entries, k, i));
    let j = choose|j: int| pending_key_at(entries, k, j);
    assert(pending_key_at(entries, k, j));
    if j != i {
        assert(entries[i].msg_id == entries[j].msg_id);
        assert(false);
    }
}

proof fn lemma_pending_push(entries: Seq<PendingEntry>, e: PendingEntry)
    requires
        pending_keys_unique(entries),
        forall|j: int| 0 <= j < entries.len() ==> (#[trigger] entries[j]).msg_id != e.msg_id,
    ensures
        pending_keys_unique(entries.push(e)),
        pending_map(entries.push(e)) == pending_map(entries).insert(
            e.msg_id,
            pending_view(e.message),
        ),
{
    let u = entries.push(e);
    let k = e.msg_id;
    let m1 = pending_map(u);
    let m2 = pending_map(entries).insert(k, pending_view(e.message));
    assert(pending_key_at(u, k, entries.len() as int));
    assert forall|k2: u32| #![auto] m1.contains_key(k2) == m2.contains_key(k2) by {
        if exists|j: int| pending_key_at(u, k2, j) {
            let j = choose|j: int| pending_key_at(u, k2, j);
            if j < entries.len() {
                assert(pending_key_at(entries, k2, j));
            } else {
                assert(k2 == k);
            }
        }
        if exists|j: int| pending_key_at(entries, k2, j) {
            let j = choose|j: int| pending_key_at(entries, k2, j);
            assert(pending_key_at(u, k2, j));
        }
    }
    assert forall|k2: u32| #![auto] m1.contains_key(k2) implies m1[k2] == m2[k2] by {
        let j1 = choose|j: int| pending_key_at(u, k2, j);
        assert(pending_key_at(u, k2, j1));
        if k2 == k {
            if j1 != entries.len() {
                assert(entries[j1].msg_id == k);
                assert(false);
            }
            assert(m1[k2] == pending_view(e.message));
        } else {
            assert(j1 < entries.len());
            assert(pending_key_at(entries, k2, j1));
            lemma_pending_at(entries, j1);
            assert(m1[k2] == pending_view(u[j1].message));
        }
    }
    assert(m1 =~= m2);
}

proof fn lemma_pending_remove(entries: Seq<PendingEntry>, i: int)
    requires
        pending_keys_unique(entries),
        0 <= i < entries.len(),
    ensures
        pending_keys_unique(entries.remove(i)),
        pending_map(entries.remove(i)) == pending_map(entries).remove(entries[i].msg_id),
{
    let u = entries.remove(i);
    let k = entries[i].msg_id;
    assert forall|p: int| 0 <= p < u.len() implies #[trigger] u[p] == entries[if p < i {
        p
    } else {
        p + 1
    }] by {}
    assert forall|p: int, q: int| 0 <= p < q < u.len() implies (#[trigger] u[p]).msg_id != (
    #[trigger] u[q]).msg_id by {
        let p2: int = if p < i { p } else { p + 1 };
        let q2: int = if q < i { q } else { q + 1 };
        assert(entries[p2].msg_id != entries[q2].msg_id);
    }
    let m1 = pending_map(u);
    let m2 = pending_map(entries).remove(k);
    assert forall|k2: u32| #![auto] m1.contains_key(k2) == m2.contains_key(k2) by {
        if exists|j: int| pending_key_at(u, k2, j) {
            let j = choose|j: int| pending_key_at(u, k2, j);
            let j2: int = if j < i { j } else { j + 1 };
            assert(pending_key_at(entries, k2, j2));
            if k2 == k {
                assert(entries[j2].msg_id == entries[i].msg_id && j2 != i);
                assert(false);
            }
        }
        if k2 != k && (exists|j: int| pending_key_at(entries, k2, j)) {
            let j = choose|j: int| pending_key_at(entries, k2, j);
            assert(j != i);
            if j < i {
                assert(pending_key_at(u, k2, j));
            } else {
                assert(u[j - 1] == entries[j]);
                assert(pending_key_at(u, k2, j - 1));
            }
        }
    }
    assert forall|k2: u32| #![auto] m1.contains_key(k2) implies m1[k2] == m2[k2] by {
        let j1 = choose|j: int| pending_key_at(u, k2, j);
        assert(pending_key_at(u, k2, j1));
        let j2: int = if j1 < i { j1 } else { j1 + 1 };
        assert(pending_key_at(entries, k2, j2));
        lemma_pending_at(entries, j2);
        assert(m1[k2] == pending_view(u[j1].message));
    }
    assert(m1 =~= m2);
}

fn find_knowledge(entries: &Vec<KnowledgeEntry>, id: &String) -> (r: Option<usize>)
    ensures
        match r {
            Some(i) => i < entries@.len() && entries@[i as int].neighbor@ == id@,
            None => forall|i: int|
                0 <= i < entries@.len() ==> (#[trigger] entries@[i]).neighbor@ != id@,
        },
{
    let mut i: usize = 0;
    while i < entries.len()
        invariant
            0 <= i <= entries@.len(),
            forall|j: int| 0 <= j < i ==> (#[trigger] entries@[j]).neighbor@ != id@,
        decreases entries@.len() - i,
    {
        if entries[i].neighbor == *id {
            return Some(i);
        }
        i += 1;
    }
    None
}

fn find_pending(entries: &Vec<PendingEntry>, id: u32) -> (r: Option<usize>)
    ensures
        match r {
            Some(i) => i < entries@.len() && entries@[i as int].msg_id == id,
            None => forall|i: int|
                0 <= i < entries@.len() ==> (#[trigger] entries@[i]).msg_id != id,
        },
{
    let mut i: usize = 0;
    while i < entries.len()
        invariant
            0 <= i <= entries@.len(),
            forall|j: int| 0 <= j < i ==> (#[trigger] entries@[j]).msg_id != id,
        decreases entries@.len() - i,
    {
        if entries[i].msg_id == id {
            return Some(i);
        }
        i += 1;
    }
    None
}

/// Well-formedness of a knowledge entry sequence: unique neighbor keys and
/// duplicate-free value vectors.
pub open spec fn knowledge_wf(entries: Seq<KnowledgeEntry>) -> bool {
    knowledge_keys_unique(entries) && forall|i: int|
        0 <= i < entries.len() ==> (#[trigger] entries[i]).known@.no_duplicates()
}

/// Sets the entry for `id` to the empty set, creating it if missing.
fn knowledge_reset(entries: &mut Vec<KnowledgeEntry>, id: &String)
    requires
        knowledge_wf(old(entries)@),
    ensures
        knowledge_wf(final(entries)@),
        knowledge_map(final(entries)@) == knowledge_map(old(entries)@).insert(
            id@,
            Set::<u32>::empty(),
        ),
{
    let e = KnowledgeEntry { neighbor: id.clone(), known: Vec::new() };
    proof {
        assert(e.known@.to_set() =~= Set::<u32>::empty());
    }
    match find_knowledge(entries, id) {
        Some(i) => {
            proof {
                lemma_knowledge_update(entries@, i as int, e);
            }
            entries[i] = e;
        },
        None => {
            proof {
                lemma_knowledge_push(entries@, e);
            }
            entries.push(e);
        },
    }
}

/// Folds delivered values into the entry for `id`: an existing entry grows
/// by the values; a missing one is created holding exactly them.
fn knowledge_merge(entries: &mut Vec<KnowledgeEntry>, id: &String, values: &Vec<u32>)
    requires
        knowledge_wf(old(entries)@),
    ensures
        knowledge_wf(final(entries)@),
        knowledge_map(final(entries)@) == knowledge_map(old(entries)@).insert(
            id@,
            map_or_empty(knowledge_map(old(entries)@), id@).union(values@.to_set()),
        ),
{
    match find_knowledge(entries, id) {
        Some(i) => {
            proof {
                lemma_knowledge_at(entries@, i as int);
            }
            let merged = set_union(&entries[i].known, values);
            let nb = entries[i].neighbor.clone();
            let e = KnowledgeEntry { neighbor: nb, known: merged };
            proof {
                lemma_knowledge_update(entries@, i as int, e);
            }
            entries[i] = e;
        },
        None => {
            let e = KnowledgeEntry { neighbor: id.clone(), known: dedup_values(values) };
            proof {
                lemma_knowledge_push(entries@, e);
                assert(Set::<u32>::empty().union(values@.to_set()) =~= values@.to_set());
            }
            entries.push(e);
        },
    }
}

/// Finds the entry for `id`, creating an empty one if missing; returns its
/// index.
fn knowledge_ensure(entries: &mut Vec<KnowledgeEntry>, id: &String) -> (i: usize)
    requires
        knowledge_wf(old(entries)@),
    ensures
        knowledge_wf(final(entries)@),
        i < final(entries)@.len(),
        final(entries)@[i as int].neighbor@ == id@,
        final(entries)@[i as int].known@.to_set() == map_or_empty(
            knowledge_map(old(entries)@),
            id@,
        ),
        knowledge_map(final(entries)@) == knowledge_map(old(entries)@).insert(
            id@,
            map_or_empty(knowledge_map(old(entries)@), id@),
        ),
{
    match find_knowledge(entries, id) {
        Some(i) => {
            proof {
                lemma_knowledge_at(entries@, i as int);
                assert(knowledge_map(entries@).insert(id@, knowledge_map(entries@)[id@])
                    =~= knowledge_map(entries@));
            }
            i
        },
        None => {
            let e = KnowledgeEntry { neighbor: id.clone(), known: Vec::new() };
            proof {
                lemma_knowledge_push(entries@, e);
                assert(e.known@.to_set() =~= Set::<u32>::empty());
            }
            entries.push(e);
            entries.len() - 1
        },
    }
}

/// Whether some position before `n` in the id list views as `v`.
pub open spec fn prefix_has_view(ss: Seq<String>, n: int, v: Seq<char>) -> bool {
    exists|i: int| 0 <= i < n && (#[trigger] ss[i])@ == v
}

/// Whether the id list holds an id that views as `v`.
pub open spec fn id_listed(ss: Seq<String>, v: Seq<char>) -> bool {
    prefix_has_view(ss, ss.len() as int, v)
}

/// The first topology entry carrying `key`, if any.
pub open spec fn first_topology_index(topo: Seq<TopologyEntry>, key: Seq<char>, i: int) -> bool {
    &&& 0 <= i < topo.len()
    &&& topo[i].node@ == key
    &&& forall|j: int| 0 <= j < i ==> (#[trigger] topo[j]).node@ != key
}

fn find_topology(topo: &Vec<TopologyEntry>, id: &String) -> (r: Option<usize>)
    ensures
        match r {
            Some(i) => first_topology_index(topo@, id@, i as int),
            None => forall|i: int| 0 <= i < topo@.len() ==> (#[trigger] topo@[i]).node@ != id@,
        },
{
    let mut i: usize = 0;
    while i < topo.len()
        invariant
            0 <= i <= topo@.len(),
            forall|j: int| 0 <= j < i ==> (#[trigger] topo@[j]).node@ != id@,
        decreases topo@.len() - i,
    {
        if topo[i].node == *id {
            return Some(i);
        }
        i += 1;
    }
    None
}

/// The knowledge map after reseeding an empty entry for each of the first
/// `n` ids in `nbrs`, starting from `k0`.
pub open spec fn reseeded_prefix(
    k0: Map<Seq<char>, Set<u32>>,
    nbrs: Seq<String>,
    n: int,
    k1: Map<Seq<char>, Set<u32>>,
) -> bool {
    &&& forall|x: Seq<char>|
        #![auto]
        k1.contains_key(x) <==> (k0.contains_key(x) || prefix_has_view(nbrs, n, x))
    &&& forall|x: Seq<char>| #![auto] prefix_has_view(nbrs, n, x) ==> k1[x] == Set::<u32>::empty()
    &&& forall|x: Seq<char>|
        #![auto]
        k0.contains_key(x) && !prefix_has_view(nbrs, n, x) ==> k1[x] == k0[x]
}

/// The knowledge map after reseeding an empty entry for every id in `nbrs`.
pub open spec fn reseeded(
    k0: Map<Seq<char>, Set<u32>>,
    nbrs: Seq<String>,
    k1: Map<Seq<char>, Set<u32>>,
) -> bool {
    reseeded_prefix(k0, nbrs, nbrs.len() as int, k1)
}

proof fn lemma_reseed_step(
    k0: Map<Seq<char>, Set<u32>>,
    nbrs: Seq<String>,
    j: int,
    km: Map<Seq<char>, Set<u32>>,
)
    requires
        0 <= j < nbrs.len(),
        reseeded_prefix(k0, nbrs, j, km),
    ensures
        reseeded_prefix(k0, nbrs, j + 1, km.insert(nbrs[j]@, Set::<u32>::empty())),
{
    let v = nbrs[j]@;
    let k1 = km.insert(v, Set::<u32>::empty());
    assert forall|x: Seq<char>|
        prefix_has_view(nbrs, j + 1, x) <==> (prefix_has_view(nbrs, j, x) || x == v) by {
        if prefix_has_view(nbrs, j + 1, x) {
            let w = choose|w: int| 0 <= w < j + 1 && (#[trigger] nbrs[w])@ == x;
            if w < j {
                assert(prefix_has_view(nbrs, j, x));
            }
        }
        if x == v {
            assert((nbrs[j])@ == x);
        }
    }
    assert forall|x: Seq<char>|
        #![auto]
        k1.contains_key(x) <==> (k0.contains_key(x) || prefix_has_view(nbrs, j + 1, x)) by {
        assert(prefix_has_view(nbrs, j + 1, x) <==> (prefix_has_view(nbrs, j, x) || x == v));
    }
    assert forall|x: Seq<char>|
        #![auto]
        prefix_has_view(nbrs, j + 1, x) implies k1[x] == Set::<u32>::empty() by {
        assert(prefix_has_view(nbrs, j + 1, x) <==> (prefix_has_view(nbrs, j, x) || x == v));
        if x != v {
            assert(k1[x] == km[x]);
        }
    }
    assert forall|x: Seq<char>|
        #![auto]
        k0.contains_key(x) && !prefix_has_view(nbrs, j + 1, x) implies k1[x] == k0[x] by {
        assert(prefix_has_view(nbrs, j + 1, x) <==> (prefix_has_view(nbrs, j, x) || x == v));
        assert(x != v);
    }
}

/// What a topology update does: nothing when the delivered topology has no
/// entry for this node; otherwise the neighbor list is replaced wholesale and
/// an empty knowledge entry is (re)seeded for each listed neighbor.
pub open spec fn topology_spec(
    pre: InitializedHandler,
    topo: Seq<TopologyEntry>,
    post: InitializedHandler,
) -> bool {
    if exists|i: int| first_topology_index(topo, pre.node_id@, i) {
        let i = choose|i: int| first_topology_index(topo, pre.node_id@, i);
        &&& post.neighbors == topo[i].neighbors
        &&& reseeded(pre.knowledge(), topo[i].neighbors@, post.knowledge())
        &&& post.node_id == pre.node_id
        &&& post.messages == pre.messages
        &&& post.pending_messages_sent == pre.pending_messages_sent
        &&& post.unique_id_generator == pre.unique_id_generator
        &&& post.current_msg_id == pre.current_msg_id
    } else {
        post == pre
    }
}

impl InitializedHandler {
    /// Replaces the neighbor sequence from this node's entry in the delivered
    /// topology, if present, and reseeds an empty knowledge entry for each
    /// neighbor; a topology without this node is a no-op.
    pub fn handle_topology(&mut self, topology: Vec<TopologyEntry>)
        requires
            old(self).wf(),
        ensures
            final(self).wf(),
            topology_spec(*old(self), topology@, *final(self)),
    {
        let ghost topo0 = topology@;
        let mut topology = topology;
        match find_topology(&topology, &self.node_id) {
            None => {},
            Some(i) => {
                let ghost key = self.node_id@;
                let entry = topology.remove(i);
                self.neighbors = entry.neighbors;
                let ghost k0 = self.knowledge();
                let ghost nbrs0 = self.neighbors;
                let mut j: usize = 0;
                while j < self.neighbors.len()
                    invariant
                        0 <= j <= self.neighbors@.len(),
                        knowledge_wf(self.known_messages_to_neighbors@),
                        self.node_id == old(self).node_id,
                        self.messages == old(self).messages,
                        self.pending_messages_sent == old(self).pending_messages_sent,
                        self.unique_id_generator == old(self).unique_id_generator,
                        self.current_msg_id == old(self).current_msg_id,
                        self.neighbors == nbrs0,
                        self.messages@.no_duplicates(),
                        pending_keys_unique(self.pending_messages_sent@),
                        reseeded_prefix(k0, self.neighbors@, j as int, self.knowledge()),
                    decreases self.neighbors@.len() - j,
                {
                    let ghost km = self.knowledge();
                    knowledge_reset(&mut self.known_messages_to_neighbors, &self.neighbors[j]);
                    proof {
                        lemma_reseed_step(k0, self.neighbors@, j as int, km);
                        assert(self.knowledge() == km.insert(
                            self.neighbors@[j as int]@,
                            Set::<u32>::empty(),
                        ));
                    }
                    j += 1;
                }
                proof {
                    assert(first_topology_index(topo0, key, i as int));
                    let w = choose|w: int| first_topology_index(topo0, key, w);
                    assert(first_topology_index(topo0, key, w));
                    if w < i as int {
                        assert(topo0[w].node@ != key);
                        assert(false);
                    }
                    if w > i as int {
                        assert(topo0[i as int].node@ != key);
                        assert(false);
                    }
                    assert(reseeded(k0, self.neighbors@, self.knowledge()));
                }
            },
        }
    }
}

/// What delivery of a neighbor's gossip does: the delivered values join the
/// seen set and that neighbor's knowledge entry (created if the sender was
/// unexpected), and a single acknowledgment carrying the gossip message's id
/// goes back to the sender.
pub open spec fn inform_spec(
    pre: InitializedHandler,
    message_src: String,
    msg_id: u32,
    values: Seq<u32>,
    post: InitializedHandler,
    out: Seq<Message>,
) -> bool {
    &&& post.seen() == pre.seen().union(values.to_set())
    &&& post.knowledge() == pre.knowledge().insert(
        message_src@,
        map_or_empty(pre.knowledge(), message_src@).union(values.to_set()),
    )
    &&& post.node_id == pre.node_id
    &&& post.neighbors == pre.neighbors
    &&& post.pending_messages_sent == pre.pending_messages_sent
    &&& post.unique_id_generator == pre.unique_id_generator
    &&& post.current_msg_id == pre.current_msg_id
    &&& out.len() == 1
    &&& out[0] == (Message {
        src: pre.node_id,
        dest: message_src,
        body: MessageBody::InformNewBroadcastOk { in_reply_to: msg_id },
    })
}

/// What consuming a pending record does: the values it carried join the
/// knowledge entry of its destination, which is created holding exactly them
/// where that destination was never seen.
pub open spec fn pending_fold_spec(
    pre: InitializedHandler,
    pv: PendingView,
    post: InitializedHandler,
) -> bool {
    &&& post.knowledge() == pre.knowledge().insert(
        pv.dst,
        map_or_empty(pre.knowledge(), pv.dst).union(pv.values),
    )
    &&& post.node_id == pre.node_id
    &&& post.neighbors == pre.neighbors
    &&& post.messages == pre.messages
    &&& post.pending_messages_sent == pre.pending_messages_sent
    &&& post.unique_id_generator == pre.unique_id_generator
    &&& post.current_msg_id == pre.current_msg_id
}

/// What an inform acknowledgment does: a matching pending record is removed
/// and folded into the knowledge map; an unexpected one changes nothing.
pub open spec fn ack_spec(pre: InitializedHandler, msg_id: u32, post: InitializedHandler) -> bool {
    if pre.pending().contains_key(msg_id) {
        &&& post.pending() == pre.pending().remove(msg_id)
        &&& pending_fold_spec(
            InitializedHandler { pending_messages_sent: post.pending_messages_sent, ..pre },
            pre.pending()[msg_id],
            post,
        )
    } else {
        post == pre
    }
}

impl InitializedHandler {
    fn handle_inform_new_broadcast(
        &mut self,
        message_src: String,
        msg_id: u32,
        messages: Vec<u32>,
    ) -> (r: Vec<Message>)
        requires
            old(self).wf(),
        ensures
            final(self).wf(),
            inform_spec(*old(self), message_src, msg_id, messages@, *final(self), r@),
    {
        let ghost seen0 = self.seen();
        let mut i: usize = 0;
        while i < messages.len()
            invariant
                0 <= i <= messages@.len(),
                self.messages@.no_duplicates(),
                self.seen() == seen0.union(messages@.subrange(0, i as int).to_set()),
                self.node_id == old(self).node_id,
                self.neighbors == old(self).neighbors,
                self.known_messages_to_neighbors == old(self).known_messages_to_neighbors,
                self.pending_messages_sent == old(self).pending_messages_sent,
                self.unique_id_generator == old(self).unique_id_generator,
                self.current_msg_id == old(self).current_msg_id,
            decreases messages@.len() - i,
        {
            insert_value(&mut self.messages, messages[i]);
            proof {
                assert(messages@.subrange(0, i + 1) =~= messages@.subrange(0, i as int).push(
                    messages@[i as int],
                ));
                assert(self.messages@.to_set() =~= seen0.union(
                    messages@.subrange(0, i + 1).to_set(),
                ));
            }
            i += 1;
        }
        proof {
            assert(messages@.subrange(0, messages@.len() as int) =~= messages@);
        }
        knowledge_merge(&mut self.known_messages_to_neighbors, &message_src, &messages);
        let response = Message {
            src: self.node_id.clone(),
            dest: message_src,
            body: MessageBody::InformNewBroadcastOk { in_reply_to: msg_id },
        };
        vec![response]
    }

    fn handle_pending_message(&mut self, message: PendingSentMessages)
        requires
            old(self).wf(),
        ensures
            final(self).wf(),
            pending_fold_spec(*old(self), pending_view(message), *final(self)),
    {
        match message {
            PendingSentMessages::InformBroadcast { messages, dst } => {
                knowledge_merge(&mut self.known_messages_to_neighbors, &dst, &messages);
            },
        }
    }

    fn handle_response(&mut self, msg_id: u32)
        requires
            old(self).wf(),
        ensures
            final(self).wf(),
            ack_spec(*old(self), msg_id, *final(self)),
    {
        match find_pending(&self.pending_messages_sent, msg_id) {
            None => {},
            Some(i) => {
                proof {
                    lemma_pending_at(self.pending_messages_sent@, i as int);
                    lemma_pending_remove(self.pending_messages_sent@, i as int);
                }
                let entry = self.pending_messages_sent.remove(i);
                self.handle_pending_message(entry.message);
            },
        }
    }
}

impl Handler for InitializedHandler {
    open spec fn inv(&self) -> bool {
        self.wf()
    }

    open spec fn handle_spec(
        pre: Self,
        message: Message,
        post: Self,
        r: Result<Vec<Message>, HandlerError>,
    ) -> bool {
        match message.body {
            MessageBody::Init { .. } => post == pre && (r matches Err(
                HandlerError::ReceivedMessageInInvalidState(_),
            )),
            MessageBody::Echo { msg_id, echo } => post == pre && (r matches Ok(out) && out@.len()
                == 1 && out@[0] == (Message {
                src: message.dest,
                dest: message.src,
                body: MessageBody::EchoOk { msg_id, in_reply_to: msg_id, echo },
            })),
            MessageBody::Generate { msg_id } => {
                &&& post.node_id == pre.node_id
                &&& post.neighbors == pre.neighbors
                &&& post.messages == pre.messages
                &&& post.known_messages_to_neighbors == pre.known_messages_to_neighbors
                &&& post.pending_messages_sent == pre.pending_messages_sent
                &&& post.current_msg_id == pre.current_msg_id
                &&& post.unique_id_generator.machine_id == pre.unique_id_generator.machine_id
                &&& post.unique_id_generator.sequence as int == (
                pre.unique_id_generator.sequence as int + 1) % 0x10000
                &&& (r matches Ok(out) && out@.len() == 1 && out@[0].src == message.dest
                    && out@[0].dest == message.src && (out@[0].body matches MessageBody::GenerateOk {
                    id,
                    in_reply_to,
                } && in_reply_to == msg_id && crate::unique_id::spec_machine_id(id)
                    == pre.unique_id_generator.machine_id as int % 1024
                    && crate::unique_id::spec_sequence(id)
                    == pre.unique_id_generator.sequence as int % 4096))
            },
            MessageBody::Broadcast { msg_id, message: value } => {
                &&& post.seen() == pre.seen().insert(value)
                &&& post.node_id == pre.node_id
                &&& post.neighbors == pre.neighbors
                &&& post.known_messages_to_neighbors == pre.known_messages_to_neighbors
                &&& post.pending_messages_sent == pre.pending_messages_sent
                &&& post.current_msg_id == pre.current_msg_id
                &&& post.unique_id_generator == pre.unique_id_generator
                &&& (r matches Ok(out) && out@.len() == 1 && out@[0] == (Message {
                    src: message.dest,
                    dest: message.src,
                    body: MessageBody::BroadcastOk { in_reply_to: msg_id },
                }))
            },
            MessageBody::Read { msg_id } => post == pre && (r matches Ok(out) && out@.len() == 1
                && out@[0].src == message.dest && out@[0].dest == message.src && (
            out@[0].body matches MessageBody::ReadOk { in_reply_to, messages }
                && in_reply_to == msg_id && messages@.to_set() == pre.seen()
                && messages@.no_duplicates())),
            MessageBody::Topology { msg_id, topology } => topology_spec(pre, topology@, post) && (
            r matches Ok(out) && out@.len() == 1 && out@[0] == (Message {
                src: message.dest,
                dest: message.src,
                body: MessageBody::TopologyOk { in_reply_to: msg_id },
            })),
            MessageBody::InformNewBroadcast { msg_id, messages } => r matches Ok(out)
                && inform_spec(pre, message.src, msg_id, messages@, post, out@),
            MessageBody::InformNewBroadcastOk { in_reply_to } => ack_spec(pre, in_reply_to, post)
                && (r matches Ok(out) && out@.len() == 0),
            _ => post == pre && (r matches Ok(out) && out@.len() == 0),
        }
    }

    /// The full dispatcher of the initialized node: echoes, generates ids,
    /// records broadcasts, reports reads, replaces topology, merges inbound
    /// gossip and consumes gossip acknowledgments; a late `init` is rejected
    /// and stray responses are ignored.
    fn handle_message(&mut self, message: Message) -> (r: Result<Vec<Message>, HandlerError>) {
        let Message { src, dest, body } = message;
        match body {
            MessageBody::Init { .. } => Err(
                HandlerError::ReceivedMessageInInvalidState(
                    "init received after initialization completed".to_owned(),
                ),
            ),
            MessageBody::Echo { msg_id, echo } => {
                let response = Message {
                    src: dest,
                    dest: src,
                    body: MessageBody::EchoOk { msg_id, in_reply_to: msg_id, echo },
                };
                Ok(vec![response])
            },
            MessageBody::Generate { msg_id } => {
                let id = self.unique_id_generator.generate().get();
                let response = Message {
                    src: dest,
                    dest: src,
                    body: MessageBody::GenerateOk { id, in_reply_to: msg_id },
                };
                Ok(vec![response])
            },
            MessageBody::Broadcast { msg_id, message: value } => {
                insert_value(&mut self.messages, value);
                let response = Message {
                    src: dest,
                    dest: src,
                    body: MessageBody::BroadcastOk { in_reply_to: msg_id },
                };
                Ok(vec![response])
            },
            MessageBody::Read { msg_id } => {
                let values = copy_values(&self.messages);
                let response = Message {
                    src: dest,
                    dest: src,
                    body: MessageBody::ReadOk { in_reply_to: msg_id, messages: values },
                };
                Ok(vec![response])
            },
            MessageBody::Topology { msg_id, topology } => {
                self.handle_topology(topology);
                let response = Message {
                    src: dest,
                    dest: src,
                    body: MessageBody::TopologyOk { in_reply_to: msg_id },
                };
                Ok(vec![response])
            },
            MessageBody::InformNewBroadcast { msg_id, messages } => Ok(
                self.handle_inform_new_broadcast(src, msg_id, messages),
            ),
            MessageBody::InformNewBroadcastOk { in_reply_to } => {
                self.handle_response(in_reply_to);
                Ok(Vec::new())
            },
            _ => Ok(Vec::new()),
        }
    }
}

/// How many neighbors one gossip round informs at most.
pub const NUM_RANDOM_NEIGHBORS_TO_INFORM: usize = 10;

/// One gossip packet of a round: the id it was sent under, its destination
/// and the values it carried.
pub struct GossipSend {
    pub msg_id: u32,
    pub dst: Seq<char>,
    pub values: Set<u32>,
}

/// The state a gossip round folds over: the knowledge map, the pending
/// table, the next gossip message id, and the packets emitted so far.
pub struct GossipState {
    pub knowledge: Map<Seq<char>, Set<u32>>,
    pub pending: Map<u32, PendingView>,
    pub next_msg_id: u32,
    pub sends: Seq<GossipSend>,
}

pub open spec fn wrap_inc(x: u32) -> u32 {
    ((x as int + 1) % 0x1_0000_0000) as u32
}

/// One step of a gossip round, for one selected neighbor: its knowledge
/// entry is created empty if missing; nothing is sent when the neighbor
/// already knows every seen value; otherwise the full difference goes out
/// under the next message id, which is recorded as pending unless a stale
/// record already sits at that id.
pub open spec fn gossip_step_once(seen: Set<u32>, nb: Seq<char>, s: GossipState) -> GossipState {
    let known = if s.knowledge.contains_key(nb) {
        s.knowledge[nb]
    } else {
        Set::<u32>::empty()
    };
    let k1 = s.knowledge.insert(nb, known);
    if seen.subset_of(known) {
        GossipState { knowledge: k1, ..s }
    } else {
        let diff = seen.difference(known);
        let pend = if s.pending.contains_key(s.next_msg_id) {
            s.pending
        } else {
            s.pending.insert(s.next_msg_id, PendingView { values: diff, dst: nb })
        };
        GossipState {
            knowledge: k1,
            pending: pend,
            next_msg_id: wrap_inc(s.next_msg_id),
            sends: s.sends.push(GossipSend { msg_id: s.next_msg_id, dst: nb, values: diff }),
        }
    }
}

/// A gossip round folded over the selected neighbor indices, in order.
pub open spec fn gossip_step(
    seen: Set<u32>,
    nbrs: Seq<Seq<char>>,
    s: GossipState,
    picks: Seq<int>,
) -> GossipState
    decreases picks.len(),
{
    if picks.len() == 0 {
        s
    } else {
        gossip_step(seen, nbrs, gossip_step_once(seen, nbrs[picks[0]], s), picks.skip(1))
    }
}

proof fn lemma_gossip_step_snoc(
    seen: Set<u32>,
    nbrs: Seq<Seq<char>>,
    s: GossipState,
    picks: Seq<int>,
    x: int,
)
    ensures
        gossip_step(seen, nbrs, s, picks.push(x)) == gossip_step_once(
            seen,
            nbrs[x],
            gossip_step(seen, nbrs, s, picks),
        ),
    decreases picks.len(),
{
    if picks.len() == 0 {
        let st1 = gossip_step_once(seen, nbrs[x], s);
        assert(picks.push(x)[0] == x);
        assert(picks.push(x).skip(1) =~= Seq::<int>::empty());
        assert(gossip_step(seen, nbrs, s, picks.push(x)) == gossip_step(
            seen,
            nbrs,
            st1,
            picks.push(x).skip(1),
        ));
        assert(gossip_step(seen, nbrs, st1, Seq::<int>::empty()) == st1);
        assert(gossip_step(seen, nbrs, s, picks) == s);
    } else {
        let st1 = gossip_step_once(seen, nbrs[picks[0]], s);
        assert(picks.push(x)[0] == picks[0]);
        assert(picks.push(x).skip(1) =~= picks.skip(1).push(x));
        assert(gossip_step(seen, nbrs, s, picks.push(x)) == gossip_step(
            seen,
            nbrs,
            st1,
            picks.skip(1).push(x),
        ));
        lemma_gossip_step_snoc(seen, nbrs, st1, picks.skip(1), x);
        assert(gossip_step(seen, nbrs, s, picks) == gossip_step(seen, nbrs, st1, picks.skip(1)));
    }
}

/// A legal random selection for a round over `n` neighbors: as many distinct
/// in-range indices as the round informs, fewer only when there are fewer
/// neighbors.
pub open spec fn valid_picks(n: int, picks: Seq<int>) -> bool {
    &&& picks.len() == if n < NUM_RANDOM_NEIGHBORS_TO_INFORM as int {
        n
    } else {
        NUM_RANDOM_NEIGHBORS_TO_INFORM as int
    }
    &&& forall|i: int| 0 <= i < picks.len() ==> 0 <= #[trigger] picks[i] < n
    &&& forall|i: int, j: int| 0 <= i < j < picks.len() ==> picks[i] != picks[j]
}

/// The emitted messages of a round, packet for packet: all from this node,
/// each an inform-new-broadcast carrying exactly its packet's values.
pub open spec fn sends_match(out: Seq<Message>, sends: Seq<GossipSend>, src: Seq<char>) -> bool {
    &&& out.len() == sends.len()
    &&& forall|i: int|
        0 <= i < out.len() ==> (#[trigger] out[i]).src@ == src && out[i].dest@ == sends[i].dst && (
        out[i].body matches MessageBody::InformNewBroadcast { msg_id, messages } && msg_id
            == sends[i].msg_id && messages@.to_set() == sends[i].values
            && messages@.no_duplicates())
}

/// Relies on rand's `IteratorRandom::choose_multiple` over an index range:
/// it collects `min(k, n)` positions without repetition; which positions come
/// back, and in what order, is up to the thread-local generator.
#[verifier::external_body]
fn pick_random_indices(n: usize, k: usize) -> (r: Vec<usize>)
    ensures
        r@.len() == if n < k {
            n as int
        } else {
            k as int
        },
        forall|i: int| 0 <= i < r@.len() ==> #[trigger] r@[i] < n,
        forall|i: int, j: int| 0 <= i < j < r@.len() ==> r@[i] != r@[j],
{
    (0..n).choose_multiple(&mut rand::thread_rng(), k)
}

/// How a finished gossip round relates the handler and its output to the
/// fold over the selected indices.
pub open spec fn gossip_rel(
    pre: InitializedHandler,
    post: InitializedHandler,
    out: Seq<Message>,
    picks: Seq<int>,
) -> bool {
    let s0 = GossipState {
        knowledge: pre.knowledge(),
        pending: pre.pending(),
        next_msg_id: pre.current_msg_id,
        sends: Seq::empty(),
    };
    let g = gossip_step(pre.seen(), pre.neighbor_ids(), s0, picks);
    &&& post.knowledge() == g.knowledge
    &&& post.pending() == g.pending
    &&& post.current_msg_id == g.next_msg_id
    &&& sends_match(out, g.sends, pre.node_id@)
    &&& post.messages == pre.messages
    &&& post.neighbors == pre.neighbors
    &&& post.node_id == pre.node_id
    &&& post.unique_id_generator == pre.unique_id_generator
}

/// What a gossip round promises whatever the random selection was: the
/// handler and the emitted packets are the fold over some legal selection.
pub open spec fn gossip_timer_spec(
    pre: InitializedHandler,
    post: InitializedHandler,
    out: Seq<Message>,
) -> bool {
    exists|picks: Seq<int>|
        valid_picks(pre.neighbor_ids().len() as int, picks) && #[trigger] gossip_rel(
            pre,
            post,
            out,
            picks,
        )
}

impl InitializedHandler {
    /// Runs the gossip round over an already chosen list of distinct
    /// neighbor indices: for each, the values it is not known to have are
    /// sent and recorded as pending, and neighbors with nothing missing are
    /// skipped.
    pub fn gossip_to_chosen(&mut self, picks: &Vec<usize>) -> (r: Vec<Message>)
        requires
            old(self).wf(),
            forall|i: int| 0 <= i < picks@.len() ==> #[trigger] picks@[i] < old(self).neighbors@.len(),
        ensures
            final(self).wf(),
            gossip_rel(
                *old(self),
                *final(self),
                r@,
                picks@.map_values(|u: usize| u as int),
            ),
    {
        let ghost seen0 = old(self).seen();
        let ghost nbrs0 = old(self).neighbor_ids();
        let ghost s0 = GossipState {
            knowledge: old(self).knowledge(),
            pending: old(self).pending(),
            next_msg_id: old(self).current_msg_id,
            sends: Seq::empty(),
        };
        let ghost pick_ints = picks@.map_values(|u: usize| u as int);
        let mut out: Vec<Message> = Vec::new();
        let mut idx: usize = 0;
        proof {
            assert(pick_ints.subrange(0, 0) =~= Seq::<int>::empty());
        }
        while idx < picks.len()
            invariant
                0 <= idx <= picks@.len(),
                pick_ints == picks@.map_values(|u: usize| u as int),
                seen0 == old(self).seen(),
                nbrs0 == old(self).neighbor_ids(),
                s0 == (GossipState {
                    knowledge: old(self).knowledge(),
                    pending: old(self).pending(),
                    next_msg_id: old(self).current_msg_id,
                    sends: Seq::<GossipSend>::empty(),
                }),
                forall|i: int|
                    0 <= i < picks@.len() ==> #[trigger] picks@[i] < old(self).neighbors@.len(),
                self.wf(),
                self.messages == old(self).messages,
                self.neighbors == old(self).neighbors,
                self.node_id == old(self).node_id,
                self.unique_id_generator == old(self).unique_id_generator,
                self.knowledge() == gossip_step(seen0, nbrs0, s0, pick_ints.subrange(0, idx as int)).knowledge,
                self.pending() == gossip_step(seen0, nbrs0, s0, pick_ints.subrange(0, idx as int)).pending,
                self.current_msg_id == gossip_step(seen0, nbrs0, s0, pick_ints.subrange(0, idx as int)).next_msg_id,
                sends_match(
                    out@,
                    gossip_step(seen0, nbrs0, s0, pick_ints.subrange(0, idx as int)).sends,
                    old(self).node_id@,
                ),
            decreases picks@.len() - idx,
        {
            let ghost gpre = gossip_step(seen0, nbrs0, s0, pick_ints.subrange(0, idx as int));
            let p = picks[idx];
            proof {
                assert(picks@[idx as int] < old(self).neighbors@.len());
                assert(nbrs0.len() == old(self).neighbors@.len());
            }
            let neighbor = self.neighbors[p].clone();
            proof {
                assert(neighbor == self.neighbors@[p as int]);
                assert(nbrs0[p as int] == old(self).neighbors@[p as int]@);
                assert(neighbor@ == nbrs0[p as int]);
            }
            let ki = knowledge_ensure(&mut self.known_messages_to_neighbors, &neighbor);
            let ghost known = map_or_empty(gpre.knowledge, neighbor@);
            let diff = set_difference(&self.messages, &self.known_messages_to_neighbors[ki].known);
            proof {
                assert(diff@.to_set() == seen0.difference(known));
            }
            if diff.len() == 0 {
                proof {
                    assert(seen0.subset_of(known));
                }
            } else {
                let msg_values = copy_values(&diff);
                let m = Message {
                    src: self.node_id.clone(),
                    dest: neighbor.clone(),
                    body: MessageBody::InformNewBroadcast {
                        msg_id: self.current_msg_id,
                        messages: msg_values,
                    },
                };
                out.push(m);
                match find_pending(&self.pending_messages_sent, self.current_msg_id) {
                    Some(si) => {
                        // A stale record already sits at this id; it is kept.
                        proof {
                            assert(pending_key_at(
                                self.pending_messages_sent@,
                                self.current_msg_id,
                                si as int,
                            ));
                            assert(self.pending().contains_key(self.current_msg_id));
                        }
                    },
                    None => {
                        proof {
                            if self.pending().contains_key(self.current_msg_id) {
                                let w = choose|w: int|
                                    pending_key_at(
                                        self.pending_messages_sent@,
                                        self.current_msg_id,
                                        w,
                                    );
                                assert(self.pending_messages_sent@[w].msg_id
                                    == self.current_msg_id);
                                assert(false);
                            }
                        }
                        let e = PendingEntry {
                            msg_id: self.current_msg_id,
                            message: PendingSentMessages::InformBroadcast {
                                messages: diff,
                                dst: neighbor,
                            },
                        };
                        proof {
                            lemma_pending_push(self.pending_messages_sent@, e);
                        }
                        self.pending_messages_sent.push(e);
                    },
                }
                self.current_msg_id = self.current_msg_id.wrapping_add(1);
            }
            proof {
                lemma_gossip_step_snoc(seen0, nbrs0, s0, pick_ints.subrange(0, idx as int), pick_ints[idx as int]);
                assert(pick_ints.subrange(0, idx + 1) =~= pick_ints.subrange(0, idx as int).push(
                    pick_ints[idx as int],
                ));
                let gpost = gossip_step_once(seen0, nbrs0[pick_ints[idx as int]], gpre);
                assert(nbrs0[pick_ints[idx as int]] == neighbor@);
                if !seen0.subset_of(known) {
                    if gpre.next_msg_id == u32::MAX {
                        assert(self.current_msg_id == wrap_inc(gpre.next_msg_id));
                    } else {
                        assert(self.current_msg_id == wrap_inc(gpre.next_msg_id));
                    }
                }
                assert(self.knowledge() == gpost.knowledge);
                assert(self.pending() == gpost.pending);
                assert(self.current_msg_id == gpost.next_msg_id);
                assert(sends_match(out@, gpost.sends, old(self).node_id@));
            }
            idx += 1;
        }
        proof {
            assert(pick_ints.subrange(0, picks@.len() as int) =~= pick_ints);
        }
        out
    }

    fn send_inform_broadcast_to_neighbors(&mut self) -> (r: Vec<Message>)
        requires
            old(self).wf(),
        ensures
            final(self).wf(),
            gossip_timer_spec(*old(self), *final(self), r@),
    {
        let picks = pick_random_indices(self.neighbors.len(), NUM_RANDOM_NEIGHBORS_TO_INFORM);
        let out = self.gossip_to_chosen(&picks);
        proof {
            let pick_ints = picks@.map_values(|u: usize| u as int);
            assert(valid_picks(old(self).neighbor_ids().len() as int, pick_ints));
        }
        out
    }

    /// Chooses up to `NUM_RANDOM_NEIGHBORS_TO_INFORM` distinct neighbors at
    /// random and sends each the seen values it is not known to have.
    pub fn handle_gossip_timer(&mut self) -> (r: Vec<Message>)
        requires
            old(self).wf(),
        ensures
            final(self).wf(),
            gossip_timer_spec(*old(self), *final(self), r@),
    {
        self.send_inform_broadcast_to_neighbors()
    }
}

proof fn lemma_gossip_step_avoids(
    seen: Set<u32>,
    nbrs: Seq<Seq<char>>,
    s: GossipState,
    picks: Seq<int>,
    nb: Seq<char>,
)
    requires
        s.knowledge.contains_key(nb),
        seen.subset_of(s.knowledge[nb]),
        forall|i: int| 0 <= i < s.sends.len() ==> (#[trigger] s.sends[i]).dst != nb,
    ensures
        forall|i: int|
            0 <= i < gossip_step(seen, nbrs, s, picks).sends.len() ==> (#[trigger] gossip_step(
                seen,
                nbrs,
                s,
                picks,
            ).sends[i]).dst != nb,
    decreases picks.len(),
{
    if picks.len() > 0 {
        let nb2 = nbrs[picks[0]];
        let s1 = gossip_step_once(seen, nb2, s);
        if nb2 == nb {
            assert(s1.sends == s.sends);
            assert(s1.knowledge[nb] == s.knowledge[nb]);
        } else {
            assert(s1.knowledge.contains_key(nb));
            assert(s1.knowledge[nb] == s.knowledge[nb]);
            assert forall|i: int| 0 <= i < s1.sends.len() implies (#[trigger] s1.sends[i]).dst
                != nb by {
                if i < s.sends.len() {
                    assert(s1.sends[i] == s.sends[i]);
                }
            }
        }
        lemma_gossip_step_avoids(seen, nbrs, s1, picks.skip(1), nb);
        let g = gossip_step(seen, nbrs, s, picks);
        assert(g == gossip_step(seen, nbrs, s1, picks.skip(1)));
        assert forall|i: int| 0 <= i < g.sends.len() implies (#[trigger] g.sends[i]).dst != nb by {
            assert(gossip_step(seen, nbrs, s1, picks.skip(1)).sends[i].dst != nb);
        }
    } else {
        assert(gossip_step(seen, nbrs, s, picks) == s);
    }
}

/// No redundant gossip: where a neighbor's knowledge entry already covers
/// the whole seen set, a gossip round sends that neighbor nothing, whichever
/// neighbors the round happened to select.
pub proof fn lemma_no_redundant_gossip(
    pre: InitializedHandler,
    post: InitializedHandler,
    out: Seq<Message>,
    nb: Seq<char>,
)
    requires
        gossip_timer_spec(pre, post, out),
        pre.knowledge().contains_key(nb),
        pre.seen().subset_of(pre.knowledge()[nb]),
    ensures
        forall|i: int| 0 <= i < out.len() ==> (#[trigger] out[i]).dest@ != nb,
{
    let picks = choose|picks: Seq<int>|
        valid_picks(pre.neighbor_ids().len() as int, picks) && #[trigger] gossip_rel(
            pre,
            post,
            out,
            picks,
        );
    let s0 = GossipState {
        knowledge: pre.knowledge(),
        pending: pre.pending(),
        next_msg_id: pre.current_msg_id,
        sends: Seq::empty(),
    };
    lemma_gossip_step_avoids(pre.seen(), pre.neighbor_ids(), s0, picks, nb);
    let g = gossip_step(pre.seen(), pre.neighbor_ids(), s0, picks);
    assert forall|i: int| 0 <= i < out.len() implies (#[trigger] out[i]).dest@ != nb by {
        assert(out[i].dest@ == g.sends[i].dst);
    }
}

/// A gossip round against a lone neighbor whose knowledge entry is empty:
/// whatever the random selection, that neighbor is the one selected, so
/// exactly one packet goes out, carrying every seen value under the current
/// gossip counter; the packet is recorded as pending, the counter steps by
/// one, and the seen set and knowledge map stay as they were.
pub proof fn lemma_gossip_round_single_neighbor(
    pre: InitializedHandler,
    post: InitializedHandler,
    out: Seq<Message>,
)
    requires
        gossip_timer_spec(pre, post, out),
        pre.neighbor_ids().len() == 1,
        pre.knowledge().contains_key(pre.neighbor_ids()[0]),
        pre.knowledge()[pre.neighbor_ids()[0]] == Set::<u32>::empty(),
        pre.seen() != Set::<u32>::empty(),
        !pre.pending().contains_key(pre.current_msg_id),
        pre.current_msg_id < u32::MAX,
    ensures
        out.len() == 1,
        out[0].src@ == pre.node_id@,
        out[0].dest@ == pre.neighbor_ids()[0],
        (out[0].body matches MessageBody::InformNewBroadcast { msg_id, messages } && msg_id
            == pre.current_msg_id && messages@.to_set() == pre.seen()),
        post.pending() == pre.pending().insert(
            pre.current_msg_id,
            PendingView { values: pre.seen(), dst: pre.neighbor_ids()[0] },
        ),
        post.current_msg_id as int == pre.current_msg_id as int + 1,
        post.messages == pre.messages,
        post.knowledge() == pre.knowledge(),
{
    let picks = choose|picks: Seq<int>|
        valid_picks(pre.neighbor_ids().len() as int, picks) && #[trigger] gossip_rel(
            pre,
            post,
            out,
            picks,
        );
    assert(picks.len() == 1);
    assert(0 <= picks[0] < 1);
    assert(picks[0] == 0);
    let nb = pre.neighbor_ids()[0];
    let s0 = GossipState {
        knowledge: pre.knowledge(),
        pending: pre.pending(),
        next_msg_id: pre.current_msg_id,
        sends: Seq::empty(),
    };
    if pre.seen().subset_of(Set::<u32>::empty()) {
        assert(pre.seen() =~= Set::<u32>::empty());
        assert(false);
    }
    let s1 = gossip_step_once(pre.seen(), nb, s0);
    assert(pre.seen().difference(Set::<u32>::empty()) =~= pre.seen());
    assert(picks.skip(1) =~= Seq::<int>::empty());
    assert(gossip_step(pre.seen(), pre.neighbor_ids(), s1, Seq::<int>::empty()) == s1);
    assert(gossip_step(pre.seen(), pre.neighbor_ids(), s0, picks) == s1);
    assert(s1.sends.len() == 1);
    assert(s1.sends[0] == (GossipSend {
        msg_id: pre.current_msg_id,
        dst: nb,
        values: pre.seen(),
    }));
    assert(pre.knowledge().insert(nb, Set::<u32>::empty()) =~= pre.knowledge());
    assert((pre.current_msg_id as int + 1) % 0x1_0000_0000 == pre.current_msg_id as int + 1);
}

/// Consuming the acknowledgment of a pending gossip send: the record leaves
/// the pending table and exactly the values it carried are folded into the
/// knowledge entry of its destination; nothing else moves.
pub proof fn lemma_ack_folds_pending(pre: InitializedHandler, post: InitializedHandler, k: u32)
    requires
        ack_spec(pre, k, post),
        pre.pending().contains_key(k),
    ensures
        post.pending() == pre.pending().remove(k),
        post.knowledge().contains_key(pre.pending()[k].dst),
        post.knowledge()[pre.pending()[k].dst] == map_or_empty(
            pre.knowledge(),
            pre.pending()[k].dst,
        ).union(pre.pending()[k].values),
        post.messages == pre.messages,
        post.neighbors == pre.neighbors,
        post.node_id == pre.node_id,
        post.current_msg_id == pre.current_msg_id,
{
}

/// Gossip convergence, the sender's half: starting with no pending sends, a
/// lone neighbor known to know nothing, and a nonempty seen set, one gossip
/// round followed by that round's acknowledgment leaves the pending table
/// empty again and the neighbor's knowledge entry equal to the full seen
/// set. (The receiver's half is the inform-new-broadcast arm of
/// `handle_spec`: the delivered values join its seen set, acknowledged once.)
pub proof fn lemma_gossip_convergence(
    a0: InitializedHandler,
    a1: InitializedHandler,
    out: Seq<Message>,
    a2: InitializedHandler,
)
    requires
        gossip_timer_spec(a0, a1, out),
        a0.neighbor_ids().len() == 1,
        a0.knowledge().contains_key(a0.neighbor_ids()[0]),
        a0.knowledge()[a0.neighbor_ids()[0]] == Set::<u32>::empty(),
        a0.seen() != Set::<u32>::empty(),
        a0.pending() == Map::<u32, PendingView>::empty(),
        a0.current_msg_id < u32::MAX,
        ack_spec(a1, a0.current_msg_id, a2),
    ensures
        out.len() == 1,
        out[0].dest@ == a0.neighbor_ids()[0],
        a2.pending() == Map::<u32, PendingView>::empty(),
        a2.knowledge().contains_key(a0.neighbor_ids()[0]),
        a2.knowledge()[a0.neighbor_ids()[0]] == a0.seen(),
        a2.messages == a0.messages,
{
    let nb = a0.neighbor_ids()[0];
    let k = a0.current_msg_id;
    lemma_gossip_round_single_neighbor(a0, a1, out);
    assert(a1.pending().contains_key(k));
    assert(a1.pending()[k] == (PendingView { values: a0.seen(), dst: nb }));
    lemma_ack_folds_pending(a1, a2, k);
    assert(a2.pending() =~= Map::<u32, PendingView>::empty());
    assert(map_or_empty(a1.knowledge(), nb) == Set::<u32>::empty());
    assert(Set::<u32>::empty().union(a0.seen()) =~= a0.seen());
}

/// Idempotent broadcast: a broadcast inserts its value into the seen set, by
/// `handle_message`'s contract, so broadcasting the same value twice leaves
/// the set, and its size, unchanged after the second call; and any read
/// response (a duplicate-free vector holding exactly the seen set) then
/// carries the value exactly once.
pub proof fn lemma_broadcast_idempotent(
    s0: InitializedHandler,
    s1: InitializedHandler,
    s2: InitializedHandler,
    v: u32,
)
    requires
        s1.seen() == s0.seen().insert(v),
        s2.seen() == s1.seen().insert(v),
    ensures
        s2.seen() == s1.seen(),
        s2.seen().contains(v),
        forall|q: Seq<u32>|
            #![auto]
            q.no_duplicates() && q.to_set() == s2.seen() ==> (exists|i: int|
                0 <= i < q.len() && q[i] == v) && (forall|i: int, j: int|
                0 <= i < q.len() && 0 <= j < q.len() && q[i] == v && q[j] == v ==> i == j),
{
    assert(s1.seen().insert(v) =~= s1.seen());
    assert forall|q: Seq<u32>|
        #![auto]
        q.no_duplicates() && q.to_set() == s2.seen() implies (exists|i: int|
        0 <= i < q.len() && q[i] == v) && (forall|i: int, j: int|
        0 <= i < q.len() && 0 <= j < q.len() && q[i] == v && q[j] == v ==> i == j) by {
        assert(q.to_set().contains(v));
        assert(q.contains(v));
        assert forall|i: int, j: int|
            0 <= i < q.len() && 0 <= j < q.len() && q[i] == v && q[j] == v implies i == j by {
            if i < j {
                assert(q[i] != q[j]);
            }
            if j < i {
                assert(q[j] != q[i]);
            }
        }
    }
}

} // verus!
