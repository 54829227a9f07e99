//! A node's reaction to each message it receives: what it replies, whom it
//! gossips to, and how its state changes. Sending and receiving are left to
//! the caller, which performs the returned `Step`.

use vstd::prelude::*;

use crate::messages::{
    BroadcastMessage, BroadcastOkMessage, EchoMessage, EchoOkMessage, GenerateMessage,
    GenerateOkMessage, HeartbeatMessage, InitMessage, InitOkMessage, Message, Packet,
    ReadMessage, ReadOkMessage, ReplyMessage, ReplyPacket, TopologyMessage, TopologyOkMessage,
};
use crate::numbers::{
    MasterOfNumbers, lemma_store_no_duplicates, lemma_exchange_converges, lemma_merged_extends, lemma_merged_no_duplicates,
    lemma_merged_to_set, lemma_same_set_same_count_sum, lemma_with_number_no_duplicates, merged, newest_first, seq_sum,
};
use crate::topology::{Topology, is_other, names, not_in, targets_ok};

verus! {

/// A message the node asks to have sent.
pub enum Outbound {
    /// A reply to a request.
    Reply(ReplyPacket),
    /// A message of the node's own: a heartbeat or a read request.
    Send(Packet),
}

/// Why a node stops: it panics after sending what the step holds.
#[derive(Debug, PartialEq, Eq, Structural)]
pub enum Fault {
    /// A message type the node does not handle arrived.
    UnknownMessage,
    /// A broadcast carried a number the node already knew.
    NumberAlreadyKnown,
    /// The sum of the known numbers does not fit in a `usize`.
    SumOverflow,
}

/// What handling one event asks of the caller: send `outbound` in order,
/// then stop if `fault` is set.
pub struct Step {
    pub outbound: Vec<Outbound>,
    pub fault: Option<Fault>,
}

/// The abstract state of a node.
pub struct NodeView {
    pub id: Seq<char>,
    pub all_nodes: Seq<Seq<char>>,
    pub neighbors: Seq<Seq<char>>,
    pub next_msg_id: usize,
    pub numbers: Seq<usize>,
}

impl NodeView {
    /// The same state with one message id used up.
    pub open spec fn used_id(self) -> NodeView {
        NodeView { next_msg_id: self.next_msg_id.wrapping_add(1), ..self }
    }

    /// The same state with another list of numbers.
    pub open spec fn with_numbers(self, numbers: Seq<usize>) -> NodeView {
        NodeView { numbers, ..self }
    }
}

/// Hands out message ids, one after another, wrapping around at the top.
struct IDCalculator {
    message_id: usize,
}

impl IDCalculator {
    fn get_id(&mut self) -> (id: usize)
        ensures
            id == old(self).message_id,
            final(self).message_id == id.wrapping_add(1),
    {
        let id = self.message_id;
        self.message_id = self.message_id.wrapping_add(1);
        id
    }
}

/// A gossiping broadcast node.
pub struct Node {
    id: String,
    topology: Topology,
    msg_id_calc: IDCalculator,
    num_master: MasterOfNumbers,
}

impl View for Node {
    type V = NodeView;

    closed spec fn view(&self) -> NodeView {
        NodeView {
            id: self.id@,
            all_nodes: names(self.topology.all_nodes@),
            neighbors: names(self.topology.neighbors@),
            next_msg_id: self.msg_id_calc.message_id,
            numbers: self.num_master@,
        }
    }
}

/// A reply from `from` to `to`.
pub open spec fn reply_between(p: ReplyPacket, from: Seq<char>, to: Seq<char>) -> bool {
    p.src@ == from && p.dest@ == to
}

/// The step sends `o` alone and does not stop.
pub open spec fn sends_only(step: Step, o: spec_fn(Outbound) -> bool) -> bool {
    &&& step.outbound@.len() == 1
    &&& o(step.outbound@[0])
    &&& step.fault is None
}

/// `o` is the echo reply of `pre` to request `msg` from `src`.
pub open spec fn is_echo_ok(o: Outbound, pre: NodeView, msg: EchoMessage, src: Seq<char>) -> bool {
    match o {
        Outbound::Reply(p) => reply_between(p, pre.id, src) && match p.body {
            ReplyMessage::EchoOK(m) => m.msg_id == pre.next_msg_id && m.in_reply_to == msg.msg_id
                && m.echo@ == msg.echo@,
            _ => false,
        },
        _ => false,
    }
}

/// `o` is the topology acknowledgement of `pre` to request `msg` from `src`.
pub open spec fn is_topology_ok(o: Outbound, pre: NodeView, msg: TopologyMessage, src: Seq<char>) -> bool {
    match o {
        Outbound::Reply(p) => reply_between(p, pre.id, src) && match p.body {
            ReplyMessage::TopologyOK(m) => m.msg_id == pre.next_msg_id && m.in_reply_to == msg.msg_id,
            _ => false,
        },
        _ => false,
    }
}

/// `o` is the read reply of `pre` to request `msg` from `src`: every known
/// number, in the order learnt.
pub open spec fn is_read_ok(o: Outbound, pre: NodeView, msg: ReadMessage, src: Seq<char>) -> bool {
    match o {
        Outbound::Reply(p) => reply_between(p, pre.id, src) && match p.body {
            ReplyMessage::ReadOK(m) => m.msg_id == pre.next_msg_id && m.in_reply_to == msg.msg_id
                && m.messages@ == pre.numbers,
            _ => false,
        },
        _ => false,
    }
}

/// Handling echo request `msg` from `src` took `pre` to `post` with `step`.
pub open spec fn echo_done(pre: NodeView, msg: EchoMessage, src: Seq<char>, step: Step, post: NodeView) -> bool {
    &&& sends_only(step, |o: Outbound| is_echo_ok(o, pre, msg, src))
    &&& post == pre.used_id()
}

/// Handling topology message `msg` from `src` took `pre` to `post` with `step`.
pub open spec fn topology_done(pre: NodeView, msg: TopologyMessage, src: Seq<char>, step: Step, post: NodeView) -> bool {
    &&& sends_only(step, |o: Outbound| is_topology_ok(o, pre, msg, src))
    &&& post == pre.used_id()
}

/// Handling read request `msg` from `src` took `pre` to `post` with `step`.
pub open spec fn read_done(pre: NodeView, msg: ReadMessage, src: Seq<char>, step: Step, post: NodeView) -> bool {
    &&& sends_only(step, |o: Outbound| is_read_ok(o, pre, msg, src))
    &&& post == pre.used_id()
}


/// `o` is a heartbeat from `src` to `dest`, with message id `msg_id`,
/// telling of `numbers`: the last thirty newest first, their count (in the
/// field named `sum`) and their sum (in the field named `count`).
pub open spec fn is_heartbeat(o: Outbound, src: Seq<char>, dest: Seq<char>, msg_id: usize, numbers: Seq<usize>) -> bool {
    match o {
        Outbound::Send(p) => p.src@ == src && p.dest@ == dest && match p.body {
            Message::Heartbeat(h) => h.msg_id == msg_id && h.slice@ == newest_first(numbers, 30)
                && h.sum == numbers.len() && h.count == seq_sum(numbers),
            _ => false,
        },
        _ => false,
    }
}

/// Gossiping its numbers to `targets` took `pre` to `post`, sending `outs`
/// and stopping with `fault`. Nothing is sent when the numbers sum to zero,
/// and the node stops when their sum does not fit in a `usize`; else every
/// target gets the same heartbeat, which uses up one message id.
pub open spec fn heartbeats_sent(pre: NodeView, targets: Seq<Seq<char>>, outs: Seq<Outbound>, fault: Option<Fault>, post: NodeView) -> bool {
    if seq_sum(pre.numbers) > usize::MAX {
        &&& outs.len() == 0
        &&& fault == Some(Fault::SumOverflow)
        &&& post == pre
    } else if seq_sum(pre.numbers) == 0 {
        &&& outs.len() == 0
        &&& fault is None
        &&& post == pre
    } else {
        &&& fault is None
        &&& post == pre.used_id()
        &&& outs.len() == targets.len()
        &&& forall|i: int|
            0 <= i < outs.len() ==> is_heartbeat(#[trigger] outs[i], pre.id, targets[i], pre.next_msg_id, pre.numbers)
    }
}

/// `o` is the broadcast acknowledgement of `pre` to request `msg` from `src`.
pub open spec fn is_broadcast_ok(o: Outbound, pre: NodeView, msg: BroadcastMessage, src: Seq<char>) -> bool {
    match o {
        Outbound::Reply(p) => reply_between(p, pre.id, src) && match p.body {
            ReplyMessage::BroadcastOK(m) => m.msg_id == pre.next_msg_id && m.in_reply_to == msg.msg_id,
            _ => false,
        },
        _ => false,
    }
}

/// Handling broadcast `msg` from `src` took `pre` to `post` with `step`: the
/// acknowledgement goes first; a number already known stops the node; a new
/// number is learnt and gossiped to up to three random other nodes, never
/// back to `src`.
pub open spec fn broadcast_done(pre: NodeView, msg: BroadcastMessage, src: Seq<char>, step: Step, post: NodeView) -> bool {
    &&& step.outbound@.len() >= 1
    &&& is_broadcast_ok(step.outbound@[0], pre, msg, src)
    &&& if pre.numbers.contains(msg.message) {
        &&& step.outbound@.len() == 1
        &&& step.fault == Some(Fault::NumberAlreadyKnown)
        &&& post == pre.used_id()
    } else {
        exists|ts: Seq<Seq<char>>|
            #[trigger] targets_ok(ts, pre.all_nodes, 3, seq![src])
            && heartbeats_sent(
                pre.used_id().with_numbers(pre.numbers.push(msg.message)),
                ts,
                step.outbound@.skip(1),
                step.fault,
                post,
            )
    }
}

/// Handling the read reply `msg` took `pre` to `post` with `step`: its
/// numbers are learnt, nothing is sent, and the node stops when the sum of
/// what it now knows does not fit in a `usize`.
pub open spec fn read_ok_done(pre: NodeView, msg: ReadOkMessage, step: Step, post: NodeView) -> bool {
    &&& step.outbound@.len() == 0
    &&& post == pre.with_numbers(merged(pre.numbers, msg.messages@))
    &&& step.fault == if seq_sum(post.numbers) > usize::MAX {
        Some(Fault::SumOverflow)
    } else {
        None
    }
}

/// `o` is a read request from `src` to `dest` with message id `msg_id`.
pub open spec fn is_read_request(o: Outbound, src: Seq<char>, dest: Seq<char>, msg_id: usize) -> bool {
    match o {
        Outbound::Send(p) => p.src@ == src && p.dest@ == dest && match p.body {
            Message::Read(m) => m.msg_id == msg_id,
            _ => false,
        },
        _ => false,
    }
}

/// Sends nothing and stops with `fault`.
pub open spec fn quiet(step: Step, fault: Option<Fault>) -> bool {
    step.outbound@.len() == 0 && step.fault == fault
}

/// Handling heartbeat `hb` from `src` took `pre` to `post` with `step`. When
/// the count and the sum it carries (in its fields `sum` and `count`) match
/// the node's, nothing happens; else the node learns its slice, and when they
/// still differ it asks `src` for all its numbers.
pub open spec fn heartbeat_done(pre: NodeView, hb: HeartbeatMessage, src: Seq<char>, step: Step, post: NodeView) -> bool {
    let s0 = pre.numbers;
    let s1 = merged(s0, hb.slice@);
    if seq_sum(s0) > usize::MAX {
        quiet(step, Some(Fault::SumOverflow)) && post == pre
    } else if s0.len() == hb.sum && seq_sum(s0) == hb.count {
        quiet(step, None) && post == pre
    } else if seq_sum(s1) > usize::MAX {
        quiet(step, Some(Fault::SumOverflow)) && post == pre.with_numbers(s1)
    } else if s1.len() == hb.sum && seq_sum(s1) == hb.count {
        quiet(step, None) && post == pre.with_numbers(s1)
    } else {
        &&& sends_only(step, |o: Outbound| is_read_request(o, pre.id, src, pre.next_msg_id))
        &&& post == pre.with_numbers(s1).used_id()
    }
}

/// `s` reads as a UUID of version 4 in hyphenated lower-case form.
pub open spec fn uuid_v4_text(s: Seq<char>) -> bool {
    &&& s.len() == 36
    &&& forall|i: int|
        0 <= i < 36 ==> if i == 8 || i == 13 || i == 18 || i == 23 {
            #[trigger] s[i] == '-'
        } else {
            ('0' <= s[i] <= '9') || ('a' <= s[i] <= 'f')
        }
    &&& s[14] == '4'
    &&& s[19] == '8' || s[19] == '9' || s[19] == 'a' || s[19] == 'b'
}

/// `o` is the reply of `pre` to request `msg` from `src` with a fresh id `id`.
pub open spec fn is_generate_ok(o: Outbound, pre: NodeView, msg: GenerateMessage, src: Seq<char>) -> bool {
    match o {
        Outbound::Reply(p) => reply_between(p, pre.id, src) && match p.body {
            ReplyMessage::GenerateOK(m) => m.msg_id == pre.next_msg_id && m.in_reply_to == msg.msg_id
                && uuid_v4_text(m.id@),
            _ => false,
        },
        _ => false,
    }
}

/// Handling generate request `msg` from `src` took `pre` to `post` with `step`.
pub open spec fn generate_done(pre: NodeView, msg: GenerateMessage, src: Seq<char>, step: Step, post: NodeView) -> bool {
    &&& sends_only(step, |o: Outbound| is_generate_ok(o, pre, msg, src))
    &&& post == pre.used_id()
}

/// Handling `packet` took `pre` to `post` with `step`.
pub open spec fn packet_done(pre: NodeView, packet: Packet, step: Step, post: NodeView) -> bool {
    let src = packet.src@;
    match packet.body {
        Message::Echo(m) => echo_done(pre, m, src, step, post),
        Message::Generate(m) => generate_done(pre, m, src, step, post),
        Message::Topology(m) => topology_done(pre, m, src, step, post),
        Message::Broadcast(m) => broadcast_done(pre, m, src, step, post),
        Message::Read(m) => read_done(pre, m, src, step, post),
        Message::ReadOK(m) => read_ok_done(pre, m, step, post),
        Message::Heartbeat(m) => heartbeat_done(pre, m, src, step, post),
        Message::Init(_) => quiet(step, Some(Fault::UnknownMessage)) && post == pre,
    }
}

/// A periodic gossip round took `pre` to `post` with `step`: up to two
/// random neighbours get a heartbeat.
pub open spec fn heartbeat_round_done(pre: NodeView, step: Step, post: NodeView) -> bool {
    exists|ts: Seq<Seq<char>>|
        #[trigger] targets_ok(ts, pre.neighbors, 2, Seq::<Seq<char>>::empty())
        && heartbeats_sent(pre, ts, step.outbound@, step.fault, post)
}

/// Why the first message was refused.
#[derive(Debug, PartialEq, Eq, Structural)]
pub enum InitError {
    /// The first message was not an `init`.
    NotInit,
}

/// The reply to the first packet, which must be an `init`: its message and
/// an acknowledgement, with message id 1 in reply to 1, sent back from the
/// packet's destination to its source.
pub fn accept_init(packet: Packet) -> (r: Result<(InitMessage, ReplyPacket), InitError>)
    ensures
        match packet.body {
            Message::Init(m) => r is Ok && r->Ok_0.0 == m && reply_between(r->Ok_0.1, packet.dest@, packet.src@)
                && match r->Ok_0.1.body {
                ReplyMessage::InitOK(ok) => ok.msg_id == 1 && ok.in_reply_to == 1,
                _ => false,
            },
            _ => r == Err::<(InitMessage, ReplyPacket), InitError>(InitError::NotInit),
        },
{
    let message = match packet.body {
        Message::Init(init_message) => init_message,
        _ => return Err(InitError::NotInit),
    };
    let init_ok = InitOkMessage { in_reply_to: 1, msg_id: 1 };
    let init_ok_packet = ReplyPacket {
        src: packet.dest,
        dest: packet.src,
        body: ReplyMessage::InitOK(init_ok),
    };
    Ok((message, init_ok_packet))
}

/// Calls `uuid::Uuid::new_v4` and formats the value with `to_string`.
/// Claimed, after the source of uuid 1.29: the text is the hyphenated
/// lower-case form, 36 characters with hyphens at 8, 13, 18 and 23 and hex
/// digits elsewhere, the version digit at 14 being `4` and the variant digit
/// at 19 one of `8`, `9`, `a`, `b`. Which UUID comes back
/// is left open: it rests on chance.
#[verifier::external_body]
fn new_uuid_text() -> (r: String)
    ensures
        uuid_v4_text(r@),
{
    uuid::Uuid::new_v4().to_string()
}

/// What a read returns after a broadcast: once a broadcast of `n` has been
/// handled, whether `n` was new or not, the next read answers with a list
/// that holds `n`.
pub proof fn lemma_read_after_broadcast(
    pre: NodeView,
    bc: BroadcastMessage,
    bc_src: Seq<char>,
    bc_step: Step,
    mid: NodeView,
    rd: ReadMessage,
    rd_src: Seq<char>,
    rd_step: Step,
    post: NodeView,
)
    requires
        broadcast_done(pre, bc, bc_src, bc_step, mid),
        read_done(mid, rd, rd_src, rd_step, post),
    ensures
        match rd_step.outbound@[0] {
            Outbound::Reply(p) => match p.body {
                ReplyMessage::ReadOK(ok) => ok.messages@.contains(bc.message),
                _ => false,
            },
            _ => false,
        },
{
    if !pre.numbers.contains(bc.message) {
        let ts = choose|ts: Seq<Seq<char>>|
            #[trigger] targets_ok(ts, pre.all_nodes, 3, seq![bc_src])
            && heartbeats_sent(
                pre.used_id().with_numbers(pre.numbers.push(bc.message)),
                ts,
                bc_step.outbound@.skip(1),
                bc_step.fault,
                mid,
            );
        assert(mid.numbers == pre.numbers.push(bc.message));
        assert(mid.numbers[pre.numbers.len() as int] == bc.message);
    }
    assert(mid.numbers.contains(bc.message));
}

/// A node never forgets a number, never reorders what it knows, and never
/// holds a number twice, whatever packet it handles.
pub proof fn lemma_packet_keeps_numbers(pre: NodeView, packet: Packet, step: Step, post: NodeView)
    requires
        pre.numbers.no_duplicates(),
        packet_done(pre, packet, step, post),
    ensures
        pre.numbers.is_prefix_of(post.numbers),
        post.numbers.no_duplicates(),
{
    assert(pre.numbers.is_prefix_of(pre.numbers)) by {
        assert(pre.numbers.subrange(0, pre.numbers.len() as int) =~= pre.numbers);
    }
    match packet.body {
        Message::Broadcast(m) => {
            if !pre.numbers.contains(m.message) {
                let ts = choose|ts: Seq<Seq<char>>|
                    #[trigger] targets_ok(ts, pre.all_nodes, 3, seq![packet.src@])
                    && heartbeats_sent(
                        pre.used_id().with_numbers(pre.numbers.push(m.message)),
                        ts,
                        step.outbound@.skip(1),
                        step.fault,
                        post,
                    );
                lemma_with_number_no_duplicates(pre.numbers, m.message);
                lemma_merged_extends(pre.numbers, seq![m.message]);
                assert(seq![m.message].drop_last() =~= Seq::<usize>::empty());
            }
        },
        Message::ReadOK(m) => {
            lemma_merged_extends(pre.numbers, m.messages@);
            lemma_merged_no_duplicates(pre.numbers, m.messages@);
        },
        Message::Heartbeat(m) => {
            lemma_merged_extends(pre.numbers, m.slice@);
            lemma_merged_no_duplicates(pre.numbers, m.slice@);
        },
        _ => {},
    }
}

/// Every reply a node sends goes from the node to the sender of the packet
/// it answers.
pub proof fn lemma_replies_go_back(pre: NodeView, packet: Packet, step: Step, post: NodeView)
    requires
        packet_done(pre, packet, step, post),
    ensures
        forall|i: int|
            0 <= i < step.outbound@.len() ==> match #[trigger] step.outbound@[i] {
                Outbound::Reply(p) => reply_between(p, pre.id, packet.src@),
                Outbound::Send(_) => true,
            },
{
    assert forall|i: int| 0 <= i < step.outbound@.len() implies match #[trigger] step.outbound@[i] {
        Outbound::Reply(p) => reply_between(p, pre.id, packet.src@),
        Outbound::Send(_) => true,
    } by {
        match packet.body {
            Message::Broadcast(m) => {
                if i > 0 && !pre.numbers.contains(m.message) {
                    let mid = pre.used_id().with_numbers(pre.numbers.push(m.message));
                    let ts = choose|ts: Seq<Seq<char>>|
                        #[trigger] targets_ok(ts, pre.all_nodes, 3, seq![packet.src@])
                        && heartbeats_sent(mid, ts, step.outbound@.skip(1), step.fault, post);
                    assert(step.outbound@[i] == step.outbound@.skip(1)[i - 1]);
                    assert(is_heartbeat(step.outbound@.skip(1)[i - 1], mid.id, ts[i - 1], mid.next_msg_id, mid.numbers));
                }
            },
            _ => {},
        }
    }
}

/// A heartbeat whose count or sum differs from the node's leaves the node
/// knowing every number of the heartbeat's slice.
pub proof fn lemma_heartbeat_learns_slice(pre: NodeView, hb: HeartbeatMessage, src: Seq<char>, step: Step, post: NodeView)
    requires
        heartbeat_done(pre, hb, src, step, post),
        seq_sum(pre.numbers) <= usize::MAX,
        !(pre.numbers.len() == hb.sum && seq_sum(pre.numbers) == hb.count),
    ensures
        post.numbers == merged(pre.numbers, hb.slice@),
        forall|i: int| 0 <= i < hb.slice@.len() ==> post.numbers.contains(#[trigger] hb.slice@[i]),
{
    lemma_merged_to_set(pre.numbers, hb.slice@);
    assert forall|i: int| 0 <= i < hb.slice@.len() implies post.numbers.contains(#[trigger] hb.slice@[i]) by {
        assert(hb.slice@.to_set().contains(hb.slice@[i]));
        assert(post.numbers.to_set().contains(hb.slice@[i]));
    }
}

/// Heartbeats fall silent once nodes agree: a heartbeat from a node that
/// knows the same numbers, in whatever order, sends nothing and changes nothing.
pub proof fn lemma_heartbeat_between_equals_is_quiet(
    pre: NodeView,
    other: Seq<usize>,
    hb: HeartbeatMessage,
    src: Seq<char>,
    step: Step,
    post: NodeView,
)
    requires
        pre.numbers.no_duplicates(),
        other.no_duplicates(),
        pre.numbers.to_set() == other.to_set(),
        hb.sum == other.len(),
        hb.count == seq_sum(other),
        heartbeat_done(pre, hb, src, step, post),
    ensures
        quiet(step, None),
        post == pre,
{
    lemma_same_set_same_count_sum(pre.numbers, other);
}

/// A heartbeat that disagrees with the node, and still disagrees once its
/// slice is learnt, makes the node ask the sender for all its numbers: one
/// read request, from the node to the sender, with the node's next message
/// id. If learning the slice brings the node's count and sum to the
/// heartbeat's, nothing is sent. Either way the slice is learnt.
pub proof fn lemma_heartbeat_asks_when_still_behind(
    pre: NodeView,
    hb: HeartbeatMessage,
    src: Seq<char>,
    step: Step,
    post: NodeView,
)
    requires
        heartbeat_done(pre, hb, src, step, post),
        seq_sum(pre.numbers) <= usize::MAX,
        !(pre.numbers.len() == hb.sum && seq_sum(pre.numbers) == hb.count),
        seq_sum(merged(pre.numbers, hb.slice@)) <= usize::MAX,
    ensures
        step.fault is None,
        post.numbers == merged(pre.numbers, hb.slice@),
        post.id == pre.id,
        ({
            let learnt = merged(pre.numbers, hb.slice@);
            if learnt.len() == hb.sum && seq_sum(learnt) == hb.count {
                &&& step.outbound@.len() == 0
                &&& post.next_msg_id == pre.next_msg_id
            } else {
                &&& step.outbound@.len() == 1
                &&& post.next_msg_id == pre.next_msg_id.wrapping_add(1)
                &&& match step.outbound@[0] {
                    Outbound::Send(p) => p.src@ == pre.id && p.dest@ == src && match p.body {
                        Message::Read(m) => m.msg_id == pre.next_msg_id,
                        _ => false,
                    },
                    Outbound::Reply(_) => false,
                }
            }
        }),
{
}

/// A heartbeat whose count and sum already match the node's changes nothing
/// and sends nothing.
pub proof fn lemma_heartbeat_matching_is_quiet(
    pre: NodeView,
    hb: HeartbeatMessage,
    src: Seq<char>,
    step: Step,
    post: NodeView,
)
    requires
        heartbeat_done(pre, hb, src, step, post),
        seq_sum(pre.numbers) <= usize::MAX,
        pre.numbers.len() == hb.sum,
        seq_sum(pre.numbers) == hb.count,
    ensures
        step.outbound@.len() == 0,
        step.fault is None,
        post == pre,
{
}

/// Gossiping numbers whose sum is neither zero nor too large for a `usize`
/// sends every target, in order, exactly one heartbeat from the node, all with
/// the node's next message id, the newest thirty numbers newest first, the
/// count in the field `sum` and the sum in the field `count`, whatever the
/// numbers are (zero among them or not). A zero sum sends nothing.
pub proof fn lemma_heartbeats_reach_every_target(
    pre: NodeView,
    targets: Seq<Seq<char>>,
    outs: Seq<Outbound>,
    fault: Option<Fault>,
    post: NodeView,
)
    requires
        heartbeats_sent(pre, targets, outs, fault, post),
        seq_sum(pre.numbers) <= usize::MAX,
    ensures
        seq_sum(pre.numbers) == 0 ==> outs.len() == 0 && fault is None && post == pre,
        seq_sum(pre.numbers) != 0 ==> {
            &&& fault is None
            &&& outs.len() == targets.len()
            &&& post.numbers == pre.numbers
            &&& post.next_msg_id == pre.next_msg_id.wrapping_add(1)
            &&& forall|i: int|
                0 <= i < outs.len() ==> match #[trigger] outs[i] {
                    Outbound::Send(p) => p.src@ == pre.id && p.dest@ == targets[i] && match p.body {
                        Message::Heartbeat(h) => {
                            &&& h.msg_id == pre.next_msg_id
                            &&& h.slice@.len() == (if 30 < pre.numbers.len() { 30 } else { pre.numbers.len() })
                            &&& forall|j: int|
                                0 <= j < h.slice@.len() ==> h.slice@[j] == pre.numbers[pre.numbers.len() - 1 - j]
                            &&& h.sum == pre.numbers.len()
                            &&& h.count == seq_sum(pre.numbers)
                        },
                        _ => false,
                    },
                    Outbound::Reply(_) => false,
                }
        },
{
    if seq_sum(pre.numbers) != 0 {
        assert forall|i: int| 0 <= i < outs.len() implies match #[trigger] outs[i] {
            Outbound::Send(p) => p.src@ == pre.id && p.dest@ == targets[i] && match p.body {
                Message::Heartbeat(h) => {
                    &&& h.msg_id == pre.next_msg_id
                    &&& h.slice@.len() == (if 30 < pre.numbers.len() { 30 } else { pre.numbers.len() })
                    &&& forall|j: int|
                        0 <= j < h.slice@.len() ==> h.slice@[j] == pre.numbers[pre.numbers.len() - 1 - j]
                    &&& h.sum == pre.numbers.len()
                    &&& h.count == seq_sum(pre.numbers)
                },
                _ => false,
            },
            Outbound::Reply(_) => false,
        } by {
            assert(is_heartbeat(outs[i], pre.id, targets[i], pre.next_msg_id, pre.numbers));
        }
    }
}

/// A broadcast of a number the node did not know, after which the known
/// numbers sum to neither zero nor more than a `usize` holds, is acknowledged
/// and then gossiped: one heartbeat to each of as many distinct other nodes
/// as three or the nodes other than the sender, whichever is less (when the
/// node list holds no name twice), never to the sender, each carrying the
/// number, whatever its value.
pub proof fn lemma_broadcast_gossips_new_number(
    pre: NodeView,
    msg: BroadcastMessage,
    src: Seq<char>,
    step: Step,
    post: NodeView,
)
    requires
        broadcast_done(pre, msg, src, step, post),
        !pre.numbers.contains(msg.message),
        0 < seq_sum(pre.numbers.push(msg.message)) <= usize::MAX,
    ensures
        step.fault is None,
        post.numbers == pre.numbers.push(msg.message),
        step.outbound@.len() >= 1,
        match step.outbound@[0] {
            Outbound::Reply(p) => p.src@ == pre.id && p.dest@ == src && match p.body {
                ReplyMessage::BroadcastOK(m) => m.msg_id == pre.next_msg_id && m.in_reply_to == msg.msg_id,
                _ => false,
            },
            Outbound::Send(_) => false,
        },
        pre.all_nodes.no_duplicates() ==> ({
            let available = pre.all_nodes.filter(not_in(seq![src])).len();
            step.outbound@.len() == 1 + (if 3 < available { 3 } else { available })
        }),
        step.outbound@.len() <= 4,
        forall|i: int|
            1 <= i < step.outbound@.len() ==> match #[trigger] step.outbound@[i] {
                Outbound::Send(p) => {
                    &&& p.src@ == pre.id
                    &&& pre.all_nodes.contains(p.dest@)
                    &&& p.dest@ != src
                    &&& match p.body {
                        Message::Heartbeat(h) => {
                            &&& h.msg_id == pre.next_msg_id.wrapping_add(1)
                            &&& h.slice@.len() >= 1
                            &&& h.slice@[0] == msg.message
                            &&& h.sum == pre.numbers.len() + 1
                            &&& h.count == seq_sum(pre.numbers.push(msg.message))
                        },
                        _ => false,
                    }
                },
                Outbound::Reply(_) => false,
            },
{
    let mid = pre.used_id().with_numbers(pre.numbers.push(msg.message));
    let ts = choose|ts: Seq<Seq<char>>|
        #[trigger] targets_ok(ts, pre.all_nodes, 3, seq![src])
        && heartbeats_sent(mid, ts, step.outbound@.skip(1), step.fault, post);
    let rest = step.outbound@.skip(1);
    assert(rest.len() == ts.len());
    assert forall|i: int| 1 <= i < step.outbound@.len() implies match #[trigger] step.outbound@[i] {
        Outbound::Send(p) => {
            &&& p.src@ == pre.id
            &&& pre.all_nodes.contains(p.dest@)
            &&& p.dest@ != src
            &&& match p.body {
                Message::Heartbeat(h) => {
                    &&& h.msg_id == pre.next_msg_id.wrapping_add(1)
                    &&& h.slice@.len() >= 1
                    &&& h.slice@[0] == msg.message
                    &&& h.sum == pre.numbers.len() + 1
                    &&& h.count == seq_sum(pre.numbers.push(msg.message))
                },
                _ => false,
            }
        },
        Outbound::Reply(_) => false,
    } by {
        assert(step.outbound@[i] == rest[i - 1]);
        assert(is_heartbeat(rest[i - 1], mid.id, ts[i - 1], mid.next_msg_id, mid.numbers));
        assert(pre.all_nodes.contains(ts[i - 1]) && !seq![src].contains(ts[i - 1]));
        if ts[i - 1] == src {
            assert(seq![src][0] == src);
        }
        assert(mid.numbers[mid.numbers.len() - 1] == msg.message);
    }
}

/// What each request gets back. An echo, generate, topology or read request
/// gets exactly one reply, from the node to the sender, in reply to the
/// request's message id and carrying the node's next message id, which is
/// then used up: an echo gets its own text back, a generate a 36-character
/// id, a read every known number in the order learnt. A read reply changes
/// no number and sends nothing back, and leaves the node knowing exactly the
/// old numbers and those it carried. An `init` after start-up stops the node.
pub proof fn lemma_requests_get_their_answer(pre: NodeView, packet: Packet, step: Step, post: NodeView)
    requires
        packet_done(pre, packet, step, post),
    ensures
        match packet.body {
            Message::Echo(m) => {
                &&& step.outbound@.len() == 1
                &&& step.fault is None
                &&& post.numbers == pre.numbers
                &&& post.next_msg_id == pre.next_msg_id.wrapping_add(1)
                &&& match step.outbound@[0] {
                    Outbound::Reply(p) => p.src@ == pre.id && p.dest@ == packet.src@ && match p.body {
                        ReplyMessage::EchoOK(r) => r.in_reply_to == m.msg_id && r.msg_id == pre.next_msg_id
                            && r.echo@ == m.echo@,
                        _ => false,
                    },
                    Outbound::Send(_) => false,
                }
            },
            Message::Generate(m) => {
                &&& step.outbound@.len() == 1
                &&& step.fault is None
                &&& post.numbers == pre.numbers
                &&& post.next_msg_id == pre.next_msg_id.wrapping_add(1)
                &&& match step.outbound@[0] {
                    Outbound::Reply(p) => p.src@ == pre.id && p.dest@ == packet.src@ && match p.body {
                        ReplyMessage::GenerateOK(r) => r.in_reply_to == m.msg_id && r.msg_id == pre.next_msg_id
                            && r.id@.len() == 36,
                        _ => false,
                    },
                    Outbound::Send(_) => false,
                }
            },
            Message::Topology(m) => {
                &&& step.outbound@.len() == 1
                &&& step.fault is None
                &&& post.numbers == pre.numbers
                &&& post.next_msg_id == pre.next_msg_id.wrapping_add(1)
                &&& match step.outbound@[0] {
                    Outbound::Reply(p) => p.src@ == pre.id && p.dest@ == packet.src@ && match p.body {
                        ReplyMessage::TopologyOK(r) => r.in_reply_to == m.msg_id && r.msg_id == pre.next_msg_id,
                        _ => false,
                    },
                    Outbound::Send(_) => false,
                }
            },
            Message::Read(m) => {
                &&& step.outbound@.len() == 1
                &&& step.fault is None
                &&& post.numbers == pre.numbers
                &&& post.next_msg_id == pre.next_msg_id.wrapping_add(1)
                &&& match step.outbound@[0] {
                    Outbound::Reply(p) => p.src@ == pre.id && p.dest@ == packet.src@ && match p.body {
                        ReplyMessage::ReadOK(r) => r.in_reply_to == m.msg_id && r.msg_id == pre.next_msg_id
                            && r.messages@ == pre.numbers,
                        _ => false,
                    },
                    Outbound::Send(_) => false,
                }
            },
            Message::ReadOK(m) => {
                &&& step.outbound@.len() == 0
                &&& post.next_msg_id == pre.next_msg_id
                &&& pre.numbers.is_prefix_of(post.numbers)
                &&& post.numbers.to_set() == pre.numbers.to_set().union(m.messages@.to_set())
                &&& (step.fault is None <==> seq_sum(post.numbers) <= usize::MAX)
            },
            Message::Init(_) => {
                &&& step.outbound@.len() == 0
                &&& step.fault == Some(Fault::UnknownMessage)
                &&& post == pre
            },
            _ => true,
        },
{
    match packet.body {
        Message::ReadOK(m) => {
            lemma_merged_extends(pre.numbers, m.messages@);
            lemma_merged_to_set(pre.numbers, m.messages@);
        },
        _ => {},
    }
}

/// Two nodes that each learn the other's full list from a read reply end up
/// knowing the same numbers: the union of what both knew.
pub proof fn lemma_read_ok_exchange_converges(
    a: NodeView,
    a_msg: ReadOkMessage,
    a_step: Step,
    a_post: NodeView,
    b: NodeView,
    b_msg: ReadOkMessage,
    b_step: Step,
    b_post: NodeView,
)
    requires
        a_msg.messages@ == b.numbers,
        b_msg.messages@ == a.numbers,
        read_ok_done(a, a_msg, a_step, a_post),
        read_ok_done(b, b_msg, b_step, b_post),
    ensures
        a_post.numbers.to_set() == b_post.numbers.to_set(),
        a_post.numbers.to_set() == a.numbers.to_set().union(b.numbers.to_set()),
{
    lemma_exchange_converges(a.numbers, b.numbers);
}

/// A well-formed node holds no number twice.
pub proof fn lemma_node_no_duplicates(n: &Node)
    requires
        n.wf(),
    ensures
        n@.numbers.no_duplicates(),
{
    lemma_store_no_duplicates(&n.num_master);
}

impl Node {
    /// The topology mirrors the node's id, and the store is well formed.
    pub closed spec fn wf(&self) -> bool {
        &&& self.topology.node_id@ == self.id@
        &&& self.num_master.wf()
    }

    /// A freshly initialised node: it knows no number, its next message id is
    /// 0, and every other node of the cluster is a neighbour.
    pub fn build(init_message: InitMessage, grid_line_size: usize) -> (r: Node)
        requires
            grid_line_size > 0,
            names(init_message.node_ids@).contains(init_message.node_id@),
        ensures
            r.wf(),
            r@.id == init_message.node_id@,
            r@.all_nodes == names(init_message.node_ids@).filter(is_other(init_message.node_id@)),
            r@.neighbors == names(init_message.node_ids@).filter(is_other(init_message.node_id@)),
            r@.next_msg_id == 0,
            r@.numbers == Seq::<usize>::empty(),
    {
        Node {
            id: init_message.node_id.clone(),
            topology: Topology::new(init_message.node_id, init_message.node_ids, grid_line_size),
            msg_id_calc: IDCalculator { message_id: 0 },
            num_master: MasterOfNumbers::new(),
        }
    }

    /// The node's neighbours, in order.
    pub fn neighbors(&self) -> (r: &Vec<String>)
        ensures
            names(r@) == self@.neighbors,
    {
        &self.topology.neighbors
    }

    /// A reply from this node to `dest`.
    pub fn make_reply_packet(&self, dest: String, body: ReplyMessage) -> (r: ReplyPacket)
        requires
            self.wf(),
        ensures
            reply_between(r, self@.id, dest@),
            r.body == body,
    {
        ReplyPacket { src: self.topology.node_id.clone(), dest, body }
    }

    /// Answers an echo request with the same text.
    pub fn handle_echo(&mut self, echo_message: EchoMessage, src: String) -> (step: Step)
        requires
            old(self).wf(),
        ensures
            final(self).wf(),
            echo_done(old(self)@, echo_message, src@, step, final(self)@),
    {
        let ghost pre = self@;
        let reply_body = EchoOkMessage {
            msg_id: self.msg_id_calc.get_id(),
            in_reply_to: echo_message.msg_id,
            echo: echo_message.echo,
        };
        let reply_packet = self.make_reply_packet(src, ReplyMessage::EchoOK(reply_body));
        let outbound = vec![Outbound::Reply(reply_packet)];
        let step = Step { outbound, fault: None };
        assert(is_echo_ok(step.outbound@[0], pre, echo_message, src@));
        step
    }

    /// Acknowledges a topology message; the layout it carries is not used.
    pub fn handle_topology(&mut self, topology_message: TopologyMessage, src: String) -> (step: Step)
        requires
            old(self).wf(),
        ensures
            final(self).wf(),
            topology_done(old(self)@, topology_message, src@, step, final(self)@),
    {
        let ghost pre = self@;
        let reply_body = TopologyOkMessage {
            msg_id: self.msg_id_calc.get_id(),
            in_reply_to: topology_message.msg_id,
        };
        let reply_packet = self.make_reply_packet(src, ReplyMessage::TopologyOK(reply_body));
        let step = Step { outbound: vec![Outbound::Reply(reply_packet)], fault: None };
        assert(is_topology_ok(step.outbound@[0], pre, topology_message, src@));
        step
    }

    /// Answers a read request with every known number.
    pub fn handle_read(&mut self, read_message: ReadMessage, src: String) -> (step: Step)
        requires
            old(self).wf(),
        ensures
            final(self).wf(),
            read_done(old(self)@, read_message, src@, step, final(self)@),
    {
        let ghost pre = self@;
        let numbers = self.num_master.read_numbers(None);
        let reply_body = ReadOkMessage {
            msg_id: self.msg_id_calc.get_id(),
            in_reply_to: read_message.msg_id,
            messages: numbers,
        };
        let reply_packet = self.make_reply_packet(src, ReplyMessage::ReadOK(reply_body));
        let step = Step { outbound: vec![Outbound::Reply(reply_packet)], fault: None };
        assert(is_read_ok(step.outbound@[0], pre, read_message, src@));
        step
    }

    /// Answers a generate request with a fresh random UUID.
    pub fn handle_generate(&mut self, generate_message: GenerateMessage, src: String) -> (step: Step)
        requires
            old(self).wf(),
        ensures
            final(self).wf(),
            generate_done(old(self)@, generate_message, src@, step, final(self)@),
    {
        let ghost pre = self@;
        let reply_body = GenerateOkMessage {
            msg_id: self.msg_id_calc.get_id(),
            in_reply_to: generate_message.msg_id,
            id: new_uuid_text(),
        };
        let reply_packet = self.make_reply_packet(src, ReplyMessage::GenerateOK(reply_body));
        let step = Step { outbound: vec![Outbound::Reply(reply_packet)], fault: None };
        assert(is_generate_ok(step.outbound@[0], pre, generate_message, src@));
        step
    }

    /// Sends each of `targets` a heartbeat telling of the known numbers.
    pub fn send_heartbeat_to(&mut self, targets: Vec<String>) -> (step: Step)
        requires
            old(self).wf(),
        ensures
            final(self).wf(),
            heartbeats_sent(old(self)@, names(targets@), step.outbound@, step.fault, final(self)@),
    {
        let ghost pre = self@;
        let slice = self.num_master.read_numbers(Some(30));
        let (sum, count) = match self.num_master.checked_sum_count() {
            Some(sum_count) => sum_count,
            None => {
                return Step { outbound: Vec::new(), fault: Some(Fault::SumOverflow) };
            },
        };
        if count == 0 {
            return Step { outbound: Vec::new(), fault: None };
        }
        let msg_id = self.msg_id_calc.get_id();
        let mut outbound: Vec<Outbound> = Vec::new();
        let mut i: usize = 0;
        while i < targets.len()
            invariant
                i <= targets@.len(),
                self.wf(),
                self@ == pre.used_id(),
                msg_id == pre.next_msg_id,
                slice@ == newest_first(pre.numbers, 30),
                sum == pre.numbers.len(),
                count == seq_sum(pre.numbers),
                outbound@.len() == i,
                forall|k: int|
                    0 <= k < i ==> is_heartbeat(#[trigger] outbound@[k], pre.id, names(targets@)[k], msg_id, pre.numbers),
            decreases targets@.len() - i,
        {
            let mut copy: Vec<usize> = Vec::new();
            let mut j: usize = 0;
            while j < slice.len()
                invariant
                    j <= slice@.len(),
                    copy@ =~= slice@.take(j as int),
                decreases slice@.len() - j,
            {
                copy.push(slice[j]);
                j = j + 1;
            }
            let packet = Packet {
                src: self.id.clone(),
                dest: targets[i].clone(),
                body: Message::Heartbeat(HeartbeatMessage { msg_id, slice: copy, sum, count }),
            };
            outbound.push(Outbound::Send(packet));
            proof {
                assert(slice@.take(slice@.len() as int) =~= slice@);
                assert(is_heartbeat(outbound@[i as int], pre.id, names(targets@)[i as int], msg_id, pre.numbers));
            }
            i = i + 1;
        }
        Step { outbound, fault: None }
    }

    /// Acknowledges a broadcast, learns its number and gossips it to up to
    /// three random other nodes; a number already known stops the node.
    pub fn handle_broadcast(&mut self, broadcast_message: BroadcastMessage, src: String) -> (step: Step)
        requires
            old(self).wf(),
        ensures
            final(self).wf(),
            broadcast_done(old(self)@, broadcast_message, src@, step, final(self)@),
    {
        let ghost pre = self@;
        let reply_body = BroadcastOkMessage {
            msg_id: self.msg_id_calc.get_id(),
            in_reply_to: broadcast_message.msg_id,
        };
        let reply_packet = self.make_reply_packet(src.clone(), ReplyMessage::BroadcastOK(reply_body));
        let mut outbound = vec![Outbound::Reply(reply_packet)];
        assert(is_broadcast_ok(outbound@[0], pre, broadcast_message, src@));
        if !self.num_master.add_number(broadcast_message.message) {
            return Step { outbound, fault: Some(Fault::NumberAlreadyKnown) };
        }
        let ghost mid = self@;
        assert(mid == pre.used_id().with_numbers(pre.numbers.push(broadcast_message.message)));
        let exclude = vec![src];
        let targets = self.topology.get_random_targets_from_all(3, exclude.as_slice());
        proof {
            assert(names(exclude@) =~= seq![src@]);
        }
        let mut heartbeats = self.send_heartbeat_to(targets);
        let ghost sent = heartbeats.outbound@;
        outbound.append(&mut heartbeats.outbound);
        proof {
            assert(outbound@.skip(1) =~= sent);
            assert(targets_ok(names(targets@), pre.all_nodes, 3, seq![src@]));
        }
        Step { outbound, fault: heartbeats.fault }
    }

    /// Learns the numbers of a read reply; nothing is sent back.
    pub fn handle_read_ok(&mut self, read_ok_message: ReadOkMessage, _src: String) -> (step: Step)
        requires
            old(self).wf(),
        ensures
            final(self).wf(),
            read_ok_done(old(self)@, read_ok_message, step, final(self)@),
    {
        let numbers = read_ok_message.messages;
        match self.num_master.extend_numbers_checked(numbers.as_slice()) {
            Some(_) => Step { outbound: Vec::new(), fault: None },
            None => Step { outbound: Vec::new(), fault: Some(Fault::SumOverflow) },
        }
    }

    /// Compares a heartbeat with what the node knows, learns its slice, and
    /// asks the sender for all its numbers when they still differ.
    pub fn handle_heartbeat(&mut self, heartbeat_message: HeartbeatMessage, src: String) -> (step: Step)
        requires
            old(self).wf(),
        ensures
            final(self).wf(),
            heartbeat_done(old(self)@, heartbeat_message, src@, step, final(self)@),
    {
        let ghost pre = self@;
        let (our_sum, our_count) = match self.num_master.checked_sum_count() {
            Some(sum_count) => sum_count,
            None => {
                return Step { outbound: Vec::new(), fault: Some(Fault::SumOverflow) };
            },
        };
        if our_sum == heartbeat_message.sum && our_count == heartbeat_message.count {
            return Step { outbound: Vec::new(), fault: None };
        }
        let (our_sum, our_count) = match self.num_master.extend_numbers_checked(heartbeat_message.slice.as_slice()) {
            Some(sum_count) => sum_count,
            None => {
                return Step { outbound: Vec::new(), fault: Some(Fault::SumOverflow) };
            },
        };
        if our_sum == heartbeat_message.sum && our_count == heartbeat_message.count {
            return Step { outbound: Vec::new(), fault: None };
        }
        let read_packet = Packet {
            src: self.id.clone(),
            dest: src.clone(),
            body: Message::Read(ReadMessage { msg_id: self.msg_id_calc.get_id() }),
        };
        let step = Step { outbound: vec![Outbound::Send(read_packet)], fault: None };
        assert(is_read_request(step.outbound@[0], pre.id, src@, pre.next_msg_id));
        step
    }

    /// Reacts to one incoming packet; an `init` after start-up stops the node.
    pub fn handle_packet(&mut self, packet: Packet) -> (step: Step)
        requires
            old(self).wf(),
        ensures
            final(self).wf(),
            packet_done(old(self)@, packet, step, final(self)@),
    {
        let src = packet.src;
        let body = packet.body;
        match body {
            Message::Echo(echo_message) => self.handle_echo(echo_message, src),
            Message::Generate(generate_message) => self.handle_generate(generate_message, src),
            Message::Topology(topology_message) => self.handle_topology(topology_message, src),
            Message::Broadcast(broadcast_message) => self.handle_broadcast(broadcast_message, src),
            Message::Read(read_message) => self.handle_read(read_message, src),
            Message::ReadOK(read_ok_message) => self.handle_read_ok(read_ok_message, src),
            Message::Heartbeat(heartbeat_message) => self.handle_heartbeat(heartbeat_message, src),
            Message::Init(_) => Step { outbound: Vec::new(), fault: Some(Fault::UnknownMessage) },
        }
    }

    /// One periodic gossip round: a heartbeat to up to two random neighbours.
    pub fn heartbeat_round(&mut self) -> (step: Step)
        requires
            old(self).wf(),
        ensures
            final(self).wf(),
            heartbeat_round_done(old(self)@, step, final(self)@),
    {
        let ghost pre = self@;
        let exclude: Vec<String> = Vec::new();
        let targets = self.topology.get_random_targets_from_neighbors(2, exclude.as_slice());
        proof {
            assert(names(exclude@) =~= Seq::<Seq<char>>::empty());
            assert(targets_ok(names(targets@), pre.neighbors, 2, Seq::<Seq<char>>::empty()));
        }
        self.send_heartbeat_to(targets)
    }
}

} // verus!
