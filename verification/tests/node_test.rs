use std::collections::HashMap;

use rgg::messages::{
    BroadcastMessage, EchoMessage, GenerateMessage, HeartbeatMessage, InitMessage, Message,
    Packet, ReadMessage, ReadOkMessage, ReplyMessage, TopologyMessage,
};
use rgg::node::{accept_init, Fault, InitError, Node, Outbound, Step};

fn ids(list: &[&str]) -> Vec<String> {
    list.iter().map(|s| s.to_string()).collect()
}

fn node(me: &str, all: &[&str]) -> Node {
    Node::build(
        InitMessage { msg_id: 1, node_id: me.to_string(), node_ids: ids(all) },
        5,
    )
}

fn packet(src: &str, dest: &str, body: Message) -> Packet {
    Packet { src: src.to_string(), dest: dest.to_string(), body }
}

fn read_all(n: &mut Node) -> Vec<usize> {
    let step = n.handle_read(ReadMessage { msg_id: 99 }, "c9".to_string());
    match &step.outbound[0] {
        Outbound::Reply(p) => match &p.body {
            ReplyMessage::ReadOK(m) => m.messages.clone(),
            _ => panic!("not a read reply"),
        },
        _ => panic!("not a reply"),
    }
}

fn heartbeat_dests(step: &Step, from: usize) -> Vec<String> {
    step.outbound[from..]
        .iter()
        .map(|o| match o {
            Outbound::Send(p) => p.dest.clone(),
            Outbound::Reply(_) => panic!("a reply among heartbeats"),
        })
        .collect()
}

#[test]
fn echo_replies_to_sender_with_text() {
    let mut n = node("n1", &["n1", "n2"]);
    let step = n.handle_echo(EchoMessage { msg_id: 5, echo: "hi".to_string() }, "c1".to_string());
    assert!(step.fault.is_none());
    assert_eq!(step.outbound.len(), 1);
    match &step.outbound[0] {
        Outbound::Reply(p) => {
            assert_eq!(p.src, "n1");
            assert_eq!(p.dest, "c1");
            match &p.body {
                ReplyMessage::EchoOK(m) => {
                    assert_eq!(m.msg_id, 0);
                    assert_eq!(m.in_reply_to, 5);
                    assert_eq!(m.echo, "hi");
                }
                _ => panic!("wrong reply"),
            }
        }
        _ => panic!("not a reply"),
    }
}

#[test]
fn message_ids_count_up() {
    let mut n = node("n1", &["n1"]);
    let mut seen = Vec::new();
    for k in 0..3 {
        let step = n.handle_packet(packet("c1", "n1", Message::Echo(EchoMessage { msg_id: k, echo: String::new() })));
        match &step.outbound[0] {
            Outbound::Reply(p) => match &p.body {
                ReplyMessage::EchoOK(m) => seen.push(m.msg_id),
                _ => panic!(),
            },
            _ => panic!(),
        }
    }
    assert_eq!(seen, vec![0, 1, 2]);
}

#[test]
fn generate_replies_with_a_uuid() {
    let mut n = node("n1", &["n1"]);
    let mut got = Vec::new();
    for _ in 0..2 {
        let step = n.handle_generate(GenerateMessage { msg_id: 7 }, "c1".to_string());
        match &step.outbound[0] {
            Outbound::Reply(p) => match &p.body {
                ReplyMessage::GenerateOK(m) => {
                    assert_eq!(m.in_reply_to, 7);
                    let cs: Vec<char> = m.id.chars().collect();
                    assert_eq!(cs.len(), 36);
                    for (i, c) in cs.iter().enumerate() {
                        if i == 8 || i == 13 || i == 18 || i == 23 {
                            assert_eq!(*c, '-');
                        } else {
                            assert!(c.is_ascii_hexdigit() && !c.is_ascii_uppercase());
                        }
                    }
                    assert_eq!(cs[14], '4');
                    assert!(matches!(cs[19], '8' | '9' | 'a' | 'b'));
                    got.push(m.id.clone());
                }
                _ => panic!(),
            },
            _ => panic!(),
        }
    }
    assert_ne!(got[0], got[1]);
}

#[test]
fn topology_is_acknowledged() {
    let mut n = node("n1", &["n1", "n2"]);
    let step = n.handle_topology(TopologyMessage { msg_id: 4, topology: HashMap::new() }, "c1".to_string());
    match &step.outbound[0] {
        Outbound::Reply(p) => match &p.body {
            ReplyMessage::TopologyOK(m) => {
                assert_eq!(m.in_reply_to, 4);
                assert_eq!(m.msg_id, 0);
                assert_eq!(p.dest, "c1");
            }
            _ => panic!(),
        },
        _ => panic!(),
    }
}

#[test]
fn broadcast_acknowledges_learns_and_gossips() {
    let mut n = node("n1", &["n1", "n2", "n3", "n4", "n5", "n6"]);
    let step = n.handle_broadcast(BroadcastMessage { msg_id: 3, message: 42 }, "n2".to_string());
    assert!(step.fault.is_none());
    match &step.outbound[0] {
        Outbound::Reply(p) => match &p.body {
            ReplyMessage::BroadcastOK(m) => {
                assert_eq!(m.in_reply_to, 3);
                assert_eq!(m.msg_id, 0);
                assert_eq!(p.dest, "n2");
            }
            _ => panic!(),
        },
        _ => panic!(),
    }
    let dests = heartbeat_dests(&step, 1);
    assert_eq!(dests.len(), 3);
    for d in &dests {
        assert_ne!(d, "n2");
        assert_ne!(d, "n1");
    }
    for o in &step.outbound[1..] {
        match o {
            Outbound::Send(p) => {
                assert_eq!(p.src, "n1");
                match &p.body {
                    Message::Heartbeat(h) => {
                        assert_eq!(h.msg_id, 1);
                        assert_eq!(h.slice, vec![42]);
                        assert_eq!(h.sum, 1);
                        assert_eq!(h.count, 42);
                    }
                    _ => panic!(),
                }
            }
            _ => panic!(),
        }
    }
    assert_eq!(read_all(&mut n), vec![42]);
}

#[test]
fn broadcast_of_zero_sends_no_heartbeat() {
    let mut n = node("n1", &["n1", "n2", "n3"]);
    let step = n.handle_broadcast(BroadcastMessage { msg_id: 3, message: 0 }, "c1".to_string());
    assert!(step.fault.is_none());
    assert_eq!(step.outbound.len(), 1);
}

#[test]
fn broadcast_of_known_number_stops_after_ack() {
    let mut n = node("n1", &["n1", "n2"]);
    n.handle_broadcast(BroadcastMessage { msg_id: 1, message: 8 }, "c1".to_string());
    let step = n.handle_broadcast(BroadcastMessage { msg_id: 2, message: 8 }, "c1".to_string());
    assert_eq!(step.fault, Some(Fault::NumberAlreadyKnown));
    assert_eq!(step.outbound.len(), 1);
    assert_eq!(read_all(&mut n), vec![8]);
}

#[test]
fn read_after_broadcast_holds_the_number() {
    let mut n = node("n1", &["n1", "n2", "n3"]);
    n.handle_packet(packet("c1", "n1", Message::Broadcast(BroadcastMessage { msg_id: 1, message: 5 })));
    n.handle_packet(packet("c2", "n1", Message::Broadcast(BroadcastMessage { msg_id: 2, message: 6 })));
    let step = n.handle_packet(packet("c3", "n1", Message::Read(ReadMessage { msg_id: 3 })));
    match &step.outbound[0] {
        Outbound::Reply(p) => {
            assert_eq!(p.dest, "c3");
            match &p.body {
                ReplyMessage::ReadOK(m) => {
                    assert_eq!(m.messages, vec![5, 6]);
                    assert_eq!(m.in_reply_to, 3);
                }
                _ => panic!(),
            }
        }
        _ => panic!(),
    }
}

#[test]
fn read_ok_learns_without_reply() {
    let mut n = node("n1", &["n1", "n2"]);
    n.handle_broadcast(BroadcastMessage { msg_id: 1, message: 1 }, "c1".to_string());
    let step = n.handle_read_ok(ReadOkMessage { msg_id: 0, in_reply_to: 0, messages: vec![2, 1, 3] }, "n2".to_string());
    assert!(step.outbound.is_empty());
    assert!(step.fault.is_none());
    assert_eq!(read_all(&mut n), vec![1, 2, 3]);
}

#[test]
fn read_ok_overflow_stops() {
    let mut n = node("n1", &["n1"]);
    let step = n.handle_read_ok(ReadOkMessage { msg_id: 0, in_reply_to: 0, messages: vec![usize::MAX, 1] }, "n2".to_string());
    assert_eq!(step.fault, Some(Fault::SumOverflow));
    assert!(step.outbound.is_empty());
}

#[test]
fn matching_heartbeat_changes_nothing() {
    let mut n = node("n1", &["n1", "n2"]);
    n.handle_read_ok(ReadOkMessage { msg_id: 0, in_reply_to: 0, messages: vec![4, 6] }, "n2".to_string());
    let step = n.handle_heartbeat(HeartbeatMessage { msg_id: 0, slice: vec![100], sum: 2, count: 10 }, "n2".to_string());
    assert!(step.outbound.is_empty());
    assert!(step.fault.is_none());
    assert_eq!(read_all(&mut n), vec![4, 6]);
}

#[test]
fn heartbeat_with_full_slice_is_learnt_quietly() {
    let mut n = node("n1", &["n1", "n2"]);
    let step = n.handle_heartbeat(HeartbeatMessage { msg_id: 0, slice: vec![3, 2], sum: 2, count: 5 }, "n2".to_string());
    assert!(step.outbound.is_empty());
    assert!(step.fault.is_none());
    assert_eq!(read_all(&mut n), vec![3, 2]);
}

#[test]
fn heartbeat_still_behind_asks_for_a_read() {
    let mut n = node("n1", &["n1", "n2"]);
    let step = n.handle_heartbeat(HeartbeatMessage { msg_id: 0, slice: vec![3], sum: 2, count: 5 }, "n2".to_string());
    assert!(step.fault.is_none());
    assert_eq!(step.outbound.len(), 1);
    match &step.outbound[0] {
        Outbound::Send(p) => {
            assert_eq!(p.src, "n1");
            assert_eq!(p.dest, "n2");
            match &p.body {
                Message::Read(m) => assert_eq!(m.msg_id, 0),
                _ => panic!(),
            }
        }
        _ => panic!(),
    }
    assert_eq!(read_all(&mut n), vec![3]);
}

#[test]
fn heartbeat_overflow_stops() {
    let mut n = node("n1", &["n1", "n2"]);
    let step = n.handle_heartbeat(HeartbeatMessage { msg_id: 0, slice: vec![usize::MAX, 7], sum: 9, count: 9 }, "n2".to_string());
    assert_eq!(step.fault, Some(Fault::SumOverflow));
    assert!(step.outbound.is_empty());
}

#[test]
fn init_after_start_is_unknown() {
    let mut n = node("n1", &["n1"]);
    let step = n.handle_packet(packet("c1", "n1", Message::Init(InitMessage { msg_id: 1, node_id: "n1".to_string(), node_ids: ids(&["n1"]) })));
    assert_eq!(step.fault, Some(Fault::UnknownMessage));
    assert!(step.outbound.is_empty());
}

#[test]
fn send_heartbeat_to_given_targets() {
    let mut n = node("n1", &["n1", "n2", "n3"]);
    let step = n.send_heartbeat_to(ids(&["n2", "n3"]));
    assert!(step.outbound.is_empty());
    n.handle_read_ok(ReadOkMessage { msg_id: 0, in_reply_to: 0, messages: (1..=40).collect() }, "n2".to_string());
    let step = n.send_heartbeat_to(ids(&["n3", "n2"]));
    assert_eq!(heartbeat_dests(&step, 0), ids(&["n3", "n2"]));
    match &step.outbound[0] {
        Outbound::Send(p) => match &p.body {
            Message::Heartbeat(h) => {
                assert_eq!(h.slice, (11..=40).rev().collect::<Vec<usize>>());
                assert_eq!(h.sum, 40);
                assert_eq!(h.count, 820);
                assert_eq!(h.msg_id, 0);
            }
            _ => panic!(),
        },
        _ => panic!(),
    }
}

#[test]
fn heartbeat_round_goes_to_two_neighbours() {
    let mut n = node("n1", &["n1", "n2", "n3", "n4"]);
    n.handle_read_ok(ReadOkMessage { msg_id: 0, in_reply_to: 0, messages: vec![1] }, "n2".to_string());
    let step = n.heartbeat_round();
    let dests = heartbeat_dests(&step, 0);
    assert_eq!(dests.len(), 2);
    assert_ne!(dests[0], dests[1]);
    assert!(dests.iter().all(|d| d != "n1"));
}

#[test]
fn accept_init_acknowledges() {
    let p = packet("c0", "n1", Message::Init(InitMessage { msg_id: 1, node_id: "n1".to_string(), node_ids: ids(&["n1", "n2"]) }));
    let (m, reply) = accept_init(p).unwrap();
    assert_eq!(m.node_id, "n1");
    assert_eq!(m.node_ids, ids(&["n1", "n2"]));
    assert_eq!(reply.src, "n1");
    assert_eq!(reply.dest, "c0");
    match reply.body {
        ReplyMessage::InitOK(ok) => {
            assert_eq!(ok.msg_id, 1);
            assert_eq!(ok.in_reply_to, 1);
        }
        _ => panic!(),
    }
}

#[test]
fn accept_init_refuses_other_messages() {
    let p = packet("c0", "n1", Message::Read(ReadMessage { msg_id: 1 }));
    assert_eq!(accept_init(p).err(), Some(InitError::NotInit));
}

#[test]
fn broadcast_in_a_small_cluster_gossips_to_every_other_node() {
    let mut n = node("n1", &["n1", "n2", "n3"]);
    let step = n.handle_broadcast(BroadcastMessage { msg_id: 3, message: 11 }, "c1".to_string());
    let mut dests = heartbeat_dests(&step, 1);
    dests.sort();
    assert_eq!(dests, ids(&["n2", "n3"]));
    let step = n.handle_broadcast(BroadcastMessage { msg_id: 4, message: 12 }, "n2".to_string());
    assert_eq!(heartbeat_dests(&step, 1), ids(&["n3"]));
}

#[test]
fn heartbeat_from_a_node_with_same_numbers_is_quiet() {
    let mut n = node("n1", &["n1", "n2"]);
    n.handle_read_ok(ReadOkMessage { msg_id: 0, in_reply_to: 0, messages: vec![4, 9, 2] }, "n2".to_string());
    let step = n.handle_heartbeat(HeartbeatMessage { msg_id: 0, slice: vec![2, 4, 9], sum: 3, count: 15 }, "n2".to_string());
    assert!(step.outbound.is_empty());
    assert!(step.fault.is_none());
    assert_eq!(read_all(&mut n), vec![4, 9, 2]);
}
