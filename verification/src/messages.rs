//! The messages nodes and clients exchange.

use std::collections::HashMap;
use vstd::prelude::*;

verus! {

#[derive(Debug, Clone)]
pub struct InitMessage {
    pub msg_id: usize,
    pub node_id: String,
    pub node_ids: Vec<String>,
}

#[derive(Debug, Clone)]
pub struct InitOkMessage {
    pub msg_id: usize,
    pub in_reply_to: usize,
}

#[derive(Debug, Clone)]
pub struct EchoMessage {
    pub msg_id: usize,
    pub echo: String,
}

#[derive(Debug, Clone)]
pub struct EchoOkMessage {
    pub msg_id: usize,
    pub in_reply_to: usize,
    pub echo: String,
}

#[derive(Debug, Clone)]
pub struct GenerateMessage {
    pub msg_id: usize,
}

#[derive(Debug, Clone)]
pub struct GenerateOkMessage {
    pub msg_id: usize,
    pub in_reply_to: usize,
    pub id: String,
}

#[derive(Debug, Clone)]
pub struct BroadcastMessage {
    pub msg_id: usize,
    pub message: usize,
}

#[derive(Debug, Clone)]
pub struct BroadcastOkMessage {
    pub msg_id: usize,
    pub in_reply_to: usize,
}

#[derive(Debug, Clone)]
pub struct TopologyMessage {
    pub msg_id: usize,
    pub topology: HashMap<String, Vec<String>>,
}

#[derive(Debug, Clone)]
pub struct TopologyOkMessage {
    pub msg_id: usize,
    pub in_reply_to: usize,
}

#[derive(Debug, Clone)]
pub struct ReadMessage {
    pub msg_id: usize,
}

#[derive(Debug, Clone)]
pub struct ReadOkMessage {
    pub msg_id: usize,
    pub in_reply_to: usize,
    pub messages: Vec<usize>,
}

#[derive(Debug, Clone)]
pub struct HeartbeatMessage {
    pub msg_id: usize,
    pub slice: Vec<usize>,
    pub sum: usize,
    pub count: usize,
}

/// A request a node receives.
#[derive(Debug, Clone)]
pub enum Message {
    Init(InitMessage),
    Echo(EchoMessage),
    Generate(GenerateMessage),
    Broadcast(BroadcastMessage),
    Topology(TopologyMessage),
    Read(ReadMessage),
    Heartbeat(HeartbeatMessage),
    ReadOK(ReadOkMessage),
}

/// A reply a node sends.
#[derive(Debug, Clone)]
pub enum ReplyMessage {
    InitOK(InitOkMessage),
    EchoOK(EchoOkMessage),
    GenerateOK(GenerateOkMessage),
    BroadcastOK(BroadcastOkMessage),
    TopologyOK(TopologyOkMessage),
    ReadOK(ReadOkMessage),
    Read(ReadMessage),
}

#[derive(Debug, Clone)]
pub struct Packet {
    pub src: String,
    pub dest: String,
    pub body: Message,
}

#[derive(Debug, Clone)]
pub struct ReplyPacket {
    pub src: String,
    pub dest: String,
    pub body: ReplyMessage,
}

} // verus!
