//! The records the queue facade stores. Identifiers are carried as plain
//! 128-bit values; timestamps as Unix seconds.
use vstd::prelude::*;
use crate::schema::MailState;

verus! {

/// One accepted message awaiting pickup, as read back from the store.
#[derive(Debug)]
pub struct InboundQueueItem {
    pub id: u128,
    pub rcpt_to: String,
    pub message_id: Option<String>,
    pub from: Vec<String>,
    pub sender: Option<String>,
    pub reply_to: Option<Vec<String>>,
    pub subject: Option<String>,
    pub contents_id: u128,
}

/// One accepted message to insert, one row per recipient.
#[derive(Debug)]
pub struct NewInboundQueueItem {
    pub id: u128,
    pub rcpt_to: String,
    pub message_id: Option<String>,
    pub mail_from: Vec<String>,
    pub mail_sender: Option<String>,
    pub mail_reply_to: Option<Vec<String>>,
    pub subject: Option<String>,
    pub contents: u128,
}

/// One message part to insert: its headers, decoded body and child ids.
#[derive(Debug)]
pub struct NewMailSubpart {
    pub id: u128,
    pub headers: Vec<(String, String)>,
    pub body: Vec<u8>,
    pub subparts: Vec<u128>,
}

/// One outbound message, as read back from the store.
#[derive(Debug)]
pub struct OutboundMessage {
    pub id: u128,
    pub return_path: String,
    pub data: Vec<u8>,
}

/// One outbound message to insert.
#[derive(Debug)]
pub struct NewOutboundMessage {
    pub id: u128,
    pub return_path: String,
    pub data: Vec<u8>,
}

/// One outbound recipient and its delivery state, as read back.
#[derive(Debug)]
pub struct OutboundQueueItem {
    pub id: u128,
    pub message_id: u128,
    pub forward_path: String,
    pub state: MailState,
    pub state_since: i64,
}

/// One outbound recipient to insert, born Queued.
#[derive(Debug)]
pub struct NewOutboundQueueItem {
    pub id: u128,
    pub message_id: u128,
    pub forward_path: String,
    pub state: MailState,
    pub state_since: i64,
}

} // verus!
