//! A verified SMTP relay core: reply/command codec, dot-stuffing, header and
//! body transfer encodings, MX target ordering and recipient batching, and the
//! server- and client-side SMTP session state machines.

pub mod address;
pub mod client;
pub mod codec;
pub mod dotstuff;
pub mod encoding;
pub mod imf;
pub mod ip;
pub mod mx;
pub mod models;
pub mod schema;
pub mod sender;
pub mod server;

