//! Fans the updates of a validator out to many subscribers.
pub mod access;
pub mod ancestors;
pub mod arrivals;
pub mod batch_laws;
pub mod block_meta;
pub mod broadcast;
pub mod broadcast_laws;
pub mod buffer;
pub mod client;
pub mod client_laws;
pub mod client_loop;
pub mod clock;
pub mod content;
pub mod decoding;
pub mod dedup;
pub mod dispatch;
pub mod encoder;
pub mod encoding_laws;
pub mod filing_laws;
pub mod invalid;
pub mod latency;
pub mod measure_laws;
pub mod message;
pub mod message_id;
pub mod meta_laws;
pub mod name_laws;
pub mod names;
pub mod ordered;
pub mod parallel;
pub mod reconstruction;
pub mod reconstruction_laws;
pub mod request_laws;
pub mod run_laws;
pub mod service;
pub mod slot_laws;
pub mod slot_messages;
pub mod state_laws;
pub mod status;
pub mod subscribe;
pub mod subscription;
pub mod sweep;
pub mod text;
pub mod wire;
