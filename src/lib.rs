//! Hostname announcement over a broadcast segment: signed payloads, framing and
//! reassembly of datagrams, and the rewrite of the local hosts table.

pub mod sig;
pub mod frame;
pub mod hosts;
pub mod publish;
pub mod receive;
pub mod configuration;
