//! A broadcast relay: the state machine that admits, bans and releases peers
//! and decides who receives each chunk of bytes, together with the small
//! decisions that surround it (what a read on a connection means, how a
//! sensitive value is shown).

pub mod addr;
pub mod window;
pub mod relay;
pub mod laws;
pub mod worker;
pub mod redact;
