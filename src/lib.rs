//! Small encryption oracles for studying block-cipher attacks: a keyed
//! profile-cookie codec, a mode-detection oracle and an append-secret oracle,
//! together with the XOR helpers they share.

pub mod block;
pub mod cookie;
pub mod error;
pub mod oracle;
pub mod xor;
