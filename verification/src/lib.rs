//! RAID-PIR with per-query preprocessing.
//!
//! A client retrieves one element of a database replicated over `k`
//! non-colluding servers without revealing the requested index, as long as
//! fewer than `r` of the servers collude.  Servers precompute partial
//! answers for pseudorandom seeds; the online response only scans the
//! server's own share of the database.

pub mod bits;
pub mod client;
pub mod protocol;
pub mod server;
pub mod types;
pub mod util;
pub mod xorseq;
