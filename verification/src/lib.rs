//! Prime enumeration over an inclusive bound range, a line-oriented decimal
//! report codec with a proved round trip, and a handful of small verified
//! helpers on slices, strings and a user record.

pub mod primes;
pub mod report;
pub mod seq_ops;
pub mod text;
pub mod user;
