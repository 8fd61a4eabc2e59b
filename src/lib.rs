//! A per-account call ledger: counts how often each account has called,
//! and asks for a fee once an account has used up its free calls.

pub mod ledger;
pub mod text;
