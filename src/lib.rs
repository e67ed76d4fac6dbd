//! Shared expenses between friends: a ledger of purchases split by weighted
//! shares, and the balance of each user.
pub mod rational;
pub mod names;
pub mod accounts;
pub mod decimal;
pub mod local_storage;
pub mod balance;
pub mod round_trip;
