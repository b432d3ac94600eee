//! Backend of a small note/todo application: date arithmetic on
//! `YYYY-MM-DD` strings, and normalisation of the JSON documents that the
//! application persists.

pub mod date;
pub mod store;
pub mod today;
