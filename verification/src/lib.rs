//! An append-only log of records in a directory of segment files.
//!
//! The library decides and a program around it acts: nothing here touches a
//! file, a socket or a thread.

pub mod acknowledged;
pub mod bytes;
pub mod checksum;
pub mod command;
pub mod durability;
pub mod engine;
pub mod format;
pub mod history;
pub mod naming;
pub mod reading;
pub mod refusals;
pub mod replay;
pub mod server;
pub mod soundness;
pub mod storage;
pub mod text;
