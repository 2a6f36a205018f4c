//! What holds of the operations together.
//!
//! Most of these modules speak of the models: what one operation leaves of what
//! another one found. [`format`], [`supply`], [`naming`], [`content`], [`making`],
//! [`sufficiency`] and [`accounting`] say in plain numbers what the bytes of a volume
//! stand for, what is read, stored, given out and taken back, and when an operation
//! succeeds. [`calls`] says the same of calls of the operations themselves, and
//! [`parts`] of calls of what they are made of.

pub mod accounting;
pub mod allocation;
pub mod calls;
pub mod coexistence;
pub mod content;
pub mod creation;
pub mod directory;
pub mod entries;
pub mod format;
pub mod growth;
pub mod inode;
pub mod lifecycle;
pub mod making;
pub mod naming;
pub mod outside;
pub mod ownership;
pub mod parts;
pub mod readback;
pub mod reading;
pub mod refusal;
pub mod steady;
pub mod storage;
pub mod sufficiency;
pub mod supply;
pub mod truncation;
