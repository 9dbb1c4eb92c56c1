//! Verified core of a JMAP mail-server back end: the document-oriented
//! storage model, per-account change log, Raft replication rules, and the
//! filter-and-sort query engine.

pub mod bitmap;
pub mod changelog;
pub mod cron;
pub mod changes;
pub mod cluster;
pub mod mail;
pub mod mailbox;
pub mod push;
pub mod query;
pub mod vacation;
pub mod date;
pub mod fulltext;
pub mod leb128;
pub mod logcheck;
pub mod raftlog;
pub mod serialize;
pub mod store;
pub mod strutil;
pub mod timeutil;
pub mod types;
pub mod update;

use vstd::prelude::*;

verus! {

} // verus!
