//! A persistent, log-structured key-value store.
//!
//! Keys and values are UTF-8 strings. The store appends self-delimiting
//! records to generation-partitioned log files and keeps an in-memory index
//! from each live key to the byte span of its latest `Set` record. A small
//! wire protocol carries typed requests and responses for a server.
//!
//! The crate is organised as follows:
//! - [`codec`]: length-prefixed string fields, the shared encoding layer;
//! - [`log`]: the on-disk record codec for `Set`/`Remove` operations;
//! - [`storage`]: the engine, its index, recovery, and the engine trait;
//! - [`protocol`]: the typed requests and responses and their wire codec;
//! - [`server`]: dispatch of decoded requests to an engine.
use vstd::prelude::*;

pub mod codec;
pub mod log;
pub mod protocol;
pub mod server;
pub mod storage;

use vstd::string::StringExecFns;

verus! {

use crate::storage::{files_view, gens_sorted, recovery_ok, replay_logs, KVStorage, LogFile};

/// Open a store over the recovered logs and close it again, reporting
/// whether the directory's contents start an engine, and with which error it
/// does not: a configuration error when the generations do not rise strictly
/// or no fresh generation is available, a codec error when some log does not
/// replay.
pub fn run(files: Vec<LogFile>) -> (r: Result<(), KvError>)
    ensures
        r is Ok <==> recovery_ok(files_view(files@)),
        r == Err::<(), KvError>(KvError::Config) <==> !(gens_sorted(files_view(files@)) && (
        files@.len() == 0 || files_view(files@).last().0 < u64::MAX)),
        r == Err::<(), KvError>(KvError::Codec) <==> (gens_sorted(files_view(files@)) && (
        files@.len() == 0 || files_view(files@).last().0 < u64::MAX) && replay_logs(files_view(
            files@,
        )) is None),
{
    match KVStorage::new(files) {
        Ok(_) => Ok(()),
        Err(e) => Err(e),
    }
}

/// Errors of the store: filesystem or socket trouble (reported by the
/// surrounding process), a record or message that failed to decode, a
/// `remove` of an absent key, an index entry that does not point at the
/// record it promises, and configuration mistakes at start-up.
#[derive(Debug, Clone, PartialEq, Eq)]
pub enum KvError {
    Io,
    Codec,
    KeyNotFound(String),
    InvariantViolation,
    Config,
}

impl KvError {
    /// The characters of the message that [`KvError::message`] returns.
    pub open spec fn message_spec(&self) -> Seq<char> {
        match self {
            KvError::Io => "io error"@,
            KvError::Codec => "codec error"@,
            KvError::KeyNotFound(k) => "KeyNotFound: "@ + k@,
            KvError::InvariantViolation => "invariant violation"@,
            KvError::Config => "configuration error"@,
        }
    }

    /// A human-readable rendering, used for `Err` responses on the wire.
    pub fn message(&self) -> (r: String)
        ensures
            r@ == self.message_spec(),
    {
        match self {
            KvError::Io => String::from_str("io error"),
            KvError::Codec => String::from_str("codec error"),
            KvError::KeyNotFound(k) => {
                let mut s = String::from_str("KeyNotFound: ");
                s.append(k.as_str());
                s
            },
            KvError::InvariantViolation => String::from_str("invariant violation"),
            KvError::Config => String::from_str("configuration error"),
        }
    }
}

} // verus!
