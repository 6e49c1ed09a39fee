//! The server's decision core: dispatch one decoded request to an engine and
//! build the matching typed response.
//!
//! The surrounding process owns the listener and the sockets; per request it
//! decodes the bytes with [`crate::protocol`], calls [`Server::handle_request`],
//! encodes the reply, and flushes. Engine errors become `Error` responses and
//! the connection survives them.
use vstd::prelude::*;

verus! {

use crate::protocol::{GetResponse, Request, RmResponse, SetResponse};
use crate::storage::KVStorage;
use crate::KvError;
use vstd::string::StringExecFns;

/// The capability a storage engine offers: read, write and remove keys, with
/// the same visible behaviour as the native engine. A substitute engine must
/// preserve this contract, including `KeyNotFound` on removing an absent key;
/// it may fail with its own errors, after which a write may or may not have
/// taken effect.
pub trait StorageEngine: Sized {
    /// The engine's internal invariant.
    spec fn inv(&self) -> bool;

    /// The key-value view the engine presents.
    spec fn view_kv(&self) -> Map<Seq<char>, Seq<char>>;

    /// True of an engine whose calls cannot fail, except for removing an
    /// absent key: the native engine proves this; a substitute backed by
    /// outside I/O may answer false.
    spec fn infallible(&self) -> bool;

    /// Read the value bound to `key`, if it is live.
    fn get(&mut self, key: String) -> (r: Result<Option<String>, KvError>)
        requires
            old(self).inv(),
        ensures
            final(self).inv(),
            final(self).infallible() == old(self).infallible(),
            final(self).view_kv() == old(self).view_kv(),
            r matches Ok(o) ==> match o {
                Some(v) => old(self).view_kv().contains_key(key@) && v@ == old(self).view_kv()[key@],
                None => !old(self).view_kv().contains_key(key@),
            },
            old(self).infallible() ==> r is Ok,
    ;

    /// Remove `key`; removing an absent key fails with `KeyNotFound` and
    /// changes nothing.
    fn remove(&mut self, key: String) -> (r: Result<(), KvError>)
        requires
            old(self).inv(),
        ensures
            final(self).inv(),
            final(self).infallible() == old(self).infallible(),
            !old(self).view_kv().contains_key(key@) ==> (r matches Err(e) && e
                == KvError::KeyNotFound(key) && final(self).view_kv() == old(self).view_kv()),
            r is Ok ==> old(self).view_kv().contains_key(key@) && final(self).view_kv() == old(self).view_kv().remove(key@),
            r is Err ==> final(self).view_kv() == old(self).view_kv() || final(self).view_kv()
                == old(self).view_kv().remove(key@),
            old(self).infallible() && old(self).view_kv().contains_key(key@) ==> r is Ok,
    ;

    /// Bind `key` to `value`.
    fn set(&mut self, key: String, value: String) -> (r: Result<(), KvError>)
        requires
            old(self).inv(),
        ensures
            final(self).inv(),
            final(self).infallible() == old(self).infallible(),
            r is Ok ==> final(self).view_kv() == old(self).view_kv().insert(key@, value@),
            r is Err ==> final(self).view_kv() == old(self).view_kv() || final(self).view_kv()
                == old(self).view_kv().insert(key@, value@),
            old(self).infallible() ==> r is Ok,
    ;
}

impl StorageEngine for KVStorage {
    open spec fn inv(&self) -> bool {
        self.wf()
    }

    open spec fn view_kv(&self) -> Map<Seq<char>, Seq<char>> {
        self.kv()
    }

    open spec fn infallible(&self) -> bool {
        true
    }

    fn get(&mut self, key: String) -> (r: Result<Option<String>, KvError>) {
        KVStorage::get(self, key)
    }

    fn remove(&mut self, key: String) -> (r: Result<(), KvError>) {
        match KVStorage::delete(self, key) {
            Ok(_) => Ok(()),
            Err(e) => Err(e),
        }
    }

    fn set(&mut self, key: String, value: String) -> (r: Result<(), KvError>) {
        let _ = KVStorage::insert(self, key, value);
        Ok(())
    }
}

/// One typed reply, of the kind that matches the request it answers.
#[derive(Debug, Clone, PartialEq, Eq)]
pub enum Reply {
    Get(GetResponse),
    Rm(RmResponse),
    Put(SetResponse),
}

/// The server: an engine and the dispatch that answers one request at a time.
/// Requests of one connection are answered strictly in order; the surrounding
/// process serialises connections so the engine is never observed mid-step.
pub struct Server<T: StorageEngine> {
    engine: T,
}

impl<T: StorageEngine> Server<T> {
    /// The engine the server dispatches to.
    pub closed spec fn engine_view(self) -> T {
        self.engine
    }

    /// The server's invariant: its engine's.
    pub open spec fn inv(self) -> bool {
        self.engine_view().inv()
    }

    /// The key-value view the server serves.
    pub open spec fn view_kv(self) -> Map<Seq<char>, Seq<char>> {
        self.engine_view().view_kv()
    }

    /// True when the server's engine cannot fail; then every reply of
    /// [`Server::handle_request`] is `Okay`, except removing an absent key.
    pub open spec fn infallible(self) -> bool {
        self.engine_view().infallible()
    }

    /// Wrap an engine.
    pub fn new(engine: T) -> (s: Server<T>)
        ensures
            s.engine_view() == engine,
    {
        Server { engine }
    }

    /// Borrow the engine, for the surrounding process to persist what the
    /// engine appended.
    pub fn engine(&self) -> (r: &T)
        ensures
            *r == self.engine_view(),
    {
        &self.engine
    }

    /// Answer one request: map it to the engine call of its kind, and wrap
    /// the outcome in the matching response type — an engine error becomes an
    /// `Error` response carrying the error's message, and the connection
    /// survives.
    pub fn handle_request(&mut self, req: Request) -> (r: Reply)
        requires
            old(self).inv(),
        ensures
            final(self).inv(),
            final(self).infallible() == old(self).infallible(),
            req matches Request::Get { key } ==> {
                &&& final(self).view_kv() == old(self).view_kv()
                &&& r matches Reply::Get(resp)
                &&& (resp matches GetResponse::Okay(o) ==> match o {
                    Some(v) => old(self).view_kv().contains_key(key@) && v@ == old(self).view_kv()[key@],
                    None => !old(self).view_kv().contains_key(key@),
                })
                &&& (old(self).infallible() ==> resp is Okay)
            },
            req matches Request::Rm { key } ==> {
                &&& r matches Reply::Rm(resp)
                &&& (resp is Okay ==> old(self).view_kv().contains_key(key@) && final(self).view_kv() == old(self).view_kv().remove(key@))
                &&& (!old(self).view_kv().contains_key(key@) ==> final(self).view_kv() == old(
                    self,
                ).view_kv() && (resp matches RmResponse::Error(m) && m@ == "KeyNotFound: "@
                    + key@))
                &&& (resp is Error ==> final(self).view_kv() == old(self).view_kv() || final(self).view_kv() == old(self).view_kv().remove(key@))
                &&& (old(self).infallible() && old(self).view_kv().contains_key(key@)
                    ==> resp is Okay)
            },
            req matches Request::Put { key, value } ==> {
                &&& r matches Reply::Put(resp)
                &&& (resp is Okay ==> final(self).view_kv() == old(self).view_kv().insert(
                    key@,
                    value@,
                ))
                &&& (resp is Error ==> final(self).view_kv() == old(self).view_kv() || final(self).view_kv() == old(self).view_kv().insert(key@, value@))
                &&& (old(self).infallible() ==> resp is Okay)
            },
    {
        match req {
            Request::Get { key } => match self.engine.get(key) {
                Ok(x) => Reply::Get(GetResponse::Okay(x)),
                Err(e) => Reply::Get(GetResponse::Error(e.message())),
            },
            Request::Rm { key } => match self.engine.remove(key) {
                Ok(_) => Reply::Rm(RmResponse::Okay),
                Err(e) => Reply::Rm(RmResponse::Error(e.message())),
            },
            Request::Put { key, value } => match self.engine.set(key, value) {
                Ok(_) => Reply::Put(SetResponse::Okay),
                Err(e) => Reply::Put(SetResponse::Error(e.message())),
            },
        }
    }
}

/// Which storage engine a data directory was initialised with.
#[derive(Debug, Clone, Copy, PartialEq, Eq, Structural)]
pub enum EngineKind {
    Kvs,
    Sled,
}

impl EngineKind {
    /// The characters of this engine's name.
    pub open spec fn name_spec(&self) -> Seq<char> {
        match self {
            EngineKind::Kvs => "kvs"@,
            EngineKind::Sled => "sled"@,
        }
    }

    /// The engine's name, as written in the directory's marker file.
    pub fn name(&self) -> (r: String)
        ensures
            r@ == self.name_spec(),
    {
        match self {
            EngineKind::Kvs => String::from_str("kvs"),
            EngineKind::Sled => String::from_str("sled"),
        }
    }

    /// Parse an engine name; anything but `kvs` or `sled` is a
    /// configuration error.
    pub fn parse(s: &str) -> (r: Result<EngineKind, KvError>)
        ensures
            s@ == "kvs"@ ==> r == Ok::<EngineKind, KvError>(EngineKind::Kvs),
            s@ == "sled"@ ==> r == Ok::<EngineKind, KvError>(EngineKind::Sled),
            s@ != "kvs"@ && s@ != "sled"@ ==> r == Err::<EngineKind, KvError>(KvError::Config),
    {
        proof {
            reveal_strlit("kvs");
            reveal_strlit("sled");
        }
        let n = s.unicode_len();
        if n == 3 && s.get_char(0) == 'k' && s.get_char(1) == 'v' && s.get_char(2) == 's' {
            proof {
                assert(s@ =~= "kvs"@);
            }
            Ok(EngineKind::Kvs)
        } else if n == 4 && s.get_char(0) == 's' && s.get_char(1) == 'l' && s.get_char(2) == 'e'
            && s.get_char(3) == 'd' {
            proof {
                assert(s@ =~= "sled"@);
            }
            Ok(EngineKind::Sled)
        } else {
            proof {
                if s@ == "kvs"@ {
                    assert(s@.len() == 3);
                    assert(s@[0] == 'k' && s@[1] == 'v' && s@[2] == 's');
                }
                if s@ == "sled"@ {
                    assert(s@.len() == 4);
                    assert(s@[0] == 's' && s@[1] == 'l' && s@[2] == 'e' && s@[3] == 'd');
                }
            }
            Err(KvError::Config)
        }
    }

    /// Check a directory's persisted engine marker against the selection: a
    /// directory initialised with one engine refuses to start with another.
    pub fn check_marker(&self, marker: Option<&String>) -> (r: Result<(), KvError>)
        ensures
            r is Ok <==> match marker {
                Some(m) => m@ == self.name_spec(),
                None => true,
            },
            r is Err ==> r == Err::<(), KvError>(KvError::Config),
    {
        match marker {
            None => Ok(()),
            Some(m) => {
                let mine = self.name();
                if mine == *m {
                    Ok(())
                } else {
                    Err(KvError::Config)
                }
            },
        }
    }
}


} // verus!
