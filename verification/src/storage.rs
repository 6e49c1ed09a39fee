//! The storage engine: generation-partitioned append logs and an in-memory
//! index from each live key to the byte span of its latest `Put` record.
//!
//! The engine owns the bytes of every generation log it may read, newest
//! last; the surrounding process keeps the same bytes in `<generation>.log`
//! files and replays them back at start-up. Every mutating operation returns
//! the exact record bytes it appended to the active log so the caller can
//! append them to the matching file and flush before reporting success.
use vstd::prelude::*;

verus! {

use crate::codec::{clone_bytes, DecodeStep};
use crate::log::{
    apply_record,
    decode_record,
    encode_record,
    lemma_record_decode_bounds,
    lemma_record_decode_prefix,
    lemma_record_encode_decode,
    lemma_replay_append,
    op_model,
    record_bytes,
    record_wf,
    record_decode,
    replay_from,
    Operation,
    RecordModel,
};
use crate::KvError;

/// Where one record lies: the generation whose log holds it, the byte offset
/// of its first byte, and its exact encoded length.
#[derive(Debug, Clone, Copy, PartialEq, Eq, Structural)]
pub struct IndexValue {
    pub gen: u64,
    pub offset: u64,
    pub len: u64,
}

/// The name and full contents of one generation log.
#[derive(Debug)]
pub struct LogFile {
    pub gen: u64,
    pub data: Vec<u8>,
}

/// True when `k` is one of the keys of the association list `idx`.
pub open spec fn assoc_has(idx: Seq<(String, IndexValue)>, k: Seq<char>) -> bool {
    exists|i: int| 0 <= i < idx.len() && idx[i].0@ == k
}

/// The entry bound to `k` in `idx` (meaningful when the keys are unique and
/// `k` is present).
pub open spec fn assoc_at(idx: Seq<(String, IndexValue)>, k: Seq<char>) -> IndexValue {
    idx[choose|i: int| 0 <= i < idx.len() && idx[i].0@ == k].1
}

/// True when no two rows of `idx` share a key.
pub open spec fn assoc_unique(idx: Seq<(String, IndexValue)>) -> bool {
    forall|i: int, j: int| 0 <= i < j < idx.len() ==> idx[i].0@ != idx[j].0@
}

proof fn lemma_assoc_at_index(idx: Seq<(String, IndexValue)>, k: Seq<char>, i: int)
    requires
        assoc_unique(idx),
        0 <= i < idx.len(),
        idx[i].0@ == k,
    ensures
        assoc_has(idx, k),
        assoc_at(idx, k) == idx[i].1,
{
    let j = choose|j: int| 0 <= j < idx.len() && idx[j].0@ == k;
}

/// Find the row holding `key`, if any.
fn find_key(idx: &Vec<(String, IndexValue)>, key: &String) -> (r: Option<usize>)
    ensures
        r matches Some(i) ==> i < idx@.len() && idx@[i as int].0@ == key@,
        r is None ==> !assoc_has(idx@, key@),
{
    let mut i: usize = 0;
    while i < idx.len()
        invariant
            i <= idx@.len(),
            forall|j: int| 0 <= j < i ==> idx@[j].0@ != key@,
        decreases idx@.len() - i,
    {
        let p = &idx[i];
        if p.0 == *key {
            return Some(i);
        }
        i = i + 1;
    }
    None
}

proof fn lemma_assoc_remove(idx: Seq<(String, IndexValue)>, i: int)
    requires
        assoc_unique(idx),
        0 <= i < idx.len(),
    ensures
        assoc_unique(idx.remove(i)),
        forall|k2: Seq<char>| assoc_has(idx.remove(i), k2) <==> (assoc_has(idx, k2) && k2
            != idx[i].0@),
        forall|k2: Seq<char>|
            k2 != idx[i].0@ && assoc_has(idx, k2) ==> assoc_at(idx.remove(i), k2) == assoc_at(
                idx,
                k2,
            ),
{
    let r = idx.remove(i);
    assert forall|k2: Seq<char>| assoc_has(r, k2) implies (assoc_has(idx, k2) && k2
        != idx[i].0@) by {
        let j = choose|j: int| 0 <= j < r.len() && r[j].0@ == k2;
        if j < i {
            assert(idx[j].0@ == k2);
        } else {
            assert(idx[j + 1].0@ == k2);
        }
    }
    assert forall|k2: Seq<char>| assoc_has(idx, k2) && k2 != idx[i].0@ implies assoc_has(
        r,
        k2,
    ) by {
        let j = choose|j: int| 0 <= j < idx.len() && idx[j].0@ == k2;
        if j < i {
            assert(r[j].0@ == k2);
        } else {
            assert(r[j - 1].0@ == k2);
        }
    }
    assert forall|k2: Seq<char>| k2 != idx[i].0@ && assoc_has(idx, k2) implies assoc_at(r, k2)
        == assoc_at(idx, k2) by {
        let j = choose|j: int| 0 <= j < idx.len() && idx[j].0@ == k2;
        lemma_assoc_at_index(idx, k2, j);
        if j < i {
            lemma_assoc_at_index(r, k2, j);
        } else {
            lemma_assoc_at_index(r, k2, j - 1);
        }
    }
}

proof fn lemma_assoc_push(idx: Seq<(String, IndexValue)>, key: String, e: IndexValue)
    requires
        assoc_unique(idx),
        !assoc_has(idx, key@),
    ensures
        assoc_unique(idx.push((key, e))),
        forall|k2: Seq<char>| assoc_has(idx.push((key, e)), k2) <==> (assoc_has(idx, k2) || k2
            == key@),
        assoc_at(idx.push((key, e)), key@) == e,
        forall|k2: Seq<char>|
            k2 != key@ && assoc_has(idx, k2) ==> assoc_at(idx.push((key, e)), k2) == assoc_at(
                idx,
                k2,
            ),
{
    let r = idx.push((key, e));
    assert forall|k2: Seq<char>| assoc_has(r, k2) implies (assoc_has(idx, k2) || k2 == key@) by {
        let j = choose|j: int| 0 <= j < r.len() && r[j].0@ == k2;
        if j < idx.len() {
            assert(idx[j].0@ == k2);
        }
    }
    assert forall|k2: Seq<char>| assoc_has(idx, k2) implies assoc_has(r, k2) by {
        let j = choose|j: int| 0 <= j < idx.len() && idx[j].0@ == k2;
        assert(r[j].0@ == k2);
    }
    assert(r[idx.len() as int].0@ == key@);
    lemma_assoc_at_index(r, key@, idx.len() as int);
    assert forall|k2: Seq<char>| k2 != key@ && assoc_has(idx, k2) implies assoc_at(r, k2)
        == assoc_at(idx, k2) by {
        let j = choose|j: int| 0 <= j < idx.len() && idx[j].0@ == k2;
        lemma_assoc_at_index(idx, k2, j);
        lemma_assoc_at_index(r, k2, j);
    }
}

/// Bind `key` to `e`, replacing any earlier binding.
fn index_put(idx: &mut Vec<(String, IndexValue)>, key: String, e: IndexValue)
    requires
        assoc_unique(old(idx)@),
    ensures
        assoc_unique(final(idx)@),
        forall|k2: Seq<char>| assoc_has(final(idx)@, k2) <==> (assoc_has(old(idx)@, k2) || k2
            == key@),
        assoc_at(final(idx)@, key@) == e,
        forall|k2: Seq<char>|
            k2 != key@ && assoc_has(old(idx)@, k2) ==> assoc_at(final(idx)@, k2) == assoc_at(
                old(idx)@,
                k2,
            ),
{
    let found = find_key(idx, &key);
    match found {
        Some(i) => {
            proof {
                lemma_assoc_remove(idx@, i as int);
            }
            let ghost mid = idx@.remove(i as int);
            let _ = idx.remove(i);
            proof {
                lemma_assoc_push(mid, key, e);
            }
            idx.push((key, e));
        },
        None => {
            proof {
                lemma_assoc_push(idx@, key, e);
            }
            idx.push((key, e));
        },
    }
}

/// Erase the binding of `key`; leave the list unchanged when it is absent.
fn index_remove(idx: &mut Vec<(String, IndexValue)>, key: &String)
    requires
        assoc_unique(old(idx)@),
    ensures
        assoc_unique(final(idx)@),
        forall|k2: Seq<char>| assoc_has(final(idx)@, k2) <==> (assoc_has(old(idx)@, k2) && k2
            != key@),
        forall|k2: Seq<char>|
            k2 != key@ && assoc_has(old(idx)@, k2) ==> assoc_at(final(idx)@, k2) == assoc_at(
                old(idx)@,
                k2,
            ),
{
    let found = find_key(idx, key);
    match found {
        Some(i) => {
            proof {
                lemma_assoc_remove(idx@, i as int);
            }
            let _ = idx.remove(i);
        },
        None => {
        },
    }
}

/// The names and contents of the logs, as the specifications see them.
pub open spec fn files_view(logs: Seq<LogFile>) -> Seq<(u64, Seq<u8>)> {
    logs.map_values(|lf: LogFile| (lf.gen, lf.data@))
}

/// True when the generations are strictly increasing.
pub open spec fn gens_sorted(fs: Seq<(u64, Seq<u8>)>) -> bool {
    forall|i: int, j: int| 0 <= i < j < fs.len() ==> fs[i].0 < fs[j].0
}

/// True when some log is named by generation `g`.
pub open spec fn has_gen(fs: Seq<(u64, Seq<u8>)>, g: u64) -> bool {
    exists|i: int| 0 <= i < fs.len() && fs[i].0 == g
}

/// The contents of the log named by generation `g` (meaningful when the
/// generations are unique and `g` is present).
pub open spec fn log_data(fs: Seq<(u64, Seq<u8>)>, g: u64) -> Seq<u8> {
    fs[choose|i: int| 0 <= i < fs.len() && fs[i].0 == g].1
}

proof fn lemma_log_data_index(fs: Seq<(u64, Seq<u8>)>, i: int)
    requires
        gens_sorted(fs),
        0 <= i < fs.len(),
    ensures
        has_gen(fs, fs[i].0),
        log_data(fs, fs[i].0) == fs[i].1,
{
    let g = fs[i].0;
    let j = choose|j: int| 0 <= j < fs.len() && fs[j].0 == g;
    if j < i {
        assert(fs[j].0 < fs[i].0);
    } else if j > i {
        assert(fs[i].0 < fs[j].0);
    }
}

/// True when the record is a `Put` whose key is `k`.
pub open spec fn is_put_for(r: RecordModel, k: Seq<char>) -> bool {
    r matches RecordModel::Put { key, value } && key == k
}

/// True when the index entry `e` for key `k` points at a complete `Put`
/// record for `k`: the named generation exists, the span lies inside it, and
/// the span decodes to a `Put` whose key is `k` and whose encoding fills the
/// span exactly.
pub open spec fn entry_points_to(fs: Seq<(u64, Seq<u8>)>, k: Seq<char>, e: IndexValue) -> bool {
    &&& has_gen(fs, e.gen)
    &&& e.offset + e.len <= log_data(fs, e.gen).len()
    &&& record_decode(log_data(fs, e.gen), e.offset as int) matches Some((r, end)) && end
        == e.offset + e.len && is_put_for(r, k)
}

/// The value recorded at the span the entry points to.
pub open spec fn entry_value(fs: Seq<(u64, Seq<u8>)>, e: IndexValue) -> Seq<char> {
    match record_decode(log_data(fs, e.gen), e.offset as int) {
        Some((RecordModel::Put { key, value }, end)) => value,
        _ => Seq::empty(),
    }
}

/// The key-value view an index and a set of logs denote: each live key maps
/// to the value of the record its entry points to.
pub open spec fn kv_view(
    idx: Seq<(String, IndexValue)>,
    fs: Seq<(u64, Seq<u8>)>,
) -> Map<Seq<char>, Seq<char>> {
    Map::new(|k: Seq<char>| assoc_has(idx, k), |k: Seq<char>| entry_value(fs, assoc_at(idx, k)))
}

/// Replay every log in order onto the empty view; `None` when any log is not
/// a concatenation of complete records.
pub open spec fn replay_logs(fs: Seq<(u64, Seq<u8>)>) -> Option<Map<Seq<char>, Seq<char>>>
    decreases fs.len(),
{
    if fs.len() == 0 {
        Some(Map::empty())
    } else {
        match replay_logs(fs.drop_last()) {
            Some(m) => replay_from(fs.last().1, 0, m),
            None => None,
        }
    }
}

/// True when a directory holding exactly the logs `fs` starts an engine: the
/// generations rise strictly, a fresh generation is still available, and
/// every log replays.
pub open spec fn recovery_ok(fs: Seq<(u64, Seq<u8>)>) -> bool {
    &&& gens_sorted(fs)
    &&& (fs.len() == 0 || fs.last().0 < u64::MAX)
    &&& replay_logs(fs) is Some
}

/// Extending the last log, or appending a log with a fresh generation, does
/// not disturb an entry that points into the untouched part.
proof fn lemma_entry_unchanged(
    fs: Seq<(u64, Seq<u8>)>,
    fs2: Seq<(u64, Seq<u8>)>,
    k: Seq<char>,
    e: IndexValue,
    ext: Seq<u8>,
)
    requires
        gens_sorted(fs),
        gens_sorted(fs2),
        fs2.len() >= fs.len(),
        forall|i: int| 0 <= i < fs.len() ==> fs2[i].0 == fs[i].0,
        forall|i: int| 0 <= i < fs.len() - 1 ==> fs2[i].1 == fs[i].1,
        fs.len() >= 1 ==> fs2[fs.len() - 1].1 == fs[fs.len() - 1].1 + ext,
        entry_points_to(fs, k, e),
    ensures
        entry_points_to(fs2, k, e),
        entry_value(fs2, e) == entry_value(fs, e),
{
    let i = choose|i: int| 0 <= i < fs.len() && fs[i].0 == e.gen;
    lemma_log_data_index(fs, i);
    lemma_log_data_index(fs2, i);
    let d = fs[i].1;
    let d2 = fs2[i].1;
    if i < fs.len() - 1 {
        assert(d2 == d);
    } else {
        lemma_record_decode_prefix(d, ext, e.offset as int);
    }
}


/// Binding a key to an entry whose record holds `v` inserts `v` in the view.
proof fn lemma_kv_view_put(
    idx0: Seq<(String, IndexValue)>,
    idx1: Seq<(String, IndexValue)>,
    fs: Seq<(u64, Seq<u8>)>,
    key: Seq<char>,
    e: IndexValue,
    v: Seq<char>,
)
    requires
        forall|k2: Seq<char>| assoc_has(idx1, k2) <==> (assoc_has(idx0, k2) || k2 == key),
        assoc_at(idx1, key) == e,
        forall|k2: Seq<char>|
            k2 != key && assoc_has(idx0, k2) ==> assoc_at(idx1, k2) == assoc_at(idx0, k2),
        entry_value(fs, e) == v,
    ensures
        kv_view(idx1, fs) == kv_view(idx0, fs).insert(key, v),
{
    assert(kv_view(idx1, fs) =~= kv_view(idx0, fs).insert(key, v));
}

/// Erasing a key's binding removes it from the view.
proof fn lemma_kv_view_remove(
    idx0: Seq<(String, IndexValue)>,
    idx1: Seq<(String, IndexValue)>,
    fs: Seq<(u64, Seq<u8>)>,
    key: Seq<char>,
)
    requires
        forall|k2: Seq<char>| assoc_has(idx1, k2) <==> (assoc_has(idx0, k2) && k2 != key),
        forall|k2: Seq<char>|
            k2 != key && assoc_has(idx0, k2) ==> assoc_at(idx1, k2) == assoc_at(idx0, k2),
    ensures
        kv_view(idx1, fs) == kv_view(idx0, fs).remove(key),
{
    assert(kv_view(idx1, fs) =~= kv_view(idx0, fs).remove(key));
}

/// Growing the logs (extending the last one by `ext`, then appending any new
/// ones) neither invalidates index entries nor changes the view they denote.
proof fn lemma_entries_grow(
    idx: Seq<(String, IndexValue)>,
    fs: Seq<(u64, Seq<u8>)>,
    fs2: Seq<(u64, Seq<u8>)>,
    ext: Seq<u8>,
)
    requires
        assoc_unique(idx),
        gens_sorted(fs),
        gens_sorted(fs2),
        fs2.len() >= fs.len(),
        forall|i: int| 0 <= i < fs.len() ==> fs2[i].0 == fs[i].0,
        forall|i: int| 0 <= i < fs.len() - 1 ==> fs2[i].1 == fs[i].1,
        fs.len() >= 1 ==> fs2[fs.len() - 1].1 == fs[fs.len() - 1].1 + ext,
        forall|i: int|
            0 <= i < idx.len() ==> entry_points_to(fs, idx[i].0@, #[trigger] idx[i].1),
    ensures
        forall|i: int|
            0 <= i < idx.len() ==> entry_points_to(fs2, idx[i].0@, #[trigger] idx[i].1),
        kv_view(idx, fs2) == kv_view(idx, fs),
{
    assert forall|i: int| 0 <= i < idx.len() implies entry_points_to(
        fs2,
        idx[i].0@,
        #[trigger] idx[i].1,
    ) by {
        lemma_entry_unchanged(fs, fs2, idx[i].0@, idx[i].1, ext);
    }
    assert(kv_view(idx, fs2) =~= kv_view(idx, fs)) by {
        assert forall|k2: Seq<char>| assoc_has(idx, k2) implies entry_value(fs2, assoc_at(idx, k2))
            == entry_value(fs, assoc_at(idx, k2)) by {
            let j = choose|j: int| 0 <= j < idx.len() && idx[j].0@ == k2;
            lemma_assoc_at_index(idx, k2, j);
            lemma_entry_unchanged(fs, fs2, k2, idx[j].1, ext);
        }
    }
}

/// Once some prefix of the logs fails to replay, the whole set fails.
proof fn lemma_replay_logs_none_extend(fs: Seq<(u64, Seq<u8>)>, j: int)
    requires
        0 <= j <= fs.len(),
        replay_logs(fs.take(j)) is None,
    ensures
        replay_logs(fs) is None,
    decreases fs.len(),
{
    if j == fs.len() {
        assert(fs.take(j) =~= fs);
    } else {
        assert(fs.drop_last().take(j) =~= fs.take(j));
        lemma_replay_logs_none_extend(fs.drop_last(), j);
    }
}

/// The storage engine: the active generation, the index, and the contents of
/// every generation log, oldest first; the last log is the active one that
/// new records are appended to.
pub struct KVStorage {
    gen: u64,
    index: Vec<(String, IndexValue)>,
    logs: Vec<LogFile>,
}

impl KVStorage {
    /// The logs, by name and contents.
    pub closed spec fn files(self) -> Seq<(u64, Seq<u8>)> {
        files_view(self.logs@)
    }

    /// The active generation.
    pub closed spec fn generation(self) -> u64 {
        self.gen
    }

    /// The rows of the index.
    pub closed spec fn entries(self) -> Seq<(String, IndexValue)> {
        self.index@
    }

    /// The contents of the active log.
    pub closed spec fn active_data(self) -> Seq<u8> {
        self.logs@.last().data@
    }

    /// The key-value view of the store.
    pub closed spec fn kv(self) -> Map<Seq<char>, Seq<char>> {
        kv_view(self.index@, self.files())
    }

    /// The engine's invariant: at least the active log is open, generations
    /// rise strictly and the active one is newest, index keys are unique,
    /// every index entry points at a complete `Put` record for its key, and
    /// the index is exactly what replaying every log yields.
    pub closed spec fn wf(self) -> bool {
        &&& self.logs@.len() >= 1
        &&& gens_sorted(self.files())
        &&& self.files().last().0 == self.gen
        &&& assoc_unique(self.index@)
        &&& forall|i: int|
            0 <= i < self.index@.len() ==> entry_points_to(
                self.files(),
                self.index@[i].0@,
                #[trigger] self.index@[i].1,
            )
        &&& replay_logs(self.files()) == Some(self.kv())
    }

    /// Append a `Put` record for `key`/`value` to the active log, point the
    /// index at it, and return the appended bytes for the caller to persist.
    pub fn insert(&mut self, key: String, value: String) -> (r: Vec<u8>)
        requires
            old(self).wf(),
        ensures
            final(self).wf(),
            final(self).kv() == old(self).kv().insert(key@, value@),
            final(self).generation() == old(self).generation(),
            r@ == record_bytes(RecordModel::Put { key: key@, value: value@ }),
            final(self).files().len() == old(self).files().len(),
            forall|i: int|
                0 <= i < final(self).files().len() - 1 ==> final(self).files()[i] == old(self).files()[i],
            final(self).active_data() == old(self).active_data() + r@,
    {
        let ghost fs0 = self.files();
        let ghost kv0 = self.kv();
        let op = Operation::Put(key, value);
        let rec = encode_record(&op);
        let ret = clone_bytes(&rec);
        let mut active = self.logs.pop().unwrap();
        let pos: usize = active.data.len();
        let mut recbuf = rec;
        active.data.append(&mut recbuf);
        self.logs.push(active);
        let ghost fs1 = self.files();
        proof {
            assert(fs1 =~= fs0.update(fs0.len() - 1, (self.gen, fs0.last().1 + ret@)));
        }
        let e = IndexValue { gen: self.gen, offset: pos as u64, len: ret.len() as u64 };
        let ghost r = RecordModel::Put { key: key@, value: value@ };
        proof {
            assert(log_data(fs1, self.gen) == fs1.last().1) by {
                lemma_log_data_index(fs1, fs1.len() - 1);
            }
            assert(fs1.last().1.subrange(pos as int, pos + record_bytes(r).len() as int)
                =~= record_bytes(r));
            lemma_record_encode_decode(fs1.last().1, pos as int, r);
        }
        match op {
            Operation::Put(k, _) => {
                index_put(&mut self.index, k, e);
            },
            Operation::Rm(_) => {
            },
        }
        proof {
            self.lemma_after_append(*old(self), fs0, fs1, kv0, key@, e, r);
        }
        ret
    }

    /// Shared closing argument for `insert` and `delete`: after appending one
    /// record to the active log and updating the index accordingly, the
    /// invariant holds again and the view took exactly that record.
    proof fn lemma_after_append(
        self,
        prev: KVStorage,
        fs0: Seq<(u64, Seq<u8>)>,
        fs1: Seq<(u64, Seq<u8>)>,
        kv0: Map<Seq<char>, Seq<char>>,
        key: Seq<char>,
        e: IndexValue,
        r: RecordModel,
    )
        requires
            prev.wf(),
            fs0 == prev.files(),
            kv0 == prev.kv(),
            fs1 == self.files(),
            self.generation() == prev.generation(),
            record_wf(r),
            fs1 =~= fs0.update(fs0.len() - 1, (prev.generation(), fs0.last().1
                + record_bytes(r))),
            // how the record relates to the key and the new entry
            match r {
                RecordModel::Put { key: rk, value: rv } => {
                    &&& rk == key
                    &&& e.gen == prev.generation()
                    &&& e.offset == fs0.last().1.len()
                    &&& e.len == record_bytes(r).len()
                    &&& assoc_unique(self.entries())
                    &&& forall|k2: Seq<char>| assoc_has(self.entries(), k2) <==> (assoc_has(
                        prev.entries(),
                        k2,
                    ) || k2 == key)
                    &&& assoc_at(self.entries(), key) == e
                    &&& forall|k2: Seq<char>|
                        k2 != key && assoc_has(prev.entries(), k2) ==> assoc_at(
                            self.entries(),
                            k2,
                        ) == assoc_at(prev.entries(), k2)
                },
                RecordModel::Remove { key: rk } => {
                    &&& rk == key
                    &&& assoc_unique(self.entries())
                    &&& forall|k2: Seq<char>| assoc_has(self.entries(), k2) <==> (assoc_has(
                        prev.entries(),
                        k2,
                    ) && k2 != key)
                    &&& forall|k2: Seq<char>|
                        k2 != key && assoc_has(prev.entries(), k2) ==> assoc_at(
                            self.entries(),
                            k2,
                        ) == assoc_at(prev.entries(), k2)
                },
            },
        ensures
            self.wf(),
            self.kv() == apply_record(kv0, r),
    {
        let gen = prev.generation();
        assert(gens_sorted(fs1));
        assert(fs1.last().0 == gen);
        assert(log_data(fs1, gen) == fs1.last().1) by {
            lemma_log_data_index(fs1, fs1.len() - 1);
        }
        assert(fs1.last().1.subrange(
            fs0.last().1.len() as int,
            fs0.last().1.len() + record_bytes(r).len() as int,
        ) =~= record_bytes(r));
        lemma_record_encode_decode(fs1.last().1, fs0.last().1.len() as int, r);
        // entries of the previous index are undisturbed
        assert forall|k2: Seq<char>| assoc_has(prev.entries(), k2) implies entry_points_to(
            fs1,
            k2,
            assoc_at(prev.entries(), k2),
        ) && entry_value(fs1, assoc_at(prev.entries(), k2)) == entry_value(
            fs0,
            assoc_at(prev.entries(), k2),
        ) by {
            let j = choose|j: int| 0 <= j < prev.entries().len() && prev.entries()[j].0@ == k2;
            lemma_assoc_at_index(prev.entries(), k2, j);
            assert(entry_points_to(fs0, k2, prev.entries()[j].1));
            assert(fs1[fs0.len() - 1].1 == fs0[fs0.len() - 1].1 + record_bytes(r));
            lemma_entry_unchanged(fs0, fs1, k2, prev.entries()[j].1, record_bytes(r));
        }
        // every index entry points at its record
        assert forall|i: int| 0 <= i < self.entries().len() implies entry_points_to(
            self.files(),
            self.entries()[i].0@,
            #[trigger] self.entries()[i].1,
        ) by {
            let k2 = self.entries()[i].0@;
            lemma_assoc_at_index(self.entries(), k2, i);
            match r {
                RecordModel::Put { key: rk, value: rv } => {
                    if k2 == key {
                        assert(self.entries()[i].1 == e);
                        assert(entry_points_to(fs1, k2, e));
                    } else {
                        assert(assoc_has(prev.entries(), k2));
                    }
                },
                RecordModel::Remove { key: rk } => {
                    assert(assoc_has(prev.entries(), k2) && k2 != key);
                },
            }
        }
        // the view took exactly this record
        assert(self.kv() =~= apply_record(kv0, r)) by {
            assert forall|k2: Seq<char>| #[trigger] apply_record(kv0, r).contains_key(k2) implies
                self.kv().contains_key(k2) && self.kv()[k2] == apply_record(kv0, r)[k2] by {
                match r {
                    RecordModel::Put { key: rk, value: rv } => {
                        if k2 == key {
                            assert(entry_points_to(fs1, key, e));
                            assert(entry_value(fs1, e) == rv);
                        } else {
                            assert(kv0.contains_key(k2));
                            assert(self.kv()[k2] == entry_value(fs1, assoc_at(self.entries(), k2)));
                        }
                    },
                    RecordModel::Remove { key: rk } => {
                        assert(kv0.contains_key(k2) && k2 != key);
                    },
                }
            }
            assert forall|k2: Seq<char>| #[trigger] self.kv().contains_key(k2) implies
                apply_record(kv0, r).contains_key(k2) by {
            }
        }
        // replay still matches
        let m_prev = replay_logs(fs0.drop_last())->Some_0;
        assert(replay_logs(fs0.drop_last()) is Some && replay_from(fs0.last().1, 0, m_prev)
            == Some(kv0));
        assert(fs1.drop_last() =~= fs0.drop_last());
        lemma_replay_append(fs0.last().1, 0, m_prev, r);
        assert(replay_logs(fs1) == Some(apply_record(kv0, r)));
    }

    /// Append a `Rm` record for `key`, erase its index entry, and return the
    /// appended bytes for the caller to persist; removing an absent key
    /// writes nothing and reports `KeyNotFound`.
    pub fn delete(&mut self, key: String) -> (r: Result<Vec<u8>, KvError>)
        requires
            old(self).wf(),
        ensures
            final(self).wf(),
            final(self).generation() == old(self).generation(),
            !old(self).kv().contains_key(key@) ==> *final(self) == *old(self) && (r matches Err(e)
                && e == KvError::KeyNotFound(key)),
            old(self).kv().contains_key(key@) ==> (r matches Ok(b) && {
                &&& b@ == record_bytes(RecordModel::Remove { key: key@ })
                &&& final(self).kv() == old(self).kv().remove(key@)
                &&& final(self).files().len() == old(self).files().len()
                &&& forall|i: int|
                    0 <= i < final(self).files().len() - 1 ==> final(self).files()[i] == old(self).files()[i]
                &&& final(self).active_data() == old(self).active_data() + b@
            }),
    {
        let present = find_key(&self.index, &key);
        if present.is_none() {
            return Err(KvError::KeyNotFound(key));
        }
        proof {
            let i = present->Some_0 as int;
            lemma_assoc_at_index(self.index@, key@, i);
        }
        let ghost fs0 = self.files();
        let ghost kv0 = self.kv();
        let op = Operation::Rm(key);
        let rec = encode_record(&op);
        let ret = clone_bytes(&rec);
        let mut active = self.logs.pop().unwrap();
        let mut recbuf = rec;
        active.data.append(&mut recbuf);
        self.logs.push(active);
        let ghost fs1 = self.files();
        proof {
            assert(fs1 =~= fs0.update(fs0.len() - 1, (self.gen, fs0.last().1 + ret@)));
        }
        let ghost r = RecordModel::Remove { key: op->Rm_0@ };
        match op {
            Operation::Rm(k) => {
                index_remove(&mut self.index, &k);
                proof {
                    self.lemma_after_append(
                        *old(self),
                        fs0,
                        fs1,
                        kv0,
                        k@,
                        IndexValue { gen: 0, offset: 0, len: 0 },
                        r,
                    );
                }
                Ok(ret)
            },
            Operation::Put(_, _) => {
                vstd::pervasive::unreached()
            },
        }
    }


    /// Replay one log's records into the index, exactly as the live
    /// operations would: a `Put` binds its key to the record's span, a `Rm`
    /// erases the key. `prev` names the logs already replayed.
    fn load_log(
        gen: u64,
        index: &mut Vec<(String, IndexValue)>,
        data: &Vec<u8>,
        Ghost(prev): Ghost<Seq<(u64, Seq<u8>)>>,
    ) -> (r: Result<(), KvError>)
        requires
            assoc_unique(old(index)@),
            gens_sorted(prev + seq![(gen, data@)]),
            forall|i: int|
                0 <= i < old(index)@.len() ==> entry_points_to(
                    prev,
                    old(index)@[i].0@,
                    #[trigger] old(index)@[i].1,
                ),
        ensures
            r is Ok ==> {
                let fs = prev + seq![(gen, data@)];
                &&& assoc_unique(final(index)@)
                &&& forall|i: int|
                    0 <= i < final(index)@.len() ==> entry_points_to(
                        fs,
                        final(index)@[i].0@,
                        #[trigger] final(index)@[i].1,
                    )
                &&& replay_from(data@, 0, kv_view(old(index)@, prev)) == Some(
                    kv_view(final(index)@, fs),
                )
            },
            r is Err ==> r == Err::<(), KvError>(KvError::Codec) && replay_from(
                data@,
                0,
                kv_view(old(index)@, prev),
            ) is None,
    {
        let ghost fs = prev + seq![(gen, data@)];
        proof {
            assert(gens_sorted(prev)) by {
                assert(forall|i: int| 0 <= i < prev.len() ==> prev[i] == fs[i]);
            }
            if prev.len() >= 1 {
                assert(fs[prev.len() - 1].1 == prev[prev.len() - 1].1 + Seq::<u8>::empty()) by {
                    assert(prev[prev.len() - 1].1 + Seq::<u8>::empty() =~= prev[prev.len()
                        - 1].1);
                }
            }
            lemma_entries_grow(old(index)@, prev, fs, Seq::<u8>::empty());
        }
        let ghost m0 = kv_view(old(index)@, prev);
        let mut pos: usize = 0;
        while pos < data.len()
            invariant
                pos <= data@.len(),
                assoc_unique(index@),
                fs == prev + seq![(gen, data@)],
                gens_sorted(fs),
                m0 == kv_view(old(index)@, prev),
                forall|i: int|
                    0 <= i < index@.len() ==> entry_points_to(
                        fs,
                        index@[i].0@,
                        #[trigger] index@[i].1,
                    ),
                replay_from(data@, pos as int, kv_view(index@, fs)) == replay_from(data@, 0, m0),
            decreases data@.len() - pos,
        {
            match decode_record(data, pos) {
                DecodeStep::Done(op, end) => {
                    proof {
                        lemma_record_decode_bounds(data@, pos as int);
                        lemma_log_data_index(fs, fs.len() - 1);
                        assert(log_data(fs, gen) == data@);
                    }
                    let ghost m_before = kv_view(index@, fs);
                    let ghost idx_before = index@;
                    match op {
                        Operation::Put(k, _) => {
                            let e = IndexValue {
                                gen,
                                offset: pos as u64,
                                len: (end - pos) as u64,
                            };
                            let ghost kk = k@;
                            index_put(index, k, e);
                            proof {
                                assert(entry_points_to(fs, kk, e));
                                lemma_kv_view_put(
                                    idx_before,
                                    index@,
                                    fs,
                                    kk,
                                    e,
                                    entry_value(fs, e),
                                );
                                assert forall|i2: int| 0 <= i2 < index@.len() implies
                                    entry_points_to(
                                    fs,
                                    index@[i2].0@,
                                    #[trigger] index@[i2].1,
                                ) by {
                                    let k2 = index@[i2].0@;
                                    lemma_assoc_at_index(index@, k2, i2);
                                    if k2 != kk {
                                        let j = choose|j: int|
                                            0 <= j < idx_before.len() && idx_before[j].0@ == k2;
                                        lemma_assoc_at_index(idx_before, k2, j);
                                    }
                                }
                            }
                        },
                        Operation::Rm(k) => {
                            let ghost kk = k@;
                            index_remove(index, &k);
                            proof {
                                lemma_kv_view_remove(idx_before, index@, fs, kk);
                                assert forall|i2: int| 0 <= i2 < index@.len() implies
                                    entry_points_to(
                                    fs,
                                    index@[i2].0@,
                                    #[trigger] index@[i2].1,
                                ) by {
                                    let k2 = index@[i2].0@;
                                    lemma_assoc_at_index(index@, k2, i2);
                                    let j = choose|j: int|
                                        0 <= j < idx_before.len() && idx_before[j].0@ == k2;
                                    lemma_assoc_at_index(idx_before, k2, j);
                                }
                            }
                        },
                    }
                    pos = end;
                },
                DecodeStep::Incomplete => {
                    return Err(KvError::Codec);
                },
                DecodeStep::Invalid => {
                    return Err(KvError::Codec);
                },
            }
        }
        Ok(())
    }

    /// Open an engine over the recovered logs, oldest first: replay each log
    /// in generation order to rebuild the index, then open a fresh, strictly
    /// newer active generation. Fails with a configuration error when the
    /// generations do not rise strictly or no newer generation is available,
    /// and with a codec error when some log does not replay.
    pub fn new(files: Vec<LogFile>) -> (r: Result<KVStorage, KvError>)
        ensures
            r matches Ok(e) ==> {
                &&& e.wf()
                &&& replay_logs(files_view(files@)) == Some(e.kv())
                &&& forall|i: int|
                    0 <= i < files@.len() ==> e.generation() > #[trigger] files@[i].gen
                &&& (files@.len() == 0 ==> e.generation() == 1)
                &&& (files@.len() > 0 ==> e.generation() == files_view(files@).last().0 + 1)
                &&& e.files() == files_view(files@) + seq![
                    (e.generation(), Seq::<u8>::empty()),
                ]
            },
            r is Ok <==> recovery_ok(files_view(files@)),
            r == Err::<KVStorage, KvError>(KvError::Config) <==> !(gens_sorted(files_view(files@))
                && (files@.len() == 0 || files_view(files@).last().0 < u64::MAX)),
            r == Err::<KVStorage, KvError>(KvError::Codec) <==> (gens_sorted(files_view(files@))
                && (files@.len() == 0 || files_view(files@).last().0 < u64::MAX) && replay_logs(
                files_view(files@),
            ) is None),
    {
        let n = files.len();
        let mut i: usize = 1;
        while i < n
            invariant
                1 <= i,
                n == files@.len(),
                forall|a: int, b: int| 0 <= a < b < i ==> files@[a].gen < files@[b].gen,
            decreases n - i,
        {
            if files[i - 1].gen >= files[i].gen {
                proof {
                    let fv = files_view(files@);
                    assert(fv[i - 1].0 == files@[i - 1].gen);
                    assert(fv[i as int].0 == files@[i as int].gen);
                    assert(!gens_sorted(fv));
                }
                return Err(KvError::Config);
            }
            i = i + 1;
        }
        assert(gens_sorted(files_view(files@)));
        let gen: u64 = if n == 0 {
            1
        } else {
            let lastg = files[n - 1].gen;
            if lastg == u64::MAX {
                proof {
                    let fv = files_view(files@);
                    assert(fv.last().0 == files@[n - 1].gen);
                    assert(!recovery_ok(fv));
                }
                return Err(KvError::Config);
            }
            lastg + 1
        };
        let ghost fv0 = files_view(files@);
        let mut index: Vec<(String, IndexValue)> = Vec::new();
        
        proof {
            assert(kv_view(index@, files_view(files@.take(0))) =~= Map::<
                Seq<char>,
                Seq<char>,
            >::empty());
        }
        let mut k: usize = 0;
        while k < n
            invariant
                k <= n,
                n == files@.len(),
                fv0 == files_view(files@),
                gens_sorted(files_view(files@)),
                files@.len() == 0 || files_view(files@).last().0 < u64::MAX,
                assoc_unique(index@),
                forall|i: int|
                    0 <= i < index@.len() ==> entry_points_to(
                        files_view(files@.take(k as int)),
                        index@[i].0@,
                        #[trigger] index@[i].1,
                    ),
                replay_logs(files_view(files@.take(k as int))) == Some(
                    kv_view(index@, files_view(files@.take(k as int))),
                ),
            decreases n - k,
        {
            let g = files[k].gen;
            let ghost prevfs = files_view(files@.take(k as int));
            proof {
                assert(prevfs + seq![(g, files@[k as int].data@)] =~= files_view(
                    files@.take(k as int + 1),
                ));
                let ghost fsk1 = files_view(files@.take(k as int + 1));
                assert(gens_sorted(fsk1)) by {
                    assert forall|a: int, b: int| 0 <= a < b < fsk1.len() implies fsk1[a].0
                        < fsk1[b].0 by {
                        assert(fsk1[a].0 == files@[a].gen);
                        assert(fsk1[b].0 == files@[b].gen);
                        assert(files_view(files@)[a].0 == files@[a].gen);
                        assert(files_view(files@)[b].0 == files@[b].gen);
                    }
                }
            }
            let ghost idx_before = index@;
            let res = KVStorage::load_log(g, &mut index, &files[k].data, Ghost(prevfs));
            match res {
                Ok(()) => {},
                Err(_) => {
                    proof {
                        assert(replay_logs(files_view(files@.take(k as int + 1))) is None) by {
                            let fsk1 = files_view(files@.take(k as int + 1));
                            assert(fsk1.drop_last() =~= prevfs);
                            assert(fsk1.last().1 == files@[k as int].data@);
                            assert(replay_logs(prevfs) == Some(kv_view(idx_before, prevfs)));
                            assert(replay_from(
                                files@[k as int].data@,
                                0,
                                kv_view(idx_before, prevfs),
                            ) is None);
                        }
                        assert(files_view(files@).take(k as int + 1) =~= files_view(
                            files@.take(k as int + 1),
                        ));
                        lemma_replay_logs_none_extend(files_view(files@), k as int + 1);
                        assert(!recovery_ok(fv0));
                    }
                    return Err(KvError::Codec);
                },
            }
            proof {
                let fsk1 = files_view(files@.take(k as int + 1));
                assert(fsk1.drop_last() =~= prevfs);
                assert(fsk1.last().1 == files@[k as int].data@);
                assert(replay_logs(fsk1) == Some(kv_view(index@, fsk1)));
            }
            k = k + 1;
        }
        let ghost fsall = files_view(files@);
        let mut logs = files;
        proof {
            assert(files@.take(n as int) =~= files@);
        }
        logs.push(LogFile { gen, data: Vec::new() });
        let st = KVStorage { gen, index, logs };
        proof {
            let fs2 = files_view(st.logs@);
            assert(fs2 =~= fsall + seq![(gen, Seq::<u8>::empty())]);
            assert(gens_sorted(fs2)) by {
                assert(forall|a: int| 0 <= a < fsall.len() ==> fs2[a] == fsall[a]);
                assert(forall|a: int|
                    0 <= a < fsall.len() ==> fsall[a].0 < gen);
            }
            if fsall.len() >= 1 {
                assert(fs2[fsall.len() - 1].1 == fsall[fsall.len() - 1].1 + Seq::<u8>::empty())
                    by {
                    assert(fsall[fsall.len() - 1].1 + Seq::<u8>::empty() =~= fsall[fsall.len()
                        - 1].1);
                }
            }
            lemma_entries_grow(st.index@, fsall, fs2, Seq::<u8>::empty());
            assert(replay_logs(fs2) == Some(st.kv())) by {
                assert(fs2.drop_last() =~= fsall);
                assert(replay_from(Seq::<u8>::empty(), 0, kv_view(st.index@, fsall)) == Some(
                    kv_view(st.index@, fsall),
                ));
            }
            assert(st.wf());
        }
        Ok(st)
    }

    /// Read the value of `key`: look its entry up, decode the span the entry
    /// points to, and return the recorded value; absent keys read as `None`.
    pub fn get(&mut self, key: String) -> (r: Result<Option<String>, KvError>)
        requires
            old(self).wf(),
        ensures
            *final(self) == *old(self),
            old(self).kv().contains_key(key@) ==> (r matches Ok(o) && o matches Some(v) && v@
                == old(self).kv()[key@]),
            !old(self).kv().contains_key(key@) ==> r == Ok::<Option<String>, KvError>(None),
    {
        let found = find_key(&self.index, &key);
        let i = match found {
            Some(i) => i,
            None => {
                return Ok(None);
            },
        };
        let e: IndexValue = self.index[i].1;
        proof {
            lemma_assoc_at_index(self.index@, key@, i as int);
        }
        let mut j: usize = 0;
        let n = self.logs.len();
        while j < n && self.logs[j].gen != e.gen
            invariant
                j <= n,
                n == self.logs@.len(),
                forall|l: int| 0 <= l < j ==> self.logs@[l].gen != e.gen,
            decreases n - j,
    {
            j = j + 1;
        }
        if j == n {
            proof {
                assert(entry_points_to(self.files(), key@, e));
                let w = choose|w: int| 0 <= w < self.files().len() && self.files()[w].0 == e.gen;
                assert(self.logs@[w].gen == e.gen);
            }
            return Err(KvError::InvariantViolation);
        }
        proof {
            lemma_log_data_index(self.files(), j as int);
            assert(log_data(self.files(), e.gen) == self.logs@[j as int].data@);
            assert(entry_points_to(self.files(), key@, e));
            assert(e.offset <= self.logs@[j as int].data@.len());
        }
        let lf = &self.logs[j];
        let dlen: usize = lf.data.len();
        proof {
            assert(e.offset <= dlen);
            assert(e.offset as usize as int == e.offset as int);
        }
        match decode_record(&lf.data, e.offset as usize) {
            DecodeStep::Done(op, _end) => {
                proof {
                    assert(record_decode(lf.data@, e.offset as int) == Some(
                        (op_model(op), _end as int),
                    ));
                    assert(self.kv()[key@] == entry_value(self.files(), e));
                }
                match op {
                    Operation::Put(_, v) => Ok(Some(v)),
                    Operation::Rm(_) => Err(KvError::InvariantViolation),
                }
            },
            DecodeStep::Incomplete => Err(KvError::InvariantViolation),
            DecodeStep::Invalid => Err(KvError::InvariantViolation),
        }
    }
}


/// True when `c` is a decimal digit.
pub open spec fn is_digit(c: char) -> bool {
    48 <= c as u32 <= 57
}

/// The value of the digit `c`.
pub open spec fn digit_val(c: char) -> nat {
    (c as u32 - 48) as nat
}

/// True when every character of `s` is a decimal digit.
pub open spec fn all_digits(s: Seq<char>) -> bool {
    forall|i: int| 0 <= i < s.len() ==> is_digit(#[trigger] s[i])
}

/// The value of the decimal numeral `s`.
pub open spec fn digits_val(s: Seq<char>) -> nat
    decreases s.len(),
{
    if s.len() == 0 {
        0
    } else {
        digits_val(s.drop_last()) * 10 + digit_val(s.last())
    }
}

/// The characters before the `.log` suffix.
pub open spec fn log_stem(s: Seq<char>) -> Seq<char> {
    s.subrange(0, s.len() - 4)
}

/// True when `s` names a generation log: a decimal numeral with no leading
/// zero (other than `0` itself), then `.log`.
pub open spec fn is_log_name(s: Seq<char>) -> bool {
    &&& s.len() >= 5
    &&& s.subrange(s.len() - 4, s.len() as int) == ".log"@
    &&& all_digits(log_stem(s))
    &&& (log_stem(s).len() == 1 || log_stem(s)[0] != '0')
}

/// The digit character for `d`.
pub open spec fn digit_char(d: nat) -> char {
    if d == 0 {
        '0'
    } else if d == 1 {
        '1'
    } else if d == 2 {
        '2'
    } else if d == 3 {
        '3'
    } else if d == 4 {
        '4'
    } else if d == 5 {
        '5'
    } else if d == 6 {
        '6'
    } else if d == 7 {
        '7'
    } else if d == 8 {
        '8'
    } else {
        '9'
    }
}

/// The decimal numeral of `n`, most significant digit first.
pub open spec fn dec_chars(n: nat) -> Seq<char>
    decreases n,
{
    if n < 10 {
        seq![digit_char(n)]
    } else {
        dec_chars(n / 10) + seq![digit_char(n % 10)]
    }
}

/// A numeral's prefix never exceeds the whole numeral's value.
proof fn lemma_digits_val_take(s: Seq<char>, j: int)
    requires
        0 <= j <= s.len(),
    ensures
        digits_val(s.take(j)) <= digits_val(s),
    decreases s.len(),
{
    if j == s.len() {
        assert(s.take(j) =~= s);
    } else {
        assert(s.drop_last().take(j) =~= s.take(j));
        lemma_digits_val_take(s.drop_last(), j);
        assert(digits_val(s.drop_last()) * 10 >= digits_val(s.drop_last()));
    }
}

/// The digit for `d`, as a one-character string.
fn digit_str(d: u64) -> (r: &'static str)
    requires
        d < 10,
    ensures
        r@ == seq![digit_char(d as nat)],
{
    proof {
        reveal_strlit("0");
        reveal_strlit("1");
        reveal_strlit("2");
        reveal_strlit("3");
        reveal_strlit("4");
        reveal_strlit("5");
        reveal_strlit("6");
        reveal_strlit("7");
        reveal_strlit("8");
        reveal_strlit("9");
    }
    let r = if d == 0 {
        "0"
    } else if d == 1 {
        "1"
    } else if d == 2 {
        "2"
    } else if d == 3 {
        "3"
    } else if d == 4 {
        "4"
    } else if d == 5 {
        "5"
    } else if d == 6 {
        "6"
    } else if d == 7 {
        "7"
    } else if d == 8 {
        "8"
    } else {
        "9"
    };
    proof {
        assert(r@ =~= seq![digit_char(d as nat)]);
    }
    r
}

/// Append the decimal numeral of `n` to `out`.
fn push_digits(out: &mut String, n: u64)
    ensures
        final(out)@ == old(out)@ + dec_chars(n as nat),
    decreases n,
{
    if n >= 10 {
        push_digits(out, n / 10);
        let d = n % 10;
        out.append(digit_str(d));
        proof {
            assert(out@ =~= old(out)@ + dec_chars(n as nat));
        }
    } else {
        out.append(digit_str(n));
        proof {
            assert(out@ =~= old(out)@ + dec_chars(n as nat));
        }
    }
}

/// The file name of one generation log: `<generation>.log`.
pub struct LogName(pub String);

impl LogName {
    /// Render the name of generation `num`.
    pub fn from(num: &u64) -> (r: LogName)
        ensures
            r.0@ == dec_chars(*num as nat) + ".log"@,
    {
        let mut s = String::new();
        push_digits(&mut s, *num);
        s.append(".log");
        LogName(s)
    }

    /// True when `name` is a well-formed log-file name.
    pub fn is_log(name: &str) -> (r: bool)
        ensures
            r == is_log_name(name@),
    {
        let n = name.unicode_len();
        if n < 5 {
            return false;
        }
        proof {
            reveal_strlit(".log");
        }
        if name.get_char(n - 4) != '.' || name.get_char(n - 3) != 'l' || name.get_char(n - 2)
            != 'o' || name.get_char(n - 1) != 'g' {
            proof {
                if name@.subrange(n - 4, n as int) == ".log"@ {
                    assert(name@[n - 4] == ".log"@[0]);
                    assert(name@[n - 3] == ".log"@[1]);
                    assert(name@[n - 2] == ".log"@[2]);
                    assert(name@[n - 1] == ".log"@[3]);
                }
            }
            return false;
        }
        proof {
            assert(name@.subrange(n - 4, n as int) =~= ".log"@);
        }
        let m = n - 4;
        if m > 1 && name.get_char(0) == '0' {
            proof {
                assert(log_stem(name@)[0] == '0');
            }
            return false;
        }
        let mut i: usize = 0;
        while i < m
            invariant
                i <= m,
                m == n - 4,
                n == name@.len(),
                5 <= n,
                forall|j: int| 0 <= j < i ==> is_digit(#[trigger] name@[j]),
            decreases m - i,
        {
            let c = name.get_char(i);
            let u = c as u32;
            if u < 48 || u > 57 {
                proof {
                    assert(log_stem(name@)[i as int] == name@[i as int]);
                    assert(!is_digit(name@[i as int]));
                }
                return false;
            }
            i = i + 1;
        }
        proof {
            assert forall|j: int| 0 <= j < log_stem(name@).len() implies is_digit(
                #[trigger] log_stem(name@)[j],
            ) by {
                assert(log_stem(name@)[j] == name@[j]);
            }
        }
        true
    }
}

/// Parse the generation a log-file name names; `None` when its numeral does
/// not fit an unsigned 64-bit generation.
fn parse_generation(name: &str) -> (r: Option<u64>)
    requires
        is_log_name(name@),
    ensures
        r matches Some(g) ==> g as nat == digits_val(log_stem(name@)),
        r is None ==> digits_val(log_stem(name@)) > u64::MAX,
{
    let ghost stem = log_stem(name@);
    let n = name.unicode_len();
    let m = n - 4;
    let mut acc: u64 = 0;
    let mut i: usize = 0;
    while i < m
        invariant
            i <= m,
            m == n - 4,
            n == name@.len(),
            is_log_name(name@),
            stem == log_stem(name@),
            acc as nat == digits_val(stem.take(i as int)),
        decreases m - i,
    {
        let c = name.get_char(i);
        proof {
            assert(stem[i as int] == name@[i as int]);
            assert(is_digit(name@[i as int]));
            assert(stem.take(i as int + 1).drop_last() =~= stem.take(i as int));
            assert(stem.take(i as int + 1).last() == stem[i as int]);
        }
        let d: u64 = (c as u32 - 48) as u64;
        let step = match acc.checked_mul(10) {
            Some(x) => x.checked_add(d),
            None => None,
        };
        match step {
            Some(x) => {
                acc = x;
            },
            None => {
                proof {
                    assert(digits_val(stem.take(i as int + 1)) > u64::MAX);
                    lemma_digits_val_take(stem, i as int + 1);
                }
                return None;
            },
        }
        i = i + 1;
    }
    proof {
        assert(stem.take(m as int) =~= stem);
    }
    Some(acc)
}

/// True when `s` never decreases.
pub open spec fn sorted_u64(s: Seq<u64>) -> bool {
    forall|a: int, b: int| 0 <= a < b < s.len() ==> s[a] <= s[b]
}

/// The values of `s`, as a sequence of naturals.
pub open spec fn nats_of(s: Seq<u64>) -> Seq<nat> {
    Seq::new(s.len(), |i: int| s[i] as nat)
}

/// The generations the log-file names among `names` name, in the order the
/// names come in.
pub open spec fn log_gens(names: Seq<String>) -> Seq<nat>
    decreases names.len(),
{
    if names.len() == 0 {
        Seq::empty()
    } else {
        log_gens(names.drop_last()) + (if is_log_name(names.last()@) {
            seq![digits_val(log_stem(names.last()@))]
        } else {
            Seq::empty()
        })
    }
}

/// Whatever generation a prefix of the names yields, the whole list yields.
proof fn lemma_log_gens_extend(names: Seq<String>, j: int)
    requires
        0 <= j <= names.len(),
    ensures
        forall|x: nat|
            log_gens(names.take(j)).contains(x) ==> #[trigger] log_gens(names).contains(x),
    decreases names.len(),
{
    if j == names.len() {
        assert(names.take(j) =~= names);
    } else {
        assert(names.drop_last().take(j) =~= names.take(j));
        lemma_log_gens_extend(names.drop_last(), j);
        assert forall|x: nat| log_gens(names.drop_last()).contains(x) implies #[trigger] log_gens(
            names,
        ).contains(x) by {
            let w = choose|w: int|
                0 <= w < log_gens(names.drop_last()).len() && log_gens(names.drop_last())[w] == x;
            assert(log_gens(names)[w] == x);
        }
    }
}

/// Insert `x` into the sorted vector `v`, keeping it sorted.
fn sorted_insert(v: &mut Vec<u64>, x: u64) -> (r: Ghost<int>)
    requires
        sorted_u64(old(v)@),
    ensures
        sorted_u64(final(v)@),
        0 <= r@ <= old(v)@.len(),
        final(v)@ == old(v)@.insert(r@, x),
{
    let mut p: usize = 0;
    while p < v.len() && x >= v[p]
        invariant
            p <= v@.len(),
            forall|j: int| 0 <= j < p ==> v@[j] <= x,
            sorted_u64(v@),
            v@ == old(v)@,
        decreases v@.len() - p,
    {
        p = p + 1;
    }
    v.insert(p, x);
    proof {
        assert forall|a: int, b: int| 0 <= a < b < v@.len() implies v@[a] <= v@[b] by {
            assert(p < old(v)@.len() ==> x < old(v)@[p as int]);
        }
    }
    Ghost(p as int)
}

impl KVStorage {
    /// The generations of the log files among `names`, sorted ascending;
    /// fails when some log-file name names a generation too large to open.
    pub fn sorted_generations(names: &Vec<String>) -> (r: Result<Vec<u64>, KvError>)
        ensures
            r matches Ok(v) ==> {
                &&& sorted_u64(v@)
                &&& nats_of(v@).to_multiset() == log_gens(names@).to_multiset()
            },
            r is Err <==> exists|x: nat| #[trigger] log_gens(names@).contains(x) && x > u64::MAX,
            r is Err ==> r == Err::<Vec<u64>, KvError>(KvError::Config),
    {
        broadcast use vstd::seq_lib::group_to_multiset_ensures;

        let n = names.len();
        let mut out: Vec<u64> = Vec::new();
        let mut i: usize = 0;
        proof {
            assert(nats_of(out@) =~= log_gens(names@.take(0)));
        }
        while i < n
            invariant
                i <= n,
                n == names@.len(),
                sorted_u64(out@),
                nats_of(out@).to_multiset() == log_gens(names@.take(i as int)).to_multiset(),
            decreases n - i,
        {
            let ghost before = out@;
            let name: &String = &names[i];
            proof {
                assert(names@.take(i as int + 1).drop_last() =~= names@.take(i as int));
                assert(names@.take(i as int + 1).last() == names@[i as int]);
            }
            if LogName::is_log(name.as_str()) {
                match parse_generation(name.as_str()) {
                    Some(g) => {
                        let Ghost(p) = sorted_insert(&mut out, g);
                        proof {
                            let gl1 = log_gens(names@.take(i as int + 1));
                            assert(gl1 =~= log_gens(names@.take(i as int)).push(g as nat));
                            assert(nats_of(out@) =~= nats_of(before).insert(p, g as nat));
                            vstd::seq_lib::to_multiset_insert(nats_of(before), p, g as nat);
                            assert(nats_of(out@).to_multiset() == nats_of(
                                before,
                            ).to_multiset().insert(g as nat));
                            vstd::seq_lib::to_multiset_build(
                                log_gens(names@.take(i as int)),
                                g as nat,
                            );
                            assert(gl1.to_multiset() == log_gens(
                                names@.take(i as int),
                            ).to_multiset().insert(g as nat));
                        }
                    },
                    None => {
                        proof {
                            let x = digits_val(log_stem(names@[i as int]@));
                            let gl1 = log_gens(names@.take(i as int + 1));
                            assert(gl1.last() == x);
                            assert(gl1.contains(x));
                            lemma_log_gens_extend(names@, i as int + 1);
                            assert(log_gens(names@).contains(x));
                            assert(x > u64::MAX);
                        }
                        return Err(KvError::Config);
                    },
                }
            } else {
                proof {
                    assert(log_gens(names@.take(i as int + 1)) =~= log_gens(
                        names@.take(i as int),
                    ));
                }
            }
            i = i + 1;
        }
        proof {
            assert(names@.take(n as int) =~= names@);
            assert forall|x: nat| log_gens(names@).contains(x) implies x <= u64::MAX by {
                assert(nats_of(out@).to_multiset().contains(x));
                assert(nats_of(out@).contains(x));
                let v = choose|v: int| 0 <= v < nats_of(out@).len() && nats_of(out@)[v] == x;
                assert(out@[v] as nat == x);
            }
        }
        Ok(out)
    }
}


impl KVStorage {
    /// The active generation's number, for naming its log file.
    pub fn current_generation(&self) -> (r: u64)
        requires
            self.wf(),
        ensures
            r == self.generation(),
    {
        self.gen
    }

    /// How many bytes the active log holds.
    pub fn active_len(&self) -> (r: usize)
        requires
            self.wf(),
        ensures
            r == self.active_data().len(),
    {
        let n = self.logs.len();
        self.logs[n - 1].data.len()
    }

    /// The bytes the active log holds from `from` onward, for the caller to
    /// persist.
    pub fn active_suffix(&self, from: usize) -> (r: Vec<u8>)
        requires
            self.wf(),
            from <= self.active_data().len(),
        ensures
            r@ == self.active_data().subrange(from as int, self.active_data().len() as int),
    {
        let n = self.logs.len();
        let lf = &self.logs[n - 1];
        vstd::slice::slice_to_vec(vstd::slice::slice_subrange(
            lf.data.as_slice(),
            from,
            lf.data.len(),
        ))
    }

    /// Copy the names and contents of every log, newest last.
    pub fn clone_logs(&self) -> (r: Vec<LogFile>)
        ensures
            files_view(r@) == self.files(),
    {
        let mut out: Vec<LogFile> = Vec::new();
        let mut i: usize = 0;
        let n = self.logs.len();
        while i < n
            invariant
                i <= n,
                n == self.logs@.len(),
                files_view(out@) == files_view(self.logs@.take(i as int)),
            decreases n - i,
        {
            let ghost out0 = out@;
            let lf = &self.logs[i];
            out.push(LogFile { gen: lf.gen, data: clone_bytes(&lf.data) });
            proof {
                assert(out0.len() == i as int) by {
                    assert(files_view(out0).len() == out0.len());
                    assert(files_view(self.logs@.take(i as int)).len() == i as int);
                }
                let a = files_view(out@);
                let b = files_view(self.logs@.take(i as int + 1));
                assert forall|j: int| 0 <= j < a.len() implies a[j] == b[j] by {
                    if j < i as int {
                        assert(out@[j] == out0[j]);
                        assert(a[j] == files_view(out0)[j]);
                        assert(b[j] == files_view(self.logs@.take(i as int))[j]);
                    } else {
                        assert(out@[j].gen == self.logs@[i as int].gen);
                        assert(out@[j].data@ == self.logs@[i as int].data@);
                    }
                }
                assert(a =~= b);
            }
            i = i + 1;
        }
        proof {
            assert(self.logs@.take(n as int) =~= self.logs@);
        }
        out
    }
}

/// Durability: a well-formed engine's logs replay to exactly its current
/// view, and (while a fresh generation remains) those logs start an engine
/// again — so closing and reopening a directory yields the same view, by the
/// contract of [`KVStorage::new`].
pub proof fn lemma_durability(e: KVStorage)
    requires
        e.wf(),
        e.generation() < u64::MAX,
    ensures
        recovery_ok(e.files()),
        replay_logs(e.files()) == Some(e.kv()),
{
}

/// Apply a sequence of records, oldest first.
pub open spec fn apply_records(
    m: Map<Seq<char>, Seq<char>>,
    ops: Seq<RecordModel>,
) -> Map<Seq<char>, Seq<char>>
    decreases ops.len(),
{
    if ops.len() == 0 {
        m
    } else {
        apply_record(apply_records(m, ops.drop_last()), ops.last())
    }
}

/// True when the record reads or writes key `k`.
pub open spec fn touches(r: RecordModel, k: Seq<char>) -> bool {
    match r {
        RecordModel::Put { key, value } => key == k,
        RecordModel::Remove { key } => key == k,
    }
}

/// Last write wins: after any sequence of operations whose last touch of `k`
/// is a `Put` of `v`, the view reads `v` at `k` — whatever happens to other
/// keys in between.
pub proof fn lemma_last_write_wins(
    m: Map<Seq<char>, Seq<char>>,
    ops: Seq<RecordModel>,
    i: int,
    k: Seq<char>,
    v: Seq<char>,
)
    requires
        0 <= i < ops.len(),
        ops[i] == (RecordModel::Put { key: k, value: v }),
        forall|j: int| i < j < ops.len() ==> !touches(#[trigger] ops[j], k),
    ensures
        apply_records(m, ops).contains_key(k),
        apply_records(m, ops)[k] == v,
    decreases ops.len(),
{
    if i == ops.len() - 1 {
    } else {
        lemma_last_write_wins(m, ops.drop_last(), i, k, v);
    }
}

/// Remove semantics: a `Put` of `k` followed by a `Remove` of `k` leaves `k`
/// dead, so a read of `k` yields nothing and a second remove reports
/// `KeyNotFound` (see `KVStorage::delete`).
pub proof fn lemma_remove_semantics(m: Map<Seq<char>, Seq<char>>, k: Seq<char>, v: Seq<char>)
    ensures
        !apply_record(
            apply_record(m, RecordModel::Put { key: k, value: v }),
            RecordModel::Remove { key: k },
        ).contains_key(k),
{
}

/// Key isolation: operations on one key neither create, erase, nor change
/// what any other key reads.
pub proof fn lemma_key_isolation(
    m: Map<Seq<char>, Seq<char>>,
    k1: Seq<char>,
    k2: Seq<char>,
    v: Seq<char>,
)
    requires
        k1 != k2,
    ensures
        apply_record(m, RecordModel::Put { key: k2, value: v }).contains_key(k1)
            == m.contains_key(k1),
        m.contains_key(k1) ==> apply_record(m, RecordModel::Put { key: k2, value: v })[k1]
            == m[k1],
        apply_record(m, RecordModel::Remove { key: k2 }).contains_key(k1) == m.contains_key(k1),
        m.contains_key(k1) ==> apply_record(m, RecordModel::Remove { key: k2 })[k1] == m[k1],
{
}

/// Index fidelity: in a well-formed engine, every index entry points at a
/// complete `Put` record whose key equals the index key and whose encoding
/// fills the entry's span exactly.
pub proof fn lemma_index_fidelity(e: KVStorage)
    requires
        e.wf(),
    ensures
        forall|i: int|
            0 <= i < e.entries().len() ==> entry_points_to(
                e.files(),
                e.entries()[i].0@,
                #[trigger] e.entries()[i].1,
            ),
{
}


/// The decimal numeral of `n` is a numeral for `n`: nonempty, all digits, no
/// leading zero (other than `0` itself), and it reads back as `n`.
proof fn lemma_dec_chars(n: nat)
    ensures
        dec_chars(n).len() >= 1,
        all_digits(dec_chars(n)),
        digits_val(dec_chars(n)) == n,
        n >= 1 ==> dec_chars(n)[0] != '0',
        n == 0 ==> dec_chars(n).len() == 1,
    decreases n,
{
    if n < 10 {
        let s = seq![digit_char(n)];
        assert(dec_chars(n) =~= s);
        assert(s.drop_last() =~= Seq::<char>::empty());
        assert(digits_val(Seq::<char>::empty()) == 0);
        assert(s.last() == digit_char(n));
        assert(digits_val(s) == digits_val(s.drop_last()) * 10 + digit_val(s.last()));
        assert(digit_val(digit_char(n)) == n);
    } else {
        lemma_dec_chars(n / 10);
        let s = dec_chars(n);
        let front = dec_chars(n / 10);
        assert(s.drop_last() =~= front);
        assert(s.last() == digit_char(n % 10));
        assert(digit_val(digit_char(n % 10)) == n % 10);
        assert(n == (n / 10) * 10 + n % 10) by {
            vstd::arithmetic::div_mod::lemma_fundamental_div_mod(n as int, 10);
        }
        assert(digits_val(s) == digits_val(front) * 10 + digit_val(s.last()));
        assert(s[0] == front[0]);
        assert forall|j: int| 0 <= j < s.len() implies is_digit(#[trigger] s[j]) by {
            if j < s.len() - 1 {
                assert(s[j] == front[j]);
            }
        }
    }
}

/// Naming round trip: the name rendered for a generation is a well-formed
/// log-file name, and the generation parsed back from it is the same one —
/// so a restart reopens exactly the generations an engine created.
pub proof fn lemma_log_name_round_trip(n: u64)
    ensures
        is_log_name(dec_chars(n as nat) + ".log"@),
        digits_val(log_stem(dec_chars(n as nat) + ".log"@)) == n as nat,
{
    reveal_strlit(".log");
    lemma_dec_chars(n as nat);
    let name = dec_chars(n as nat) + ".log"@;
    assert(log_stem(name) =~= dec_chars(n as nat));
    assert(name.subrange(name.len() - 4, name.len() as int) =~= ".log"@);
}

} // verus!
