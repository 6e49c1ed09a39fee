//! The on-disk record codec.
//!
//! A log file is a concatenation of self-delimiting records with no header,
//! footer or padding. Each record is a tag byte followed by string fields:
//! a `Put` carries its key and value, a `Rm` only its key. A streaming
//! decoder recovers, for each record, the exact byte span it occupies, which
//! is what the engine's index stores.
use vstd::prelude::*;

verus! {

use crate::codec::{
    encode_str,
    decode_str,
    fits_field,
    str_field,
    str_field_decode,
    lemma_str_field_decode_bounds,
    lemma_str_field_decode_canonical,
    lemma_str_field_encode_decode,
    DecodeStep,
};

/// A write operation, as recorded in a log file.
#[derive(Debug, Clone, PartialEq, Eq)]
pub enum Operation {
    Put(String, String),
    Rm(String),
}

/// One record as a tagged row: an operation name, the key, and the value
/// (absent for removals).
#[derive(Debug, Clone, PartialEq, Eq)]
pub struct LogRecord {
    op: &'static str,
    key: String,
    value: Option<String>,
}

/// The mathematical shape of one record: the characters of its key and, for
/// a `Put`, of its value.
pub enum RecordModel {
    Put { key: Seq<char>, value: Seq<char> },
    Remove { key: Seq<char> },
}

/// The record an [`Operation`] stands for.
pub open spec fn op_model(op: Operation) -> RecordModel {
    match op {
        Operation::Put(k, v) => RecordModel::Put { key: k@, value: v@ },
        Operation::Rm(k) => RecordModel::Remove { key: k@ },
    }
}

/// Tag byte that opens a `Put` record.
pub const TAG_PUT: u8 = 1;

/// Tag byte that opens a `Rm` record.
pub const TAG_REMOVE: u8 = 2;

/// True when every field of the record is short enough to encode.
pub open spec fn record_wf(r: RecordModel) -> bool {
    match r {
        RecordModel::Put { key, value } => fits_field(key) && fits_field(value),
        RecordModel::Remove { key } => fits_field(key),
    }
}

/// The bytes of one record: a tag byte, the key field, and for `Put` records
/// the value field.
pub open spec fn record_bytes(r: RecordModel) -> Seq<u8> {
    match r {
        RecordModel::Put { key, value } => seq![TAG_PUT] + str_field(key) + str_field(value),
        RecordModel::Remove { key } => seq![TAG_REMOVE] + str_field(key),
    }
}

/// Decode one record at `pos` in `data`: the record and the position just
/// after its last byte, or `None` when the bytes there are not one complete
/// record.
pub open spec fn record_decode(data: Seq<u8>, pos: int) -> Option<(RecordModel, int)> {
    if pos < 0 || pos >= data.len() {
        None
    } else if data[pos] == TAG_PUT {
        match str_field_decode(data, pos + 1) {
            Some((key, p2)) => match str_field_decode(data, p2) {
                Some((value, end)) => Some((RecordModel::Put { key, value }, end)),
                None => None,
            },
            None => None,
        }
    } else if data[pos] == TAG_REMOVE {
        match str_field_decode(data, pos + 1) {
            Some((key, end)) => Some((RecordModel::Remove { key }, end)),
            None => None,
        }
    } else {
        None
    }
}

/// A decoded record starts before its end and ends within the buffer.
pub proof fn lemma_record_decode_bounds(data: Seq<u8>, pos: int)
    requires
        record_decode(data, pos) is Some,
    ensures
        pos < record_decode(data, pos)->Some_0.1 <= data.len(),
{
    if data[pos] == TAG_PUT {
        let (key, p2) = str_field_decode(data, pos + 1)->Some_0;
        lemma_str_field_decode_bounds(data, pos + 1);
        lemma_str_field_decode_bounds(data, p2);
    } else {
        lemma_str_field_decode_bounds(data, pos + 1);
    }
}

/// Decoding at the position where an encoded record was laid down yields the
/// record and stops exactly at its last byte.
pub proof fn lemma_record_encode_decode(data: Seq<u8>, pos: int, r: RecordModel)
    requires
        record_wf(r),
        0 <= pos,
        pos + record_bytes(r).len() <= data.len(),
        data.subrange(pos, pos + record_bytes(r).len() as int) == record_bytes(r),
    ensures
        record_decode(data, pos) == Some((r, pos + record_bytes(r).len() as int)),
{
    let rb = record_bytes(r);
    assert(data[pos] == rb[0]);
    match r {
        RecordModel::Put { key, value } => {
            let f1 = str_field(key);
            let f2 = str_field(value);
            assert(data.subrange(pos + 1, pos + 1 + f1.len() as int) =~= rb.subrange(
                1,
                1 + f1.len() as int,
            ));
            assert(rb.subrange(1, 1 + f1.len() as int) =~= f1);
            lemma_str_field_encode_decode(data, pos + 1, key);
            let p2 = pos + 1 + f1.len() as int;
            assert(data.subrange(p2, p2 + f2.len() as int) =~= rb.subrange(
                1 + f1.len() as int,
                rb.len() as int,
            ));
            assert(rb.subrange(1 + f1.len() as int, rb.len() as int) =~= f2);
            lemma_str_field_encode_decode(data, p2, value);
        },
        RecordModel::Remove { key } => {
            let f1 = str_field(key);
            assert(data.subrange(pos + 1, pos + 1 + f1.len() as int) =~= rb.subrange(
                1,
                rb.len() as int,
            ));
            assert(rb.subrange(1, rb.len() as int) =~= f1);
            lemma_str_field_encode_decode(data, pos + 1, key);
        },
    }
}

/// Whatever a successful record decode returns is canonical: the consumed
/// span is exactly the encoding of the returned record, and the record is
/// well-formed.
pub proof fn lemma_record_decode_canonical(data: Seq<u8>, pos: int)
    requires
        record_decode(data, pos) is Some,
    ensures
        ({
            let (r, end) = record_decode(data, pos)->Some_0;
            &&& pos < end <= data.len()
            &&& record_wf(r)
            &&& end - pos == record_bytes(r).len()
            &&& data.subrange(pos, end) == record_bytes(r)
        }),
{
    lemma_record_decode_bounds(data, pos);
    let (r, end) = record_decode(data, pos)->Some_0;
    if data[pos] == TAG_PUT {
        let (key, p2) = str_field_decode(data, pos + 1)->Some_0;
        lemma_str_field_decode_canonical(data, pos + 1);
        lemma_str_field_decode_canonical(data, p2);
        assert(data.subrange(pos, end) =~= seq![TAG_PUT] + data.subrange(pos + 1, p2)
            + data.subrange(p2, end));
        assert(data.subrange(pos, end) =~= record_bytes(r));
    } else {
        let (key, e1) = str_field_decode(data, pos + 1)->Some_0;
        lemma_str_field_decode_canonical(data, pos + 1);
        assert(data.subrange(pos, end) =~= seq![TAG_REMOVE] + data.subrange(pos + 1, end));
        assert(data.subrange(pos, end) =~= record_bytes(r));
    }
}

/// Appending bytes after a decodable record does not change what it decodes
/// to.
pub proof fn lemma_record_decode_prefix(data: Seq<u8>, ext: Seq<u8>, pos: int)
    requires
        record_decode(data, pos) is Some,
    ensures
        record_decode(data + ext, pos) == record_decode(data, pos),
{
    let (r, end) = record_decode(data, pos)->Some_0;
    lemma_record_decode_canonical(data, pos);
    assert((data + ext).subrange(pos, end) =~= data.subrange(pos, end));
    lemma_record_encode_decode(data + ext, pos, r);
}

/// Apply one record to the abstract view of the store.
pub open spec fn apply_record(
    m: Map<Seq<char>, Seq<char>>,
    r: RecordModel,
) -> Map<Seq<char>, Seq<char>> {
    match r {
        RecordModel::Put { key, value } => m.insert(key, value),
        RecordModel::Remove { key } => m.remove(key),
    }
}

/// Replay the records of `data` from `pos` onward onto `m`; `None` when the
/// remaining bytes are not a concatenation of complete records.
pub open spec fn replay_from(
    data: Seq<u8>,
    pos: int,
    m: Map<Seq<char>, Seq<char>>,
) -> Option<Map<Seq<char>, Seq<char>>>
    decreases data.len() - pos
        when 0 <= pos <= data.len() via replay_from_decreases
{
    if pos == data.len() {
        Some(m)
    } else {
        match record_decode(data, pos) {
            Some((r, end)) => replay_from(data, end, apply_record(m, r)),
            None => None,
        }
    }
}

#[via_fn]
proof fn replay_from_decreases(data: Seq<u8>, pos: int, m: Map<Seq<char>, Seq<char>>) {
    if pos != data.len() && record_decode(data, pos) is Some {
        lemma_record_decode_bounds(data, pos);
    }
}

/// Replaying a log extended by one well-formed record applies that record
/// after the replay of the unextended log.
pub proof fn lemma_replay_append(data: Seq<u8>, pos: int, m: Map<Seq<char>, Seq<char>>, r: RecordModel)
    requires
        0 <= pos <= data.len(),
        record_wf(r),
        replay_from(data, pos, m) is Some,
    ensures
        replay_from(data + record_bytes(r), pos, m) == Some(
            apply_record(replay_from(data, pos, m)->Some_0, r),
        ),
    decreases data.len() - pos,
{
    let ext = data + record_bytes(r);
    if pos == data.len() {
        assert(ext.subrange(pos, pos + record_bytes(r).len() as int) =~= record_bytes(r));
        lemma_record_encode_decode(ext, pos, r);
        assert(replay_from(ext, pos, m) == replay_from(
            ext,
            pos + record_bytes(r).len() as int,
            apply_record(m, r),
        ));
    } else {
        let (r0, end) = record_decode(data, pos)->Some_0;
        lemma_record_decode_bounds(data, pos);
        lemma_record_decode_prefix(data, record_bytes(r), pos);
        lemma_replay_append(data, end, apply_record(m, r0), r);
    }
}

/// Append the encoding of `op` to a fresh buffer.
pub fn encode_record(op: &Operation) -> (r: Vec<u8>)
    ensures
        r@ == record_bytes(op_model(*op)),
        record_wf(op_model(*op)),
{
    let mut out: Vec<u8> = Vec::new();
    match op {
        Operation::Put(k, v) => {
            out.push(TAG_PUT);
            encode_str(&mut out, k.as_str());
            encode_str(&mut out, v.as_str());
            assert(out@ =~= record_bytes(op_model(*op)));
        },
        Operation::Rm(k) => {
            out.push(TAG_REMOVE);
            encode_str(&mut out, k.as_str());
            assert(out@ =~= record_bytes(op_model(*op)));
        },
    }
    out
}

/// Decode one record from `data` at `pos`.
pub fn decode_record(data: &Vec<u8>, pos: usize) -> (r: DecodeStep<Operation>)
    ensures
        r matches DecodeStep::Done(op, end) ==> record_decode(data@, pos as int) == Some(
            (op_model(op), end as int),
        ),
        r is Incomplete ==> record_decode(data@, pos as int) is None,
        r is Invalid ==> record_decode(data@, pos as int) is None,
{
    if pos >= data.len() {
        return DecodeStep::Incomplete;
    }
    let tag: u8 = data[pos];
    if tag == TAG_PUT {
        match decode_str(data, pos + 1) {
            DecodeStep::Done(key, p2) => match decode_str(data, p2) {
                DecodeStep::Done(value, end) => DecodeStep::Done(Operation::Put(key, value), end),
                DecodeStep::Incomplete => DecodeStep::Incomplete,
                DecodeStep::Invalid => DecodeStep::Invalid,
            },
            DecodeStep::Incomplete => DecodeStep::Incomplete,
            DecodeStep::Invalid => DecodeStep::Invalid,
        }
    } else if tag == TAG_REMOVE {
        match decode_str(data, pos + 1) {
            DecodeStep::Done(key, end) => DecodeStep::Done(Operation::Rm(key), end),
            DecodeStep::Incomplete => DecodeStep::Incomplete,
            DecodeStep::Invalid => DecodeStep::Invalid,
        }
    } else {
        DecodeStep::Invalid
    }
}

} // verus!
