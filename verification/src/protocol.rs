//! The wire protocol: typed requests and responses with a self-delimiting
//! byte encoding.
//!
//! A connection carries a stream of encoded requests in and one encoded
//! response out per request, with no outer framing: every message is a tag
//! byte followed by string fields, so a decoder always knows where one
//! message ends and the next begins.
use vstd::prelude::*;

verus! {

use crate::codec::{
    encode_str,
    decode_str,
    fits_field,
    str_field,
    str_field_decode,
    lemma_str_field_decode_canonical,
    lemma_str_field_encode_decode,
    DecodeStep,
};

/// A request from a client: read a key, remove a key, or bind a key to a
/// value.
#[derive(Debug, Clone, PartialEq, Eq)]
pub enum Request {
    Get { key: String },
    Rm { key: String },
    Put { key: String, value: String },
}

/// The mathematical shape of a request.
pub enum RequestModel {
    Get { key: Seq<char> },
    Rm { key: Seq<char> },
    Put { key: Seq<char>, value: Seq<char> },
}

/// The request a [`Request`] stands for.
pub open spec fn request_model(r: Request) -> RequestModel {
    match r {
        Request::Get { key } => RequestModel::Get { key: key@ },
        Request::Rm { key } => RequestModel::Rm { key: key@ },
        Request::Put { key, value } => RequestModel::Put { key: key@, value: value@ },
    }
}

/// Tag byte that opens an encoded `Get` request.
pub const TAG_GET: u8 = 1;

/// Tag byte that opens an encoded `Rm` request.
pub const TAG_RM: u8 = 2;

/// Tag byte that opens an encoded `Put` request.
pub const TAG_PUT: u8 = 3;

/// True when every field of the request is short enough to encode.
pub open spec fn request_wf(m: RequestModel) -> bool {
    match m {
        RequestModel::Get { key } => fits_field(key),
        RequestModel::Rm { key } => fits_field(key),
        RequestModel::Put { key, value } => fits_field(key) && fits_field(value),
    }
}

/// The bytes of one encoded request.
pub open spec fn request_bytes(m: RequestModel) -> Seq<u8> {
    match m {
        RequestModel::Get { key } => seq![TAG_GET] + str_field(key),
        RequestModel::Rm { key } => seq![TAG_RM] + str_field(key),
        RequestModel::Put { key, value } => seq![TAG_PUT] + str_field(key) + str_field(value),
    }
}

/// Decode one request at `pos` in `data`.
pub open spec fn request_decode(data: Seq<u8>, pos: int) -> Option<(RequestModel, int)> {
    if pos < 0 || pos >= data.len() {
        None
    } else if data[pos] == TAG_GET {
        match str_field_decode(data, pos + 1) {
            Some((key, end)) => Some((RequestModel::Get { key }, end)),
            None => None,
        }
    } else if data[pos] == TAG_RM {
        match str_field_decode(data, pos + 1) {
            Some((key, end)) => Some((RequestModel::Rm { key }, end)),
            None => None,
        }
    } else if data[pos] == TAG_PUT {
        match str_field_decode(data, pos + 1) {
            Some((key, p2)) => match str_field_decode(data, p2) {
                Some((value, end)) => Some((RequestModel::Put { key, value }, end)),
                None => None,
            },
            None => None,
        }
    } else {
        None
    }
}

/// Decoding at the position where an encoded request was laid down yields the
/// request and stops exactly at its last byte.
pub proof fn lemma_request_encode_decode(data: Seq<u8>, pos: int, m: RequestModel)
    requires
        request_wf(m),
        0 <= pos,
        pos + request_bytes(m).len() <= data.len(),
        data.subrange(pos, pos + request_bytes(m).len() as int) == request_bytes(m),
    ensures
        request_decode(data, pos) == Some((m, pos + request_bytes(m).len() as int)),
{
    let rb = request_bytes(m);
    assert(data[pos] == rb[0]);
    match m {
        RequestModel::Put { key, value } => {
            let f1 = str_field(key);
            let f2 = str_field(value);
            assert(data.subrange(pos + 1, pos + 1 + f1.len() as int) =~= rb.subrange(
                1,
                1 + f1.len() as int,
            ));
            assert(rb.subrange(1, 1 + f1.len() as int) =~= f1);
            lemma_str_field_encode_decode(data, pos + 1, key);
            let p2 = pos + 1 + f1.len() as int;
            assert(data.subrange(p2, p2 + f2.len() as int) =~= rb.subrange(
                1 + f1.len() as int,
                rb.len() as int,
            ));
            assert(rb.subrange(1 + f1.len() as int, rb.len() as int) =~= f2);
            lemma_str_field_encode_decode(data, p2, value);
        },
        RequestModel::Get { key } => {
            let f1 = str_field(key);
            assert(data.subrange(pos + 1, pos + 1 + f1.len() as int) =~= rb.subrange(
                1,
                rb.len() as int,
            ));
            assert(rb.subrange(1, rb.len() as int) =~= f1);
            lemma_str_field_encode_decode(data, pos + 1, key);
        },
        RequestModel::Rm { key } => {
            let f1 = str_field(key);
            assert(data.subrange(pos + 1, pos + 1 + f1.len() as int) =~= rb.subrange(
                1,
                rb.len() as int,
            ));
            assert(rb.subrange(1, rb.len() as int) =~= f1);
            lemma_str_field_encode_decode(data, pos + 1, key);
        },
    }
}

/// A decoded request is canonical: the consumed span is exactly the encoding
/// of the returned request.
pub proof fn lemma_request_decode_canonical(data: Seq<u8>, pos: int)
    requires
        request_decode(data, pos) is Some,
    ensures
        ({
            let (m, end) = request_decode(data, pos)->Some_0;
            &&& pos < end <= data.len()
            &&& request_wf(m)
            &&& end - pos == request_bytes(m).len()
            &&& data.subrange(pos, end) == request_bytes(m)
        }),
{
    let (m, end) = request_decode(data, pos)->Some_0;
    if data[pos] == TAG_PUT {
        let (key, p2) = str_field_decode(data, pos + 1)->Some_0;
        lemma_str_field_decode_canonical(data, pos + 1);
        lemma_str_field_decode_canonical(data, p2);
        assert(data.subrange(pos, end) =~= seq![TAG_PUT] + data.subrange(pos + 1, p2)
            + data.subrange(p2, end));
        assert(data.subrange(pos, end) =~= request_bytes(m));
    } else {
        lemma_str_field_decode_canonical(data, pos + 1);
        let tag = if data[pos] == TAG_GET {
            TAG_GET
        } else {
            TAG_RM
        };
        assert(data.subrange(pos, end) =~= seq![tag] + data.subrange(pos + 1, end));
        assert(data.subrange(pos, end) =~= request_bytes(m));
    }
}

/// Bytes arriving after a decodable request do not change what it decodes to.
pub proof fn lemma_request_decode_prefix(data: Seq<u8>, ext: Seq<u8>, pos: int)
    requires
        request_decode(data, pos) is Some,
    ensures
        request_decode(data + ext, pos) == request_decode(data, pos),
{
    let (m, end) = request_decode(data, pos)->Some_0;
    lemma_request_decode_canonical(data, pos);
    assert((data + ext).subrange(pos, end) =~= data.subrange(pos, end));
    lemma_request_encode_decode(data + ext, pos, m);
}

/// Append the encoding of `req` to a fresh buffer.
pub fn encode_request(req: &Request) -> (r: Vec<u8>)
    ensures
        r@ == request_bytes(request_model(*req)),
        request_wf(request_model(*req)),
{
    let mut out: Vec<u8> = Vec::new();
    match req {
        Request::Get { key } => {
            out.push(TAG_GET);
            encode_str(&mut out, key.as_str());
            assert(out@ =~= request_bytes(request_model(*req)));
        },
        Request::Rm { key } => {
            out.push(TAG_RM);
            encode_str(&mut out, key.as_str());
            assert(out@ =~= request_bytes(request_model(*req)));
        },
        Request::Put { key, value } => {
            out.push(TAG_PUT);
            encode_str(&mut out, key.as_str());
            encode_str(&mut out, value.as_str());
            assert(out@ =~= request_bytes(request_model(*req)));
        },
    }
    out
}

/// Decode one request from `data` at `pos`.
pub fn decode_request(data: &Vec<u8>, pos: usize) -> (r: DecodeStep<Request>)
    ensures
        r matches DecodeStep::Done(req, end) ==> request_decode(data@, pos as int) == Some(
            (request_model(req), end as int),
        ),
        r is Incomplete ==> request_decode(data@, pos as int) is None,
        r is Invalid ==> request_decode(data@, pos as int) is None,
{
    if pos >= data.len() {
        return DecodeStep::Incomplete;
    }
    let tag: u8 = data[pos];
    if tag == TAG_GET {
        match decode_str(data, pos + 1) {
            DecodeStep::Done(key, end) => DecodeStep::Done(Request::Get { key }, end),
            DecodeStep::Incomplete => DecodeStep::Incomplete,
            DecodeStep::Invalid => DecodeStep::Invalid,
        }
    } else if tag == TAG_RM {
        match decode_str(data, pos + 1) {
            DecodeStep::Done(key, end) => DecodeStep::Done(Request::Rm { key }, end),
            DecodeStep::Incomplete => DecodeStep::Incomplete,
            DecodeStep::Invalid => DecodeStep::Invalid,
        }
    } else if tag == TAG_PUT {
        match decode_str(data, pos + 1) {
            DecodeStep::Done(key, p2) => match decode_str(data, p2) {
                DecodeStep::Done(value, end) => DecodeStep::Done(
                    Request::Put { key, value },
                    end,
                ),
                DecodeStep::Incomplete => DecodeStep::Incomplete,
                DecodeStep::Invalid => DecodeStep::Invalid,
            },
            DecodeStep::Incomplete => DecodeStep::Incomplete,
            DecodeStep::Invalid => DecodeStep::Invalid,
        }
    } else {
        DecodeStep::Invalid
    }
}

/// A response to a read: the value bound to the key if it is live, or the
/// engine's error message.
#[derive(Debug, Clone, PartialEq, Eq)]
pub enum GetResponse {
    Okay(Option<String>),
    Error(String),
}

/// A response to a removal.
#[derive(Debug, Clone, PartialEq, Eq)]
pub enum RmResponse {
    Okay,
    Error(String),
}

/// A response to a write.
#[derive(Debug, Clone, PartialEq, Eq)]
pub enum SetResponse {
    Okay,
    Error(String),
}

/// The mathematical shape shared by all responses: success without a value,
/// success with a value, or a failure message.
pub enum ResponseModel {
    Empty,
    Value(Seq<char>),
    Failure(Seq<char>),
}

/// Tag byte of a response that carries no payload.
pub const TAG_RESP_EMPTY: u8 = 0;

/// Tag byte of a response that carries a value.
pub const TAG_RESP_VALUE: u8 = 1;

/// Tag byte of a response that carries an error message.
pub const TAG_RESP_ERROR: u8 = 2;

/// True when the payload of the response is short enough to encode.
pub open spec fn response_wf(m: ResponseModel) -> bool {
    match m {
        ResponseModel::Empty => true,
        ResponseModel::Value(v) => fits_field(v),
        ResponseModel::Failure(e) => fits_field(e),
    }
}

/// The bytes of one encoded response.
pub open spec fn response_bytes(m: ResponseModel) -> Seq<u8> {
    match m {
        ResponseModel::Empty => seq![TAG_RESP_EMPTY],
        ResponseModel::Value(v) => seq![TAG_RESP_VALUE] + str_field(v),
        ResponseModel::Failure(e) => seq![TAG_RESP_ERROR] + str_field(e),
    }
}

/// Decode one response at `pos` in `data`.
pub open spec fn response_decode(data: Seq<u8>, pos: int) -> Option<(ResponseModel, int)> {
    if pos < 0 || pos >= data.len() {
        None
    } else if data[pos] == TAG_RESP_EMPTY {
        Some((ResponseModel::Empty, pos + 1))
    } else if data[pos] == TAG_RESP_VALUE {
        match str_field_decode(data, pos + 1) {
            Some((v, end)) => Some((ResponseModel::Value(v), end)),
            None => None,
        }
    } else if data[pos] == TAG_RESP_ERROR {
        match str_field_decode(data, pos + 1) {
            Some((e, end)) => Some((ResponseModel::Failure(e), end)),
            None => None,
        }
    } else {
        None
    }
}

/// Decoding at the position where an encoded response was laid down yields
/// the response and stops exactly at its last byte.
pub proof fn lemma_response_encode_decode(data: Seq<u8>, pos: int, m: ResponseModel)
    requires
        response_wf(m),
        0 <= pos,
        pos + response_bytes(m).len() <= data.len(),
        data.subrange(pos, pos + response_bytes(m).len() as int) == response_bytes(m),
    ensures
        response_decode(data, pos) == Some((m, pos + response_bytes(m).len() as int)),
{
    let rb = response_bytes(m);
    assert(data[pos] == rb[0]);
    match m {
        ResponseModel::Empty => {},
        ResponseModel::Value(v) => {
            let f1 = str_field(v);
            assert(data.subrange(pos + 1, pos + 1 + f1.len() as int) =~= rb.subrange(
                1,
                rb.len() as int,
            ));
            assert(rb.subrange(1, rb.len() as int) =~= f1);
            lemma_str_field_encode_decode(data, pos + 1, v);
        },
        ResponseModel::Failure(e) => {
            let f1 = str_field(e);
            assert(data.subrange(pos + 1, pos + 1 + f1.len() as int) =~= rb.subrange(
                1,
                rb.len() as int,
            ));
            assert(rb.subrange(1, rb.len() as int) =~= f1);
            lemma_str_field_encode_decode(data, pos + 1, e);
        },
    }
}

/// The response a [`GetResponse`] stands for.
pub open spec fn get_response_model(r: GetResponse) -> ResponseModel {
    match r {
        GetResponse::Okay(Some(v)) => ResponseModel::Value(v@),
        GetResponse::Okay(None) => ResponseModel::Empty,
        GetResponse::Error(e) => ResponseModel::Failure(e@),
    }
}

/// The response a [`RmResponse`] stands for.
pub open spec fn rm_response_model(r: RmResponse) -> ResponseModel {
    match r {
        RmResponse::Okay => ResponseModel::Empty,
        RmResponse::Error(e) => ResponseModel::Failure(e@),
    }
}

/// The response a [`SetResponse`] stands for.
pub open spec fn set_response_model(r: SetResponse) -> ResponseModel {
    match r {
        SetResponse::Okay => ResponseModel::Empty,
        SetResponse::Error(e) => ResponseModel::Failure(e@),
    }
}

/// Append the encoding of a read response to a fresh buffer.
pub fn encode_get_response(r: &GetResponse) -> (out: Vec<u8>)
    ensures
        out@ == response_bytes(get_response_model(*r)),
        response_wf(get_response_model(*r)),
{
    let mut out: Vec<u8> = Vec::new();
    match r {
        GetResponse::Okay(Some(v)) => {
            out.push(TAG_RESP_VALUE);
            encode_str(&mut out, v.as_str());
        },
        GetResponse::Okay(None) => {
            out.push(TAG_RESP_EMPTY);
        },
        GetResponse::Error(e) => {
            out.push(TAG_RESP_ERROR);
            encode_str(&mut out, e.as_str());
        },
    }
    assert(out@ =~= response_bytes(get_response_model(*r)));
    out
}

/// Append the encoding of a removal response to a fresh buffer.
pub fn encode_rm_response(r: &RmResponse) -> (out: Vec<u8>)
    ensures
        out@ == response_bytes(rm_response_model(*r)),
        response_wf(rm_response_model(*r)),
{
    let mut out: Vec<u8> = Vec::new();
    match r {
        RmResponse::Okay => {
            out.push(TAG_RESP_EMPTY);
        },
        RmResponse::Error(e) => {
            out.push(TAG_RESP_ERROR);
            encode_str(&mut out, e.as_str());
        },
    }
    assert(out@ =~= response_bytes(rm_response_model(*r)));
    out
}

/// Append the encoding of a write response to a fresh buffer.
pub fn encode_set_response(r: &SetResponse) -> (out: Vec<u8>)
    ensures
        out@ == response_bytes(set_response_model(*r)),
        response_wf(set_response_model(*r)),
{
    let mut out: Vec<u8> = Vec::new();
    match r {
        SetResponse::Okay => {
            out.push(TAG_RESP_EMPTY);
        },
        SetResponse::Error(e) => {
            out.push(TAG_RESP_ERROR);
            encode_str(&mut out, e.as_str());
        },
    }
    assert(out@ =~= response_bytes(set_response_model(*r)));
    out
}

/// Decode one read response from `data` at `pos`.
pub fn decode_get_response(data: &Vec<u8>, pos: usize) -> (r: DecodeStep<GetResponse>)
    ensures
        r matches DecodeStep::Done(resp, end) ==> response_decode(data@, pos as int) == Some(
            (get_response_model(resp), end as int),
        ),
        r is Incomplete ==> response_decode(data@, pos as int) is None,
        r is Invalid ==> response_decode(data@, pos as int) is None,
{
    if pos >= data.len() {
        return DecodeStep::Incomplete;
    }
    let tag: u8 = data[pos];
    if tag == TAG_RESP_EMPTY {
        DecodeStep::Done(GetResponse::Okay(None), pos + 1)
    } else if tag == TAG_RESP_VALUE {
        match decode_str(data, pos + 1) {
            DecodeStep::Done(v, end) => DecodeStep::Done(GetResponse::Okay(Some(v)), end),
            DecodeStep::Incomplete => DecodeStep::Incomplete,
            DecodeStep::Invalid => DecodeStep::Invalid,
        }
    } else if tag == TAG_RESP_ERROR {
        match decode_str(data, pos + 1) {
            DecodeStep::Done(e, end) => DecodeStep::Done(GetResponse::Error(e), end),
            DecodeStep::Incomplete => DecodeStep::Incomplete,
            DecodeStep::Invalid => DecodeStep::Invalid,
        }
    } else {
        DecodeStep::Invalid
    }
}

/// Decode one removal response from `data` at `pos`. A response that carries
/// a value cannot answer a removal and is rejected.
pub fn decode_rm_response(data: &Vec<u8>, pos: usize) -> (r: DecodeStep<RmResponse>)
    ensures
        r matches DecodeStep::Done(resp, end) ==> response_decode(data@, pos as int) == Some(
            (rm_response_model(resp), end as int),
        ),
        r is Incomplete ==> response_decode(data@, pos as int) is None,
        r is Invalid ==> response_decode(data@, pos as int) is None || response_decode(
            data@,
            pos as int,
        )->Some_0.0 is Value,
{
    if pos >= data.len() {
        return DecodeStep::Incomplete;
    }
    let tag: u8 = data[pos];
    if tag == TAG_RESP_EMPTY {
        DecodeStep::Done(RmResponse::Okay, pos + 1)
    } else if tag == TAG_RESP_ERROR {
        match decode_str(data, pos + 1) {
            DecodeStep::Done(e, end) => DecodeStep::Done(RmResponse::Error(e), end),
            DecodeStep::Incomplete => DecodeStep::Incomplete,
            DecodeStep::Invalid => DecodeStep::Invalid,
        }
    } else {
        DecodeStep::Invalid
    }
}

/// Decode one write response from `data` at `pos`. A response that carries a
/// value cannot answer a write and is rejected.
pub fn decode_set_response(data: &Vec<u8>, pos: usize) -> (r: DecodeStep<SetResponse>)
    ensures
        r matches DecodeStep::Done(resp, end) ==> response_decode(data@, pos as int) == Some(
            (set_response_model(resp), end as int),
        ),
        r is Incomplete ==> response_decode(data@, pos as int) is None,
        r is Invalid ==> response_decode(data@, pos as int) is None || response_decode(
            data@,
            pos as int,
        )->Some_0.0 is Value,
{
    if pos >= data.len() {
        return DecodeStep::Incomplete;
    }
    let tag: u8 = data[pos];
    if tag == TAG_RESP_EMPTY {
        DecodeStep::Done(SetResponse::Okay, pos + 1)
    } else if tag == TAG_RESP_ERROR {
        match decode_str(data, pos + 1) {
            DecodeStep::Done(e, end) => DecodeStep::Done(SetResponse::Error(e), end),
            DecodeStep::Incomplete => DecodeStep::Incomplete,
            DecodeStep::Invalid => DecodeStep::Invalid,
        }
    } else {
        DecodeStep::Invalid
    }
}

} // verus!
