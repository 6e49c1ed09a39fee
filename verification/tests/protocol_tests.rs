use kvlocal::codec::DecodeStep;
use kvlocal::protocol::{
    decode_get_response, decode_request, decode_rm_response, decode_set_response,
    encode_get_response, encode_request, encode_rm_response, encode_set_response, GetResponse,
    Request, RmResponse, SetResponse,
};
use kvlocal::server::{EngineKind, Reply, Server};
use kvlocal::storage::KVStorage;
use kvlocal::KvError;

fn new_server() -> Server<KVStorage> {
    Server::new(KVStorage::new(Vec::new()).unwrap())
}

fn roundtrip_request(req: Request) {
    let bytes = encode_request(&req);
    match decode_request(&bytes, 0) {
        DecodeStep::Done(got, end) => {
            assert_eq!(got, req);
            assert_eq!(end, bytes.len());
        }
        _ => panic!("request did not decode"),
    }
}

#[test]
fn request_codec_round_trip() {
    roundtrip_request(Request::Get { key: "a".to_string() });
    roundtrip_request(Request::Rm { key: "".to_string() });
    roundtrip_request(Request::Put {
        key: "k\u{4e16}".to_string(),
        value: "v1\n".to_string(),
    });
}

#[test]
fn request_stream_decodes_in_order() {
    let mut buf = encode_request(&Request::Put { key: "a".to_string(), value: "1".to_string() });
    buf.extend(encode_request(&Request::Get { key: "a".to_string() }));
    let (first, p) = match decode_request(&buf, 0) {
        DecodeStep::Done(r, p) => (r, p),
        _ => panic!("first request did not decode"),
    };
    assert_eq!(first, Request::Put { key: "a".to_string(), value: "1".to_string() });
    let (second, end) = match decode_request(&buf, p) {
        DecodeStep::Done(r, p2) => (r, p2),
        _ => panic!("second request did not decode"),
    };
    assert_eq!(second, Request::Get { key: "a".to_string() });
    assert_eq!(end, buf.len());
}

#[test]
fn response_codecs_round_trip() {
    let g1 = GetResponse::Okay(Some("v".to_string()));
    let g2 = GetResponse::Okay(None);
    let g3 = GetResponse::Error("boom".to_string());
    for g in [g1, g2, g3] {
        let b = encode_get_response(&g);
        match decode_get_response(&b, 0) {
            DecodeStep::Done(got, end) => {
                assert_eq!(got, g);
                assert_eq!(end, b.len());
            }
            _ => panic!("get response did not decode"),
        }
    }
    let r1 = RmResponse::Okay;
    let r2 = RmResponse::Error("no".to_string());
    for r in [r1, r2] {
        let b = encode_rm_response(&r);
        match decode_rm_response(&b, 0) {
            DecodeStep::Done(got, end) => {
                assert_eq!(got, r);
                assert_eq!(end, b.len());
            }
            _ => panic!("rm response did not decode"),
        }
    }
    let s1 = SetResponse::Okay;
    let s2 = SetResponse::Error("no".to_string());
    for s in [s1, s2] {
        let b = encode_set_response(&s);
        match decode_set_response(&b, 0) {
            DecodeStep::Done(got, end) => {
                assert_eq!(got, s);
                assert_eq!(end, b.len());
            }
            _ => panic!("set response did not decode"),
        }
    }
}

#[test]
fn rm_decoder_rejects_value_responses() {
    let b = encode_get_response(&GetResponse::Okay(Some("v".to_string())));
    assert!(matches!(decode_rm_response(&b, 0), DecodeStep::Invalid));
    assert!(matches!(decode_set_response(&b, 0), DecodeStep::Invalid));
}

#[test]
fn single_round_trip() {
    let mut s = new_server();
    let r1 = s.handle_request(Request::Put { key: "a".to_string(), value: "1".to_string() });
    assert_eq!(r1, Reply::Put(SetResponse::Okay));
    let r2 = s.handle_request(Request::Get { key: "a".to_string() });
    assert_eq!(r2, Reply::Get(GetResponse::Okay(Some("1".to_string()))));
}

#[test]
fn overwrite_via_server() {
    let mut s = new_server();
    s.handle_request(Request::Put { key: "k".to_string(), value: "v1".to_string() });
    s.handle_request(Request::Put { key: "k".to_string(), value: "v2".to_string() });
    let r = s.handle_request(Request::Get { key: "k".to_string() });
    assert_eq!(r, Reply::Get(GetResponse::Okay(Some("v2".to_string()))));
}

#[test]
fn remove_present_key_via_server() {
    let mut s = new_server();
    s.handle_request(Request::Put { key: "k".to_string(), value: "v".to_string() });
    let r = s.handle_request(Request::Rm { key: "k".to_string() });
    assert_eq!(r, Reply::Rm(RmResponse::Okay));
    let g = s.handle_request(Request::Get { key: "k".to_string() });
    assert_eq!(g, Reply::Get(GetResponse::Okay(None)));
}

#[test]
fn remove_absent_key_via_server() {
    let mut s = new_server();
    let r = s.handle_request(Request::Rm { key: "ghost".to_string() });
    assert_eq!(r, Reply::Rm(RmResponse::Error("KeyNotFound: ghost".to_string())));
    let g = s.handle_request(Request::Get { key: "ghost".to_string() });
    assert_eq!(g, Reply::Get(GetResponse::Okay(None)));
}

#[test]
fn two_interleaved_clients_stay_isolated() {
    let mut s = new_server();
    for i in 0..100u32 {
        s.handle_request(Request::Put {
            key: format!("c1-{}", i % 10),
            value: format!("a{}", i),
        });
        s.handle_request(Request::Put {
            key: format!("c2-{}", i % 10),
            value: format!("b{}", i),
        });
    }
    for i in 0..100u32 {
        let k1 = format!("c1-{}", i % 10);
        let expect1 = format!("a{}", 90 + i % 10);
        assert_eq!(
            s.handle_request(Request::Get { key: k1 }),
            Reply::Get(GetResponse::Okay(Some(expect1)))
        );
        let k2 = format!("c2-{}", i % 10);
        let expect2 = format!("b{}", 90 + i % 10);
        assert_eq!(
            s.handle_request(Request::Get { key: k2 }),
            Reply::Get(GetResponse::Okay(Some(expect2)))
        );
    }
}

#[test]
fn engine_kind_parse_and_marker() {
    assert_eq!(EngineKind::parse("kvs").unwrap(), EngineKind::Kvs);
    assert_eq!(EngineKind::parse("sled").unwrap(), EngineKind::Sled);
    assert!(matches!(EngineKind::parse("rocks"), Err(KvError::Config)));
    let kvs = EngineKind::Kvs;
    assert_eq!(kvs.name(), "kvs");
    assert!(kvs.check_marker(None).is_ok());
    assert!(kvs.check_marker(Some(&"kvs".to_string())).is_ok());
    assert!(matches!(
        kvs.check_marker(Some(&"sled".to_string())),
        Err(KvError::Config)
    ));
}
