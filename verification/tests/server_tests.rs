use kvs::error::KvError;
use kvs::kv::KvStore;
use kvs::protocol::{
    decode_request, encode_request, encode_response, parse_ack_response, parse_get_response,
    GetResponse, RemoveResponse, Request, Response, SetResponse,
};
use kvs::server::KvServer;

fn b(s: &str) -> Vec<u8> {
    s.as_bytes().to_vec()
}

fn fresh_server() -> KvServer<KvStore> {
    let (store, _) = KvStore::open(Vec::new()).unwrap();
    KvServer::new(store)
}

#[test]
fn request_round_trip() {
    for req in [
        Request::Get { key: b("hello") },
        Request::Put { key: b("hello"), value: b("world") },
        Request::Del { key: b("hello") },
    ] {
        let wire = encode_request(&req);
        let back = decode_request(&wire).unwrap();
        match (&req, &back) {
            (Request::Get { key: a }, Request::Get { key: c }) => assert_eq!(a, c),
            (
                Request::Put { key: a, value: v1 },
                Request::Put { key: c, value: v2 },
            ) => {
                assert_eq!(a, c);
                assert_eq!(v1, v2);
            }
            (Request::Del { key: a }, Request::Del { key: c }) => assert_eq!(a, c),
            _ => panic!("request changed shape on the wire"),
        }
    }
}

#[test]
fn response_round_trips() {
    let wire = encode_response(&Response::Get(GetResponse::Value(Some(b("world")))));
    assert_eq!(parse_get_response(&wire).unwrap(), Some(b("world")));
    let wire = encode_response(&Response::Get(GetResponse::Value(None)));
    assert_eq!(parse_get_response(&wire).unwrap(), None);
    let wire = encode_response(&Response::Get(GetResponse::Failure(b("boom"))));
    assert_eq!(
        parse_get_response(&wire).unwrap_err(),
        KvError::StringError(b("boom"))
    );
    let wire = encode_response(&Response::Put(SetResponse::Done));
    assert!(parse_ack_response(&wire).is_ok());
    let wire = encode_response(&Response::Del(RemoveResponse::Done));
    assert!(parse_ack_response(&wire).is_ok());
    let wire = encode_response(&Response::Del(RemoveResponse::Failure(b("Key not found"))));
    assert_eq!(
        parse_ack_response(&wire).unwrap_err(),
        KvError::StringError(b("Key not found"))
    );
}

#[test]
fn one_round_trip_per_connection() {
    // the whole client/server exchange, minus the sockets: set, get, miss, rm miss
    let mut server = fresh_server();

    let wire = encode_request(&Request::Put { key: b("hello"), value: b("world") });
    let (resp, _actions) = server.serve_frame(&wire).unwrap();
    assert!(parse_ack_response(&resp).is_ok());

    let wire = encode_request(&Request::Get { key: b("hello") });
    let (resp, _actions) = server.serve_frame(&wire).unwrap();
    assert_eq!(parse_get_response(&resp).unwrap(), Some(b("world")));

    let wire = encode_request(&Request::Get { key: b("missing") });
    let (resp, _actions) = server.serve_frame(&wire).unwrap();
    assert_eq!(parse_get_response(&resp).unwrap(), None);

    let wire = encode_request(&Request::Del { key: b("missing") });
    let (resp, _actions) = server.serve_frame(&wire).unwrap();
    assert_eq!(
        parse_ack_response(&resp).unwrap_err(),
        KvError::StringError(b("Key not found"))
    );
}

#[test]
fn response_shape_matches_request_kind() {
    let mut server = fresh_server();
    let (resp, _) = server.handle_request(Request::Put { key: b("a"), value: b("1") });
    assert!(matches!(resp, Response::Put(_)));
    let (resp, _) = server.handle_request(Request::Get { key: b("a") });
    assert!(matches!(resp, Response::Get(_)));
    let (resp, _) = server.handle_request(Request::Del { key: b("a") });
    assert!(matches!(resp, Response::Del(_)));
}

#[test]
fn malformed_request_is_reported_not_served() {
    let mut server = fresh_server();
    let garbage = vec![14u8, 0, 0, 0, 99, 0, 0, 0, 0, 0, 0, 0, 0, 0];
    assert_eq!(server.serve_frame(&garbage).unwrap_err(), KvError::CorruptRecord);
    let torn = vec![16u8, 0, 0];
    assert_eq!(server.serve_frame(&torn).unwrap_err(), KvError::EndOfStream);
}
