use kvs::protocol::decode_get_response;
use kvs::protocol::decode_remove_response;
use kvs::protocol::decode_request;
use kvs::protocol::decode_set_response;
use kvs::protocol::encode_get_response;
use kvs::protocol::encode_remove_response;
use kvs::protocol::encode_request;
use kvs::protocol::encode_set_response;
use kvs::protocol::GetRespDecoded;
use kvs::protocol::GetResponse;
use kvs::protocol::KvsRequestKind;
use kvs::protocol::RemoveRespDecoded;
use kvs::protocol::RemoveResponse;
use kvs::protocol::ReqDecoded;
use kvs::protocol::Request;
use kvs::protocol::SetRespDecoded;
use kvs::protocol::SetResponse;

#[test]
fn request_kinds_have_names() {
    assert_eq!(KvsRequestKind::Put.as_str(), "set");
    assert_eq!(KvsRequestKind::Get.as_str(), "get");
    assert_eq!(KvsRequestKind::Remove.as_str(), "remove");
}

#[test]
fn put_request_round_trips() {
    let req = Request::Put { key: "k".to_string(), value: "v".to_string() };
    let frame = encode_request(&req);
    match decode_request(&frame) {
        ReqDecoded::Msg(back, used) => {
            assert_eq!(back, req);
            assert_eq!(used, frame.len());
        }
        _ => panic!("whole frame expected"),
    }
}

#[test]
fn get_request_round_trips() {
    let req = Request::Get { key: "some key".to_string() };
    let frame = encode_request(&req);
    match decode_request(&frame) {
        ReqDecoded::Msg(back, used) => {
            assert_eq!(back, req);
            assert_eq!(used, frame.len());
        }
        _ => panic!("whole frame expected"),
    }
}

#[test]
fn remove_request_round_trips() {
    let req = Request::Remove { key: "k".to_string() };
    let frame = encode_request(&req);
    match decode_request(&frame) {
        ReqDecoded::Msg(back, used) => {
            assert_eq!(back, req);
            assert_eq!(used, frame.len());
        }
        _ => panic!("whole frame expected"),
    }
}

#[test]
fn partial_request_wants_more_bytes() {
    let req = Request::Put { key: "key".to_string(), value: "value".to_string() };
    let frame = encode_request(&req);
    for cut in 0..frame.len() {
        let partial = frame[..cut].to_vec();
        assert!(matches!(decode_request(&partial), ReqDecoded::Short));
    }
}

#[test]
fn junk_request_is_rejected() {
    let junk = vec![9u8, 1, 2, 3];
    assert!(matches!(decode_request(&junk), ReqDecoded::Bad));
}

#[test]
fn set_response_round_trips() {
    for resp in [SetResponse::Done, SetResponse::Failed("boom".to_string())] {
        let frame = encode_set_response(&resp);
        match decode_set_response(&frame) {
            SetRespDecoded::Msg(back, used) => {
                assert_eq!(back, resp);
                assert_eq!(used, frame.len());
            }
            _ => panic!("whole frame expected"),
        }
    }
}

#[test]
fn get_response_round_trips() {
    let cases = [
        GetResponse::Value(None),
        GetResponse::Value(Some("v".to_string())),
        GetResponse::Failed("nope".to_string()),
    ];
    for resp in cases {
        let frame = encode_get_response(&resp);
        match decode_get_response(&frame) {
            GetRespDecoded::Msg(back, used) => {
                assert_eq!(back, resp);
                assert_eq!(used, frame.len());
            }
            _ => panic!("whole frame expected"),
        }
    }
}

#[test]
fn remove_response_round_trips() {
    for resp in [RemoveResponse::Done, RemoveResponse::Failed("gone".to_string())] {
        let frame = encode_remove_response(&resp);
        match decode_remove_response(&frame) {
            RemoveRespDecoded::Msg(back, used) => {
                assert_eq!(back, resp);
                assert_eq!(used, frame.len());
            }
            _ => panic!("whole frame expected"),
        }
    }
}

#[test]
fn trailing_bytes_after_frame_are_left_alone() {
    let req = Request::Get { key: "k".to_string() };
    let mut frame = encode_request(&req);
    let clean_len = frame.len();
    frame.extend_from_slice(&[1, 2, 3, 4]);
    match decode_request(&frame) {
        ReqDecoded::Msg(back, used) => {
            assert_eq!(back, req);
            assert_eq!(used, clean_len);
        }
        _ => panic!("whole frame expected"),
    }
}

#[test]
fn handle_request_serves_all_three_kinds() {
    let mut kv = kvs::KvStore::open(Vec::new()).unwrap();

    let put = Request::Put { key: "k".to_string(), value: "v".to_string() };
    let reply = kvs::server::handle_request(&mut kv, put);
    assert!(matches!(
        decode_set_response(&reply),
        SetRespDecoded::Msg(SetResponse::Done, _)
    ));

    let get = Request::Get { key: "k".to_string() };
    let reply = kvs::server::handle_request(&mut kv, get);
    match decode_get_response(&reply) {
        GetRespDecoded::Msg(GetResponse::Value(Some(v)), _) => assert_eq!(v, "v".to_string()),
        _ => panic!("value expected"),
    }

    let rm = Request::Remove { key: "k".to_string() };
    let reply = kvs::server::handle_request(&mut kv, rm);
    assert!(matches!(
        decode_remove_response(&reply),
        RemoveRespDecoded::Msg(RemoveResponse::Done, _)
    ));

    let rm2 = Request::Remove { key: "k".to_string() };
    let reply = kvs::server::handle_request(&mut kv, rm2);
    match decode_remove_response(&reply) {
        RemoveRespDecoded::Msg(RemoveResponse::Failed(msg), _) => {
            assert_eq!(msg, "Key not found".to_string())
        }
        _ => panic!("failure expected"),
    }
}
