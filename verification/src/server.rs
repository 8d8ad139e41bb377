//! The server's request dispatch.
//!
//! One request maps to one engine call and one reply frame, and the
//! whole step is verified: a write is acknowledged only once the
//! store's contents changed, a lookup reports exactly the value the
//! store held, and a failure carries the error's own message.

use crate::error::Error;
use crate::error::ErrorKind;
use crate::protocol::GetRespV;
use crate::protocol::GetResponse;
use crate::protocol::RemoveRespV;
use crate::protocol::RemoveResponse;
use crate::protocol::ReqV;
use crate::protocol::Request;
use crate::protocol::SetRespV;
use crate::protocol::SetResponse;
use crate::protocol::encode_get_response;
use crate::protocol::encode_remove_response;
use crate::protocol::encode_set_response;
use crate::protocol::spec_encode_get_response;
use crate::protocol::spec_encode_remove_response;
use crate::protocol::spec_encode_set_response;
use crate::store::KvStore;
use vstd::prelude::*;

verus! {

/// The reply to a write: done, or the error's message.
pub fn set_response_of(r: &Result<(), Error>) -> (resp: SetResponse)
    ensures
        match r {
            Ok(_) => resp == SetResponse::Done,
            Err(e) => resp matches SetResponse::Failed(m) && m@ == e.spec_kind().spec_str(),
        },
{
    match r {
        Ok(_) => SetResponse::Done,
        Err(e) => SetResponse::Failed(e.message().to_owned()),
    }
}

/// The reply to a lookup: the value or absence, or the error's message.
pub fn get_response_of(r: Result<Option<String>, Error>) -> (resp: GetResponse)
    ensures
        match r {
            Ok(v) => resp == GetResponse::Value(v),
            Err(e) => resp matches GetResponse::Failed(m) && m@ == e.spec_kind().spec_str(),
        },
{
    match r {
        Ok(v) => GetResponse::Value(v),
        Err(e) => GetResponse::Failed(e.message().to_owned()),
    }
}

/// The reply to a deletion: done, or the error's message.
pub fn remove_response_of(r: &Result<(), Error>) -> (resp: RemoveResponse)
    ensures
        match r {
            Ok(_) => resp == RemoveResponse::Done,
            Err(e) => resp matches RemoveResponse::Failed(m) && m@ == e.spec_kind().spec_str(),
        },
{
    match r {
        Ok(_) => RemoveResponse::Done,
        Err(e) => RemoveResponse::Failed(e.message().to_owned()),
    }
}

/// Serve one request: perform it on the store and build the one reply
/// frame the wire protocol owes for it.
pub fn handle_request(store: &mut KvStore, req: Request) -> (reply: Vec<u8>)
    requires
        old(store).wf(),
        old(store).spec_gen() <= u64::MAX - 2,
    ensures
        final(store).wf(),
        old(store).spec_gen() <= final(store).spec_gen() <= old(store).spec_gen() + 2,
        match req@ {
            ReqV::Put { key, value } => final(store)@ == old(store)@.insert(key, value) && reply@
                == spec_encode_set_response(SetRespV::Done),
            ReqV::Get { key } => *final(store) == *old(store) && reply@
                == spec_encode_get_response(
                GetRespV::Value(
                    if old(store)@.contains_key(key) {
                        Some(old(store)@[key])
                    } else {
                        None
                    },
                ),
            ),
            ReqV::Remove { key } => if old(store)@.contains_key(key) {
                final(store)@ == old(store)@.remove(key) && reply@
                    == spec_encode_remove_response(RemoveRespV::Done)
            } else {
                *final(store) == *old(store) && reply@ == spec_encode_remove_response(
                    RemoveRespV::Failed(ErrorKind::KeyNotFound.spec_str()),
                )
            },
        },
{
    match req {
        Request::Put { key, value } => {
            let r = store.set(key, value);
            let resp = set_response_of(&r);
            encode_set_response(&resp)
        },
        Request::Get { key } => {
            let r = store.get(key);
            let resp = get_response_of(r);
            encode_get_response(&resp)
        },
        Request::Remove { key } => {
            let r = store.remove(key);
            let resp = remove_response_of(&r);
            encode_remove_response(&resp)
        },
    }
}

} // verus!
