//! The wire protocol between client and server.
//!
//! One request travels per reply, each as a self-delimited frame: a tag
//! byte followed by length-prefixed UTF-8 fields.  A reader that has
//! only part of a frame learns that more bytes are needed; bytes that
//! can never become a frame are rejected.

use crate::codec::bytes_to_string;
use crate::codec::push_str_field;
use crate::codec::read_u64_le;
use crate::codec::spec_encode_str;
use crate::codec::u64_from_le;
use vstd::prelude::*;
use vstd::utf8::decode_utf8;
use vstd::utf8::encode_utf8;
use vstd::utf8::valid_utf8;

verus! {

/// The three request kinds the server understands.
#[derive(Debug, Clone, Copy, PartialEq, Eq, Structural)]
pub enum KvsRequestKind {
    /// Assign a value to a key.
    Put,
    /// Look a key up.
    Get,
    /// Delete a key.
    Remove,
}

impl KvsRequestKind {
    /// The name of the request kind.
    pub fn as_str(&self) -> (r: &'static str)
        ensures
            r@ == self.spec_str(),
    {
        match *self {
            Self::Put => "set",
            Self::Get => "get",
            Self::Remove => "remove",
        }
    }

    /// The name, for use in contracts.
    pub open spec fn spec_str(self) -> Seq<char> {
        match self {
            Self::Put => "set"@,
            Self::Get => "get"@,
            Self::Remove => "remove"@,
        }
    }
}

/// A request to the store's server.
#[derive(Debug, Clone, PartialEq, Eq)]
pub enum Request {
    /// Assign `value` to `key`.
    Put {
        /// The key to write.
        key: String,
        /// The value to store under it.
        value: String,
    },
    /// Look `key` up.
    Get {
        /// The key to read.
        key: String,
    },
    /// Delete `key`.
    Remove {
        /// The key to delete.
        key: String,
    },
}

/// The reply to a `Put` request.
#[derive(Debug, Clone, PartialEq, Eq)]
pub enum SetResponse {
    /// The write took effect.
    Done,
    /// The write failed, with the server's message.
    Failed(String),
}

/// The reply to a `Get` request.
#[derive(Debug, Clone, PartialEq, Eq)]
pub enum GetResponse {
    /// The key's value, or absence.
    Value(Option<String>),
    /// The lookup failed, with the server's message.
    Failed(String),
}

/// The reply to a `Remove` request.
#[derive(Debug, Clone, PartialEq, Eq)]
pub enum RemoveResponse {
    /// The deletion took effect.
    Done,
    /// The deletion failed, with the server's message.
    Failed(String),
}

/// What decoding a length-prefixed field finds.
pub enum FieldDecodedV {
    /// A whole field and the position just past it.
    Field { s: Seq<char>, end: int },
    /// The data ends inside the field: read more bytes.
    Short,
    /// The field's bytes are not UTF-8.
    Bad,
}

/// Decode one length-prefixed field of `data` at `pos`.
pub open spec fn spec_decode_field(data: Seq<u8>, pos: int) -> FieldDecodedV
    recommends
        0 <= pos <= data.len(),
{
    if pos + 8 > data.len() {
        FieldDecodedV::Short
    } else {
        let n = u64_from_le(data.subrange(pos, pos + 8)) as int;
        let end = pos + 8 + n;
        if end > data.len() {
            FieldDecodedV::Short
        } else {
            let b = data.subrange(pos + 8, end);
            if valid_utf8(b) {
                FieldDecodedV::Field { s: decode_utf8(b), end }
            } else {
                FieldDecodedV::Bad
            }
        }
    }
}

/// A field embedded in a longer byte sequence decodes to exactly the
/// string it encodes.
pub proof fn lemma_decode_field_encode(data: Seq<u8>, pos: int, s: Seq<char>)
    requires
        encode_utf8(s).len() < 0x1_0000_0000_0000_0000,
        0 <= pos,
        pos + spec_encode_str(s).len() <= data.len(),
        data.subrange(pos, pos + spec_encode_str(s).len() as int) == spec_encode_str(s),
    ensures
        spec_decode_field(data, pos) == (FieldDecodedV::Field {
            s,
            end: pos + spec_encode_str(s).len(),
        }),
{
    let sb = encode_utf8(s);
    let enc = spec_encode_str(s);
    let n = sb.len() as int;
    assert(enc.len() == 8 + n);
    assert forall|j: int| pos <= j < pos + enc.len() implies #[trigger] data[j] == enc[j - pos] by {
        assert(data.subrange(pos, pos + enc.len() as int)[j - pos] == data[j]);
    }
    assert(data.subrange(pos, pos + 8) =~= crate::codec::u64_le_bytes(sb.len() as u64)) by {
        assert forall|i: int| 0 <= i < 8 implies #[trigger] data.subrange(pos, pos + 8)[i]
            == crate::codec::u64_le_bytes(sb.len() as u64)[i] by {
            assert(data[pos + i] == enc[i]);
        }
    }
    crate::codec::lemma_u64_le_roundtrip(sb.len() as u64);
    assert(data.subrange(pos + 8, pos + 8 + n) =~= sb) by {
        assert forall|i: int| 0 <= i < n implies #[trigger] data.subrange(pos + 8, pos + 8 + n)[i]
            == sb[i] by {
            assert(data[pos + 8 + i] == enc[8 + i]);
        }
    }
    broadcast use vstd::utf8::encode_utf8_valid_utf8, vstd::utf8::encode_utf8_decode_utf8;

}

/// What executable field decoding finds.
pub enum FieldDecoded {
    /// A whole field and the position just past it.
    Field(String, usize),
    /// The data ends inside the field: read more bytes.
    Short,
    /// The field's bytes are not UTF-8.
    Bad,
}

/// The executable outcome agrees with the specification-level one.
pub open spec fn field_matches(r: FieldDecoded, s: FieldDecodedV) -> bool {
    match r {
        FieldDecoded::Field(v, e) => s matches FieldDecodedV::Field { s: sv, end } && v@ == sv
            && e as int == end,
        FieldDecoded::Short => s is Short,
        FieldDecoded::Bad => s is Bad,
    }
}

/// Decode one length-prefixed field of `data` at `pos`.
pub fn decode_field(data: &Vec<u8>, pos: usize) -> (r: FieldDecoded)
    requires
        pos <= data@.len(),
    ensures
        field_matches(r, spec_decode_field(data@, pos as int)),
{
    let total = data.len();
    if total - pos < 8 {
        return FieldDecoded::Short;
    }
    let n64 = read_u64_le(data, pos);
    let rem = total - (pos + 8);
    if n64 > rem as u64 {
        return FieldDecoded::Short;
    }
    let n = n64 as usize;
    let start = pos + 8;
    let bytes = crate::codec::copy_range(data, start, start + n);
    match bytes_to_string(bytes) {
        Some(s) => FieldDecoded::Field(s, start + n),
        None => FieldDecoded::Bad,
    }
}

/// The mathematical form of a request.
pub enum ReqV {
    /// Assign `value` to `key`.
    Put { key: Seq<char>, value: Seq<char> },
    /// Look `key` up.
    Get { key: Seq<char> },
    /// Delete `key`.
    Remove { key: Seq<char> },
}

impl View for Request {
    type V = ReqV;

    open spec fn view(&self) -> ReqV {
        match self {
            Request::Put { key, value } => ReqV::Put { key: key@, value: value@ },
            Request::Get { key } => ReqV::Get { key: key@ },
            Request::Remove { key } => ReqV::Remove { key: key@ },
        }
    }
}

/// The mathematical form of a `Put` reply.
pub enum SetRespV {
    /// The write took effect.
    Done,
    /// The write failed, with the server's message.
    Failed(Seq<char>),
}

impl View for SetResponse {
    type V = SetRespV;

    open spec fn view(&self) -> SetRespV {
        match self {
            SetResponse::Done => SetRespV::Done,
            SetResponse::Failed(msg) => SetRespV::Failed(msg@),
        }
    }
}

/// The mathematical form of a `Get` reply.
pub enum GetRespV {
    /// The key's value, or absence.
    Value(Option<Seq<char>>),
    /// The lookup failed, with the server's message.
    Failed(Seq<char>),
}

impl View for GetResponse {
    type V = GetRespV;

    open spec fn view(&self) -> GetRespV {
        match self {
            GetResponse::Value(opt) => GetRespV::Value(
                match opt {
                    Some(v) => Some(v@),
                    None => None,
                },
            ),
            GetResponse::Failed(msg) => GetRespV::Failed(msg@),
        }
    }
}

/// The mathematical form of a `Remove` reply.
pub enum RemoveRespV {
    /// The deletion took effect.
    Done,
    /// The deletion failed, with the server's message.
    Failed(Seq<char>),
}

impl View for RemoveResponse {
    type V = RemoveRespV;

    open spec fn view(&self) -> RemoveRespV {
        match self {
            RemoveResponse::Done => RemoveRespV::Done,
            RemoveResponse::Failed(msg) => RemoveRespV::Failed(msg@),
        }
    }
}

/// The frame of a request.
pub open spec fn spec_encode_request(r: ReqV) -> Seq<u8> {
    match r {
        ReqV::Put { key, value } => seq![0u8] + spec_encode_str(key) + spec_encode_str(value),
        ReqV::Get { key } => seq![1u8] + spec_encode_str(key),
        ReqV::Remove { key } => seq![2u8] + spec_encode_str(key),
    }
}

/// The frame of a `Put` reply.
pub open spec fn spec_encode_set_response(r: SetRespV) -> Seq<u8> {
    match r {
        SetRespV::Done => seq![0u8],
        SetRespV::Failed(msg) => seq![1u8] + spec_encode_str(msg),
    }
}

/// The frame of a `Get` reply.
pub open spec fn spec_encode_get_response(r: GetRespV) -> Seq<u8> {
    match r {
        GetRespV::Value(None) => seq![0u8],
        GetRespV::Value(Some(v)) => seq![1u8] + spec_encode_str(v),
        GetRespV::Failed(msg) => seq![2u8] + spec_encode_str(msg),
    }
}

/// The frame of a `Remove` reply.
pub open spec fn spec_encode_remove_response(r: RemoveRespV) -> Seq<u8> {
    match r {
        RemoveRespV::Done => seq![0u8],
        RemoveRespV::Failed(msg) => seq![1u8] + spec_encode_str(msg),
    }
}

/// Encode a request as one self-delimited frame.
pub fn encode_request(r: &Request) -> (out: Vec<u8>)
    ensures
        out@ == spec_encode_request(r@),
{
    let mut out: Vec<u8> = Vec::new();
    match r {
        Request::Put { key, value } => {
            out.push(0u8);
            push_str_field(&mut out, key.as_str());
            push_str_field(&mut out, value.as_str());
            proof {
                assert(out@ =~= spec_encode_request(r@));
            }
        },
        Request::Get { key } => {
            out.push(1u8);
            push_str_field(&mut out, key.as_str());
            proof {
                assert(out@ =~= spec_encode_request(r@));
            }
        },
        Request::Remove { key } => {
            out.push(2u8);
            push_str_field(&mut out, key.as_str());
            proof {
                assert(out@ =~= spec_encode_request(r@));
            }
        },
    }
    out
}

/// Encode a `Put` reply as one self-delimited frame.
pub fn encode_set_response(r: &SetResponse) -> (out: Vec<u8>)
    ensures
        out@ == spec_encode_set_response(r@),
{
    let mut out: Vec<u8> = Vec::new();
    match r {
        SetResponse::Done => {
            out.push(0u8);
            proof {
                assert(out@ =~= spec_encode_set_response(r@));
            }
        },
        SetResponse::Failed(msg) => {
            out.push(1u8);
            push_str_field(&mut out, msg.as_str());
            proof {
                assert(out@ =~= spec_encode_set_response(r@));
            }
        },
    }
    out
}

/// Encode a `Get` reply as one self-delimited frame.
pub fn encode_get_response(r: &GetResponse) -> (out: Vec<u8>)
    ensures
        out@ == spec_encode_get_response(r@),
{
    let mut out: Vec<u8> = Vec::new();
    match r {
        GetResponse::Value(None) => {
            out.push(0u8);
            proof {
                assert(out@ =~= spec_encode_get_response(r@));
            }
        },
        GetResponse::Value(Some(v)) => {
            out.push(1u8);
            push_str_field(&mut out, v.as_str());
            proof {
                assert(out@ =~= spec_encode_get_response(r@));
            }
        },
        GetResponse::Failed(msg) => {
            out.push(2u8);
            push_str_field(&mut out, msg.as_str());
            proof {
                assert(out@ =~= spec_encode_get_response(r@));
            }
        },
    }
    out
}

/// Encode a `Remove` reply as one self-delimited frame.
pub fn encode_remove_response(r: &RemoveResponse) -> (out: Vec<u8>)
    ensures
        out@ == spec_encode_remove_response(r@),
{
    let mut out: Vec<u8> = Vec::new();
    match r {
        RemoveResponse::Done => {
            out.push(0u8);
            proof {
                assert(out@ =~= spec_encode_remove_response(r@));
            }
        },
        RemoveResponse::Failed(msg) => {
            out.push(1u8);
            push_str_field(&mut out, msg.as_str());
            proof {
                assert(out@ =~= spec_encode_remove_response(r@));
            }
        },
    }
    out
}

/// What decoding a frame finds, mathematically.
pub enum FrameDecodedV<T> {
    /// A whole message and the count of bytes it took.
    Msg { m: T, end: int },
    /// The data ends inside the frame: read more bytes.
    Short,
    /// Bytes that can never become a frame.
    Bad,
}

/// Decode a request frame at the start of `data`.
pub open spec fn spec_decode_request(data: Seq<u8>) -> FrameDecodedV<ReqV> {
    if data.len() < 1 {
        FrameDecodedV::Short
    } else if data[0] == 0 {
        match spec_decode_field(data, 1) {
            FieldDecodedV::Field { s: key, end } => match spec_decode_field(data, end) {
                FieldDecodedV::Field { s: value, end: e2 } => FrameDecodedV::Msg {
                    m: ReqV::Put { key, value },
                    end: e2,
                },
                FieldDecodedV::Short => FrameDecodedV::Short,
                FieldDecodedV::Bad => FrameDecodedV::Bad,
            },
            FieldDecodedV::Short => FrameDecodedV::Short,
            FieldDecodedV::Bad => FrameDecodedV::Bad,
        }
    } else if data[0] == 1 {
        match spec_decode_field(data, 1) {
            FieldDecodedV::Field { s: key, end } => FrameDecodedV::Msg {
                m: ReqV::Get { key },
                end,
            },
            FieldDecodedV::Short => FrameDecodedV::Short,
            FieldDecodedV::Bad => FrameDecodedV::Bad,
        }
    } else if data[0] == 2 {
        match spec_decode_field(data, 1) {
            FieldDecodedV::Field { s: key, end } => FrameDecodedV::Msg {
                m: ReqV::Remove { key },
                end,
            },
            FieldDecodedV::Short => FrameDecodedV::Short,
            FieldDecodedV::Bad => FrameDecodedV::Bad,
        }
    } else {
        FrameDecodedV::Bad
    }
}

/// What decoding a request frame finds, executably.
pub enum ReqDecoded {
    /// A whole request and the count of bytes it took.
    Msg(Request, usize),
    /// The data ends inside the frame: read more bytes.
    Short,
    /// Bytes that can never become a frame.
    Bad,
}

/// The executable outcome agrees with the specification-level one.
pub open spec fn req_matches(r: ReqDecoded, s: FrameDecodedV<ReqV>) -> bool {
    match r {
        ReqDecoded::Msg(req, e) => s matches FrameDecodedV::Msg { m, end } && req@ == m && e as int
            == end,
        ReqDecoded::Short => s is Short,
        ReqDecoded::Bad => s is Bad,
    }
}

/// A field that decodes ends within the data.
proof fn lemma_field_end_bounds(data: Seq<u8>, pos: int)
    requires
        0 <= pos <= data.len(),
    ensures
        spec_decode_field(data, pos) matches FieldDecodedV::Field { s, end } ==> pos < end
            <= data.len(),
{
}

/// Decode a request frame at the start of `data`.
pub fn decode_request(data: &Vec<u8>) -> (r: ReqDecoded)
    ensures
        req_matches(r, spec_decode_request(data@)),
{
    if data.len() < 1 {
        return ReqDecoded::Short;
    }
    let tag = data[0];
    if tag == 0 {
        match decode_field(data, 1) {
            FieldDecoded::Field(key, end) => {
                proof {
                    lemma_field_end_bounds(data@, 1);
                }
                match decode_field(data, end) {
                    FieldDecoded::Field(value, e2) => ReqDecoded::Msg(
                        Request::Put { key, value },
                        e2,
                    ),
                    FieldDecoded::Short => ReqDecoded::Short,
                    FieldDecoded::Bad => ReqDecoded::Bad,
                }
            },
            FieldDecoded::Short => ReqDecoded::Short,
            FieldDecoded::Bad => ReqDecoded::Bad,
        }
    } else if tag == 1 {
        match decode_field(data, 1) {
            FieldDecoded::Field(key, end) => ReqDecoded::Msg(Request::Get { key }, end),
            FieldDecoded::Short => ReqDecoded::Short,
            FieldDecoded::Bad => ReqDecoded::Bad,
        }
    } else if tag == 2 {
        match decode_field(data, 1) {
            FieldDecoded::Field(key, end) => ReqDecoded::Msg(Request::Remove { key }, end),
            FieldDecoded::Short => ReqDecoded::Short,
            FieldDecoded::Bad => ReqDecoded::Bad,
        }
    } else {
        ReqDecoded::Bad
    }
}

/// A request frame embedded at the start of a longer byte sequence
/// decodes back to exactly the request that was encoded.
pub proof fn lemma_request_roundtrip(data: Seq<u8>, r: ReqV)
    requires
        req_encodable(r),
        spec_encode_request(r).len() <= data.len(),
        data.subrange(0, spec_encode_request(r).len() as int) == spec_encode_request(r),
    ensures
        spec_decode_request(data) == (FrameDecodedV::Msg { m: r, end: spec_encode_request(r).len() as int }),
{
    let enc = spec_encode_request(r);
    assert forall|j: int| 0 <= j < enc.len() implies #[trigger] data[j] == enc[j] by {
        assert(data.subrange(0, enc.len() as int)[j] == data[j]);
    }
    match r {
        ReqV::Put { key, value } => {
            let f1 = spec_encode_str(key);
            let f2 = spec_encode_str(value);
            assert(enc =~= seq![0u8] + f1 + f2);
            assert(data[0] == 0u8);
            assert(data.subrange(1, 1 + f1.len() as int) =~= f1) by {
                assert forall|i: int| 0 <= i < f1.len() implies #[trigger] data.subrange(
                    1,
                    1 + f1.len() as int,
                )[i] == f1[i] by {
                    assert(data[1 + i] == enc[1 + i]);
                }
            }
            lemma_decode_field_encode(data, 1, key);
            let e1 = 1 + f1.len() as int;
            assert(data.subrange(e1, e1 + f2.len() as int) =~= f2) by {
                assert forall|i: int| 0 <= i < f2.len() implies #[trigger] data.subrange(
                    e1,
                    e1 + f2.len() as int,
                )[i] == f2[i] by {
                    assert(data[e1 + i] == enc[e1 + i]);
                }
            }
            lemma_decode_field_encode(data, e1, value);
        },
        ReqV::Get { key } => {
            let f1 = spec_encode_str(key);
            assert(enc =~= seq![1u8] + f1);
            assert(data[0] == 1u8);
            assert(data.subrange(1, 1 + f1.len() as int) =~= f1) by {
                assert forall|i: int| 0 <= i < f1.len() implies #[trigger] data.subrange(
                    1,
                    1 + f1.len() as int,
                )[i] == f1[i] by {
                    assert(data[1 + i] == enc[1 + i]);
                }
            }
            lemma_decode_field_encode(data, 1, key);
        },
        ReqV::Remove { key } => {
            let f1 = spec_encode_str(key);
            assert(enc =~= seq![2u8] + f1);
            assert(data[0] == 2u8);
            assert(data.subrange(1, 1 + f1.len() as int) =~= f1) by {
                assert forall|i: int| 0 <= i < f1.len() implies #[trigger] data.subrange(
                    1,
                    1 + f1.len() as int,
                )[i] == f1[i] by {
                    assert(data[1 + i] == enc[1 + i]);
                }
            }
            lemma_decode_field_encode(data, 1, key);
        },
    }
}

/// Whether the request's fields are short enough to frame.
pub open spec fn req_encodable(r: ReqV) -> bool {
    match r {
        ReqV::Put { key, value } => encode_utf8(key).len() < 0x1_0000_0000_0000_0000
            && encode_utf8(value).len() < 0x1_0000_0000_0000_0000,
        ReqV::Get { key } => encode_utf8(key).len() < 0x1_0000_0000_0000_0000,
        ReqV::Remove { key } => encode_utf8(key).len() < 0x1_0000_0000_0000_0000,
    }
}

/// Decode a `Put` reply frame at the start of `data`.
pub open spec fn spec_decode_set_response(data: Seq<u8>) -> FrameDecodedV<SetRespV> {
    if data.len() < 1 {
        FrameDecodedV::Short
    } else if data[0] == 0 {
        FrameDecodedV::Msg { m: SetRespV::Done, end: 1 }
    } else if data[0] == 1 {
        match spec_decode_field(data, 1) {
            FieldDecodedV::Field { s, end } => FrameDecodedV::Msg { m: SetRespV::Failed(s), end },
            FieldDecodedV::Short => FrameDecodedV::Short,
            FieldDecodedV::Bad => FrameDecodedV::Bad,
        }
    } else {
        FrameDecodedV::Bad
    }
}

/// Decode a `Get` reply frame at the start of `data`.
pub open spec fn spec_decode_get_response(data: Seq<u8>) -> FrameDecodedV<GetRespV> {
    if data.len() < 1 {
        FrameDecodedV::Short
    } else if data[0] == 0 {
        FrameDecodedV::Msg { m: GetRespV::Value(None), end: 1 }
    } else if data[0] == 1 {
        match spec_decode_field(data, 1) {
            FieldDecodedV::Field { s, end } => FrameDecodedV::Msg {
                m: GetRespV::Value(Some(s)),
                end,
            },
            FieldDecodedV::Short => FrameDecodedV::Short,
            FieldDecodedV::Bad => FrameDecodedV::Bad,
        }
    } else if data[0] == 2 {
        match spec_decode_field(data, 1) {
            FieldDecodedV::Field { s, end } => FrameDecodedV::Msg { m: GetRespV::Failed(s), end },
            FieldDecodedV::Short => FrameDecodedV::Short,
            FieldDecodedV::Bad => FrameDecodedV::Bad,
        }
    } else {
        FrameDecodedV::Bad
    }
}

/// Decode a `Remove` reply frame at the start of `data`.
pub open spec fn spec_decode_remove_response(data: Seq<u8>) -> FrameDecodedV<RemoveRespV> {
    if data.len() < 1 {
        FrameDecodedV::Short
    } else if data[0] == 0 {
        FrameDecodedV::Msg { m: RemoveRespV::Done, end: 1 }
    } else if data[0] == 1 {
        match spec_decode_field(data, 1) {
            FieldDecodedV::Field { s, end } => FrameDecodedV::Msg {
                m: RemoveRespV::Failed(s),
                end,
            },
            FieldDecodedV::Short => FrameDecodedV::Short,
            FieldDecodedV::Bad => FrameDecodedV::Bad,
        }
    } else {
        FrameDecodedV::Bad
    }
}

/// What decoding a `Put` reply finds, executably.
pub enum SetRespDecoded {
    /// A whole reply and the count of bytes it took.
    Msg(SetResponse, usize),
    /// The data ends inside the frame: read more bytes.
    Short,
    /// Bytes that can never become a frame.
    Bad,
}

/// What decoding a `Get` reply finds, executably.
pub enum GetRespDecoded {
    /// A whole reply and the count of bytes it took.
    Msg(GetResponse, usize),
    /// The data ends inside the frame: read more bytes.
    Short,
    /// Bytes that can never become a frame.
    Bad,
}

/// What decoding a `Remove` reply finds, executably.
pub enum RemoveRespDecoded {
    /// A whole reply and the count of bytes it took.
    Msg(RemoveResponse, usize),
    /// The data ends inside the frame: read more bytes.
    Short,
    /// Bytes that can never become a frame.
    Bad,
}

/// Decode a `Put` reply frame at the start of `data`.
pub fn decode_set_response(data: &Vec<u8>) -> (r: SetRespDecoded)
    ensures
        match r {
            SetRespDecoded::Msg(m, e) => spec_decode_set_response(data@)
                matches FrameDecodedV::Msg { m: mv, end } && m@ == mv && e as int == end,
            SetRespDecoded::Short => spec_decode_set_response(data@) is Short,
            SetRespDecoded::Bad => spec_decode_set_response(data@) is Bad,
        },
{
    if data.len() < 1 {
        return SetRespDecoded::Short;
    }
    let tag = data[0];
    if tag == 0 {
        SetRespDecoded::Msg(SetResponse::Done, 1)
    } else if tag == 1 {
        match decode_field(data, 1) {
            FieldDecoded::Field(msg, end) => SetRespDecoded::Msg(SetResponse::Failed(msg), end),
            FieldDecoded::Short => SetRespDecoded::Short,
            FieldDecoded::Bad => SetRespDecoded::Bad,
        }
    } else {
        SetRespDecoded::Bad
    }
}

/// Decode a `Get` reply frame at the start of `data`.
pub fn decode_get_response(data: &Vec<u8>) -> (r: GetRespDecoded)
    ensures
        match r {
            GetRespDecoded::Msg(m, e) => spec_decode_get_response(data@)
                matches FrameDecodedV::Msg { m: mv, end } && m@ == mv && e as int == end,
            GetRespDecoded::Short => spec_decode_get_response(data@) is Short,
            GetRespDecoded::Bad => spec_decode_get_response(data@) is Bad,
        },
{
    if data.len() < 1 {
        return GetRespDecoded::Short;
    }
    let tag = data[0];
    if tag == 0 {
        GetRespDecoded::Msg(GetResponse::Value(None), 1)
    } else if tag == 1 {
        match decode_field(data, 1) {
            FieldDecoded::Field(v, end) => GetRespDecoded::Msg(GetResponse::Value(Some(v)), end),
            FieldDecoded::Short => GetRespDecoded::Short,
            FieldDecoded::Bad => GetRespDecoded::Bad,
        }
    } else if tag == 2 {
        match decode_field(data, 1) {
            FieldDecoded::Field(msg, end) => GetRespDecoded::Msg(GetResponse::Failed(msg), end),
            FieldDecoded::Short => GetRespDecoded::Short,
            FieldDecoded::Bad => GetRespDecoded::Bad,
        }
    } else {
        GetRespDecoded::Bad
    }
}

/// Decode a `Remove` reply frame at the start of `data`.
pub fn decode_remove_response(data: &Vec<u8>) -> (r: RemoveRespDecoded)
    ensures
        match r {
            RemoveRespDecoded::Msg(m, e) => spec_decode_remove_response(data@)
                matches FrameDecodedV::Msg { m: mv, end } && m@ == mv && e as int == end,
            RemoveRespDecoded::Short => spec_decode_remove_response(data@) is Short,
            RemoveRespDecoded::Bad => spec_decode_remove_response(data@) is Bad,
        },
{
    if data.len() < 1 {
        return RemoveRespDecoded::Short;
    }
    let tag = data[0];
    if tag == 0 {
        RemoveRespDecoded::Msg(RemoveResponse::Done, 1)
    } else if tag == 1 {
        match decode_field(data, 1) {
            FieldDecoded::Field(msg, end) => RemoveRespDecoded::Msg(
                RemoveResponse::Failed(msg),
                end,
            ),
            FieldDecoded::Short => RemoveRespDecoded::Short,
            FieldDecoded::Bad => RemoveRespDecoded::Bad,
        }
    } else {
        RemoveRespDecoded::Bad
    }
}

/// A `Get` reply frame embedded at the start of a longer byte sequence
/// decodes back to exactly the reply that was encoded.
pub proof fn lemma_get_response_roundtrip(data: Seq<u8>, r: GetRespV)
    requires
        (r matches GetRespV::Value(Some(v)) ==> encode_utf8(v).len() < 0x1_0000_0000_0000_0000),
        (r matches GetRespV::Failed(msg) ==> encode_utf8(msg).len() < 0x1_0000_0000_0000_0000),
        spec_encode_get_response(r).len() <= data.len(),
        data.subrange(0, spec_encode_get_response(r).len() as int) == spec_encode_get_response(r),
    ensures
        spec_decode_get_response(data) == (FrameDecodedV::Msg {
            m: r,
            end: spec_encode_get_response(r).len() as int,
        }),
{
    let enc = spec_encode_get_response(r);
    assert forall|j: int| 0 <= j < enc.len() implies #[trigger] data[j] == enc[j] by {
        assert(data.subrange(0, enc.len() as int)[j] == data[j]);
    }
    match r {
        GetRespV::Value(None) => {
            assert(enc =~= seq![0u8]);
            assert(data[0] == 0u8);
        },
        GetRespV::Value(Some(v)) => {
            let f1 = spec_encode_str(v);
            assert(enc =~= seq![1u8] + f1);
            assert(data[0] == 1u8);
            assert(data.subrange(1, 1 + f1.len() as int) =~= f1) by {
                assert forall|i: int| 0 <= i < f1.len() implies #[trigger] data.subrange(
                    1,
                    1 + f1.len() as int,
                )[i] == f1[i] by {
                    assert(data[1 + i] == enc[1 + i]);
                }
            }
            lemma_decode_field_encode(data, 1, v);
        },
        GetRespV::Failed(msg) => {
            let f1 = spec_encode_str(msg);
            assert(enc =~= seq![2u8] + f1);
            assert(data[0] == 2u8);
            assert(data.subrange(1, 1 + f1.len() as int) =~= f1) by {
                assert forall|i: int| 0 <= i < f1.len() implies #[trigger] data.subrange(
                    1,
                    1 + f1.len() as int,
                )[i] == f1[i] by {
                    assert(data[1 + i] == enc[1 + i]);
                }
            }
            lemma_decode_field_encode(data, 1, msg);
        },
    }
}

} // verus!
