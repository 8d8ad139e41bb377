//! The on-disk record codec.
//!
//! A log segment is a concatenation of independently self-delimiting
//! command records.  Each record is a tag byte followed by one or two
//! length-prefixed UTF-8 fields:
//!
//! ```text
//! Put(key, value):  [SET_TAG]    [key len: u64 LE] [key bytes] [value len: u64 LE] [value bytes]
//! Remove(key):      [REMOVE_TAG] [key len: u64 LE] [key bytes]
//! ```
//!
//! A decoder started at the beginning of a segment yields the same
//! command sequence regardless of what follows; it stops on a clean end
//! of the data, and it reports a partial trailing record (as left by a
//! crash) as truncation rather than corruption.

use vstd::prelude::*;
use vstd::utf8::*;

verus! {

/// Tag byte that starts an encoded `Put` record.
pub const SET_TAG: u8 = 0;

/// Tag byte that starts an encoded `Remove` record.
pub const REMOVE_TAG: u8 = 1;

/// A command written to the log.
#[derive(Debug, Clone, PartialEq, Eq)]
pub enum Command {
    /// Assign `value` to `key`.
    Put { key: String, value: String },
    /// A tombstone: delete `key`.
    Remove { key: String },
}

/// The mathematical form of a command: its fields as character sequences.
pub enum CommandV {
    /// Assign `value` to `key`.
    Put { key: Seq<char>, value: Seq<char> },
    /// A tombstone: delete `key`.
    Remove { key: Seq<char> },
}

impl View for Command {
    type V = CommandV;

    open spec fn view(&self) -> CommandV {
        match self {
            Command::Put { key, value } => CommandV::Put { key: key@, value: value@ },
            Command::Remove { key } => CommandV::Remove { key: key@ },
        }
    }
}

/// The eight bytes of `n`, least significant first.
pub open spec fn u64_le_bytes(n: u64) -> Seq<u8> {
    seq![
        (n & 0xff) as u8,
        ((n >> 8) & 0xff) as u8,
        ((n >> 16) & 0xff) as u8,
        ((n >> 24) & 0xff) as u8,
        ((n >> 32) & 0xff) as u8,
        ((n >> 40) & 0xff) as u8,
        ((n >> 48) & 0xff) as u8,
        ((n >> 56) & 0xff) as u8,
    ]
}

/// The value whose little-endian bytes are `b`.
pub open spec fn u64_from_le(b: Seq<u8>) -> u64
    recommends
        b.len() == 8,
{
    (b[0] as u64) | ((b[1] as u64) << 8) | ((b[2] as u64) << 16) | ((b[3] as u64) << 24) | (
    (b[4] as u64) << 32) | ((b[5] as u64) << 40) | ((b[6] as u64) << 48) | ((b[7] as u64) << 56)
}

/// Reading back the little-endian bytes of `n` gives `n`.
pub proof fn lemma_u64_le_roundtrip(n: u64)
    ensures
        u64_from_le(u64_le_bytes(n)) == n,
{
    assert(((n & 0xff) as u8 as u64) | (((n >> 8) & 0xff) as u8 as u64) << 8 | (((n >> 16)
        & 0xff) as u8 as u64) << 16 | (((n >> 24) & 0xff) as u8 as u64) << 24 | (((n >> 32)
        & 0xff) as u8 as u64) << 32 | (((n >> 40) & 0xff) as u8 as u64) << 40 | (((n >> 48)
        & 0xff) as u8 as u64) << 48 | (((n >> 56) & 0xff) as u8 as u64) << 56 == n)
        by (bit_vector);
}

/// A length-prefixed field: the UTF-8 bytes of `s` behind their count.
pub open spec fn spec_encode_str(s: Seq<char>) -> Seq<u8> {
    u64_le_bytes(encode_utf8(s).len() as u64) + encode_utf8(s)
}

/// The encoded bytes of a command record.
pub open spec fn spec_encode(c: CommandV) -> Seq<u8> {
    match c {
        CommandV::Put { key, value } => seq![SET_TAG] + spec_encode_str(key) + spec_encode_str(
            value,
        ),
        CommandV::Remove { key } => seq![REMOVE_TAG] + spec_encode_str(key),
    }
}

/// Whether the UTF-8 form of each field is short enough for its length
/// to be written as a `u64`.  Every command built from real strings is.
pub open spec fn encodable(c: CommandV) -> bool {
    match c {
        CommandV::Put { key, value } => encode_utf8(key).len() < 0x1_0000_0000_0000_0000
            && encode_utf8(value).len() < 0x1_0000_0000_0000_0000,
        CommandV::Remove { key } => encode_utf8(key).len() < 0x1_0000_0000_0000_0000,
    }
}

/// What a decoder finds at one position of a segment.
pub enum SpecDecoded {
    /// A whole record: the command and the position just past it.
    Record { cmd: CommandV, end: int },
    /// The clean end of the data.
    End,
    /// The data ends inside a record: a partial trailing record.
    Truncated,
    /// Bytes that are not a prefix of any record.
    Corrupt,
}

/// Decode one record of `data` starting at `pos`.
pub open spec fn spec_decode(data: Seq<u8>, pos: int) -> SpecDecoded
    recommends
        0 <= pos <= data.len(),
{
    if pos == data.len() {
        SpecDecoded::End
    } else if data[pos] == SET_TAG {
        if pos + 9 > data.len() {
            SpecDecoded::Truncated
        } else {
            let klen = u64_from_le(data.subrange(pos + 1, pos + 9)) as int;
            let kend = pos + 9 + klen;
            if kend + 8 > data.len() {
                SpecDecoded::Truncated
            } else {
                let vlen = u64_from_le(data.subrange(kend, kend + 8)) as int;
                let vend = kend + 8 + vlen;
                if vend > data.len() {
                    SpecDecoded::Truncated
                } else {
                    let kb = data.subrange(pos + 9, kend);
                    let vb = data.subrange(kend + 8, vend);
                    if valid_utf8(kb) && valid_utf8(vb) {
                        SpecDecoded::Record {
                            cmd: CommandV::Put { key: decode_utf8(kb), value: decode_utf8(vb) },
                            end: vend,
                        }
                    } else {
                        SpecDecoded::Corrupt
                    }
                }
            }
        }
    } else if data[pos] == REMOVE_TAG {
        if pos + 9 > data.len() {
            SpecDecoded::Truncated
        } else {
            let klen = u64_from_le(data.subrange(pos + 1, pos + 9)) as int;
            let kend = pos + 9 + klen;
            if kend > data.len() {
                SpecDecoded::Truncated
            } else {
                let kb = data.subrange(pos + 9, kend);
                if valid_utf8(kb) {
                    SpecDecoded::Record { cmd: CommandV::Remove { key: decode_utf8(kb) }, end: kend }
                } else {
                    SpecDecoded::Corrupt
                }
            }
        }
    } else {
        SpecDecoded::Corrupt
    }
}

/// A decoded record lies strictly between `pos` and the end of the data.
pub proof fn lemma_decode_bounds(data: Seq<u8>, pos: int)
    requires
        0 <= pos <= data.len(),
    ensures
        spec_decode(data, pos) matches SpecDecoded::Record { cmd, end } ==> pos < end
            <= data.len(),
{
}

/// A record embedded in a longer byte sequence decodes to exactly the
/// command it encodes, ending just past the record.
pub proof fn lemma_decode_encode(data: Seq<u8>, pos: int, c: CommandV)
    requires
        encodable(c),
        0 <= pos,
        pos + spec_encode(c).len() <= data.len(),
        data.subrange(pos, pos + spec_encode(c).len() as int) == spec_encode(c),
    ensures
        spec_decode(data, pos) == (SpecDecoded::Record {
            cmd: c,
            end: pos + spec_encode(c).len(),
        }),
{
    let enc = spec_encode(c);
    assert forall|j: int| pos <= j < pos + enc.len() implies #[trigger] data[j] == enc[j - pos] by {
        assert(data.subrange(pos, pos + enc.len() as int)[j - pos] == data[j]);
    }
    broadcast use vstd::utf8::encode_utf8_valid_utf8, vstd::utf8::encode_utf8_decode_utf8;

    match c {
        CommandV::Put { key, value } => {
            let kb = encode_utf8(key);
            let vb = encode_utf8(value);
            let klen = kb.len() as int;
            let vlen = vb.len() as int;
            assert(enc =~= seq![SET_TAG] + u64_le_bytes(klen as u64) + kb + u64_le_bytes(
                vlen as u64) + vb);
            assert(enc.len() == 17 + klen + vlen);
            assert forall|i: int| 0 <= i < enc.len() implies #[trigger] enc[i] == (
            if i == 0 {
                SET_TAG
            } else if i < 9 {
                u64_le_bytes(klen as u64)[i - 1]
            } else if i < 9 + klen {
                kb[i - 9]
            } else if i < 17 + klen {
                u64_le_bytes(vlen as u64)[i - 9 - klen]
            } else {
                vb[i - 17 - klen]
            }) by {
                assert(enc == seq![SET_TAG] + u64_le_bytes(klen as u64) + kb + u64_le_bytes(
                    vlen as u64) + vb);
            }
            assert(data[pos] == enc[0] && enc[0] == SET_TAG);
            let kend = pos + 9 + klen;
            assert(data.subrange(pos + 1, pos + 9) =~= u64_le_bytes(klen as u64)) by {
                assert forall|i: int| 0 <= i < 8 implies #[trigger] data.subrange(pos + 1, pos + 9)[i]
                    == u64_le_bytes(klen as u64)[i] by {
                    assert(data[pos + 1 + i] == enc[1 + i]);
                }
            }
            lemma_u64_le_roundtrip(klen as u64);
            assert(data.subrange(kend, kend + 8) =~= u64_le_bytes(vlen as u64)) by {
                assert forall|i: int| 0 <= i < 8 implies #[trigger] data.subrange(kend, kend + 8)[i]
                    == u64_le_bytes(vlen as u64)[i] by {
                    assert(data[kend + i] == enc[9 + klen + i]);
                }
            }
            lemma_u64_le_roundtrip(vlen as u64);
            assert(data.subrange(pos + 9, kend) =~= kb) by {
                assert forall|i: int| 0 <= i < klen implies #[trigger] data.subrange(pos + 9, kend)[i] == kb[i] by {
                    assert(data[pos + 9 + i] == enc[9 + i]);
                }
            }
            assert(data.subrange(kend + 8, kend + 8 + vlen) =~= vb) by {
                assert forall|i: int| 0 <= i < vlen implies #[trigger] data.subrange(kend + 8, kend + 8
                    + vlen)[i] == vb[i] by {
                    assert(data[kend + 8 + i] == enc[17 + klen + i]);
                }
            }
        },
        CommandV::Remove { key } => {
            let kb = encode_utf8(key);
            let klen = kb.len() as int;
            assert(enc =~= seq![REMOVE_TAG] + u64_le_bytes(klen as u64) + kb);
            assert(enc.len() == 9 + klen);
            assert forall|i: int| 0 <= i < enc.len() implies #[trigger] enc[i] == (
            if i == 0 {
                REMOVE_TAG
            } else if i < 9 {
                u64_le_bytes(klen as u64)[i - 1]
            } else {
                kb[i - 9]
            }) by {
                assert(enc == seq![REMOVE_TAG] + u64_le_bytes(klen as u64) + kb);
            }
            assert(data[pos] == enc[0] && enc[0] == REMOVE_TAG);
            assert(data.subrange(pos + 1, pos + 9) =~= u64_le_bytes(klen as u64)) by {
                assert forall|i: int| 0 <= i < 8 implies #[trigger] data.subrange(pos + 1, pos + 9)[i]
                    == u64_le_bytes(klen as u64)[i] by {
                    assert(data[pos + 1 + i] == enc[1 + i]);
                }
            }
            lemma_u64_le_roundtrip(klen as u64);
            assert(data.subrange(pos + 9, pos + 9 + klen) =~= kb) by {
                assert forall|i: int| 0 <= i < klen implies #[trigger] data.subrange(pos + 9, pos + 9
                    + klen)[i] == kb[i] by {
                    assert(data[pos + 9 + i] == enc[9 + i]);
                }
            }
        },
    }
}

/// A value's little-endian bytes are the bytes it was read from.
pub proof fn lemma_le_bytes_of_value(b: Seq<u8>)
    requires
        b.len() == 8,
    ensures
        u64_le_bytes(u64_from_le(b)) == b,
{
    let b0 = b[0];
    let b1 = b[1];
    let b2 = b[2];
    let b3 = b[3];
    let b4 = b[4];
    let b5 = b[5];
    let b6 = b[6];
    let b7 = b[7];
    let n = u64_from_le(b);
    assert(n == (b0 as u64) | ((b1 as u64) << 8) | ((b2 as u64) << 16) | ((b3 as u64) << 24) | ((
    b4 as u64) << 32) | ((b5 as u64) << 40) | ((b6 as u64) << 48) | ((b7 as u64) << 56));
    assert({
        let m = (b0 as u64) | ((b1 as u64) << 8) | ((b2 as u64) << 16) | ((b3 as u64) << 24) | ((
        b4 as u64) << 32) | ((b5 as u64) << 40) | ((b6 as u64) << 48) | ((b7 as u64) << 56);
        (m & 0xff) as u8 == b0 && ((m >> 8) & 0xff) as u8 == b1 && ((m >> 16) & 0xff) as u8 == b2
            && ((m >> 24) & 0xff) as u8 == b3 && ((m >> 32) & 0xff) as u8 == b4 && ((m >> 40)
            & 0xff) as u8 == b5 && ((m >> 48) & 0xff) as u8 == b6 && ((m >> 56) & 0xff) as u8 == b7
    }) by (bit_vector);
    assert(u64_le_bytes(n) =~= b);
}

/// A decoded record's bytes are exactly the encoding of the decoded
/// command: the codec writes each command one way only.
pub proof fn lemma_encode_decode(data: Seq<u8>, pos: int)
    requires
        0 <= pos <= data.len(),
        spec_decode(data, pos) is Record,
    ensures
        spec_decode(data, pos) matches SpecDecoded::Record { cmd, end } ==> data.subrange(pos, end)
            == spec_encode(cmd) && encodable(cmd) && end - pos == spec_encode(cmd).len(),
{
    broadcast use vstd::utf8::decode_utf8_encode_utf8;

    if data[pos] == SET_TAG {
        let lb = data.subrange(pos + 1, pos + 9);
        let klen = u64_from_le(lb) as int;
        let kend = pos + 9 + klen;
        let vlb = data.subrange(kend, kend + 8);
        let vlen = u64_from_le(vlb) as int;
        let vend = kend + 8 + vlen;
        let kb = data.subrange(pos + 9, kend);
        let vb = data.subrange(kend + 8, vend);
        let cmd = CommandV::Put { key: decode_utf8(kb), value: decode_utf8(vb) };
        assert(encode_utf8(decode_utf8(kb)) == kb);
        assert(encode_utf8(decode_utf8(vb)) == vb);
        lemma_le_bytes_of_value(lb);
        lemma_le_bytes_of_value(vlb);
        assert(kb.len() as u64 == u64_from_le(lb) && vb.len() as u64 == u64_from_le(vlb));
        assert(spec_encode(cmd) == seq![SET_TAG] + (u64_le_bytes(kb.len() as u64) + kb) + (
        u64_le_bytes(vb.len() as u64) + vb));
        assert(data.subrange(pos, vend) =~= seq![SET_TAG] + (lb + kb) + (vlb + vb));
    } else {
        let lb = data.subrange(pos + 1, pos + 9);
        let klen = u64_from_le(lb) as int;
        let kend = pos + 9 + klen;
        let kb = data.subrange(pos + 9, kend);
        let cmd = CommandV::Remove { key: decode_utf8(kb) };
        assert(encode_utf8(decode_utf8(kb)) == kb);
        lemma_le_bytes_of_value(lb);
        assert(kb.len() as u64 == u64_from_le(lb));
        assert(spec_encode(cmd) == seq![REMOVE_TAG] + (u64_le_bytes(kb.len() as u64) + kb));
        assert(data.subrange(pos, kend) =~= seq![REMOVE_TAG] + (lb + kb));
    }
}

/// A record short enough to exist in memory has encodable fields.
pub proof fn lemma_encodable_from_len(c: CommandV)
    requires
        spec_encode(c).len() < 0x1_0000_0000_0000_0000,
    ensures
        encodable(c),
{
}

/// Appending bytes after a whole record does not change how it decodes.
pub proof fn lemma_decode_append(data: Seq<u8>, ext: Seq<u8>, pos: int)
    requires
        0 <= pos <= data.len(),
        spec_decode(data, pos) is Record,
    ensures
        spec_decode(data + ext, pos) == spec_decode(data, pos),
{
    let whole = data + ext;
    assert forall|a: int, b: int| 0 <= a <= b <= data.len() implies whole.subrange(a, b)
        =~= data.subrange(a, b) by {
    }
}

/// Relies on `String::from_utf8`: it succeeds exactly on valid UTF-8
/// input and yields the string whose characters those bytes decode to.
#[verifier::external_body]
pub(crate) fn bytes_to_string(bytes: Vec<u8>) -> (r: Option<String>)
    ensures
        r is Some <==> valid_utf8(bytes@),
        r matches Some(s) ==> s@ == decode_utf8(bytes@),
{
    match String::from_utf8(bytes) {
        Ok(s) => Some(s),
        Err(_) => None,
    }
}

/// Append the eight little-endian bytes of `n`.
pub(crate) fn push_u64_le(out: &mut Vec<u8>, n: u64)
    ensures
        final(out)@ == old(out)@ + u64_le_bytes(n),
{
    out.push((n & 0xff) as u8);
    out.push(((n >> 8) & 0xff) as u8);
    out.push(((n >> 16) & 0xff) as u8);
    out.push(((n >> 24) & 0xff) as u8);
    out.push(((n >> 32) & 0xff) as u8);
    out.push(((n >> 40) & 0xff) as u8);
    out.push(((n >> 48) & 0xff) as u8);
    out.push(((n >> 56) & 0xff) as u8);
    proof {
        assert(out@ =~= old(out)@ + u64_le_bytes(n));
    }
}

/// Read the `u64` whose little-endian bytes sit at `p`.
pub(crate) fn read_u64_le(data: &Vec<u8>, p: usize) -> (r: u64)
    requires
        p + 8 <= data@.len(),
    ensures
        r == u64_from_le(data@.subrange(p as int, p as int + 8)),
{
    let n = data.len();
    let r = (data[p] as u64) | ((data[p + 1] as u64) << 8) | ((data[p + 2] as u64) << 16) | ((data[p
        + 3] as u64) << 24) | ((data[p + 4] as u64) << 32) | ((data[p + 5] as u64) << 40) | ((data[p
        + 6] as u64) << 48) | ((data[p + 7] as u64) << 56);
    proof {
        let b = data@.subrange(p as int, p as int + 8);
        assert(b[0] == data@[p as int] && b[1] == data@[p as int + 1] && b[2] == data@[p as int + 2]
            && b[3] == data@[p as int + 3] && b[4] == data@[p as int + 4] && b[5] == data@[p as int
            + 5] && b[6] == data@[p as int + 6] && b[7] == data@[p as int + 7]);
    }
    r
}

/// Copy the bytes of `data` between `a` and `b` into a fresh vector.
pub(crate) fn copy_range(data: &Vec<u8>, a: usize, b: usize) -> (r: Vec<u8>)
    requires
        a <= b <= data@.len(),
    ensures
        r@ == data@.subrange(a as int, b as int),
{
    let mut r: Vec<u8> = Vec::new();
    let mut i: usize = a;
    while i < b
        invariant
            a <= i <= b <= data@.len(),
            r@ == data@.subrange(a as int, i as int),
        decreases b - i,
    {
        r.push(data[i]);
        proof {
            assert(r@ =~= data@.subrange(a as int, i as int + 1));
        }
        i = i + 1;
    }
    r
}

/// Append a length-prefixed field holding the UTF-8 bytes of `s`.
pub(crate) fn push_str_field(out: &mut Vec<u8>, s: &str)
    ensures
        final(out)@ == old(out)@ + spec_encode_str(s@),
        encode_utf8(s@).len() < 0x1_0000_0000_0000_0000,
{
    let bytes = s.as_bytes_vec();
    push_u64_le(out, bytes.len() as u64);
    out.extend_from_slice(bytes.as_slice());
    proof {
        assert(out@ =~= old(out)@ + spec_encode_str(s@));
    }
}

/// Encode one command as a self-delimiting record.
pub fn encode_command(cmd: &Command) -> (r: Vec<u8>)
    ensures
        r@ == spec_encode(cmd@),
        encodable(cmd@),
{
    let mut out: Vec<u8> = Vec::new();
    match cmd {
        Command::Put { key, value } => {
            out.push(SET_TAG);
            push_str_field(&mut out, key.as_str());
            push_str_field(&mut out, value.as_str());
            proof {
                assert(out@ =~= spec_encode(cmd@));
            }
        },
        Command::Remove { key } => {
            out.push(REMOVE_TAG);
            push_str_field(&mut out, key.as_str());
            proof {
                assert(out@ =~= spec_encode(cmd@));
            }
        },
    }
    out
}

/// What `decode_command` found, as executable data.
pub enum Decoded {
    /// A whole record: the command and the position just past it.
    Record(Command, usize),
    /// The clean end of the data.
    End,
    /// The data ends inside a record: a partial trailing record.
    Truncated,
    /// Bytes that are not a prefix of any record.
    Corrupt,
}

/// The executable outcome agrees with the specification-level one.
pub open spec fn decoded_matches(r: Decoded, s: SpecDecoded) -> bool {
    match r {
        Decoded::Record(c, e) => s matches SpecDecoded::Record { cmd, end } && c@ == cmd && e as int
            == end,
        Decoded::End => s is End,
        Decoded::Truncated => s is Truncated,
        Decoded::Corrupt => s is Corrupt,
    }
}

/// Decode one record of `data` starting at `pos`.
pub fn decode_command(data: &Vec<u8>, pos: usize) -> (r: Decoded)
    requires
        pos <= data@.len(),
    ensures
        decoded_matches(r, spec_decode(data@, pos as int)),
{
    let n = data.len();
    if pos == n {
        return Decoded::End;
    }
    let tag = data[pos];
    if tag != SET_TAG && tag != REMOVE_TAG {
        return Decoded::Corrupt;
    }
    if n - pos < 9 {
        return Decoded::Truncated;
    }
    let klen64 = read_u64_le(data, pos + 1);
    let rem = n - (pos + 9);
    if klen64 > rem as u64 {
        return Decoded::Truncated;
    }
    let klen = klen64 as usize;
    let kstart = pos + 9;
    let kend = kstart + klen;
    if tag == REMOVE_TAG {
        let kb = copy_range(data, kstart, kend);
        match bytes_to_string(kb) {
            Some(key) => Decoded::Record(Command::Remove { key }, kend),
            None => Decoded::Corrupt,
        }
    } else {
        if n - kend < 8 {
            return Decoded::Truncated;
        }
        let vlen64 = read_u64_le(data, kend);
        let rem2 = n - (kend + 8);
        if vlen64 > rem2 as u64 {
            return Decoded::Truncated;
        }
        let vlen = vlen64 as usize;
        let vstart = kend + 8;
        let vend = vstart + vlen;
        let kb = copy_range(data, kstart, kend);
        let vb = copy_range(data, vstart, vend);
        let ks = bytes_to_string(kb);
        let vs = bytes_to_string(vb);
        match (ks, vs) {
            (Some(key), Some(value)) => Decoded::Record(Command::Put { key, value }, vend),
            _ => Decoded::Corrupt,
        }
    }
}

} // verus!
