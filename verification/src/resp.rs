//! A small RESP (REdis Serialization Protocol) codec.
//!
//! Values travel as text frames over bytes: integers as `:<n>\r\n`,
//! strings as length-prefixed bulk strings `$<bytes>\r\n<data>\r\n`,
//! absence as the null bulk string `$-1\r\n`, and commands as arrays of
//! bulk strings behind a `*<count>\r\n` header.  The serializer renders
//! exactly these frames; the deserializer consumes exactly them.

use crate::error::Error;
use crate::error::ErrorKind;
use vstd::prelude::*;
use vstd::utf8::decode_utf8;
use vstd::utf8::encode_utf8;
use vstd::utf8::valid_utf8;

verus! {

/// The two bytes that end every RESP line.
pub open spec fn resp_crlf() -> Seq<u8> {
    seq![13u8, 10u8]
}

/// The decimal digits of `n`, most significant first, as ASCII bytes.
pub open spec fn spec_dec_bytes(n: int) -> Seq<u8>
    recommends
        n >= 0,
    decreases n,
{
    if n < 10 {
        seq![(48 + if n >= 0 { n } else { 0 }) as u8]
    } else {
        spec_dec_bytes(n / 10) + seq![(48 + n % 10) as u8]
    }
}

/// An integer frame: `:<n>\r\n`.
pub open spec fn spec_resp_integer(n: int) -> Seq<u8> {
    seq![58u8] + spec_dec_bytes(n) + resp_crlf()
}

/// A bulk string frame: `$<byte count>\r\n<data>\r\n`.
pub open spec fn spec_resp_bulk(s: Seq<char>) -> Seq<u8> {
    seq![36u8] + spec_dec_bytes(encode_utf8(s).len() as int) + resp_crlf() + encode_utf8(s)
        + resp_crlf()
}

/// The null bulk string: `$-1\r\n`, standing for absence.
pub open spec fn spec_resp_null() -> Seq<u8> {
    seq![36u8, 45u8, 49u8, 13u8, 10u8]
}

/// An array header: `*<count>\r\n`.
pub open spec fn spec_resp_array_header(n: int) -> Seq<u8> {
    seq![42u8] + spec_dec_bytes(n) + resp_crlf()
}

/// Append the decimal digits of `n`.
fn push_dec(out: &mut Vec<u8>, n: u64)
    ensures
        final(out)@ == old(out)@ + spec_dec_bytes(n as int),
    decreases n,
{
    if n >= 10 {
        push_dec(out, n / 10);
    }
    out.push(48 + (n % 10) as u8);
    proof {
        assert(out@ =~= old(out)@ + spec_dec_bytes(n as int));
    }
}

/// Append a CRLF line end.
fn push_crlf(out: &mut Vec<u8>)
    ensures
        final(out)@ == old(out)@ + resp_crlf(),
{
    out.push(13);
    out.push(10);
    proof {
        assert(out@ =~= old(out)@ + resp_crlf());
    }
}

/// Append a whole bulk string frame for `s`.
fn push_bulk(out: &mut Vec<u8>, s: &str)
    ensures
        final(out)@ == old(out)@ + spec_resp_bulk(s@),
{
    out.push(36);
    let bytes = s.as_bytes_vec();
    push_dec(out, bytes.len() as u64);
    push_crlf(out);
    out.extend_from_slice(bytes.as_slice());
    push_crlf(out);
    proof {
        assert(out@ =~= old(out)@ + spec_resp_bulk(s@));
    }
}

/// A serializer that renders values as RESP frames, in order, into one
/// output buffer.
pub struct Serializer {
    output: Vec<u8>,
}

impl Serializer {
    /// Everything rendered so far.
    pub closed spec fn spec_output(&self) -> Seq<u8> {
        self.output@
    }

    /// A serializer with an empty output.
    pub fn new() -> (r: Serializer)
        ensures
            r.spec_output() == Seq::<u8>::empty(),
    {
        Serializer { output: Vec::new() }
    }

    /// Hand the rendered bytes over.
    pub fn into_output(self) -> (r: Vec<u8>)
        ensures
            r@ == self.spec_output(),
    {
        self.output
    }

    /// Render a boolean as the integer one or zero.
    pub fn serialize_bool(&mut self, v: bool)
        ensures
            final(self).spec_output() == old(self).spec_output() + spec_resp_integer(
                if v {
                    1int
                } else {
                    0int
                },
            ),
    {
        if v {
            self.serialize_u64(1);
        } else {
            self.serialize_u64(0);
        }
    }

    /// Render an unsigned integer frame.
    pub fn serialize_u64(&mut self, v: u64)
        ensures
            final(self).spec_output() == old(self).spec_output() + spec_resp_integer(v as int),
    {
        self.output.push(58);
        push_dec(&mut self.output, v);
        push_crlf(&mut self.output);
        proof {
            assert(self.output@ =~= old(self).spec_output() + spec_resp_integer(v as int));
        }
    }

    /// Render an unsigned integer frame.
    pub fn serialize_u8(&mut self, v: u8)
        ensures
            final(self).spec_output() == old(self).spec_output() + spec_resp_integer(v as int),
    {
        self.serialize_u64(v as u64);
    }

    /// Render an unsigned integer frame.
    pub fn serialize_u16(&mut self, v: u16)
        ensures
            final(self).spec_output() == old(self).spec_output() + spec_resp_integer(v as int),
    {
        self.serialize_u64(v as u64);
    }

    /// Render an unsigned integer frame.
    pub fn serialize_u32(&mut self, v: u32)
        ensures
            final(self).spec_output() == old(self).spec_output() + spec_resp_integer(v as int),
    {
        self.serialize_u64(v as u64);
    }

    /// Render a non-negative signed integer frame.
    pub fn serialize_i64(&mut self, v: i64)
        requires
            v >= 0,
        ensures
            final(self).spec_output() == old(self).spec_output() + spec_resp_integer(v as int),
    {
        self.serialize_u64(v as u64);
    }

    /// Render a non-negative signed integer frame.
    pub fn serialize_i8(&mut self, v: i8)
        requires
            v >= 0,
        ensures
            final(self).spec_output() == old(self).spec_output() + spec_resp_integer(v as int),
    {
        self.serialize_u64(v as u64);
    }

    /// Render a non-negative signed integer frame.
    pub fn serialize_i16(&mut self, v: i16)
        requires
            v >= 0,
        ensures
            final(self).spec_output() == old(self).spec_output() + spec_resp_integer(v as int),
    {
        self.serialize_u64(v as u64);
    }

    /// Render a non-negative signed integer frame.
    pub fn serialize_i32(&mut self, v: i32)
        requires
            v >= 0,
        ensures
            final(self).spec_output() == old(self).spec_output() + spec_resp_integer(v as int),
    {
        self.serialize_u64(v as u64);
    }

    /// Render a string as a bulk string frame.
    pub fn serialize_str(&mut self, v: &str)
        ensures
            final(self).spec_output() == old(self).spec_output() + spec_resp_bulk(v@),
    {
        push_bulk(&mut self.output, v);
    }

    /// Render absence as the null bulk string.
    pub fn serialize_none(&mut self)
        ensures
            final(self).spec_output() == old(self).spec_output() + spec_resp_null(),
    {
        self.output.push(36);
        self.output.push(45);
        self.output.push(49);
        push_crlf(&mut self.output);
        proof {
            assert(self.output@ =~= old(self).spec_output() + spec_resp_null());
        }
    }

    /// Render the unit value as the null bulk string.
    pub fn serialize_unit(&mut self)
        ensures
            final(self).spec_output() == old(self).spec_output() + spec_resp_null(),
    {
        self.serialize_none();
    }

    /// Render the header of an array of `n` frames.
    pub fn serialize_seq(&mut self, n: u64)
        ensures
            final(self).spec_output() == old(self).spec_output() + spec_resp_array_header(n as int),
    {
        self.output.push(42);
        push_dec(&mut self.output, n);
        push_crlf(&mut self.output);
        proof {
            assert(self.output@ =~= old(self).spec_output() + spec_resp_array_header(n as int));
        }
    }
}

/// Encode a `PING` command, with its optional message, as an array of
/// bulk strings.
pub fn encode_ping(message: Option<&str>) -> (r: Vec<u8>)
    ensures
        match message {
            None => r@ == spec_resp_array_header(1) + spec_resp_bulk("PING"@),
            Some(m) => r@ == spec_resp_array_header(2) + spec_resp_bulk("PING"@) + spec_resp_bulk(
                m@,
            ),
        },
{
    let mut ser = Serializer::new();
    match message {
        None => {
            ser.serialize_seq(1);
            ser.serialize_str("PING");
        },
        Some(m) => {
            ser.serialize_seq(2);
            ser.serialize_str("PING");
            ser.serialize_str(m);
        },
    }
    let out = ser.into_output();
    proof {
        assert(out@ =~= (match message {
            None => spec_resp_array_header(1) + spec_resp_bulk("PING"@),
            Some(m) => spec_resp_array_header(2) + spec_resp_bulk("PING"@) + spec_resp_bulk(m@),
        }));
    }
    out
}

/// Whether a byte is an ASCII decimal digit.
pub open spec fn is_digit(b: u8) -> bool {
    48 <= b <= 57
}

/// Scan digits from `pos`, folding them onto `acc`; the value and the
/// position of the first non-digit.
pub open spec fn spec_scan_digits(s: Seq<u8>, pos: int, acc: int) -> (int, int)
    decreases s.len() - pos,
        when 0 <= pos <= s.len()
{
    if pos < s.len() && is_digit(s[pos]) {
        spec_scan_digits(s, pos + 1, acc * 10 + (s[pos] - 48))
    } else {
        (acc, pos)
    }
}

/// Scanning never shrinks a non-negative accumulator.
proof fn lemma_scan_digits_monotone(s: Seq<u8>, pos: int, acc: int)
    requires
        0 <= pos <= s.len(),
        acc >= 0,
    ensures
        spec_scan_digits(s, pos, acc).0 >= acc,
        pos <= spec_scan_digits(s, pos, acc).1 <= s.len(),
    decreases s.len() - pos,
{
    if pos < s.len() && is_digit(s[pos]) {
        assert(acc * 10 + (s[pos] - 48) >= acc) by (nonlinear_arith)
            requires
                acc >= 0,
                s[pos] >= 48,
        ;
        lemma_scan_digits_monotone(s, pos + 1, acc * 10 + (s[pos] - 48));
    }
}

/// Parse `<tag><digits>\r\n` at `pos`: the number and the position just
/// past the line, or nothing if the bytes are not such a line.
pub open spec fn spec_parse_number(s: Seq<u8>, pos: int, tag: u8) -> Option<(int, int)> {
    if 0 <= pos && pos + 1 < s.len() && s[pos] == tag && is_digit(s[pos + 1]) {
        let scanned = spec_scan_digits(s, pos + 1, 0);
        let v = scanned.0;
        let end = scanned.1;
        if end + 2 <= s.len() && s[end] == 13 && s[end + 1] == 10 {
            Some((v, end + 2))
        } else {
            None
        }
    } else {
        None
    }
}

/// Parse a bulk string frame at `pos`: the decoded string and the
/// position just past the frame, or nothing.
pub open spec fn spec_parse_bulk(s: Seq<u8>, pos: int) -> Option<(Seq<char>, int)> {
    match spec_parse_number(s, pos, 36) {
        Some((n, hend)) => {
            if hend + n + 2 <= s.len() {
                let payload = s.subrange(hend, hend + n);
                if valid_utf8(payload) && s[hend + n] == 13 && s[hend + n + 1] == 10 {
                    Some((decode_utf8(payload), hend + n + 2))
                } else {
                    None
                }
            } else {
                None
            }
        },
        None => None,
    }
}

/// Ten to the `k`-th power.
pub open spec fn pow10(k: nat) -> int
    decreases k,
{
    if k == 0 {
        1
    } else {
        10 * pow10((k - 1) as nat)
    }
}

/// Every byte of a decimal rendering is a digit.
proof fn lemma_dec_bytes_digits(n: int)
    requires
        n >= 0,
    ensures
        forall|i: int|
            0 <= i < spec_dec_bytes(n).len() ==> is_digit(#[trigger] spec_dec_bytes(n)[i]),
        spec_dec_bytes(n).len() >= 1,
    decreases n,
{
    if n >= 10 {
        lemma_dec_bytes_digits(n / 10);
        assert forall|i: int| 0 <= i < spec_dec_bytes(n).len() implies is_digit(
            #[trigger] spec_dec_bytes(n)[i],
        ) by {
            if i < spec_dec_bytes(n / 10).len() {
                assert(spec_dec_bytes(n)[i] == spec_dec_bytes(n / 10)[i]);
            } else {
                assert(spec_dec_bytes(n)[i] == (48 + n % 10) as u8);
            }
        }
    }
}

/// Scanning a rendered number folds its value onto the accumulator and
/// moves just past it.
proof fn lemma_scan_over_dec(s: Seq<u8>, pos: int, acc: int, n: int)
    requires
        n >= 0,
        acc >= 0,
        0 <= pos,
        pos + spec_dec_bytes(n).len() <= s.len(),
        s.subrange(pos, pos + spec_dec_bytes(n).len() as int) == spec_dec_bytes(n),
    ensures
        spec_scan_digits(s, pos, acc) == spec_scan_digits(
            s,
            pos + spec_dec_bytes(n).len(),
            acc * pow10(spec_dec_bytes(n).len() as nat) + n,
        ),
    decreases n,
{
    let dec = spec_dec_bytes(n);
    assert forall|j: int| pos <= j < pos + dec.len() implies #[trigger] s[j] == dec[j - pos] by {
        assert(s.subrange(pos, pos + dec.len() as int)[j - pos] == s[j]);
    }
    lemma_dec_bytes_digits(n);
    if n < 10 {
        assert(s[pos] == (48 + n) as u8);
        assert(is_digit(s[pos]));
        assert(spec_scan_digits(s, pos, acc) == spec_scan_digits(s, pos + 1, acc * 10 + n));
        assert(pow10(1) == 10 * pow10(0));
    } else {
        let d1 = spec_dec_bytes(n / 10);
        let k1 = d1.len() as int;
        assert(dec == d1 + seq![(48 + n % 10) as u8]);
        assert(s.subrange(pos, pos + k1) =~= d1) by {
            assert forall|i: int| 0 <= i < k1 implies #[trigger] s.subrange(pos, pos + k1)[i]
                == d1[i] by {
                assert(s[pos + i] == dec[i]);
            }
        }
        lemma_scan_over_dec(s, pos, acc, n / 10);
        let acc1 = acc * pow10(k1 as nat) + n / 10;
        lemma_pow10_pos(k1 as nat);
        assert(acc1 >= 0) by (nonlinear_arith)
            requires
                acc1 == acc * pow10(k1 as nat) + n / 10,
                acc >= 0,
                n >= 10,
                pow10(k1 as nat) >= 1,
        ;
        assert(s[pos + k1] == (48 + n % 10) as u8);
        assert(is_digit(s[pos + k1]));
        assert(spec_scan_digits(s, pos + k1, acc1) == spec_scan_digits(
            s,
            pos + k1 + 1,
            acc1 * 10 + (n % 10),
        ));
        assert(pow10((k1 + 1) as nat) == 10 * pow10(k1 as nat));
        assert(acc1 * 10 + (n % 10) == acc * pow10((k1 + 1) as nat) + n) by (nonlinear_arith)
            requires
                acc1 == acc * pow10(k1 as nat) + n / 10,
                pow10((k1 + 1) as nat) == 10 * pow10(k1 as nat),
                n == 10 * (n / 10) + n % 10,
        ;
        assert(dec.len() == k1 + 1);
    }
}

/// Ten to any power is positive.
proof fn lemma_pow10_pos(k: nat)
    ensures
        pow10(k) >= 1,
    decreases k,
{
    if k > 0 {
        lemma_pow10_pos((k - 1) as nat);
    }
}

/// A rendered `<tag><digits>\r\n` line parses back to its number.
pub proof fn lemma_number_roundtrip(s: Seq<u8>, pos: int, tag: u8, n: int)
    requires
        n >= 0,
        0 <= pos,
        pos + 3 + spec_dec_bytes(n).len() <= s.len(),
        s.subrange(pos, pos + 3 + spec_dec_bytes(n).len() as int) == seq![tag] + spec_dec_bytes(n)
            + resp_crlf(),
    ensures
        spec_parse_number(s, pos, tag) == Some((n, pos + 3 + spec_dec_bytes(n).len() as int)),
{
    let dec = spec_dec_bytes(n);
    let frame = seq![tag] + dec + resp_crlf();
    assert forall|j: int| pos <= j < pos + frame.len() implies #[trigger] s[j] == frame[j
        - pos] by {
        assert(s.subrange(pos, pos + frame.len() as int)[j - pos] == s[j]);
    }
    lemma_dec_bytes_digits(n);
    assert(s[pos] == tag);
    assert(s[pos + 1] == dec[0] && is_digit(s[pos + 1]));
    assert(s.subrange(pos + 1, pos + 1 + dec.len() as int) =~= dec) by {
        assert forall|i: int| 0 <= i < dec.len() implies #[trigger] s.subrange(
            pos + 1,
            pos + 1 + dec.len() as int,
        )[i] == dec[i] by {
            assert(s[pos + 1 + i] == frame[1 + i]);
        }
    }
    lemma_scan_over_dec(s, pos + 1, 0, n);
    lemma_pow10_pos(dec.len() as nat);
    let end = pos + 1 + dec.len() as int;
    assert(s[end] == 13 && s[end + 1] == 10);
    assert(!is_digit(s[end]));
    assert(spec_scan_digits(s, end, n) == (n, end));
    assert(0 * pow10(dec.len() as nat) + n == n) by (nonlinear_arith);
}

/// A rendered bulk string parses back to the string it holds: the
/// serializer and the deserializer agree frame by frame.
pub proof fn lemma_bulk_roundtrip(s: Seq<u8>, pos: int, v: Seq<char>)
    requires
        0 <= pos,
        pos + spec_resp_bulk(v).len() <= s.len(),
        s.subrange(pos, pos + spec_resp_bulk(v).len() as int) == spec_resp_bulk(v),
    ensures
        spec_parse_bulk(s, pos) == Some((v, pos + spec_resp_bulk(v).len() as int)),
{
    let payload = encode_utf8(v);
    let blen = payload.len() as int;
    let dec = spec_dec_bytes(blen);
    let frame = spec_resp_bulk(v);
    assert(frame =~= seq![36u8] + dec + resp_crlf() + payload + resp_crlf());
    assert forall|j: int| pos <= j < pos + frame.len() implies #[trigger] s[j] == frame[j
        - pos] by {
        assert(s.subrange(pos, pos + frame.len() as int)[j - pos] == s[j]);
    }
    let hlen = 3 + dec.len() as int;
    assert(s.subrange(pos, pos + hlen) =~= seq![36u8] + dec + resp_crlf()) by {
        assert forall|i: int| 0 <= i < hlen implies #[trigger] s.subrange(pos, pos + hlen)[i] == (
        seq![36u8] + dec + resp_crlf())[i] by {
            assert(s[pos + i] == frame[i]);
        }
    }
    lemma_number_roundtrip(s, pos, 36, blen);
    let hend = pos + hlen;
    assert(s.subrange(hend, hend + blen) =~= payload) by {
        assert forall|i: int| 0 <= i < blen implies #[trigger] s.subrange(hend, hend + blen)[i]
            == payload[i] by {
            assert(s[hend + i] == frame[hlen + i]);
        }
    }
    broadcast use vstd::utf8::encode_utf8_valid_utf8, vstd::utf8::encode_utf8_decode_utf8;

    assert(s[hend + blen] == 13 && s[hend + blen + 1] == 10) by {
        assert(s[hend + blen] == frame[hlen + blen]);
        assert(s[hend + blen + 1] == frame[hlen + blen + 1]);
    }
}

/// Parse `n` consecutive bulk strings from `pos`.
pub open spec fn spec_parse_items(s: Seq<u8>, pos: int, n: int) -> Option<(Seq<Seq<char>>, int)>
    decreases n,
{
    if n <= 0 {
        Some((seq![], pos))
    } else {
        match spec_parse_bulk(s, pos) {
            Some((v, end)) => match spec_parse_items(s, end, n - 1) {
                Some((rest, e2)) => Some((seq![v] + rest, e2)),
                None => None,
            },
            None => None,
        }
    }
}

/// Parse a whole command: an array header and its bulk string items.
pub open spec fn spec_parse_command(s: Seq<u8>, pos: int) -> Option<(Seq<Seq<char>>, int)> {
    match spec_parse_number(s, pos, 42) {
        Some((n, end)) => spec_parse_items(s, end, n),
        None => None,
    }
}

/// The strings of a vector, in mathematical form.
pub open spec fn strs_view(v: Seq<String>) -> Seq<Seq<char>> {
    v.map_values(|s: String| s@)
}

/// A deserializer that consumes RESP frames from the front of its
/// input, one at a time.
pub struct Deserializer<'de> {
    input: &'de [u8],
    pos: usize,
}

impl<'de> Deserializer<'de> {
    /// The whole input.
    pub closed spec fn spec_input(&self) -> Seq<u8> {
        self.input@
    }

    /// How far the input has been consumed.
    pub closed spec fn spec_pos(&self) -> int {
        self.pos as int
    }

    /// A deserializer at the start of `input`.
    pub fn new(input: &'de [u8]) -> (r: Deserializer<'de>)
        ensures
            r.spec_input() == input@,
            r.spec_pos() == 0,
    {
        Deserializer { input, pos: 0 }
    }

    /// Parse one `<tag><digits>\r\n` line.  On success the number is
    /// returned and the line consumed; otherwise the state is unchanged
    /// and the input did not hold such a line with a value this machine
    /// can count to.
    #[verifier::loop_isolation(false)]
    fn parse_number(&mut self, tag: u8) -> (r: Result<u64, Error>)
        requires
            old(self).spec_pos() <= old(self).spec_input().len(),
        ensures
            final(self).spec_input() == old(self).spec_input(),
            final(self).spec_pos() <= final(self).spec_input().len(),
            match r {
                Ok(v) => spec_parse_number(old(self).spec_input(), old(self).spec_pos(), tag)
                    == Some((v as int, final(self).spec_pos())),
                Err(e) => (match spec_parse_number(
                    old(self).spec_input(),
                    old(self).spec_pos(),
                    tag,
                ) {
                    Some((v, _)) => v > u64::MAX,
                    None => true,
                }) && final(self).spec_pos() == old(self).spec_pos() && e.spec_kind()
                    == ErrorKind::InvalidNetworkMessage,
            },
    {
        let n = self.input.len();
        let start = self.pos;
        if !(n - start >= 2 && self.input[start] == tag && 48 <= self.input[start + 1]
            && self.input[start + 1] <= 57) {
            return Err(Error::new(ErrorKind::InvalidNetworkMessage));
        }
        let mut cur = start + 1;
        let mut acc: u64 = 0;
        while cur < n && 48 <= self.input[cur] && self.input[cur] <= 57
            invariant
                start + 1 <= cur <= n,
                n == self.input@.len(),
                self.pos == start,
                acc >= 0,
                spec_scan_digits(self.input@, start as int + 1, 0) == spec_scan_digits(
                    self.input@,
                    cur as int,
                    acc as int,
                ),
            decreases n - cur,
        {
            let d = self.input[cur] - 48;
            if acc > (u64::MAX - d as u64) / 10 {
                proof {
                    let s = self.input@;
                    let whole = spec_scan_digits(s, cur as int, acc as int);
                    let newacc = acc as int * 10 + (s[cur as int] - 48);
                    assert(newacc > u64::MAX) by (nonlinear_arith)
                        requires
                            newacc == acc as int * 10 + (s[cur as int] - 48),
                            acc as int > ((u64::MAX - (s[cur as int] - 48)) / 10),
                            0 <= s[cur as int] - 48 <= 9,
                            0 <= acc as int,
                    ;
                    assert(whole == spec_scan_digits(s, cur as int + 1, newacc));
                    lemma_scan_digits_monotone(s, cur as int + 1, newacc);
                    assert(whole.0 > u64::MAX);
                    assert(spec_scan_digits(s, start as int + 1, 0) == whole);
                }
                return Err(Error::new(ErrorKind::InvalidNetworkMessage));
            }
            acc = acc * 10 + d as u64;
            cur = cur + 1;
        }
        if !(n - cur >= 2 && self.input[cur] == 13 && self.input[cur + 1] == 10) {
            return Err(Error::new(ErrorKind::InvalidNetworkMessage));
        }
        self.pos = cur + 2;
        Ok(acc)
    }

    /// Parse one integer frame `:<n>\r\n`.
    pub fn parse_integer(&mut self) -> (r: Result<u64, Error>)
        requires
            old(self).spec_pos() <= old(self).spec_input().len(),
        ensures
            final(self).spec_input() == old(self).spec_input(),
            final(self).spec_pos() <= final(self).spec_input().len(),
            match r {
                Ok(v) => spec_parse_number(old(self).spec_input(), old(self).spec_pos(), 58)
                    == Some((v as int, final(self).spec_pos())),
                Err(e) => (match spec_parse_number(
                    old(self).spec_input(),
                    old(self).spec_pos(),
                    58,
                ) {
                    Some((v, _)) => v > u64::MAX,
                    None => true,
                }) && final(self).spec_pos() == old(self).spec_pos() && e.spec_kind()
                    == ErrorKind::InvalidNetworkMessage,
            },
    {
        self.parse_number(58)
    }

    /// Parse one array header `*<n>\r\n`, returning the item count.
    pub fn parse_array_len(&mut self) -> (r: Result<u64, Error>)
        requires
            old(self).spec_pos() <= old(self).spec_input().len(),
        ensures
            final(self).spec_input() == old(self).spec_input(),
            final(self).spec_pos() <= final(self).spec_input().len(),
            match r {
                Ok(v) => spec_parse_number(old(self).spec_input(), old(self).spec_pos(), 42)
                    == Some((v as int, final(self).spec_pos())),
                Err(e) => (match spec_parse_number(
                    old(self).spec_input(),
                    old(self).spec_pos(),
                    42,
                ) {
                    Some((v, _)) => v > u64::MAX,
                    None => true,
                }) && final(self).spec_pos() == old(self).spec_pos() && e.spec_kind()
                    == ErrorKind::InvalidNetworkMessage,
            },
    {
        self.parse_number(42)
    }

    /// Parse one bulk string frame `$<bytes>\r\n<data>\r\n`.
    #[verifier::loop_isolation(false)]
    pub fn parse_bulk_string(&mut self) -> (r: Result<String, Error>)
        requires
            old(self).spec_pos() <= old(self).spec_input().len(),
        ensures
            final(self).spec_input() == old(self).spec_input(),
            final(self).spec_pos() <= final(self).spec_input().len(),
            match r {
                Ok(v) => spec_parse_bulk(old(self).spec_input(), old(self).spec_pos()) == Some(
                    (v@, final(self).spec_pos()),
                ),
                Err(e) => spec_parse_bulk(old(self).spec_input(), old(self).spec_pos()) is None
                    && final(self).spec_pos() == old(self).spec_pos() && e.spec_kind()
                    == ErrorKind::InvalidNetworkMessage,
            },
    {
        let ghost pre = *self;
        let n = self.input.len();
        let start = self.pos;
        let len64 = match self.parse_number(36) {
            Ok(v) => v,
            Err(e) => {
                proof {
                    // a count too large to return cannot fit in the input either
                    match spec_parse_number(pre.spec_input(), pre.spec_pos(), 36) {
                        Some((v, hend2)) => {
                            lemma_scan_digits_monotone(pre.spec_input(), pre.spec_pos() + 1, 0);
                            assert(v > u64::MAX);
                            assert(pre.spec_input().len() <= usize::MAX);
                            assert(hend2 >= 0);
                            assert(!(hend2 + v + 2 <= pre.spec_input().len()));
                        },
                        None => {},
                    }
                }
                return Err(e);
            },
        };
        let hend = self.pos;
        let rem = n - hend;
        if len64 > rem as u64 {
            self.pos = start;
            return Err(Error::new(ErrorKind::InvalidNetworkMessage));
        }
        let len = len64 as usize;
        if n - hend - len < 2 {
            self.pos = start;
            return Err(Error::new(ErrorKind::InvalidNetworkMessage));
        }
        let tail = hend + len;
        if !(self.input[tail] == 13 && self.input[tail + 1] == 10) {
            self.pos = start;
            return Err(Error::new(ErrorKind::InvalidNetworkMessage));
        }
        let mut payload: Vec<u8> = Vec::new();
        let mut i = hend;
        while i < tail
            invariant
                hend <= i <= tail <= self.input@.len(),
                payload@ == self.input@.subrange(hend as int, i as int),
            decreases tail - i,
        {
            payload.push(self.input[i]);
            proof {
                assert(payload@ =~= self.input@.subrange(hend as int, i as int + 1));
            }
            i = i + 1;
        }
        match crate::codec::bytes_to_string(payload) {
            Some(s) => {
                self.pos = tail + 2;
                Ok(s)
            },
            None => {
                self.pos = start;
                Err(Error::new(ErrorKind::InvalidNetworkMessage))
            },
        }
    }

    /// Parse a whole command: an array of bulk strings.
    #[verifier::loop_isolation(false)]
    pub fn parse_command(&mut self) -> (r: Result<Vec<String>, Error>)
        requires
            old(self).spec_pos() <= old(self).spec_input().len(),
        ensures
            final(self).spec_input() == old(self).spec_input(),
            final(self).spec_pos() <= final(self).spec_input().len(),
            match r {
                Ok(items) => spec_parse_command(old(self).spec_input(), old(self).spec_pos())
                    == Some((strs_view(items@), final(self).spec_pos())),
                Err(e) => e.spec_kind() == ErrorKind::InvalidNetworkMessage && (spec_parse_command(
                    old(self).spec_input(),
                    old(self).spec_pos(),
                ) is None || (match spec_parse_number(
                    old(self).spec_input(),
                    old(self).spec_pos(),
                    42,
                ) {
                    Some((v, _)) => v > u64::MAX,
                    None => false,
                })),
            },
    {
        let ghost pre = *self;
        let count = match self.parse_array_len() {
            Ok(v) => v,
            Err(e) => {
                return Err(e);
            },
        };
        let ghost hend = self.spec_pos();
        let mut items: Vec<String> = Vec::new();
        let mut i: u64 = 0;
        while i < count
            invariant
                0 <= i <= count,
                self.spec_input() == pre.spec_input(),
                self.spec_pos() <= self.spec_input().len(),
                items@.len() == i,
                spec_parse_number(pre.spec_input(), pre.spec_pos(), 42) == Some(
                    (count as int, hend),
                ),
                (match spec_parse_items(
                    self.spec_input(),
                    self.spec_pos(),
                    count as int - i as int,
                ) {
                    Some((rest, e2)) => spec_parse_items(pre.spec_input(), hend, count as int)
                        == Some((strs_view(items@) + rest, e2)),
                    None => spec_parse_items(pre.spec_input(), hend, count as int) is None,
                }),
            decreases count - i,
        {
            let ghost before = *self;
            let ghost items_before = items@;
            match self.parse_bulk_string() {
                Ok(s) => {
                    let ghost sv = s@;
                    items.push(s);
                    proof {
                        assert(strs_view(items@) =~= strs_view(items_before).push(sv));
                        match spec_parse_items(
                            self.spec_input(),
                            self.spec_pos(),
                            count as int - i as int - 1,
                        ) {
                            Some((rest2, e2)) => {
                                assert(strs_view(items_before) + (seq![sv] + rest2) =~= strs_view(
                                    items@,
                                ) + rest2);
                            },
                            None => {},
                        }
                    }
                    i = i + 1;
                },
                Err(e) => {
                    return Err(e);
                },
            }
        }
        proof {
            assert(spec_parse_items(self.spec_input(), self.spec_pos(), 0) == Some(
                (Seq::<Seq<char>>::empty(), self.spec_pos()),
            ));
            assert(strs_view(items@) + Seq::<Seq<char>>::empty() =~= strs_view(items@));
        }
        Ok(items)
    }
}

} // verus!
