//! The value model and the codec: a tagged union of protocol values, a
//! byte-exact decoder (`parse`) and encoder (`to_bytes`), and the two
//! buffer-scanning helpers they are built from.
use vstd::prelude::*;
use vstd::slice::slice_to_vec;
use vstd::utf8::*;

use crate::resp::RespError;
use crate::resp::RespErrVal;
use crate::resp::buffer::bytes_content;
use crate::resp::buffer::bytes_from_vec;
use crate::resp::buffer::bytes_mut_content;
use crate::resp::buffer::bytes_mut_to_vec;

verus! {

/// A decoded protocol value.
///
/// `SimpleString` and `SimpleError` are short CR/LF-free texts; `BulkString`
/// is a length-prefixed text. `SimpleError` is encode-only: no decode path
/// produces it.
#[derive(Clone, Debug)]
pub enum RespType {
    SimpleString(String),
    BulkString(String),
    SimpleError(String),
}

/// The mathematical image of a [`RespType`]: the same variant over the
/// payload's characters.
#[verifier::ext_equal]
pub enum RespVal {
    SimpleString(Seq<char>),
    BulkString(Seq<char>),
    SimpleError(Seq<char>),
}

impl View for RespType {
    type V = RespVal;

    open spec fn view(&self) -> RespVal {
        match self {
            RespType::SimpleString(s) => RespVal::SimpleString(s@),
            RespType::BulkString(s) => RespVal::BulkString(s@),
            RespType::SimpleError(s) => RespVal::SimpleError(s@),
        }
    }
}

// ---------------------------------------------------------------------------
// CRLF scanning, as a predicate on byte sequences
// ---------------------------------------------------------------------------
/// Byte `i - 1` is CR and byte `i` is LF.
pub open spec fn crlf_at(b: Seq<u8>, i: int) -> bool {
    b[i - 1] == 13u8 && b[i] == 10u8
}

/// `i` is the lowest index of an LF that directly follows a CR.
pub open spec fn is_first_crlf(b: Seq<u8>, i: int) -> bool {
    &&& 1 <= i < b.len()
    &&& crlf_at(b, i)
    &&& forall|j: int| 1 <= j < i ==> !crlf_at(b, j)
}

/// Some adjacent CR LF pair occurs in `b`.
pub open spec fn has_crlf(b: Seq<u8>) -> bool {
    exists|i: int| is_first_crlf(b, i)
}

/// The index of the LF of the first CR LF pair (meaningful when `has_crlf`).
pub open spec fn crlf_lf_index(b: Seq<u8>) -> int {
    choose|i: int| is_first_crlf(b, i)
}

/// The first CR LF pair sits at one index only.
pub proof fn lemma_first_crlf_unique(b: Seq<u8>, i: int, j: int)
    requires
        is_first_crlf(b, i),
        is_first_crlf(b, j),
    ensures
        i == j,
{
    if i < j {
        assert(!crlf_at(b, i));
    }
    if j < i {
        assert(!crlf_at(b, j));
    }
}

// ---------------------------------------------------------------------------
// ASCII-decimal length fields
// ---------------------------------------------------------------------------
/// `b` is an ASCII decimal digit.
pub open spec fn is_digit(b: u8) -> bool {
    48 <= b <= 57
}

/// Every byte of `s` is an ASCII decimal digit.
pub open spec fn all_digits(s: Seq<u8>) -> bool {
    forall|i: int| 0 <= i < s.len() ==> is_digit(#[trigger] s[i])
}

/// The number a digit string denotes in base 10.
pub open spec fn dec_value(s: Seq<u8>) -> nat
    recommends
        all_digits(s),
    decreases s.len(),
{
    if s.len() == 0 {
        0
    } else {
        (dec_value(s.drop_last()) * 10 + (s.last() - 48)) as nat
    }
}

/// The digits of an integer field: an optional leading `+` sign is skipped.
pub open spec fn digits_part(s: Seq<u8>) -> Seq<u8> {
    if s.len() > 0 && s[0] == 43u8 {
        s.subrange(1, s.len() as int)
    } else {
        s
    }
}

/// `s` parses as a `usize`: after an optional `+` sign, at least one digit,
/// nothing but digits, and a value that fits the machine word.
pub open spec fn parses_as_usize(s: Seq<u8>) -> bool {
    &&& digits_part(s).len() > 0
    &&& all_digits(digits_part(s))
    &&& dec_value(digits_part(s)) <= usize::MAX
}

// ---------------------------------------------------------------------------
// The decoder, as a function on byte sequences
// ---------------------------------------------------------------------------
/// The error every malformed length field or truncated bulk frame yields.
pub open spec fn bulk_len_err() -> RespErrVal {
    RespErrVal::InvalidBulkString("Invalid bulk string length"@)
}

/// The error a non-UTF-8 bulk payload yields.
pub open spec fn bulk_utf8_err() -> RespErrVal {
    RespErrVal::InvalidBulkString("Invalid bulk string"@)
}

/// The error a simple string without a terminator yields.
pub open spec fn simple_term_err() -> RespErrVal {
    RespErrVal::InvalidSimpleString("Invalid value for simple string"@)
}

/// The error a non-UTF-8 simple string yields.
pub open spec fn simple_utf8_err() -> RespErrVal {
    RespErrVal::InvalidSimpleString("Simple string value is not a valid UTF-8 string"@)
}

/// The error an empty buffer or an unknown discriminator byte yields.
pub open spec fn unknown_type_err() -> RespErrVal {
    RespErrVal::Other("Invalid RESP data type"@)
}

/// What decoding a bulk-string frame (`$<len>\r\n<payload>\r\n`) yields:
/// the value and the count of consumed bytes, or the error.
///
/// The boundary check `end >= b.len()` and the unchecked trailing terminator
/// reproduce the wire behaviour exactly: a payload that runs to the buffer's
/// last byte is accepted although no room is left for the terminator.
pub open spec fn spec_parse_bulk_string(b: Seq<u8>) -> Result<(RespVal, int), RespErrVal>
    recommends
        b.len() >= 1,
{
    let tail = b.subrange(1, b.len() as int);
    if !has_crlf(tail) {
        Err(bulk_len_err())
    } else {
        let lf = crlf_lf_index(tail);
        let len_field = tail.subrange(0, lf - 1);
        if !parses_as_usize(len_field) {
            Err(bulk_len_err())
        } else {
            let consumed = lf + 2;
            let end = consumed + dec_value(digits_part(len_field));
            if end >= b.len() {
                Err(bulk_len_err())
            } else {
                let payload = b.subrange(consumed, end);
                if valid_utf8(payload) {
                    Ok((RespVal::BulkString(decode_utf8(payload)), end + 2))
                } else {
                    Err(bulk_utf8_err())
                }
            }
        }
    }
}

/// What decoding a simple-string frame (`+<text>\r\n`) yields.
pub open spec fn spec_parse_simple_string(b: Seq<u8>) -> Result<(RespVal, int), RespErrVal>
    recommends
        b.len() >= 1,
{
    let tail = b.subrange(1, b.len() as int);
    if !has_crlf(tail) {
        Err(simple_term_err())
    } else {
        let lf = crlf_lf_index(tail);
        let data = tail.subrange(0, lf - 1);
        if valid_utf8(data) {
            Ok((RespVal::SimpleString(decode_utf8(data)), lf + 2))
        } else {
            Err(simple_utf8_err())
        }
    }
}

/// What decoding a buffer yields: dispatch on the discriminator byte, with
/// an empty buffer rejected up front.
pub open spec fn spec_parse(b: Seq<u8>) -> Result<(RespVal, int), RespErrVal> {
    if b.len() == 0 {
        Err(unknown_type_err())
    } else if b[0] == 36u8 {
        spec_parse_bulk_string(b)
    } else if b[0] == 43u8 {
        spec_parse_simple_string(b)
    } else {
        Err(unknown_type_err())
    }
}

/// The decoder's result, seen through the value and error views.
pub open spec fn parse_result_view(r: Result<(RespType, usize), RespError>) -> Result<
    (RespVal, int),
    RespErrVal,
> {
    match r {
        Ok((v, n)) => Ok((v@, n as int)),
        Err(e) => Err(e@),
    }
}

// ---------------------------------------------------------------------------
// The encoder, as a function on values
// ---------------------------------------------------------------------------
/// The ASCII decimal digits of `n`, most significant first.
pub open spec fn spec_dec_digits(n: nat) -> Seq<u8>
    decreases n,
{
    if n < 10 {
        seq![(48 + n) as u8]
    } else {
        spec_dec_digits(n / 10).push((48 + n % 10) as u8)
    }
}

/// The exact wire bytes of a value. A bulk string's declared length is the
/// payload's character count (its Unicode scalar count), not its byte count.
pub open spec fn spec_encode(v: RespVal) -> Seq<u8> {
    match v {
        RespVal::SimpleString(s) => seq![43u8] + encode_utf8(s) + seq![13u8, 10u8],
        RespVal::BulkString(s) => seq![36u8] + spec_dec_digits(s.len()) + seq![13u8, 10u8]
            + encode_utf8(s) + seq![13u8, 10u8],
        RespVal::SimpleError(s) => seq![45u8] + encode_utf8(s) + seq![13u8, 10u8],
    }
}

// ---------------------------------------------------------------------------
// Executable code
// ---------------------------------------------------------------------------
/// Relies on `String::from_utf8`: it succeeds exactly on valid UTF-8 input
/// and returns the string those bytes encode.
#[verifier::external_body]
fn string_from_utf8(v: Vec<u8>) -> (r: Option<String>)
    ensures
        r matches Some(s) ==> valid_utf8(v@) && s@ == decode_utf8(v@),
        r is None ==> !valid_utf8(v@),
{
    match String::from_utf8(v) {
        Ok(s) => Some(s),
        Err(_) => None,
    }
}

impl RespType {
    /// Scan `buf` for the first CR LF pair; return the bytes before the CR
    /// and the count of bytes up to and including the LF.
    pub fn read_till_crlf<'a>(buf: &'a [u8]) -> (r: Option<(&'a [u8], usize)>)
        ensures
            r is Some <==> has_crlf(buf@),
            r matches Some((data, len)) ==> {
                &&& is_first_crlf(buf@, len - 1)
                &&& data@ == buf@.subrange(0, len - 2)
            },
    {
        let n = buf.len();
        let mut i: usize = 1;
        while i < n
            invariant
                1 <= i,
                i <= n || n == 0,
                n == buf@.len(),
                forall|j: int| 1 <= j < i ==> !crlf_at(buf@, j),
            decreases n - i,
        {
            if buf[i - 1] == 13 && buf[i] == 10 {
                let data = &buf[0..i - 1];
                proof {
                    assert(is_first_crlf(buf@, i as int));
                }
                return Some((data, i + 1));
            }
            i = i + 1;
        }
        proof {
            assert forall|k: int| !is_first_crlf(buf@, k) by {
                if 1 <= k < buf@.len() {
                    assert(!crlf_at(buf@, k));
                }
            }
        }
        None
    }

    /// Decode one frame from the front of `buffer`: dispatch on the first
    /// byte (`$` bulk string, `+` simple string), with an empty buffer and
    /// any other discriminator rejected.
    pub fn parse(buffer: bytes::BytesMut) -> (r: Result<(RespType, usize), RespError>)
        requires
            bytes_mut_content(buffer).len() < usize::MAX,
        ensures
            parse_result_view(r) == spec_parse(bytes_mut_content(buffer)),
    {
        let buf = bytes_mut_to_vec(&buffer);
        if buf.len() == 0 {
            return Err(RespError::Other("Invalid RESP data type".to_owned()));
        }
        let c = buf[0];
        if c == 36 {
            Self::parse_bulk_string(buffer)
        } else if c == 43 {
            Self::parse_simple_string(buffer)
        } else {
            Err(RespError::Other("Invalid RESP data type".to_owned()))
        }
    }

    /// Decode a bulk-string frame `$<len>\r\n<payload>\r\n` from the front
    /// of `buffer`. The declared length is taken at face value: the two
    /// bytes after the payload are consumed without being checked, and a
    /// payload that would run to the buffer's last byte or past it is
    /// rejected as a length error.
    pub fn parse_bulk_string(buffer: bytes::BytesMut) -> (r: Result<(RespType, usize), RespError>)
        requires
            bytes_mut_content(buffer).len() >= 1,
            bytes_mut_content(buffer).len() < usize::MAX,
        ensures
            parse_result_view(r) == spec_parse_bulk_string(bytes_mut_content(buffer)),
    {
        let buf = bytes_mut_to_vec(&buffer);
        let ghost b = bytes_mut_content(buffer);
        let tail: &[u8] = &buf[1..buf.len()];
        proof {
            assert(tail@ =~= b.subrange(1, b.len() as int));
        }
        match Self::read_till_crlf(tail) {
            None => Err(RespError::InvalidBulkString("Invalid bulk string length".to_owned())),
            Some((len_field, len)) => {
                proof {
                    assert(is_first_crlf(tail@, crlf_lf_index(tail@)));
                    lemma_first_crlf_unique(tail@, crlf_lf_index(tail@), len - 1);
                }
                match Self::parse_usize_from_buf(len_field) {
                    Err(e) => Err(e),
                    Ok(bulkstr_len) => {
                        let bytes_consumed = len + 1;
                        match bytes_consumed.checked_add(bulkstr_len) {
                            None => Err(
                                RespError::InvalidBulkString(
                                    "Invalid bulk string length".to_owned(),
                                ),
                            ),
                            Some(end) => {
                                if end >= buf.len() {
                                    Err(
                                        RespError::InvalidBulkString(
                                            "Invalid bulk string length".to_owned(),
                                        ),
                                    )
                                } else {
                                    let payload = slice_to_vec(&buf[bytes_consumed..end]);
                                    proof {
                                        assert(payload@ =~= b.subrange(
                                            bytes_consumed as int,
                                            end as int,
                                        ));
                                    }
                                    match string_from_utf8(payload) {
                                        Some(s) => Ok((RespType::BulkString(s), end + 2)),
                                        None => Err(
                                            RespError::InvalidBulkString(
                                                "Invalid bulk string".to_owned(),
                                            ),
                                        ),
                                    }
                                }
                            },
                        }
                    },
                }
            },
        }
    }

    /// Decode a simple-string frame `+<text>\r\n` from the front of
    /// `buffer`: the text runs to the first CR LF pair and must be UTF-8.
    pub fn parse_simple_string(buffer: bytes::BytesMut) -> (r: Result<
        (RespType, usize),
        RespError,
    >)
        requires
            bytes_mut_content(buffer).len() >= 1,
        ensures
            parse_result_view(r) == spec_parse_simple_string(bytes_mut_content(buffer)),
    {
        let buf = bytes_mut_to_vec(&buffer);
        let ghost b = bytes_mut_content(buffer);
        let tail: &[u8] = &buf[1..buf.len()];
        proof {
            assert(tail@ =~= b.subrange(1, b.len() as int));
        }
        match Self::read_till_crlf(tail) {
            None => Err(
                RespError::InvalidSimpleString("Invalid value for simple string".to_owned()),
            ),
            Some((data, len)) => {
                proof {
                    assert(is_first_crlf(tail@, crlf_lf_index(tail@)));
                    lemma_first_crlf_unique(tail@, crlf_lf_index(tail@), len - 1);
                }
                let payload = slice_to_vec(data);
                match string_from_utf8(payload) {
                    Some(s) => Ok((RespType::SimpleString(s), len + 1)),
                    None => Err(
                        RespError::InvalidSimpleString(
                            "Simple string value is not a valid UTF-8 string".to_owned(),
                        ),
                    ),
                }
            },
        }
    }

    /// Parse `buf` as an unsigned decimal integer: an optional `+` sign,
    /// then digits. Any other shape, and any value over `usize::MAX`, is
    /// rejected as a bulk-string length error.
    pub fn parse_usize_from_buf(buf: &[u8]) -> (r: Result<usize, RespError>)
        ensures
            parses_as_usize(buf@) ==> (r matches Ok(n) && n == dec_value(digits_part(buf@))),
            !parses_as_usize(buf@) ==> (r matches Err(e) && e@ == bulk_len_err()),
    {
        let ghost d = digits_part(buf@);
        let n = buf.len();
        let mut i: usize = 0;
        if n > 0 && buf[0] == 43 {
            i = 1;
        }
        let ghost start = i as int;
        if i == n {
            proof {
                assert(d.len() == 0);
            }
            return Err(RespError::InvalidBulkString("Invalid bulk string length".to_owned()));
        }
        let mut val: usize = 0;
        while i < n
            invariant
                start <= i <= n,
                n == buf@.len(),
                d == digits_part(buf@),
                d =~= buf@.subrange(start, n as int),
                start == 0 || start == 1,
                start == 1 ==> buf@[0] == 43u8,
                start < n,
                all_digits(d.subrange(0, i - start)),
                val == dec_value(d.subrange(0, i - start)),
            decreases n - i,
        {
            let b = buf[i];
            if b < 48 || b > 57 {
                proof {
                    assert(d[i - start] == buf@[i as int]);
                    assert(!is_digit(d[i - start]));
                }
                return Err(RespError::InvalidBulkString("Invalid bulk string length".to_owned()));
            }
            let digit = (b - 48) as usize;
            let next = match val.checked_mul(10) {
                Some(t) => t.checked_add(digit),
                None => None,
            };
            match next {
                Some(v2) => {
                    proof {
                        let pre = d.subrange(0, i - start);
                        let cur = d.subrange(0, i + 1 - start);
                        assert(cur.drop_last() =~= pre);
                        assert(cur.last() == buf@[i as int]);
                    }
                    val = v2;
                },
                None => {
                    proof {
                        let cur = d.subrange(0, i + 1 - start);
                        assert(cur.drop_last() =~= d.subrange(0, i - start));
                        assert(cur.last() == buf@[i as int]);
                        assert(dec_value(cur) > usize::MAX);
                        if parses_as_usize(buf@) {
                            lemma_dec_value_prefix_le(d, i + 1 - start);
                        }
                    }
                    return Err(
                        RespError::InvalidBulkString("Invalid bulk string length".to_owned()),
                    );
                },
            }
            i = i + 1;
        }
        proof {
            assert(d.subrange(0, n - start) =~= d);
        }
        Ok(val)
    }
}

impl RespType {
    /// Encode this value as its exact wire bytes. Encoding is total: it
    /// never fails, and nothing is validated (a payload holding CR LF, or a
    /// bulk payload whose character count differs from its byte count,
    /// yields a frame the decoder will not round-trip).
    pub fn to_bytes(&self) -> (r: bytes::Bytes)
        ensures
            bytes_content(r) == spec_encode(self@),
    {
        let mut out: Vec<u8> = Vec::new();
        match self {
            RespType::SimpleString(ss) => {
                out.push(43);
                push_bytes(&mut out, ss.as_str().as_bytes());
                out.push(13);
                out.push(10);
            },
            RespType::BulkString(bs) => {
                out.push(36);
                let count = char_count(bs.as_str());
                let mut digits = dec_digits(count);
                out.append(&mut digits);
                out.push(13);
                out.push(10);
                push_bytes(&mut out, bs.as_str().as_bytes());
                out.push(13);
                out.push(10);
            },
            RespType::SimpleError(es) => {
                out.push(45);
                push_bytes(&mut out, es.as_str().as_bytes());
                out.push(13);
                out.push(10);
            },
        }
        proof {
            assert(out@ =~= spec_encode(self@));
        }
        bytes_from_vec(out)
    }
}

/// Append a byte slice to a vector.
fn push_bytes(out: &mut Vec<u8>, s: &[u8])
    ensures
        final(out)@ == old(out)@ + s@,
{
    proof {
        assert(old(out)@ + s@.subrange(0, 0) =~= old(out)@);
    }
    let mut i: usize = 0;
    while i < s.len()
        invariant
            i <= s@.len(),
            out@ == old(out)@ + s@.subrange(0, i as int),
        decreases s@.len() - i,
    {
        out.push(s[i]);
        proof {
            assert(s@.subrange(0, i + 1) =~= s@.subrange(0, i as int).push(s@[i as int]));
        }
        i = i + 1;
    }
    proof {
        assert(s@.subrange(0, s@.len() as int) =~= s@);
    }
}

/// The ASCII decimal digits of `n`, most significant first.
fn dec_digits(n: usize) -> (r: Vec<u8>)
    ensures
        r@ == spec_dec_digits(n as nat),
    decreases n,
{
    if n < 10 {
        let mut v: Vec<u8> = Vec::new();
        v.push(48 + n as u8);
        proof {
            assert(v@ =~= spec_dec_digits(n as nat));
        }
        v
    } else {
        let mut v = dec_digits(n / 10);
        v.push(48 + (n % 10) as u8);
        v
    }
}

/// The number of characters `s` holds, counted by walking its UTF-8 bytes:
/// each leading byte opens one character whose width the byte determines.
fn char_count(s: &str) -> (r: usize)
    ensures
        r == s@.len(),
{
    let bytes = s.as_bytes();
    proof {
        encode_utf8_valid_utf8(s@);
        encode_utf8_decode_utf8(s@);
    }
    let n = bytes.len();
    proof {
        assert(bytes@.subrange(0, n as int) =~= bytes@);
    }
    let mut i: usize = 0;
    let mut count: usize = 0;
    while i < n
        invariant
            bytes@ == encode_utf8(s@),
            n == bytes@.len(),
            i <= n,
            count <= i,
            valid_utf8(bytes@.subrange(i as int, n as int)),
            count + decode_utf8(bytes@.subrange(i as int, n as int)).len() == s@.len(),
        decreases n - i,
    {
        let ghost suffix = bytes@.subrange(i as int, n as int);
        let lead = bytes[i];
        proof {
            assert(suffix[0] == bytes@[i as int]);
            assert(valid_first_scalar(suffix));
        }
        let w: usize = if lead < 0x80 {
            1
        } else if lead < 0xe0 {
            2
        } else if lead < 0xf0 {
            3
        } else {
            4
        };
        proof {
            assert(w as int == length_of_first_scalar(suffix));
            assert(i + w <= n);
            assert(pop_first_scalar(suffix) =~= bytes@.subrange(i + w, n as int));
            assert(decode_utf8(suffix) == seq![decode_first_scalar(suffix) as char] + decode_utf8(
                pop_first_scalar(suffix),
            ));
        }
        i = i + w;
        count = count + 1;
    }
    proof {
        assert(bytes@.subrange(i as int, n as int) =~= Seq::<u8>::empty());
    }
    count
}

/// A digit string's value only grows as more digits follow: any prefix
/// denotes at most the whole string's value.
proof fn lemma_dec_value_prefix_le(s: Seq<u8>, k: int)
    requires
        0 <= k <= s.len(),
        all_digits(s),
    ensures
        dec_value(s.subrange(0, k)) <= dec_value(s),
    decreases s.len() - k,
{
    if k < s.len() {
        let cur = s.subrange(0, k + 1);
        assert(cur.drop_last() =~= s.subrange(0, k));
        assert(is_digit(s[k]));
        lemma_dec_value_prefix_le(s, k + 1);
    } else {
        assert(s.subrange(0, k) =~= s);
    }
}

} // verus!
