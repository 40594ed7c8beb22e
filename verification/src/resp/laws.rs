//! Laws the codec obeys, proved once over the byte-level model: encoded
//! frames decode back to their value, and decoding stays within the buffer
//! except in one precisely described bulk-string corner.
use vstd::prelude::*;
use vstd::utf8::*;

use crate::resp::RespErrVal;
use crate::resp::types::RespVal;
use crate::resp::types::all_digits;
use crate::resp::types::crlf_at;
use crate::resp::types::crlf_lf_index;
use crate::resp::types::dec_value;
use crate::resp::types::digits_part;
use crate::resp::types::has_crlf;
use crate::resp::types::is_digit;
use crate::resp::types::is_first_crlf;
use crate::resp::types::lemma_first_crlf_unique;
use crate::resp::types::parses_as_usize;
use crate::resp::types::spec_dec_digits;
use crate::resp::types::spec_encode;
use crate::resp::types::spec_parse;

verus! {

/// No character of `s` is a carriage return or a line feed.
pub open spec fn crlf_free(s: Seq<char>) -> bool {
    forall|i: int| 0 <= i < s.len() ==> s[i] != '\r' && s[i] != '\n'
}

/// Any byte with one of the multi-byte UTF-8 markers OR-ed in has its high
/// bit set.
proof fn lemma_marked_byte_high(x: u8)
    by (bit_vector)
    ensures
        (0x80u8 | x) >= 0x80,
        (0xC0u8 | x) >= 0x80,
        (0xE0u8 | x) >= 0x80,
        (0xF0u8 | x) >= 0x80,
{
}

/// Every byte of a 1-byte encoding equals its scalar; every byte of a
/// longer encoding has its high bit set. So a scalar other than CR and LF
/// contributes neither byte 13 nor byte 10.
proof fn lemma_encode_scalar_no_crlf(u: u32)
    requires
        is_scalar(u),
        u != 13,
        u != 10,
    ensures
        forall|k: int|
            0 <= k < encode_scalar(u).len() ==> #[trigger] encode_scalar(u)[k] != 13u8
                && encode_scalar(u)[k] != 10u8,
{
    if has_width_1_encoding(u) {
        assert(((u & 0x7F) as u8) != 13 && ((u & 0x7F) as u8) != 10) by (bit_vector)
            requires
                u <= 0x7f && u != 13 && u != 10,
        ;
    } else {
        lemma_marked_byte_high(((u >> 6) & 0x1F) as u8);
        lemma_marked_byte_high((u & 0x3F) as u8);
        lemma_marked_byte_high(((u >> 12) & 0x0F) as u8);
        lemma_marked_byte_high(((u >> 6) & 0x3F) as u8);
        lemma_marked_byte_high(((u >> 18) & 0x7) as u8);
        lemma_marked_byte_high(((u >> 12) & 0x3F) as u8);
    }
}

/// A text free of CR and LF characters encodes to bytes free of the CR and
/// LF byte values.
pub proof fn lemma_encode_utf8_no_crlf(s: Seq<char>)
    requires
        crlf_free(s),
    ensures
        forall|k: int|
            0 <= k < encode_utf8(s).len() ==> #[trigger] encode_utf8(s)[k] != 13u8 && encode_utf8(
                s,
            )[k] != 10u8,
    decreases s.len(),
{
    if s.len() > 0 {
        let u = s[0] as u32;
        char_is_scalar(s[0]);
        if u == 13 {
            char_u32_cast(s[0], u);
            assert(s[0] == '\r');
        }
        if u == 10 {
            char_u32_cast(s[0], u);
            assert(s[0] == '\n');
        }
        lemma_encode_scalar_no_crlf(u);
        lemma_encode_utf8_no_crlf(s.drop_first());
        assert(encode_utf8(s) == encode_scalar(u) + encode_utf8(s.drop_first()));
        assert forall|k: int| 0 <= k < encode_utf8(s).len() implies #[trigger] encode_utf8(s)[k]
            != 13u8 && encode_utf8(s)[k] != 10u8 by {
            if k < encode_scalar(u).len() {
                assert(encode_utf8(s)[k] == encode_scalar(u)[k]);
            } else {
                assert(encode_utf8(s)[k] == encode_utf8(s.drop_first())[k - encode_scalar(
                    u,
                ).len()]);
            }
        }
    }
}

/// The decimal digits of `n` denote `n`, and nothing but digits occurs in
/// them.
pub proof fn lemma_dec_digits_props(n: nat)
    ensures
        spec_dec_digits(n).len() >= 1,
        all_digits(spec_dec_digits(n)),
        dec_value(spec_dec_digits(n)) == n,
    decreases n,
{
    if n < 10 {
        let d = spec_dec_digits(n);
        assert(d =~= seq![(48 + n) as u8]);
        assert(d.drop_last() =~= Seq::<u8>::empty());
        assert(dec_value(Seq::<u8>::empty()) == 0);
        assert(d.last() == (48 + n) as u8);
        assert(dec_value(d) == (dec_value(d.drop_last()) * 10 + (d.last() - 48)) as nat);
    } else {
        lemma_dec_digits_props(n / 10);
        let d = spec_dec_digits(n / 10);
        let whole = spec_dec_digits(n);
        assert(whole == d.push((48 + n % 10) as u8));
        assert(whole.drop_last() =~= d);
        assert(whole.last() == (48 + n % 10) as u8);
        assert(dec_value(whole) == (dec_value(whole.drop_last()) * 10 + (whole.last() - 48)) as nat);
        vstd::arithmetic::div_mod::lemma_fundamental_div_mod(n as int, 10);
        assert forall|i: int| 0 <= i < whole.len() implies is_digit(#[trigger] whole[i]) by {
            if i < d.len() {
                assert(whole[i] == d[i]);
            }
        }
    }
}

/// Round-trip for simple strings: a `SimpleString` whose text holds neither
/// CR nor LF decodes from its own encoding, consuming the whole frame.
pub proof fn round_trip_simple_string(s: Seq<char>)
    requires
        crlf_free(s),
    ensures
        ({
            let wire = spec_encode(RespVal::SimpleString(s));
            spec_parse(wire) == Ok::<(RespVal, int), RespErrVal>(
                (RespVal::SimpleString(s), wire.len() as int),
            )
        }),
{
    let e = encode_utf8(s);
    let wire = spec_encode(RespVal::SimpleString(s));
    let tail = wire.subrange(1, wire.len() as int);
    assert(wire[0] == 43u8);
    assert(tail =~= e + seq![13u8, 10u8]);
    lemma_encode_utf8_no_crlf(s);
    let lf = e.len() as int + 1;
    assert(tail[lf - 1] == 13u8 && tail[lf] == 10u8);
    assert forall|j: int| 1 <= j < lf implies !crlf_at(tail, j) by {
        if j < e.len() {
            assert(tail[j] == e[j]);
        } else {
            assert(tail[j] == 13u8);
        }
    }
    assert(is_first_crlf(tail, lf));
    assert(has_crlf(tail));
    lemma_first_crlf_unique(tail, crlf_lf_index(tail), lf);
    assert(tail.subrange(0, lf - 1) =~= e);
    encode_utf8_valid_utf8(s);
    encode_utf8_decode_utf8(s);
    assert(lf + 2 == wire.len());
}

/// Round-trip for bulk strings with ASCII payloads: a `BulkString` whose
/// character count equals its byte count decodes from its own encoding,
/// consuming the whole frame. (For a non-ASCII payload the declared length
/// counts characters while the payload is measured in bytes, so the frame
/// is not self-consistent and no such law holds.)
pub proof fn round_trip_bulk_string(s: Seq<char>)
    requires
        is_ascii_chars(s),
        s.len() <= usize::MAX,
    ensures
        ({
            let wire = spec_encode(RespVal::BulkString(s));
            spec_parse(wire) == Ok::<(RespVal, int), RespErrVal>(
                (RespVal::BulkString(s), wire.len() as int),
            )
        }),
{
    let e = encode_utf8(s);
    let d = spec_dec_digits(s.len());
    let wire = spec_encode(RespVal::BulkString(s));
    let tail = wire.subrange(1, wire.len() as int);
    is_ascii_chars_encode_utf8(s);
    lemma_dec_digits_props(s.len());
    assert(wire[0] == 36u8);
    assert(tail =~= d + seq![13u8, 10u8] + e + seq![13u8, 10u8]);
    let lf = d.len() as int + 1;
    assert(tail[lf - 1] == 13u8 && tail[lf] == 10u8);
    assert forall|j: int| 1 <= j < lf implies !crlf_at(tail, j) by {
        if j < d.len() {
            assert(tail[j] == d[j]);
            assert(is_digit(d[j]));
        } else {
            assert(tail[j] == 13u8);
        }
    }
    assert(is_first_crlf(tail, lf));
    assert(has_crlf(tail));
    lemma_first_crlf_unique(tail, crlf_lf_index(tail), lf);
    let len_field = tail.subrange(0, lf - 1);
    assert(len_field =~= d);
    assert(is_digit(d[0]));
    assert(digits_part(d) == d);
    assert(parses_as_usize(d));
    let consumed = lf + 2;
    let end = consumed + s.len();
    assert(end + 2 == wire.len());
    assert(wire.subrange(consumed, end as int) =~= e);
    encode_utf8_valid_utf8(s);
    encode_utf8_decode_utf8(s);
}

/// Bytes consumed against buffer length: a successful decode consumes at
/// most one byte past the buffer, and it passes the buffer's end only for a
/// bulk frame whose declared payload runs to exactly one byte before that
/// end — the decoder charges for a trailing CR LF it never looked at.
pub proof fn lemma_consumed_bytes_bound(b: Seq<u8>)
    ensures
        spec_parse(b) matches Ok(p) ==> p.1 <= b.len() + 1,
        spec_parse(b) matches Ok(p) ==> (p.1 <= b.len() || (b[0] == 36u8 && p.1 == b.len() + 1)),
{
    if b.len() != 0 && b[0] == 43u8 {
        let tail = b.subrange(1, b.len() as int);
        if has_crlf(tail) {
            let lf = crlf_lf_index(tail);
            assert(is_first_crlf(tail, lf));
            assert(lf < tail.len());
        }
    }
}

} // verus!
