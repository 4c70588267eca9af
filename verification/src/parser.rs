//! The wire codec: conversion between the line-oriented wire byte format
//! (status lines, length-prefixed bulk payloads, null bulk markers and
//! counted sequences) and in-memory message trees.
//!
//! The mathematical model is `Msg`, a ghost message tree over byte
//! sequences: the wire protocol counts bytes, so lengths and payloads are
//! byte-denominated throughout. `encoded` gives the exact wire bytes of a
//! model message and `spec_decode` is the exact specification of the
//! decoder, including how it tells an incomplete frame (more bytes may
//! still arrive on a stream) from a malformed one. The executable values
//! carry their payloads as `String`s, related to the model through their
//! UTF-8 encoding.

use vstd::prelude::*;
use vstd::slice::slice_to_vec;
use vstd::string::StrSliceExecFns;
use vstd::string::StringExecFns;
use vstd::utf8::encode_utf8;
use vstd::utf8::valid_utf8;

use crate::text::dec_of;
use crate::text::digit_char;
use crate::text::push_u64_dec;

verus! {

broadcast use vstd::utf8::encode_utf8_valid_utf8;

/// Ghost model of a wire message, over raw wire bytes.
#[verifier::ext_equal]
pub enum Msg {
    /// A short status line; the wire form carries it between a `+` tag and
    /// the terminating CR LF, so it cannot itself contain a CR LF pair.
    Simple(Seq<u8>),
    /// A length-prefixed opaque payload; may contain any bytes.
    Bulk(Seq<u8>),
    /// The explicit absence marker, distinct from an empty payload.
    NullBulk,
    /// An ordered, counted list of messages.
    Array(Seq<Msg>),
    /// A pre-formatted fragment emitted verbatim; output-only.
    Text(Seq<u8>),
}

/// A wire message value as the executable code handles it; text payloads,
/// whose wire form is their UTF-8 bytes.
#[derive(Debug, PartialEq)]
pub enum Value {
    SimpleString(String),
    BulkString(String),
    NullBulkString(),
    Array(Vec<Value>),
    Text(String),
}

/// The model of an executable message value: each text payload stands for
/// its UTF-8 bytes.
pub open spec fn value_model(v: Value) -> Msg
    decreases v, 1int,
{
    match v {
        Value::SimpleString(s) => Msg::Simple(encode_utf8(s@)),
        Value::BulkString(s) => Msg::Bulk(encode_utf8(s@)),
        Value::NullBulkString() => Msg::NullBulk,
        Value::Array(items) => Msg::Array(models_of(items@)),
        Value::Text(s) => Msg::Text(encode_utf8(s@)),
    }
}

/// The models of a sequence of executable message values.
pub open spec fn models_of(items: Seq<Value>) -> Seq<Msg>
    decreases items, 0int,
{
    if items.len() == 0 {
        Seq::empty()
    } else {
        seq![value_model(items[0])] + models_of(items.drop_first())
    }
}

impl View for Value {
    type V = Msg;

    open spec fn view(&self) -> Msg {
        value_model(*self)
    }
}

pub proof fn lemma_models_of(items: Seq<Value>)
    ensures
        models_of(items).len() == items.len(),
        forall|i: int|
            0 <= i < items.len() ==> #[trigger] models_of(items)[i] == value_model(items[i]),
    decreases items,
{
    if items.len() > 0 {
        lemma_models_of(items.drop_first());
    }
}

/// The wire line terminator.
pub open spec fn crlf() -> Seq<u8> {
    seq![13u8, 10u8]
}

/// The decimal digit byte for a value below ten.
pub open spec fn digit_byte(d: nat) -> u8 {
    (48 + d) as u8
}

/// The decimal rendering of a natural number as bytes, most significant
/// digit first, with no sign and no leading zeros (except zero itself).
pub open spec fn dec_bytes(n: nat) -> Seq<u8>
    decreases n,
{
    if n < 10 {
        seq![digit_byte(n)]
    } else {
        dec_bytes(n / 10).push(digit_byte(n % 10))
    }
}

/// Whether `b` is a decimal digit byte.
pub open spec fn is_digit_byte(b: u8) -> bool {
    48 <= b <= 57
}

/// The value of a decimal digit byte.
pub open spec fn digit_val_byte(b: u8) -> nat {
    (b - 48) as nat
}

/// Whether every byte of `s` is a decimal digit.
pub open spec fn all_digit_bytes(s: Seq<u8>) -> bool {
    forall|i: int| 0 <= i < s.len() ==> is_digit_byte(#[trigger] s[i])
}

/// The value of a digit byte sequence read as a decimal numeral.
pub open spec fn digits_val_bytes(s: Seq<u8>) -> nat
    decreases s.len(),
{
    if s.len() == 0 {
        0
    } else {
        digits_val_bytes(s.drop_last()) * 10 + digit_val_byte(s.last())
    }
}

/// The value denoted by `s` as an unsigned decimal numeral with an
/// optional leading `+`, or `None` where `s` is not of that shape.
pub open spec fn parsed_uint_bytes(s: Seq<u8>) -> Option<int> {
    let ds = if s.len() > 0 && s[0] == 43u8 {
        s.drop_first()
    } else {
        s
    };
    if ds.len() == 0 || !all_digit_bytes(ds) {
        None
    } else {
        Some(digits_val_bytes(ds) as int)
    }
}

/// The value denoted by `s` as a signed decimal numeral (optional leading
/// `+` or `-`), or `None` where `s` is not of that shape.
pub open spec fn parsed_int_bytes(s: Seq<u8>) -> Option<int> {
    if s.len() > 0 && s[0] == 45u8 {
        let ds = s.drop_first();
        if ds.len() == 0 || !all_digit_bytes(ds) {
            None
        } else {
            Some(-(digits_val_bytes(ds) as int))
        }
    } else {
        parsed_uint_bytes(s)
    }
}

/// `parsed_int_bytes` restricted to the range of `i64`.
pub open spec fn parsed_i64_bytes(s: Seq<u8>) -> Option<int> {
    match parsed_int_bytes(s) {
        Some(v) => if i64::MIN <= v <= i64::MAX {
            Some(v)
        } else {
            None
        },
        None => None,
    }
}

/// The exact wire bytes of a model message. Every length header counts
/// bytes: a bulk payload's header is the decimal byte length of the
/// payload, a sequence's header is its item count.
pub open spec fn encoded(m: Msg) -> Seq<u8>
    decreases m, 1int,
{
    match m {
        Msg::Simple(s) => seq![43u8] + s + crlf(),
        Msg::Bulk(s) => seq![36u8] + dec_bytes(s.len()) + crlf() + s + crlf(),
        Msg::NullBulk => seq![36u8, 45u8, 49u8, 13u8, 10u8],
        Msg::Array(items) => seq![42u8] + dec_bytes(items.len()) + crlf() + encoded_items(items),
        Msg::Text(s) => s,
    }
}

/// The concatenated wire bytes of a sequence of model messages.
pub open spec fn encoded_items(items: Seq<Msg>) -> Seq<u8>
    decreases items, 0int,
{
    if items.len() == 0 {
        Seq::empty()
    } else {
        encoded(items[0]) + encoded_items(items.drop_first())
    }
}

/// How a decode attempt can fail: the buffer holds only a prefix of a
/// frame (read more bytes and retry), or the bytes cannot begin any frame.
#[derive(Clone, Copy, Debug, PartialEq, Eq, Structural)]
pub enum DecodeError {
    Incomplete,
    Malformed,
}

/// The distance from `i` to the first CR LF pair at or after `i`, or
/// `None` where no full pair lies within `s`.
pub open spec fn crlf_dist(s: Seq<u8>, i: int) -> Option<nat>
    decreases s.len() - i,
{
    if i < 0 || i + 1 >= s.len() {
        None
    } else if s[i] == 13u8 && s[i + 1] == 10u8 {
        Some(0)
    } else {
        match crlf_dist(s, i + 1) {
            Some(d) => Some((d + 1) as nat),
            None => None,
        }
    }
}

pub proof fn lemma_crlf_bound(s: Seq<u8>, i: int)
    ensures
        crlf_dist(s, i) matches Some(d) ==> i >= 0 && i + d + 2 <= s.len() && s[i + d] == 13u8
            && s[i + d + 1] == 10u8 && (forall|k: int|
            i <= k < i + d ==> !(#[trigger] s[k] == 13u8 && s[k + 1] == 10u8)),
    decreases s.len() - i,
{
    if i >= 0 && i + 1 < s.len() && !(s[i] == 13u8 && s[i + 1] == 10u8) {
        lemma_crlf_bound(s, i + 1);
    }
}

proof fn lemma_crlf_found(s: Seq<u8>, from: int, i: int)
    requires
        0 <= from <= i,
        i + 1 < s.len(),
        s[i] == 13u8,
        s[i + 1] == 10u8,
        forall|k: int| from <= k < i ==> !(#[trigger] s[k] == 13u8 && s[k + 1] == 10u8),
    ensures
        crlf_dist(s, from) == Some((i - from) as nat),
    decreases i - from,
{
    if from < i {
        lemma_crlf_found(s, from + 1, i);
    }
}

proof fn lemma_crlf_not_found(s: Seq<u8>, from: int, i: int)
    requires
        0 <= from <= i,
        i + 1 >= s.len(),
        forall|k: int| from <= k < i ==> !(#[trigger] s[k] == 13u8 && s[k + 1] == 10u8),
    ensures
        crlf_dist(s, from) is None,
    decreases i - from,
{
    if from < i && from + 1 < s.len() {
        lemma_crlf_not_found(s, from + 1, i);
    }
}

/// The bytes of `s` still at or after position `start`; the decoder's
/// termination measure.
pub open spec fn rem(s: Seq<u8>, start: int) -> int {
    if start <= s.len() {
        s.len() - start
    } else {
        0
    }
}

/// The exact specification of decoding one message from `s` at `start`:
/// the decoded model message and the number of bytes consumed, or the
/// kind of failure. A missing terminator or a payload that runs past the
/// end of the buffer is reported as `Incomplete` (the frame may still be
/// on its way over the stream); an unknown tag byte, an unparseable
/// length header, or text that is not UTF-8 (and so cannot become a
/// `String` payload) is `Malformed`. A bulk payload is exactly the number
/// of bytes its header declares.
pub open spec fn spec_decode(s: Seq<u8>, start: int) -> Result<(Msg, nat), DecodeError>
    decreases rem(s, start), 1int,
{
    if start < 0 || start >= s.len() {
        Err(DecodeError::Incomplete)
    } else if s[start] == 43u8 {
        match crlf_dist(s, start + 1) {
            Some(d) => {
                if valid_utf8(s.subrange(start + 1, start + 1 + d)) {
                    Ok((Msg::Simple(s.subrange(start + 1, start + 1 + d)), (d + 3) as nat))
                } else {
                    Err(DecodeError::Malformed)
                }
            },
            None => Err(DecodeError::Incomplete),
        }
    } else if s[start] == 36u8 {
        match crlf_dist(s, start + 1) {
            Some(d) => match parsed_i64_bytes(s.subrange(start + 1, start + 1 + d)) {
                Some(v) => if v == -1 {
                    Ok((Msg::NullBulk, (d + 3) as nat))
                } else if v < 0 {
                    Err(DecodeError::Malformed)
                } else if start + d + 3 + v + 2 <= s.len() {
                    if valid_utf8(s.subrange(start + d + 3, start + d + 3 + v)) {
                        Ok(
                            (
                                Msg::Bulk(s.subrange(start + d + 3, start + d + 3 + v)),
                                (d + 3 + v + 2) as nat,
                            ),
                        )
                    } else {
                        Err(DecodeError::Malformed)
                    }
                } else {
                    Err(DecodeError::Incomplete)
                },
                None => Err(DecodeError::Malformed),
            },
            None => Err(DecodeError::Incomplete),
        }
    } else if s[start] == 42u8 {
        match crlf_dist(s, start + 1) {
            Some(d) => match parsed_i64_bytes(s.subrange(start + 1, start + 1 + d)) {
                Some(count) => match spec_decode_items(s, start + d + 3, count) {
                    Ok((items, n)) => Ok((Msg::Array(items), (d + 3 + n) as nat)),
                    Err(e) => Err(e),
                },
                None => Err(DecodeError::Malformed),
            },
            None => Err(DecodeError::Incomplete),
        }
    } else {
        Err(DecodeError::Malformed)
    }
}

/// Decoding of `count` consecutive messages from `s` at `start`; a count
/// of zero or less yields an empty sequence.
pub open spec fn spec_decode_items(s: Seq<u8>, start: int, count: int) -> Result<
    (Seq<Msg>, nat),
    DecodeError,
>
    decreases rem(s, start), count + 2,
{
    if count <= 0 {
        Ok((Seq::empty(), 0))
    } else {
        match spec_decode(s, start) {
            Ok((m, n)) => match spec_decode_items(s, start + n, count - 1) {
                Ok((ms, n2)) => Ok((seq![m] + ms, (n + n2) as nat)),
                Err(e) => Err(e),
            },
            Err(e) => Err(e),
        }
    }
}

pub proof fn lemma_decode_bounds(s: Seq<u8>, start: int)
    ensures
        spec_decode(s, start) matches Ok((m, n)) ==> start + n <= s.len() && n >= 3,
    decreases rem(s, start), 1int,
{
    if 0 <= start < s.len() {
        lemma_crlf_bound(s, start + 1);
        if s[start] == 42u8 {
            match crlf_dist(s, start + 1) {
                Some(d) => {
                    match parsed_i64_bytes(s.subrange(start + 1, start + 1 + d)) {
                        Some(count) => {
                            lemma_decode_items_bounds(s, start + d + 3, count);
                        },
                        None => {},
                    }
                },
                None => {},
            }
        }
    }
}

pub proof fn lemma_decode_items_bounds(s: Seq<u8>, start: int, count: int)
    ensures
        spec_decode_items(s, start, count) matches Ok((ms, n)) ==> (start <= s.len() ==> start + n
            <= s.len()),
    decreases rem(s, start), count + 2,
{
    if count > 0 {
        lemma_decode_bounds(s, start);
        match spec_decode(s, start) {
            Ok((m, n)) => {
                lemma_decode_items_bounds(s, start + n, count - 1);
            },
            Err(e) => {},
        }
    }
}

/// Relies on std's `String::from_utf8`: succeeds exactly on valid UTF-8
/// input, and the returned string's UTF-8 encoding is that input.
#[verifier::external_body]
fn string_from_utf8(v: Vec<u8>) -> (r: Option<String>)
    ensures
        match r {
            Some(s) => valid_utf8(v@) && encode_utf8(s@) == v@,
            None => !valid_utf8(v@),
        },
{
    String::from_utf8(v).ok()
}

/// Scans `s` from position `from` for the first CR LF pair; returns the
/// line before it and the position just past the pair.
pub fn read_until(s: &[u8], from: usize) -> (r: Option<(Vec<u8>, usize)>)
    ensures
        match crlf_dist(s@, from as int) {
            Some(d) => r matches Some((line, next)) && line@ == s@.subrange(
                from as int,
                from + d,
            ) && next == from + d + 2,
            None => r is None,
        },
{
    let n = s.len();
    if from >= n {
        return None;
    }
    let mut line: Vec<u8> = Vec::new();
    let mut i: usize = from;
    proof {
        assert(line@ =~= s@.subrange(from as int, from as int));
    }
    while i + 1 < n
        invariant
            from <= i < n,
            n == s@.len(),
            line@ == s@.subrange(from as int, i as int),
            forall|k: int| from <= k < i ==> !(#[trigger] s@[k] == 13u8 && s@[k + 1] == 10u8),
        decreases n - i,
    {
        let c1 = s[i];
        let c2 = s[i + 1];
        if c1 == 13u8 && c2 == 10u8 {
            proof {
                lemma_crlf_found(s@, from as int, i as int);
            }
            return Some((line, i + 2));
        }
        line.push(c1);
        proof {
            assert(s@.subrange(from as int, i + 1 as int) =~= s@.subrange(
                from as int,
                i as int,
            ).push(s@[i as int]));
        }
        i = i + 1;
    }
    proof {
        lemma_crlf_not_found(s@, from as int, i as int);
    }
    None
}

/// Parses a line as a signed decimal integer in the range of `i64`, as
/// the numeric headers of the wire format require.
pub fn parse_int(s: &[u8]) -> (r: Result<i64, DecodeError>)
    ensures
        match parsed_i64_bytes(s@) {
            Some(v) => r matches Ok(x) && x as int == v,
            None => r == Err::<i64, DecodeError>(DecodeError::Malformed),
        },
{
    let n = s.len();
    if n == 0 {
        return Err(DecodeError::Malformed);
    }
    let c0 = s[0];
    let neg = c0 == 45u8;
    let skip: usize = if c0 == 45u8 || c0 == 43u8 {
        1
    } else {
        0
    };
    if n == skip {
        return Err(DecodeError::Malformed);
    }
    let ghost ds = if skip == 1 {
        s@.drop_first()
    } else {
        s@
    };
    let mut i: usize = skip;
    let mut acc: u128 = 0;
    while i < n
        invariant
            skip <= i <= n,
            skip <= 1,
            n == s@.len(),
            n > skip,
            neg == (s@[0] == 45u8),
            (skip == 1) == (s@[0] == 45u8 || s@[0] == 43u8),
            ds == (if skip == 1 {
                s@.drop_first()
            } else {
                s@
            }),
            ds.len() == n - skip,
            forall|j: int| 0 <= j < i - skip ==> is_digit_byte(#[trigger] ds[j]),
            acc <= 0x1_0000_0000_0000_0000u128,
            acc < 0x1_0000_0000_0000_0000u128 ==> acc == digits_val_bytes(
                ds.subrange(0, i - skip as int),
            ),
            acc == 0x1_0000_0000_0000_0000u128 ==> digits_val_bytes(
                ds.subrange(0, i - skip as int),
            ) >= 0x1_0000_0000_0000_0000u128,
        decreases n - i,
    {
        let u = s[i];
        if u < 48 || u > 57 {
            proof {
                assert(ds[i - skip as int] == s@[i as int]);
                assert(!is_digit_byte(ds[i - skip as int]));
            }
            return Err(DecodeError::Malformed);
        }
        let d = (u - 48) as u128;
        proof {
            assert(ds.subrange(0, i + 1 - skip as int).drop_last() =~= ds.subrange(
                0,
                i - skip as int,
            ));
            assert(ds[i - skip as int] == s@[i as int]);
            assert(digit_val_byte(ds[i - skip as int]) == d as nat);
            assert(digits_val_bytes(ds.subrange(0, i + 1 - skip as int)) == digits_val_bytes(
                ds.subrange(0, i - skip as int),
            ) * 10 + digit_val_byte(ds[i - skip as int]));
        }
        let t = acc * 10 + d;
        if t >= 0x1_0000_0000_0000_0000u128 {
            proof {
                let prev = digits_val_bytes(ds.subrange(0, i - skip as int));
                assert(prev * 10 + d as nat >= 0x1_0000_0000_0000_0000) by (nonlinear_arith)
                    requires
                        prev * 10 + d as nat == t || prev >= 0x1_0000_0000_0000_0000,
                        t >= 0x1_0000_0000_0000_0000,
                        d < 10,
                ;
            }
            acc = 0x1_0000_0000_0000_0000u128;
        } else {
            acc = t;
        }
        i = i + 1;
    }
    proof {
        assert(ds.subrange(0, n - skip as int) =~= ds);
    }
    if neg {
        if acc > 0x8000_0000_0000_0000u128 {
            Err(DecodeError::Malformed)
        } else if acc == 0x8000_0000_0000_0000u128 {
            Ok(i64::MIN)
        } else {
            Ok(0i64 - (acc as i64))
        }
    } else {
        if acc > 0x7fff_ffff_ffff_ffffu128 {
            Err(DecodeError::Malformed)
        } else {
            Ok(acc as i64)
        }
    }
}

/// Decodes one message from `buffer` starting at position `start`;
/// returns the message and the number of bytes consumed, exactly as
/// `spec_decode` prescribes.
pub fn parse_message(buffer: &[u8], start: usize) -> (r: Result<(Value, usize), DecodeError>)
    ensures
        match spec_decode(buffer@, start as int) {
            Ok((m, n)) => r matches Ok((v, c)) && v@ == m && c as nat == n,
            Err(e) => r matches Err(e2) && e2 == e,
        },
    decreases rem(buffer@, start as int), 1int,
{
    let n = buffer.len();
    if start >= n {
        return Err(DecodeError::Incomplete);
    }
    let tag = buffer[start];
    if tag == 43u8 {
        parse_simple_string(buffer, start)
    } else if tag == 36u8 {
        parse_bulk_string(buffer, start)
    } else if tag == 42u8 {
        parse_array(buffer, start)
    } else {
        Err(DecodeError::Malformed)
    }
}

/// Decodes a status line (`+` tag): everything up to the first CR LF,
/// which must be text so that it can be handed out as a `String`.
pub fn parse_simple_string(buffer: &[u8], start: usize) -> (r: Result<
    (Value, usize),
    DecodeError,
>)
    requires
        start < buffer@.len(),
        buffer@.len() <= usize::MAX,
        buffer@[start as int] == 43u8,
    ensures
        match spec_decode(buffer@, start as int) {
            Ok((m, n)) => r matches Ok((v, c)) && v@ == m && c as nat == n,
            Err(e) => r matches Err(e2) && e2 == e,
        },
{
    proof {
        lemma_crlf_bound(buffer@, start + 1);
    }
    match read_until(buffer, start + 1) {
        Some((line, next)) => match string_from_utf8(line) {
            Some(text) => Ok((Value::SimpleString(text), next - start)),
            None => Err(DecodeError::Malformed),
        },
        None => Err(DecodeError::Incomplete),
    }
}

/// Decodes a bulk payload (`$` tag): a decimal byte-length line, then
/// exactly that many payload bytes, then a CR LF that is consumed without
/// being inspected. A declared length of -1 is the null bulk marker. A
/// payload that runs past the end of the buffer is an incomplete frame,
/// not a malformed one.
pub fn parse_bulk_string(buffer: &[u8], start: usize) -> (r: Result<(Value, usize), DecodeError>)
    requires
        start < buffer@.len(),
        buffer@.len() <= usize::MAX,
        buffer@[start as int] == 36u8,
    ensures
        match spec_decode(buffer@, start as int) {
            Ok((m, n)) => r matches Ok((v, c)) && v@ == m && c as nat == n,
            Err(e) => r matches Err(e2) && e2 == e,
        },
{
    proof {
        lemma_crlf_bound(buffer@, start + 1);
    }
    let n = buffer.len();
    match read_until(buffer, start + 1) {
        Some((line, next)) => match parse_int(line.as_slice()) {
            Ok(v) => {
                if v == -1 {
                    Ok((Value::NullBulkString(), next - start))
                } else if v < 0 {
                    Err(DecodeError::Malformed)
                } else {
                    let avail = n - next;
                    if avail >= 2 && (v as u64) <= ((avail - 2) as u64) {
                        let vlen = v as usize;
                        let payload = slice_to_vec(&buffer[next..next + vlen]);
                        match string_from_utf8(payload) {
                            Some(text) => Ok(
                                (Value::BulkString(text), next - start + vlen + 2),
                            ),
                            None => Err(DecodeError::Malformed),
                        }
                    } else {
                        Err(DecodeError::Incomplete)
                    }
                }
            },
            Err(e) => Err(DecodeError::Malformed),
        },
        None => Err(DecodeError::Incomplete),
    }
}

/// Decodes a counted sequence (`*` tag): a decimal count line, then that
/// many consecutive messages; a count of zero or less yields an empty
/// sequence.
pub fn parse_array(buffer: &[u8], start: usize) -> (r: Result<(Value, usize), DecodeError>)
    requires
        start < buffer@.len(),
        buffer@.len() <= usize::MAX,
        buffer@[start as int] == 42u8,
    ensures
        match spec_decode(buffer@, start as int) {
            Ok((m, n)) => r matches Ok((v, c)) && v@ == m && c as nat == n,
            Err(e) => r matches Err(e2) && e2 == e,
        },
    decreases rem(buffer@, start as int), 0int,
{
    proof {
        lemma_crlf_bound(buffer@, start + 1);
    }
    match read_until(buffer, start + 1) {
        Some((line, next)) => match parse_int(line.as_slice()) {
            Ok(count) => match parse_items(buffer, next, count) {
                Ok((items, consumed)) => Ok((Value::Array(items), next - start + consumed)),
                Err(e) => Err(e),
            },
            Err(e) => Err(DecodeError::Malformed),
        },
        None => Err(DecodeError::Incomplete),
    }
}

/// Decodes `count` consecutive messages from `buffer` at `start`.
fn parse_items(buffer: &[u8], start: usize, count: i64) -> (r: Result<
    (Vec<Value>, usize),
    DecodeError,
>)
    requires
        buffer@.len() <= usize::MAX,
    ensures
        match spec_decode_items(buffer@, start as int, count as int) {
            Ok((ms, n)) => r matches Ok((items, c)) && models_of(items@) == ms && c as nat == n
                && (start <= buffer@.len() ==> start + c <= buffer@.len()),
            Err(e) => r matches Err(e2) && e2 == e,
        },
    decreases rem(buffer@, start as int), count + 2,
{
    if count <= 0 {
        return Ok((Vec::new(), 0));
    }
    match parse_message(buffer, start) {
        Err(e) => Err(e),
        Ok((first, c1)) => {
            proof {
                lemma_decode_bounds(buffer@, start as int);
            }
            match parse_items(buffer, start + c1, count - 1) {
                Err(e) => Err(e),
                Ok((rest, c2)) => {
                    let ghost rest0 = rest@;
                    let mut items = rest;
                    items.insert(0, first);
                    proof {
                        assert(items@.drop_first() =~= rest0);
                        assert(models_of(items@) == seq![value_model(first)] + models_of(rest0));
                    }
                    Ok((items, c1 + c2))
                },
            }
        },
    }
}

/// UTF-8 encoding distributes over concatenation.
pub proof fn lemma_encode_concat(a: Seq<char>, b: Seq<char>)
    ensures
        encode_utf8(a + b) == encode_utf8(a) + encode_utf8(b),
    decreases a.len(),
{
    if a.len() == 0 {
        assert(a + b =~= b);
        assert(encode_utf8(a) + encode_utf8(b) =~= encode_utf8(b));
    } else {
        assert((a + b).drop_first() =~= a.drop_first() + b);
        lemma_encode_concat(a.drop_first(), b);
        assert(encode_utf8(a + b) =~= encode_utf8(a) + encode_utf8(b));
    }
}

/// The UTF-8 encoding of one character below 128 is that one byte.
pub proof fn lemma_encode_ascii_char(c: char)
    requires
        (c as u32) < 128,
    ensures
        encode_utf8(seq![c]) == seq![c as u8],
{
    let u = c as u32;
    assert((u & 0x7F) as u8 == u as u8) by (bit_vector)
        requires
            u < 128,
    ;
    assert(c as u8 == u as u8);
    assert(seq![c].drop_first() =~= Seq::<char>::empty());
    assert(encode_utf8(Seq::<char>::empty()) =~= Seq::<u8>::empty());
    assert(vstd::utf8::encode_scalar(u) =~= seq![u as u8]);
    assert(encode_utf8(seq![c]) =~= seq![c as u8]);
}

proof fn lemma_encode_push(a: Seq<char>, c: char)
    requires
        (c as u32) < 128,
    ensures
        encode_utf8(a.push(c)) == encode_utf8(a) + seq![c as u8],
{
    assert(a.push(c) =~= a + seq![c]);
    lemma_encode_concat(a, seq![c]);
    lemma_encode_ascii_char(c);
}

/// The character digits of a number encode to its byte digits.
pub proof fn lemma_encode_dec(n: nat)
    ensures
        encode_utf8(dec_of(n)) == dec_bytes(n),
    decreases n,
{
    if n < 10 {
        assert(digit_char(n) as u32 == 48 + n);
        assert(digit_char(n) as u8 == digit_byte(n));
        lemma_encode_ascii_char(digit_char(n));
        assert(encode_utf8(dec_of(n)) =~= dec_bytes(n));
    } else {
        lemma_encode_dec(n / 10);
        assert(digit_char(n % 10) as u32 == 48 + n % 10);
        assert(digit_char(n % 10) as u8 == digit_byte(n % 10));
        lemma_encode_push(dec_of(n / 10), digit_char(n % 10));
        assert(encode_utf8(dec_of(n)) =~= dec_bytes(n));
    }
}

impl Value {
    /// Serializes the message into its exact wire form, carried as a
    /// `String` whose UTF-8 bytes are the wire bytes; a total function
    /// with no failure cases.
    pub fn serialize(self) -> (r: String)
        ensures
            encode_utf8(r@) == encoded(self@),
    {
        ser_value(&self)
    }
}

fn ser_value(v: &Value) -> (r: String)
    ensures
        encode_utf8(r@) == encoded(value_model(*v)),
    decreases *v, 1int,
{
    match v {
        Value::SimpleString(s) => {
            let mut out = String::new();
            out.push('+');
            out.append(s.as_str());
            out.push('\r');
            out.push('\n');
            proof {
                assert(out@ =~= seq!['+'] + s@ + seq!['\r'] + seq!['\n']);
                lemma_encode_concat(seq!['+'] + s@ + seq!['\r'], seq!['\n']);
                lemma_encode_concat(seq!['+'] + s@, seq!['\r']);
                lemma_encode_concat(seq!['+'], s@);
                lemma_encode_ascii_char('+');
                lemma_encode_ascii_char('\r');
                lemma_encode_ascii_char('\n');
                assert(encode_utf8(out@) =~= encoded(value_model(*v)));
            }
            out
        },
        Value::BulkString(s) => {
            let len_bytes = s.as_str().as_bytes().len();
            let mut out = String::new();
            out.push('$');
            push_u64_dec(&mut out, len_bytes as u64);
            out.push('\r');
            out.push('\n');
            out.append(s.as_str());
            out.push('\r');
            out.push('\n');
            proof {
                assert(len_bytes == encode_utf8(s@).len());
                let d = dec_of(encode_utf8(s@).len());
                assert(out@ =~= seq!['$'] + d + seq!['\r'] + seq!['\n'] + s@ + seq!['\r']
                    + seq!['\n']);
                lemma_encode_concat(seq!['$'] + d + seq!['\r'] + seq!['\n'] + s@ + seq!['\r'],
                    seq!['\n']);
                lemma_encode_concat(seq!['$'] + d + seq!['\r'] + seq!['\n'] + s@, seq!['\r']);
                lemma_encode_concat(seq!['$'] + d + seq!['\r'] + seq!['\n'], s@);
                lemma_encode_concat(seq!['$'] + d + seq!['\r'], seq!['\n']);
                lemma_encode_concat(seq!['$'] + d, seq!['\r']);
                lemma_encode_concat(seq!['$'], d);
                lemma_encode_ascii_char('$');
                lemma_encode_ascii_char('\r');
                lemma_encode_ascii_char('\n');
                lemma_encode_dec(encode_utf8(s@).len());
                assert(encode_utf8(out@) =~= encoded(value_model(*v)));
            }
            out
        },
        Value::NullBulkString() => {
            let mut out = String::new();
            out.push('$');
            out.push('-');
            out.push('1');
            out.push('\r');
            out.push('\n');
            proof {
                assert(out@ =~= Seq::<char>::empty().push('$').push('-').push('1').push(
                    '\r',
                ).push('\n'));
                lemma_encode_push(Seq::<char>::empty().push('$').push('-').push('1').push('\r'),
                    '\n');
                lemma_encode_push(Seq::<char>::empty().push('$').push('-').push('1'), '\r');
                lemma_encode_push(Seq::<char>::empty().push('$').push('-'), '1');
                lemma_encode_push(Seq::<char>::empty().push('$'), '-');
                lemma_encode_push(Seq::<char>::empty(), '$');
                assert(encode_utf8(Seq::<char>::empty()) =~= Seq::<u8>::empty());
                assert(encode_utf8(out@) =~= encoded(value_model(*v)));
            }
            out
        },
        Value::Array(items) => {
            let mut out = String::new();
            out.push('*');
            push_u64_dec(&mut out, items.len() as u64);
            out.push('\r');
            out.push('\n');
            let rest = ser_items(items, 0);
            out.append(rest.as_str());
            proof {
                lemma_models_of(items@);
                let d = dec_of(items@.len());
                assert(out@ =~= seq!['*'] + d + seq!['\r'] + seq!['\n'] + rest@);
                lemma_encode_concat(seq!['*'] + d + seq!['\r'] + seq!['\n'], rest@);
                lemma_encode_concat(seq!['*'] + d + seq!['\r'], seq!['\n']);
                lemma_encode_concat(seq!['*'] + d, seq!['\r']);
                lemma_encode_concat(seq!['*'], d);
                lemma_encode_ascii_char('*');
                lemma_encode_ascii_char('\r');
                lemma_encode_ascii_char('\n');
                lemma_encode_dec(items@.len());
                assert(models_of(items@).skip(0) =~= models_of(items@));
                assert(encode_utf8(out@) =~= encoded(value_model(*v)));
            }
            out
        },
        Value::Text(s) => {
            let out = s.clone();
            out
        },
    }
}

fn ser_items(items: &Vec<Value>, i: usize) -> (r: String)
    requires
        i <= items@.len(),
    ensures
        encode_utf8(r@) == encoded_items(models_of(items@).skip(i as int)),
    decreases *items, items@.len() - i,
{
    proof {
        lemma_models_of(items@);
    }
    if i == items.len() {
        proof {
            assert(models_of(items@).skip(i as int) =~= Seq::<Msg>::empty());
            assert(encode_utf8(Seq::<char>::empty()) =~= Seq::<u8>::empty());
        }
        String::new()
    } else {
        let mut first = ser_value(&items[i]);
        let rest = ser_items(items, i + 1);
        proof {
            lemma_encode_concat(first@, rest@);
        }
        first.append(rest.as_str());
        proof {
            let ms = models_of(items@);
            assert(ms.skip(i as int)[0] == ms[i as int]);
            assert(ms.skip(i as int).drop_first() =~= ms.skip(i + 1 as int));
            assert(encode_utf8(first@) =~= encoded_items(ms.skip(i as int)));
        }
        first
    }
}

/// Whether `s` contains no CR LF pair; required of status-line text, whose
/// wire form is delimited by the first such pair.
pub open spec fn no_crlf(s: Seq<u8>) -> bool {
    forall|k: int| 0 <= k < s.len() - 1 ==> !(#[trigger] s[k] == 13u8 && s[k + 1] == 10u8)
}

/// Whether a model message is one that decoding can produce: no verbatim
/// `Text` fragment anywhere, no CR LF pair inside a status line, text
/// payloads in valid UTF-8 (anything else cannot be handed out as a
/// `String`), and lengths within the range of the wire format's decimal
/// length headers.
pub open spec fn input_valid(m: Msg) -> bool
    decreases m, 1int,
{
    match m {
        Msg::Simple(s) => no_crlf(s) && valid_utf8(s),
        Msg::Bulk(s) => s.len() <= i64::MAX && valid_utf8(s),
        Msg::NullBulk => true,
        Msg::Array(items) => items.len() <= i64::MAX && all_input_valid(items),
        Msg::Text(s) => false,
    }
}

/// Whether every message of a sequence is input-valid.
pub open spec fn all_input_valid(items: Seq<Msg>) -> bool
    decreases items, 0int,
{
    items.len() == 0 || (input_valid(items[0]) && all_input_valid(items.drop_first()))
}

pub proof fn lemma_dec_bytes_digits(n: nat)
    ensures
        all_digit_bytes(dec_bytes(n)),
        dec_bytes(n).len() >= 1,
        digits_val_bytes(dec_bytes(n)) == n,
    decreases n,
{
    if n < 10 {
        assert(digit_byte(n) == 48 + n);
        assert(dec_bytes(n).drop_last() =~= Seq::<u8>::empty());
        assert(digits_val_bytes(Seq::<u8>::empty()) == 0);
        assert(digits_val_bytes(dec_bytes(n)) == digit_val_byte(digit_byte(n)));
    } else {
        lemma_dec_bytes_digits(n / 10);
        assert(digit_byte(n % 10) == 48 + n % 10);
        assert(dec_bytes(n).drop_last() =~= dec_bytes(n / 10));
        assert(digits_val_bytes(dec_bytes(n)) == digits_val_bytes(dec_bytes(n / 10)) * 10
            + digit_val_byte(digit_byte(n % 10)));
        assert(all_digit_bytes(dec_bytes(n))) by {
            assert(forall|j: int|
                0 <= j < dec_bytes(n).len() - 1 ==> #[trigger] dec_bytes(n)[j] == dec_bytes(
                    n / 10,
                )[j]);
        }
    }
}

pub proof fn lemma_parsed_dec_bytes(n: nat)
    requires
        n <= i64::MAX,
    ensures
        parsed_i64_bytes(dec_bytes(n)) == Some(n as int),
{
    lemma_dec_bytes_digits(n);
    assert(is_digit_byte(dec_bytes(n)[0]));
}

proof fn lemma_region_index(s: Seq<u8>, start: int, region: Seq<u8>)
    requires
        0 <= start,
        start + region.len() <= s.len(),
        s.subrange(start, start + region.len() as int) == region,
    ensures
        forall|k: int| start <= k < start + region.len() ==> #[trigger] s[k] == region[k - start],
{
    assert forall|k: int|
        start <= k < start + region.len() implies #[trigger] s[k] == region[k - start] by {
        assert(region[k - start] == s.subrange(start, start + region.len() as int)[k - start]);
    }
}

proof fn lemma_decode_encoded_simple(s: Seq<u8>, start: int, m: Msg)
    requires
        m is Simple,
        input_valid(m),
        0 <= start,
        start + encoded(m).len() <= s.len(),
        s.subrange(start, start + encoded(m).len() as int) == encoded(m),
    ensures
        spec_decode(s, start) == Ok::<(Msg, nat), DecodeError>((m, encoded(m).len() as nat)),
{
    let enc = encoded(m);
    lemma_region_index(s, start, enc);
    match m {
        Msg::Simple(t) => {
            let tlen = t.len() as int;
            assert(s[start] == enc[0]);
            assert(s[start + 1 + tlen] == enc[1 + tlen]);
            assert(s[start + 1 + tlen + 1] == enc[2 + tlen]);
            assert forall|k: int|
                start + 1 <= k < start + 1 + tlen implies !(#[trigger] s[k] == 13u8 && s[k + 1]
                == 10u8) by {
                assert(s[k] == enc[k - start]);
                assert(enc[k - start] == t[k - start - 1]);
                if k < start + tlen {
                    assert(s[k + 1] == enc[k + 1 - start]);
                    assert(enc[k + 1 - start] == t[k - start]);
                    assert(!(t[k - start - 1] == 13u8 && t[k - start] == 10u8));
                }
            }
            lemma_crlf_found(s, start + 1, start + 1 + tlen);
            assert(s.subrange(start + 1, start + 1 + tlen) =~= t);
        },
        _ => {},
    }
}

proof fn lemma_decode_encoded_bulk(s: Seq<u8>, start: int, m: Msg)
    requires
        m is Bulk,
        input_valid(m),
        0 <= start,
        start + encoded(m).len() <= s.len(),
        s.subrange(start, start + encoded(m).len() as int) == encoded(m),
    ensures
        spec_decode(s, start) == Ok::<(Msg, nat), DecodeError>((m, encoded(m).len() as nat)),
{
    let enc = encoded(m);
    lemma_region_index(s, start, enc);
    match m {
        Msg::Bulk(t) => {
            let tlen = t.len() as int;
            let ds = dec_bytes(t.len());
            let dlen = ds.len() as int;
            lemma_dec_bytes_digits(t.len());
            lemma_parsed_dec_bytes(t.len());
            assert(s[start] == enc[0]);
            assert(s[start + 1 + dlen] == enc[1 + dlen]);
            assert(s[start + 1 + dlen + 1] == enc[2 + dlen]);
            assert forall|k: int|
                start + 1 <= k < start + 1 + dlen implies !(#[trigger] s[k] == 13u8 && s[k + 1]
                == 10u8) by {
                assert(s[k] == enc[k - start]);
                assert(enc[k - start] == ds[k - start - 1]);
                assert(is_digit_byte(ds[k - start - 1]));
            }
            lemma_crlf_found(s, start + 1, start + 1 + dlen);
            assert(s.subrange(start + 1, start + 1 + dlen) =~= ds);
            assert(s.subrange(start + dlen + 3, start + dlen + 3 + tlen) =~= t);
            assert((dlen + 3 + tlen + 2) as nat == enc.len());
        },
        _ => {},
    }
}

proof fn lemma_decode_encoded_null(s: Seq<u8>, start: int, m: Msg)
    requires
        m is NullBulk,
        input_valid(m),
        0 <= start,
        start + encoded(m).len() <= s.len(),
        s.subrange(start, start + encoded(m).len() as int) == encoded(m),
    ensures
        spec_decode(s, start) == Ok::<(Msg, nat), DecodeError>((m, encoded(m).len() as nat)),
{
    let enc = encoded(m);
    lemma_region_index(s, start, enc);
    match m {
        Msg::NullBulk => {
            assert(s[start] == enc[0]);
            assert(s[start + 1] == enc[1]);
            assert(s[start + 2] == enc[2]);
            assert(s[start + 3] == enc[3]);
            assert(s[start + 4] == enc[4]);
            lemma_crlf_found(s, start + 1, start + 3);
            let line = s.subrange(start + 1, start + 3);
            assert(line =~= seq![45u8, 49u8]);
            assert(line.drop_first() =~= seq![49u8]);
            assert(seq![49u8].drop_last() =~= Seq::<u8>::empty());
            assert(all_digit_bytes(seq![49u8]));
            assert(digits_val_bytes(Seq::<u8>::empty()) == 0);
            assert(digits_val_bytes(seq![49u8]) == 1);
            assert(parsed_i64_bytes(line) == Some(-1int));
        },
        _ => {},
    }
}

/// Context form of the round-trip law: wherever the exact wire bytes of
/// an input-valid message sit inside a buffer, decoding at its first byte
/// yields that message and consumes exactly its bytes.
#[verifier::rlimit(60)]
pub proof fn lemma_decode_encoded(s: Seq<u8>, start: int, m: Msg)
    requires
        input_valid(m),
        0 <= start,
        start + encoded(m).len() <= s.len(),
        s.subrange(start, start + encoded(m).len() as int) == encoded(m),
    ensures
        spec_decode(s, start) == Ok::<(Msg, nat), DecodeError>((m, encoded(m).len() as nat)),
    decreases m, 1int,
{
    let enc = encoded(m);
    lemma_region_index(s, start, enc);
    match m {
        Msg::Simple(t) => {
            lemma_decode_encoded_simple(s, start, m);
        },
        Msg::Bulk(t) => {
            lemma_decode_encoded_bulk(s, start, m);
        },
        Msg::NullBulk => {
            lemma_decode_encoded_null(s, start, m);
        },
        Msg::Array(items) => {
            let ds = dec_bytes(items.len());
            let dlen = ds.len() as int;
            let body = encoded_items(items);
            lemma_dec_bytes_digits(items.len());
            lemma_parsed_dec_bytes(items.len());
            assert(s[start] == enc[0]);
            assert(s[start + 1 + dlen] == enc[1 + dlen]);
            assert(s[start + 1 + dlen + 1] == enc[2 + dlen]);
            assert forall|k: int|
                start + 1 <= k < start + 1 + dlen implies !(#[trigger] s[k] == 13u8 && s[k + 1]
                == 10u8) by {
                assert(s[k] == enc[k - start]);
                assert(enc[k - start] == ds[k - start - 1]);
                assert(is_digit_byte(ds[k - start - 1]));
            }
            lemma_crlf_found(s, start + 1, start + 1 + dlen);
            assert(s.subrange(start + 1, start + 1 + dlen) =~= ds);
            assert(s.subrange(start + dlen + 3, start + dlen + 3 + body.len() as int) =~= body);
            lemma_decode_encoded_items(s, start + dlen + 3, items);
            assert((dlen + 3 + body.len()) as nat == enc.len());
        },
        Msg::Text(t) => {
            assert(false);
        },
    }
}

/// Context form of the round-trip law for a run of consecutive messages.
pub proof fn lemma_decode_encoded_items(s: Seq<u8>, start: int, items: Seq<Msg>)
    requires
        all_input_valid(items),
        0 <= start,
        start + encoded_items(items).len() <= s.len(),
        s.subrange(start, start + encoded_items(items).len() as int) == encoded_items(items),
    ensures
        spec_decode_items(s, start, items.len() as int) == Ok::<(Seq<Msg>, nat), DecodeError>(
            (items, encoded_items(items).len() as nat),
        ),
    decreases items, 0int,
{
    if items.len() == 0 {
        assert(items =~= Seq::<Msg>::empty());
    } else {
        let first = items[0];
        let rest = items.drop_first();
        let ef = encoded(first);
        let er = encoded_items(rest);
        assert(encoded_items(items) == ef + er);
        lemma_region_index(s, start, encoded_items(items));
        assert(s.subrange(start, start + ef.len() as int) =~= ef) by {
            assert(forall|k: int| 0 <= k < ef.len() ==> (ef + er)[k] == #[trigger] ef[k]);
        }
        assert(s.subrange(start + ef.len() as int, start + ef.len() + er.len() as int) =~= er)
            by {
            assert(forall|k: int|
                0 <= k < er.len() ==> (ef + er)[k + ef.len()] == #[trigger] er[k]);
        }
        lemma_decode_encoded(s, start, first);
        lemma_decode_encoded_items(s, start + ef.len() as int, rest);
        assert(seq![first] + rest =~= items);
    }
}

/// The round-trip law: for every input-valid message, decoding its exact
/// wire bytes yields the message back and consumes all of them.
pub proof fn lemma_round_trip(m: Msg)
    requires
        input_valid(m),
    ensures
        spec_decode(encoded(m), 0) == Ok::<(Msg, nat), DecodeError>(
            (m, encoded(m).len() as nat),
        ),
{
    assert(encoded(m).subrange(0, encoded(m).len() as int) =~= encoded(m));
    lemma_decode_encoded(encoded(m), 0, m);
}

} // verus!
