//! Wire-protocol codec: structured protocol values, a byte-level
//! specification of their encoding and decoding, and verified executable
//! encode/decode functions.
//!
//! A frame is one self-delimited value.  Requests are arrays of bulk
//! strings; replies use every variant.  Decoding is resumable: a frame that
//! runs past the end of the buffer reports `OutOfBounds` and leaves the
//! cursor where it was, so a streaming caller can retry after reading more
//! bytes.

use vstd::prelude::*;
use vstd::utf8::{decode_utf8, encode_utf8, valid_utf8};
use crate::resp_result::{RESPError, RESPResult};

verus! {

broadcast use vstd::seq::axiom_seq_index_decreases, vstd::seq::axiom_seq_subrange_decreases;

/// A protocol value: the closed sum of every shape a frame can take.
///
/// `Null` is the absent value, distinguishable from an empty string; it is
/// written with the `-1` length sentinel, and both the bulk-string and the
/// array form of the sentinel decode to it.
#[derive(Debug, PartialEq)]
pub enum RESP {
    SimpleString(String),
    Error(String),
    Integer(i64),
    BulkString(String),
    Null,
    Array(Vec<RESP>),
}

/// The mathematical shadow of a `RESP` value: text as character sequences,
/// integers as unbounded integers.  Contracts and proofs speak of this type.
pub enum RespModel {
    SimpleString(Seq<char>),
    Error(Seq<char>),
    Integer(int),
    BulkString(Seq<char>),
    Null,
    Array(Seq<RespModel>),
}

pub open spec fn resp_view(v: RESP) -> RespModel
    decreases v,
{
    match v {
        RESP::SimpleString(s) => RespModel::SimpleString(s@),
        RESP::Error(s) => RespModel::Error(s@),
        RESP::Integer(i) => RespModel::Integer(i as int),
        RESP::BulkString(s) => RespModel::BulkString(s@),
        RESP::Null => RespModel::Null,
        RESP::Array(items) => RespModel::Array(
            Seq::new(
                items@.len(),
                |k: int|
                    if 0 <= k < items@.len() {
                        resp_view(items@[k])
                    } else {
                        RespModel::Null
                    },
            ),
        ),
    }
}

impl View for RESP {
    type V = RespModel;

    open spec fn view(&self) -> RespModel {
        resp_view(*self)
    }
}

/// The views of a sequence of values.
pub open spec fn views_of(s: Seq<RESP>) -> Seq<RespModel> {
    Seq::new(s.len(), |k: int| if 0 <= k < s.len() { resp_view(s[k]) } else { RespModel::Null })
}

// ---------------------------------------------------------------------------
// Encoding, at the specification level.
// ---------------------------------------------------------------------------

/// The two-byte line terminator.
pub open spec fn crlf() -> Seq<u8> {
    seq![13u8, 10u8]
}

/// Decimal digits of a natural number, most significant first.
pub open spec fn dec_u(n: nat) -> Seq<u8>
    decreases n,
{
    if n < 10 {
        seq![(48 + n) as u8]
    } else {
        dec_u(n / 10) + seq![(48 + n % 10) as u8]
    }
}

/// Decimal digits of an integer, with a leading `-` when negative.
pub open spec fn dec_i(n: int) -> Seq<u8> {
    if n < 0 {
        seq![45u8] + dec_u((-n) as nat)
    } else {
        dec_u(n as nat)
    }
}

/// The bytes that encode a value.  Every value has an encoding; bulk strings
/// and arrays always use the explicit length form, except that `Null` is
/// written with the `-1` sentinel.
pub open spec fn spec_encode(m: RespModel) -> Seq<u8>
    decreases m,
{
    match m {
        RespModel::SimpleString(s) => seq![43u8] + encode_utf8(s) + crlf(),
        RespModel::Error(s) => seq![45u8] + encode_utf8(s) + crlf(),
        RespModel::Integer(i) => seq![58u8] + dec_i(i) + crlf(),
        RespModel::BulkString(s) => seq![36u8] + dec_u(encode_utf8(s).len()) + crlf()
            + encode_utf8(s) + crlf(),
        RespModel::Null => seq![36u8, 45u8, 49u8, 13u8, 10u8],
        RespModel::Array(items) => seq![42u8] + dec_u(items.len()) + crlf()
            + spec_encode_list(items),
    }
}

/// The concatenated encodings of a sequence of values.
pub open spec fn spec_encode_list(items: Seq<RespModel>) -> Seq<u8>
    decreases items,
{
    if items.len() == 0 {
        Seq::empty()
    } else {
        spec_encode(items[0]) + spec_encode_list(items.drop_first())
    }
}

/// No byte of the sequence is CR or LF.  The payload of a simple string or
/// an error line must satisfy this for its frame to be decodable.
pub open spec fn line_safe(bs: Seq<u8>) -> bool {
    forall|k: int| 0 <= k < bs.len() ==> bs[k] != 13 && bs[k] != 10
}

/// A value whose encoding decodes back to it: line payloads free of CR and
/// LF, integers within the signed 64-bit range, and lengths within the range
/// the header parser accepts.
pub open spec fn wf_model(m: RespModel) -> bool
    decreases m,
{
    match m {
        RespModel::SimpleString(s) => line_safe(encode_utf8(s)),
        RespModel::Error(s) => line_safe(encode_utf8(s)),
        RespModel::Integer(i) => -9223372036854775808 <= i <= 9223372036854775807,
        RespModel::BulkString(s) => encode_utf8(s).len() <= 9223372036854775807,
        RespModel::Null => true,
        RespModel::Array(items) => items.len() <= 9223372036854775807 && (forall|k: int|
            0 <= k < items.len() ==> wf_model(#[trigger] items[k])),
    }
}

// ---------------------------------------------------------------------------
// Encoding, executable.
// ---------------------------------------------------------------------------

/// Appends the decimal digits of `n`.
fn push_dec_u(out: &mut Vec<u8>, n: u64)
    ensures
        final(out)@ == old(out)@ + dec_u(n as nat),
    decreases n,
{
    if n < 10 {
        out.push(48 + n as u8);
        assert(final(out)@ =~= old(out)@ + dec_u(n as nat));
    } else {
        push_dec_u(out, n / 10);
        out.push(48 + (n % 10) as u8);
        assert(final(out)@ =~= old(out)@ + dec_u(n as nat));
    }
}

/// Appends the decimal digits of `n`, with a sign when negative.
fn push_dec_i(out: &mut Vec<u8>, n: i64)
    ensures
        final(out)@ == old(out)@ + dec_i(n as int),
{
    if n >= 0 {
        push_dec_u(out, n as u64);
    } else {
        out.push(45);
        let mag: u64 = ((-(n as i128)) as u64);
        push_dec_u(out, mag);
        assert(final(out)@ =~= old(out)@ + dec_i(n as int));
    }
}

/// Appends the UTF-8 bytes of `s`.
fn push_str_bytes(out: &mut Vec<u8>, s: &String)
    ensures
        final(out)@ == old(out)@ + encode_utf8(s@),
{
    let bytes: &[u8] = s.as_str().as_bytes();
    let mut k: usize = 0;
    while k < bytes.len()
        invariant
            k <= bytes@.len(),
            bytes@ == encode_utf8(s@),
            out@ == old(out)@ + bytes@.take(k as int),
        decreases bytes@.len() - k,
    {
        out.push(bytes[k]);
        k = k + 1;
        assert(out@ =~= old(out)@ + bytes@.take(k as int));
    }
    assert(bytes@.take(k as int) =~= bytes@);
}

/// Appends CR LF.
fn push_crlf(out: &mut Vec<u8>)
    ensures
        final(out)@ == old(out)@ + crlf(),
{
    out.push(13);
    out.push(10);
    assert(final(out)@ =~= old(out)@ + crlf());
}

/// Appends the encoding of `value`.
fn encode_into(value: &RESP, out: &mut Vec<u8>)
    ensures
        final(out)@ == old(out)@ + spec_encode(value@),
    decreases *value,
{
    match value {
        RESP::SimpleString(s) => {
            out.push(43);
            push_str_bytes(out, s);
            push_crlf(out);
            assert(final(out)@ =~= old(out)@ + spec_encode(value@));
        },
        RESP::Error(s) => {
            out.push(45);
            push_str_bytes(out, s);
            push_crlf(out);
            assert(final(out)@ =~= old(out)@ + spec_encode(value@));
        },
        RESP::Integer(i) => {
            out.push(58);
            push_dec_i(out, *i);
            push_crlf(out);
            assert(final(out)@ =~= old(out)@ + spec_encode(value@));
        },
        RESP::BulkString(s) => {
            out.push(36);
            let bytes_len: usize = s.as_str().as_bytes().len();
            push_dec_u(out, bytes_len as u64);
            push_crlf(out);
            push_str_bytes(out, s);
            push_crlf(out);
            assert(final(out)@ =~= old(out)@ + spec_encode(value@));
        },
        RESP::Null => {
            out.push(36);
            out.push(45);
            out.push(49);
            out.push(13);
            out.push(10);
            assert(final(out)@ =~= old(out)@ + spec_encode(value@));
        },
        RESP::Array(items) => {
            out.push(42);
            push_dec_u(out, items.len() as u64);
            push_crlf(out);
            let ghost header: Seq<u8> = seq![42u8] + dec_u(items@.len()) + crlf();
            assert(out@ =~= old(out)@ + header);
            let mut i: usize = 0;
            while i < items.len()
                invariant
                    i <= items@.len(),
                    *value == RESP::Array(*items),
                    header == seq![42u8] + dec_u(items@.len()) + crlf(),
                    out@ == old(out)@ + header + spec_encode_list(views_of(items@).take(i as int)),
                decreases items@.len() - i,
            {
                proof {
                    assert(decreases_to!(*value => (*value)->Array_0));
                    assert((*value)->Array_0 == *items);
                    assert(decreases_to!(*items => items@));
                    assert(decreases_to!(items@ => items@[i as int]));
                    assert(decreases_to!(*value => items@[i as int]));
                }
                encode_into(&items[i], out);
                proof {
                    lemma_encode_list_snoc(views_of(items@), i as int);
                    assert(views_of(items@)[i as int] == resp_view(items@[i as int]));
                    assert(out@ =~= old(out)@ + header + spec_encode_list(
                        views_of(items@).take(i as int + 1),
                    ));
                }
                i = i + 1;
            }
            proof {
                assert(views_of(items@).take(i as int) =~= views_of(items@));
                assert(resp_view(*value)->Array_0 =~= views_of(items@));
                assert(resp_view(*value) == RespModel::Array(views_of(items@)));
                assert(out@ =~= old(out)@ + spec_encode(value@));
            }
        },
    }
}

/// Concatenation distributes over list encoding.
pub proof fn lemma_encode_list_append(a: Seq<RespModel>, b: Seq<RespModel>)
    ensures
        spec_encode_list(a + b) == spec_encode_list(a) + spec_encode_list(b),
    decreases a,
{
    if a.len() == 0 {
        assert(a + b =~= b);
        assert(spec_encode_list(a) =~= Seq::<u8>::empty());
        assert(spec_encode_list(a) + spec_encode_list(b) =~= spec_encode_list(b));
    } else {
        assert((a + b).drop_first() =~= a.drop_first() + b);
        lemma_encode_list_append(a.drop_first(), b);
        assert((a + b)[0] == a[0]);
        assert(spec_encode_list(a + b) =~= spec_encode_list(a) + spec_encode_list(b));
    }
}

/// Encoding one more element appends its encoding.
pub proof fn lemma_encode_list_snoc(items: Seq<RespModel>, i: int)
    requires
        0 <= i < items.len(),
    ensures
        spec_encode_list(items.take(i + 1)) == spec_encode_list(items.take(i)) + spec_encode(
            items[i],
        ),
{
    assert(items.take(i + 1) =~= items.take(i) + seq![items[i]]);
    lemma_encode_list_append(items.take(i), seq![items[i]]);
    assert(seq![items[i]].drop_first() =~= Seq::<RespModel>::empty());
    assert(spec_encode_list(Seq::<RespModel>::empty()) == Seq::<u8>::empty());
    assert(spec_encode_list(seq![items[i]]) =~= spec_encode(items[i]));
}

// ---------------------------------------------------------------------------
// Decoding, at the specification level.
// ---------------------------------------------------------------------------

/// Position of the first CRLF pair at or after `i`, if the buffer holds one.
pub open spec fn spec_find_crlf(b: Seq<u8>, i: int) -> Option<int>
    decreases b.len() - i,
{
    if i + 1 >= b.len() {
        None
    } else if b[i] == 13 && b[i + 1] == 10 {
        Some(i)
    } else {
        spec_find_crlf(b, i + 1)
    }
}

/// One CRLF-terminated line starting at `i`: its payload and the position
/// just past the terminator.
pub open spec fn spec_line(b: Seq<u8>, i: int) -> Result<(Seq<u8>, int), RESPError> {
    match spec_find_crlf(b, i) {
        Some(j) => Ok((b.subrange(i, j), j + 2)),
        None => Err(RESPError::OutOfBounds(b.len() as usize)),
    }
}

pub open spec fn is_digit_byte(c: u8) -> bool {
    48 <= c && c <= 57
}

pub open spec fn all_digits(b: Seq<u8>) -> bool {
    forall|k: int| 0 <= k < b.len() ==> is_digit_byte(#[trigger] b[k])
}

/// Value of a sequence of decimal digit bytes, most significant first.
pub open spec fn digits_val(b: Seq<u8>) -> int
    decreases b.len(),
{
    if b.len() == 0 {
        0
    } else {
        digits_val(b.drop_last()) * 10 + (b.last() - 48)
    }
}

/// The signed 64-bit integer a line spells, if it spells one: an optional
/// `-` or `+`, then at least one digit, and a value within the i64 range.
pub open spec fn spec_parse_i64(b: Seq<u8>) -> Option<int> {
    let digits = if b.len() > 0 && (b[0] == 45 || b[0] == 43) {
        b.drop_first()
    } else {
        b
    };
    let neg = b.len() > 0 && b[0] == 45;
    if digits.len() > 0 && all_digits(digits) {
        let v = if neg {
            -digits_val(digits)
        } else {
            digits_val(digits)
        };
        if -9223372036854775808 <= v <= 9223372036854775807 {
            Some(v)
        } else {
            None
        }
    } else {
        None
    }
}

/// The value the buffer holds at position `i`, and the position just past
/// it; or the error decoding stops with.  This is the complete functional
/// model of decoding: the executable decoder returns exactly what it says.
pub open spec fn spec_decode(b: Seq<u8>, i: int) -> Result<(RespModel, int), RESPError>
    decreases b.len() - i, 0int, 0int,
{
    if i >= b.len() {
        Err(RESPError::OutOfBounds(if i >= 0 { i as usize } else { 0 }))
    } else if b[i] == 43 || b[i] == 45 {
        match spec_line(b, i + 1) {
            Ok((line, next)) => if valid_utf8(line) {
                if b[i] == 43 {
                    Ok((RespModel::SimpleString(decode_utf8(line)), next))
                } else {
                    Ok((RespModel::Error(decode_utf8(line)), next))
                }
            } else {
                Err(RESPError::FromUtf8)
            },
            Err(e) => Err(e),
        }
    } else if b[i] == 58 {
        match spec_line(b, i + 1) {
            Ok((line, next)) => match spec_parse_i64(line) {
                Some(v) => Ok((RespModel::Integer(v), next)),
                None => Err(RESPError::ParseInt),
            },
            Err(e) => Err(e),
        }
    } else if b[i] == 36 {
        match spec_line(b, i + 1) {
            Ok((line, next)) => match spec_parse_i64(line) {
                Some(n) => if n == -1 {
                    Ok((RespModel::Null, next))
                } else if n < -1 {
                    Err(RESPError::IncorrectLength(n as i64))
                } else if next < 0 || next + n + 2 > b.len() {
                    Err(RESPError::OutOfBounds(b.len() as usize))
                } else if b[next + n] != 13 || b[next + n + 1] != 10 {
                    Err(RESPError::IncorrectLength(n as i64))
                } else if valid_utf8(b.subrange(next, next + n)) {
                    Ok(
                        (
                            RespModel::BulkString(decode_utf8(b.subrange(next, next + n))),
                            next + n + 2,
                        ),
                    )
                } else {
                    Err(RESPError::FromUtf8)
                },
                None => Err(RESPError::ParseInt),
            },
            Err(e) => Err(e),
        }
    } else if b[i] == 42 {
        match spec_line(b, i + 1) {
            Ok((line, next)) => match spec_parse_i64(line) {
                Some(n) => if n == -1 {
                    Ok((RespModel::Null, next))
                } else if n < -1 {
                    Err(RESPError::IncorrectLength(n as i64))
                } else if next <= i || next > b.len() {
                    Err(RESPError::Unknown)
                } else {
                    match spec_decode_elems(b, next, n as nat) {
                        Ok((items, end)) => Ok((RespModel::Array(items), end)),
                        Err(e) => Err(e),
                    }
                },
                None => Err(RESPError::ParseInt),
            },
            Err(e) => Err(e),
        }
    } else {
        Err(RESPError::WrongType)
    }
}

/// `n` consecutive values starting at `i`, and the position just past the
/// last of them.
pub open spec fn spec_decode_elems(b: Seq<u8>, i: int, n: nat) -> Result<
    (Seq<RespModel>, int),
    RESPError,
>
    decreases b.len() - i, 1int, n as int,
{
    if n == 0 {
        Ok((Seq::empty(), i))
    } else {
        match spec_decode(b, i) {
            Ok((m, j)) => if j < i || j > b.len() {
                Err(RESPError::Unknown)
            } else {
                match spec_decode_elems(b, j, (n - 1) as nat) {
                    Ok((rest, end)) => Ok((seq![m] + rest, end)),
                    Err(e) => Err(e),
                }
            },
            Err(e) => Err(e),
        }
    }
}

// ---------------------------------------------------------------------------
// Facts about the decoding specification.
// ---------------------------------------------------------------------------

/// A found CRLF lies at or after the start and strictly inside the buffer.
pub proof fn lemma_find_crlf_bounds(b: Seq<u8>, i: int)
    ensures
        match spec_find_crlf(b, i) {
            Some(j) => i <= j && j + 1 < b.len() && b[j] == 13 && b[j + 1] == 10,
            None => true,
        },
    decreases b.len() - i,
{
    if i + 1 >= b.len() {
    } else if b[i] == 13 && b[i + 1] == 10 {
    } else {
        lemma_find_crlf_bounds(b, i + 1);
    }
}

/// If a CRLF stands at `j` and no CR stands before it, the scan finds it.
pub proof fn lemma_find_crlf_first(b: Seq<u8>, i: int, j: int)
    requires
        i <= j,
        j + 1 < b.len(),
        b[j] == 13,
        b[j + 1] == 10,
        forall|k: int| i <= k < j ==> b[k] != 13,
    ensures
        spec_find_crlf(b, i) == Some(j),
    decreases j - i,
{
    if i < j {
        lemma_find_crlf_first(b, i + 1, j);
    }
}

/// A successful decode consumes at least one byte and stays in the buffer.
pub proof fn lemma_decode_bounds(b: Seq<u8>, i: int)
    ensures
        match spec_decode(b, i) {
            Ok((m, j)) => i < j <= b.len(),
            Err(e) => true,
        },
    decreases b.len() - i, 0int, 0int,
{
    if i >= b.len() {
    } else {
        lemma_find_crlf_bounds(b, i + 1);
        if b[i] == 42 {
            match spec_line(b, i + 1) {
                Ok((line, next)) => match spec_parse_i64(line) {
                    Some(n) => {
                        if n >= 0 && !(next <= i || next > b.len()) {
                            lemma_decode_elems_bounds(b, next, n as nat);
                        }
                    },
                    None => {},
                },
                Err(e) => {},
            }
        }
    }
}

/// Decoding a run of values never moves the cursor backwards, and yields
/// exactly as many values as asked for.
pub proof fn lemma_decode_elems_bounds(b: Seq<u8>, i: int, n: nat)
    requires
        i <= b.len(),
    ensures
        match spec_decode_elems(b, i, n) {
            Ok((ms, j)) => i <= j <= b.len() && ms.len() == n,
            Err(e) => true,
        },
    decreases b.len() - i, 1int, n as int,
{
    if n == 0 {
    } else {
        match spec_decode(b, i) {
            Ok((m, j)) => {
                lemma_decode_bounds(b, i);
                if !(j < i || j > b.len()) {
                    lemma_decode_elems_bounds(b, j, (n - 1) as nat);
                }
            },
            Err(e) => {},
        }
    }
}

/// Decoding never reports an internal inconsistency: the cursor checks the
/// model makes between elements always pass, so `Unknown` is unreachable.
pub proof fn lemma_decode_never_unknown(b: Seq<u8>, i: int)
    ensures
        spec_decode(b, i) != Err::<(RespModel, int), RESPError>(RESPError::Unknown),
    decreases b.len() - i, 0int, 0int,
{
    if i < b.len() {
        lemma_find_crlf_bounds(b, i + 1);
        if b[i] == 42 {
            match spec_line(b, i + 1) {
                Ok((line, next)) => match spec_parse_i64(line) {
                    Some(n) => {
                        if n >= 0 {
                            lemma_decode_elems_never_unknown(b, next, n as nat);
                        }
                    },
                    None => {},
                },
                Err(e) => {},
            }
        }
    }
}

/// Decoding a run of values never reports an internal inconsistency
/// either: each element moves the cursor forwards and stays in bounds.
pub proof fn lemma_decode_elems_never_unknown(b: Seq<u8>, i: int, n: nat)
    requires
        i <= b.len(),
    ensures
        spec_decode_elems(b, i, n) != Err::<(Seq<RespModel>, int), RESPError>(RESPError::Unknown),
    decreases b.len() - i, 1int, n as int,
{
    if n > 0 {
        lemma_decode_bounds(b, i);
        lemma_decode_never_unknown(b, i);
        match spec_decode(b, i) {
            Ok((m, j)) => {
                lemma_decode_elems_never_unknown(b, j, (n - 1) as nat);
            },
            Err(e) => {},
        }
    }
}

// ---------------------------------------------------------------------------
// Decoding, executable.
// ---------------------------------------------------------------------------

/// Scans for the first CRLF pair at or after `start`.
fn find_crlf(buffer: &Vec<u8>, start: usize) -> (r: Option<usize>)
    requires
        start <= buffer@.len(),
    ensures
        match spec_find_crlf(buffer@, start as int) {
            Some(j) => r matches Some(jj) && jj as int == j,
            None => r is None,
        },
{
    let mut k: usize = start;
    loop
        invariant
            start <= k <= buffer@.len(),
            spec_find_crlf(buffer@, start as int) == spec_find_crlf(buffer@, k as int),
        decreases buffer@.len() - k,
    {
        if buffer.len() - k < 2 {
            return None;
        }
        if buffer[k] == 13 && buffer[k + 1] == 10 {
            return Some(k);
        }
        k = k + 1;
    }
}

/// Copies `buffer[from..to]` out.
fn copy_range(buffer: &Vec<u8>, from: usize, to: usize) -> (out: Vec<u8>)
    requires
        from <= to <= buffer@.len(),
    ensures
        out@ == buffer@.subrange(from as int, to as int),
{
    let mut out: Vec<u8> = Vec::new();
    let mut k: usize = from;
    while k < to
        invariant
            from <= k <= to <= buffer@.len(),
            out@ == buffer@.subrange(from as int, k as int),
        decreases to - k,
    {
        out.push(buffer[k]);
        k = k + 1;
        assert(out@ =~= buffer@.subrange(from as int, k as int));
    }
    out
}

/// All digits are at least their prefix: appending digits never shrinks the
/// value.
proof fn lemma_digits_val_nonneg(b: Seq<u8>)
    requires
        all_digits(b),
    ensures
        digits_val(b) >= 0,
    decreases b.len(),
{
    if b.len() > 0 {
        assert(all_digits(b.drop_last()));
        lemma_digits_val_nonneg(b.drop_last());
    }
}

proof fn lemma_digits_val_mono(b: Seq<u8>, k: int)
    requires
        0 <= k <= b.len(),
        all_digits(b),
    ensures
        digits_val(b.take(k)) <= digits_val(b),
    decreases b.len(),
{
    lemma_digits_val_nonneg(b);
    if k == b.len() {
        assert(b.take(k) =~= b);
    } else if b.len() > 0 {
        assert(all_digits(b.drop_last()));
        lemma_digits_val_mono(b.drop_last(), k);
        assert(b.take(k) =~= b.drop_last().take(k));
        lemma_digits_val_nonneg(b.drop_last());
    }
}

/// Parses the digits of `buffer[from..to]` as a signed 64-bit integer.
fn parse_i64_range(buffer: &Vec<u8>, from: usize, to: usize) -> (r: Result<i64, RESPError>)
    requires
        from <= to <= buffer@.len(),
    ensures
        match spec_parse_i64(buffer@.subrange(from as int, to as int)) {
            Some(v) => r matches Ok(x) && x as int == v,
            None => r matches Err(e) && e == RESPError::ParseInt,
        },
{
    let ghost sub = buffer@.subrange(from as int, to as int);
    let mut pos: usize = from;
    let mut neg: bool = false;
    if pos < to && (buffer[pos] == 45 || buffer[pos] == 43) {
        neg = buffer[pos] == 45;
        pos = pos + 1;
    }
    let ghost digits = if sub.len() > 0 && (sub[0] == 45 || sub[0] == 43) {
        sub.drop_first()
    } else {
        sub
    };
    proof {
        assert(digits =~= buffer@.subrange(pos as int, to as int));
    }
    if pos == to {
        return Err(RESPError::ParseInt);
    }
    let mut acc: u64 = 0;
    let mut k: usize = pos;
    while k < to
        invariant
            from <= pos <= k <= to <= buffer@.len(),
            sub == buffer@.subrange(from as int, to as int),
            digits == buffer@.subrange(pos as int, to as int),
            digits == (if sub.len() > 0 && (sub[0] == 45 || sub[0] == 43) {
                sub.drop_first()
            } else {
                sub
            }),
            neg == (sub.len() > 0 && sub[0] == 45),
            digits.len() > 0,
            all_digits(digits.take(k - pos)),
            acc as int == digits_val(digits.take(k - pos)),
        decreases to - k,
    {
        let d = buffer[k];
        assert(digits[k - pos] == d);
        if d < 48 || d > 57 {
            assert(!all_digits(digits));
            return Err(RESPError::ParseInt);
        }
        proof {
            assert(digits.take(k - pos + 1).drop_last() =~= digits.take(k - pos));
            assert(digits.take(k - pos + 1).last() == d);
            assert(all_digits(digits.take(k - pos + 1)));
        }
        if acc > 1844674407370955161u64 || (acc == 1844674407370955161u64 && d > 53) {
            proof {
                assert(digits_val(digits.take(k - pos + 1)) == acc * 10 + (d - 48));
                if all_digits(digits) {
                    lemma_digits_val_mono(digits, k - pos + 1);
                }
            }
            return Err(RESPError::ParseInt);
        }
        acc = acc * 10 + ((d - 48) as u64);
        k = k + 1;
    }
    proof {
        assert(digits.take(k - pos) =~= digits);
    }
    if neg {
        if acc > 9223372036854775808u64 {
            return Err(RESPError::ParseInt);
        }
        if acc == 9223372036854775808u64 {
            return Ok(i64::MIN);
        }
        Ok(-(acc as i64))
    } else {
        if acc > 9223372036854775807u64 {
            return Err(RESPError::ParseInt);
        }
        Ok(acc as i64)
    }
}

/// Relies on `String::from_utf8`: it succeeds exactly on valid UTF-8 input,
/// and the string it returns is the one whose UTF-8 encoding is that input.
#[verifier::external_body]
fn string_from_utf8(bytes: Vec<u8>) -> (r: Result<String, RESPError>)
    ensures
        valid_utf8(bytes@) <==> r is Ok,
        r matches Ok(s) ==> encode_utf8(s@) == bytes@,
        r matches Err(e) ==> e == RESPError::FromUtf8,
{
    match String::from_utf8(bytes) {
        Ok(s) => Ok(s),
        Err(_) => Err(RESPError::FromUtf8),
    }
}

/// Decodes the value at position `i`.
fn decode_value(buffer: &Vec<u8>, i: usize) -> (r: Result<(RESP, usize), RESPError>)
    ensures
        match spec_decode(buffer@, i as int) {
            Ok((m, j)) => ({
                &&& r matches Ok(p)
                &&& p.0@ == m
                &&& p.1 as int == j
            }),
            Err(e) => r matches Err(e2) && e2 == e,
        },
    decreases buffer@.len() - i, 0int, 0int,
{
    if i >= buffer.len() {
        return Err(RESPError::OutOfBounds(i));
    }
    let t = buffer[i];
    if t == 43 || t == 45 {
        match find_crlf(buffer, i + 1) {
            None => Err(RESPError::OutOfBounds(buffer.len())),
            Some(j) => {
                proof {
                    lemma_find_crlf_bounds(buffer@, i as int + 1);
                }
                let line = copy_range(buffer, i + 1, j);
                match string_from_utf8(line) {
                    Ok(s) => {
                        proof {
                            vstd::utf8::encode_utf8_decode_utf8(s@);
                        }
                        if t == 43 {
                            Ok((RESP::SimpleString(s), j + 2))
                        } else {
                            Ok((RESP::Error(s), j + 2))
                        }
                    },
                    Err(e) => Err(e),
                }
            },
        }
    } else if t == 58 {
        match find_crlf(buffer, i + 1) {
            None => Err(RESPError::OutOfBounds(buffer.len())),
            Some(j) => {
                proof {
                    lemma_find_crlf_bounds(buffer@, i as int + 1);
                }
                match parse_i64_range(buffer, i + 1, j) {
                    Ok(v) => Ok((RESP::Integer(v), j + 2)),
                    Err(e) => Err(e),
                }
            },
        }
    } else if t == 36 {
        match find_crlf(buffer, i + 1) {
            None => Err(RESPError::OutOfBounds(buffer.len())),
            Some(j) => {
                proof {
                    lemma_find_crlf_bounds(buffer@, i as int + 1);
                }
                match parse_i64_range(buffer, i + 1, j) {
                    Err(e) => Err(e),
                    Ok(n) => {
                        if n == -1 {
                            Ok((RESP::Null, j + 2))
                        } else if n < -1 {
                            Err(RESPError::IncorrectLength(n))
                        } else {
                            let next = j + 2;
                            let remaining = buffer.len() - next;
                            if (remaining as u64) < (n as u64) + 2 {
                                Err(RESPError::OutOfBounds(buffer.len()))
                            } else {
                                let nn = n as usize;
                                if buffer[next + nn] != 13 || buffer[next + nn + 1] != 10 {
                                    Err(RESPError::IncorrectLength(n))
                                } else {
                                    let payload = copy_range(buffer, next, next + nn);
                                    match string_from_utf8(payload) {
                                        Ok(s) => {
                                            proof {
                                                vstd::utf8::encode_utf8_decode_utf8(s@);
                                            }
                                            Ok((RESP::BulkString(s), next + nn + 2))
                                        },
                                        Err(e) => Err(e),
                                    }
                                }
                            }
                        }
                    },
                }
            },
        }
    } else if t == 42 {
        match find_crlf(buffer, i + 1) {
            None => Err(RESPError::OutOfBounds(buffer.len())),
            Some(j) => {
                proof {
                    lemma_find_crlf_bounds(buffer@, i as int + 1);
                }
                match parse_i64_range(buffer, i + 1, j) {
                    Err(e) => Err(e),
                    Ok(n) => {
                        if n == -1 {
                            Ok((RESP::Null, j + 2))
                        } else if n < -1 {
                            Err(RESPError::IncorrectLength(n))
                        } else {
                            match decode_elems(buffer, j + 2, n as u64) {
                                Ok(p) => {
                                    let (items, end) = p;
                                    proof {
                                        assert(resp_view(RESP::Array(items))->Array_0 =~= views_of(
                                            items@,
                                        ));
                                    }
                                    Ok((RESP::Array(items), end))
                                },
                                Err(e) => Err(e),
                            }
                        }
                    },
                }
            },
        }
    } else {
        Err(RESPError::WrongType)
    }
}

/// Decodes `n` consecutive values starting at `i`.
fn decode_elems(buffer: &Vec<u8>, i: usize, n: u64) -> (r: Result<(Vec<RESP>, usize), RESPError>)
    ensures
        match spec_decode_elems(buffer@, i as int, n as nat) {
            Ok((ms, j)) => ({
                &&& r matches Ok(p)
                &&& views_of(p.0@) == ms
                &&& p.1 as int == j
            }),
            Err(e) => r matches Err(e2) && e2 == e,
        },
    decreases buffer@.len() - i, 1int, n as int,
{
    if n == 0 {
        let empty: Vec<RESP> = Vec::new();
        assert(views_of(empty@) =~= Seq::<RespModel>::empty());
        return Ok((empty, i));
    }
    match decode_value(buffer, i) {
        Err(e) => Err(e),
        Ok(p) => {
            let (v, j) = p;
            proof {
                lemma_decode_bounds(buffer@, i as int);
            }
            match decode_elems(buffer, j, n - 1) {
                Err(e) => Err(e),
                Ok(q) => {
                    let (rest, end) = q;
                    let mut items = rest;
                    items.insert(0, v);
                    proof {
                        assert(views_of(items@) =~= seq![v@] + views_of(items@.drop_first()));
                        assert(items@.drop_first() =~= q.0@);
                        assert(views_of(items@) =~= seq![v@] + views_of(q.0@));
                    }
                    Ok((items, end))
                },
            }
        },
    }
}

/// Decodes the frame starting at `*index`.  On success the cursor moves
/// just past the frame; on any error the cursor is unchanged, so a caller
/// that sees `OutOfBounds` can read more bytes and retry.
pub fn bytes_to_resp(buffer: &Vec<u8>, index: &mut usize) -> (r: RESPResult<RESP>)
    ensures
        match spec_decode(buffer@, *old(index) as int) {
            Ok((m, j)) => ({
                &&& r matches Ok(v)
                &&& v@ == m
                &&& *final(index) as int == j
            }),
            Err(e) => r matches Err(e2) && e2 == e && *final(index) == *old(index),
        },
{
    match decode_value(buffer, *index) {
        Ok(p) => {
            let (v, j) = p;
            *index = j;
            Ok(v)
        },
        Err(e) => Err(e),
    }
}

// ---------------------------------------------------------------------------
// Round trip: decoding an encoding yields the value back.
// ---------------------------------------------------------------------------

/// Bytes of an embedded subsequence, read off one index at a time.
proof fn lemma_embed(b: Seq<u8>, i: int, e: Seq<u8>)
    requires
        0 <= i,
        i + e.len() <= b.len(),
        b.subrange(i, i + e.len() as int) == e,
    ensures
        forall|k: int| 0 <= k < e.len() ==> b[i + k] == e[k],
{
    assert forall|k: int| 0 <= k < e.len() implies b[i + k] == e[k] by {
        assert(e[k] == b.subrange(i, i + e.len() as int)[k]);
    }
}

/// The decimal digits of a natural number parse back to it.
proof fn lemma_dec_u_digits(m: nat)
    ensures
        all_digits(dec_u(m)),
        dec_u(m).len() >= 1,
        digits_val(dec_u(m)) == m,
    decreases m,
{
    if m < 10 {
        assert(dec_u(m) =~= seq![(48 + m) as u8]);
        assert(dec_u(m).drop_last() =~= Seq::<u8>::empty());
        assert(digits_val(Seq::<u8>::empty()) == 0);
        assert(dec_u(m).last() == (48 + m) as u8);
    } else {
        lemma_dec_u_digits(m / 10);
        assert(dec_u(m).drop_last() =~= dec_u(m / 10));
        assert(dec_u(m).last() == (48 + m % 10) as u8);
        vstd::arithmetic::div_mod::lemma_fundamental_div_mod(m as int, 10);
        assert(digits_val(dec_u(m)) == digits_val(dec_u(m / 10)) * 10 + (m % 10));
    }
}

/// The signed decimal form of an i64-ranged integer parses back to it, and
/// holds neither CR nor LF.
proof fn lemma_parse_dec_i(n: int)
    requires
        -9223372036854775808 <= n <= 9223372036854775807,
    ensures
        spec_parse_i64(dec_i(n)) == Some(n),
        line_safe(dec_i(n)),
        dec_i(n).len() >= 1,
{
    if n >= 0 {
        lemma_dec_u_digits(n as nat);
        assert(dec_i(n) == dec_u(n as nat));
        assert(dec_i(n)[0] >= 48);
    } else {
        lemma_dec_u_digits((-n) as nat);
        assert(dec_i(n) == seq![45u8] + dec_u((-n) as nat));
        assert(dec_i(n)[0] == 45);
        assert(dec_i(n).drop_first() =~= dec_u((-n) as nat));
    }
}

/// A CRLF-terminated line whose payload is free of CR and LF is read back
/// exactly.
proof fn lemma_line_at(b: Seq<u8>, i: int, payload: Seq<u8>)
    requires
        0 <= i,
        line_safe(payload),
        i + payload.len() + 2 <= b.len(),
        forall|k: int| 0 <= k < payload.len() ==> b[i + k] == payload[k],
        b[i + payload.len()] == 13,
        b[i + payload.len() + 1] == 10,
    ensures
        spec_line(b, i) == Ok::<(Seq<u8>, int), RESPError>((payload, i + payload.len() + 2)),
{
    assert forall|k: int| i <= k < i + payload.len() implies b[k] != 13 by {
        assert(b[i + (k - i)] == payload[k - i]);
    }
    lemma_find_crlf_first(b, i, i + payload.len() as int);
    assert(b.subrange(i, i + payload.len() as int) =~= payload);
}

/// If the bytes at `i` are the encoding of a well-formed value, decoding at
/// `i` yields that value and stops exactly at the end of the encoding.
#[verifier::rlimit(60)]
pub proof fn lemma_decode_encode(m: RespModel, b: Seq<u8>, i: int)
    requires
        wf_model(m),
        0 <= i,
        i + spec_encode(m).len() <= b.len(),
        b.subrange(i, i + spec_encode(m).len() as int) == spec_encode(m),
    ensures
        spec_decode(b, i) == Ok::<(RespModel, int), RESPError>(
            (m, i + spec_encode(m).len() as int),
        ),
    decreases m,
{
    let e = spec_encode(m);
    lemma_embed(b, i, e);
    match m {
        RespModel::SimpleString(s) => {
            let pe = encode_utf8(s);
            assert(e == seq![43u8] + pe + crlf());
            assert(b[i + 0] == e[0]);
            assert(b[i] == 43);
            assert forall|k: int| 0 <= k < pe.len() implies b[i + 1 + k] == pe[k] by {
                assert(e[1 + k] == pe[k]);
                assert(b[i + (1 + k)] == e[1 + k]);
            }
            assert(b[i + 1 + pe.len()] == 13) by { assert(e[1 + pe.len() as int] == 13); }
            assert(b[i + 1 + pe.len() + 1] == 10) by { assert(e[2 + pe.len() as int] == 10); }
            lemma_line_at(b, i + 1, pe);
            vstd::utf8::encode_utf8_valid_utf8(s);
            vstd::utf8::encode_utf8_decode_utf8(s);
        },
        RespModel::Error(s) => {
            let pe = encode_utf8(s);
            assert(e == seq![45u8] + pe + crlf());
            assert(b[i + 0] == e[0]);
            assert(b[i] == 45);
            assert forall|k: int| 0 <= k < pe.len() implies b[i + 1 + k] == pe[k] by {
                assert(e[1 + k] == pe[k]);
                assert(b[i + (1 + k)] == e[1 + k]);
            }
            assert(b[i + 1 + pe.len()] == 13) by { assert(e[1 + pe.len() as int] == 13); }
            assert(b[i + 1 + pe.len() + 1] == 10) by { assert(e[2 + pe.len() as int] == 10); }
            lemma_line_at(b, i + 1, pe);
            vstd::utf8::encode_utf8_valid_utf8(s);
            vstd::utf8::encode_utf8_decode_utf8(s);
        },
        RespModel::Integer(v) => {
            let d = dec_i(v);
            lemma_parse_dec_i(v);
            assert(e == seq![58u8] + d + crlf());
            assert(b[i + 0] == e[0]);
            assert(b[i] == 58);
            assert forall|k: int| 0 <= k < d.len() implies b[i + 1 + k] == d[k] by {
                assert(e[1 + k] == d[k]);
                assert(b[i + (1 + k)] == e[1 + k]);
            }
            assert(b[i + 1 + d.len()] == 13) by { assert(e[1 + d.len() as int] == 13); }
            assert(b[i + 1 + d.len() + 1] == 10) by { assert(e[2 + d.len() as int] == 10); }
            lemma_line_at(b, i + 1, d);
        },
        RespModel::BulkString(s) => {
            let pe = encode_utf8(s);
            let d = dec_u(pe.len());
            lemma_dec_u_digits(pe.len());
            assert(e == seq![36u8] + d + crlf() + pe + crlf());
            assert(b[i + 0] == e[0]);
            assert(b[i] == 36);
            assert forall|k: int| 0 <= k < d.len() implies b[i + 1 + k] == d[k] by {
                assert(e[1 + k] == d[k]);
                assert(b[i + (1 + k)] == e[1 + k]);
            }
            assert(b[i + 1 + d.len()] == 13) by { assert(e[1 + d.len() as int] == 13); }
            assert(b[i + 1 + d.len() + 1] == 10) by { assert(e[2 + d.len() as int] == 10); }
            assert(line_safe(d));
            lemma_line_at(b, i + 1, d);
            assert(spec_parse_i64(d) == Some(pe.len() as int)) by {
                assert(d[0] >= 48);
            }
            let next = i + 3 + d.len();
            assert forall|k: int| 0 <= k < pe.len() implies b[next + k] == pe[k] by {
                assert(e[3 + d.len() + k] == pe[k]);
                assert(b[i + (3 + d.len() + k)] == e[3 + d.len() + k]);
            }
            assert(b[next + pe.len()] == 13) by { assert(e[3 + d.len() + pe.len() as int] == 13); }
            assert(b[next + pe.len() + 1] == 10) by { assert(e[4 + d.len() + pe.len() as int] == 10); }
            assert(b.subrange(next, next + pe.len() as int) =~= pe);
            vstd::utf8::encode_utf8_valid_utf8(s);
            vstd::utf8::encode_utf8_decode_utf8(s);
            assert(next + pe.len() + 2 == i + e.len());
        },
        RespModel::Null => {
            assert(e == seq![36u8, 45u8, 49u8, 13u8, 10u8]);
            assert(b[i + 0] == e[0]);
            assert(b[i] == 36);
            assert(b[i + 1] == 45);
            assert(b[i + 2] == 49);
            assert(b[i + 3] == 13);
            assert(b[i + 4] == 10);
            let d = seq![45u8, 49u8];
            assert forall|k: int| 0 <= k < d.len() implies b[i + 1 + k] == d[k] by {}
            lemma_line_at(b, i + 1, d);
            assert(d.drop_first() =~= seq![49u8]);
            assert(all_digits(seq![49u8]));
            assert(seq![49u8].drop_last() =~= Seq::<u8>::empty());
            assert(digits_val(Seq::<u8>::empty()) == 0);
            assert(digits_val(seq![49u8]) == 1);
            assert(spec_parse_i64(d) == Some(-1int));
        },
        RespModel::Array(items) => {
            let lst = spec_encode_list(items);
            let d = dec_u(items.len());
            lemma_dec_u_digits(items.len());
            assert(e == seq![42u8] + d + crlf() + lst);
            assert(b[i + 0] == e[0]);
            assert(b[i] == 42);
            assert forall|k: int| 0 <= k < d.len() implies b[i + 1 + k] == d[k] by {
                assert(e[1 + k] == d[k]);
                assert(b[i + (1 + k)] == e[1 + k]);
            }
            assert(b[i + 1 + d.len()] == 13) by { assert(e[1 + d.len() as int] == 13); }
            assert(b[i + 1 + d.len() + 1] == 10) by { assert(e[2 + d.len() as int] == 10); }
            assert(line_safe(d));
            lemma_line_at(b, i + 1, d);
            assert(spec_parse_i64(d) == Some(items.len() as int)) by {
                assert(d[0] >= 48);
            }
            let next = i + 3 + d.len();
            assert forall|k: int| 0 <= k < lst.len() implies b[next + k] == lst[k] by {
                assert(e[3 + d.len() + k] == lst[k]);
                assert(b[i + (3 + d.len() + k)] == e[3 + d.len() + k]);
            }
            assert(b.subrange(next, next + lst.len() as int) =~= lst);
            lemma_decode_encode_list(items, b, next);
            assert(next + lst.len() == i + e.len());
        },
    }
}

/// If the bytes at `i` are the concatenated encodings of well-formed
/// values, decoding that many values yields them in order.
pub proof fn lemma_decode_encode_list(items: Seq<RespModel>, b: Seq<u8>, i: int)
    requires
        forall|k: int| 0 <= k < items.len() ==> wf_model(#[trigger] items[k]),
        0 <= i,
        i + spec_encode_list(items).len() <= b.len(),
        b.subrange(i, i + spec_encode_list(items).len() as int) == spec_encode_list(items),
    ensures
        spec_decode_elems(b, i, items.len()) == Ok::<(Seq<RespModel>, int), RESPError>(
            (items, i + spec_encode_list(items).len() as int),
        ),
    decreases items,
{
    if items.len() == 0 {
        assert(items =~= Seq::<RespModel>::empty());
    } else {
        let e0 = spec_encode(items[0]);
        let rest = spec_encode_list(items.drop_first());
        assert(spec_encode_list(items) == e0 + rest);
        lemma_embed(b, i, spec_encode_list(items));
        assert(b.subrange(i, i + e0.len() as int) =~= e0) by {
            assert forall|k: int| 0 <= k < e0.len() implies b.subrange(
                i,
                i + e0.len() as int,
            )[k] == e0[k] by {
                assert(b[i + k] == (e0 + rest)[k]);
            }
        }
        lemma_decode_encode(items[0], b, i);
        let j = i + e0.len();
        assert(b.subrange(j, j + rest.len() as int) =~= rest) by {
            assert forall|k: int| 0 <= k < rest.len() implies b.subrange(
                j,
                j + rest.len() as int,
            )[k] == rest[k] by {
                assert(b[i + (e0.len() + k)] == (e0 + rest)[e0.len() + k]);
            }
        }
        lemma_decode_encode_list(items.drop_first(), b, j);
        assert(seq![items[0]] + items.drop_first() =~= items);
    }
}

/// Round trip: decoding the encoding of any well-formed value yields the
/// value back, consuming exactly the encoding.  `Null` re-encodes to the
/// canonical bulk-string sentinel, which decodes to `Null` again.
pub proof fn lemma_round_trip(m: RespModel)
    requires
        wf_model(m),
    ensures
        spec_decode(spec_encode(m), 0) == Ok::<(RespModel, int), RESPError>(
            (m, spec_encode(m).len() as int),
        ),
{
    let e = spec_encode(m);
    assert(e.subrange(0, e.len() as int) =~= e);
    lemma_decode_encode(m, e, 0);
}

/// Serializes a value to bytes.  Encoding is total: every value has a
/// well-defined byte form.
pub fn resp_to_bytes(value: &RESP) -> (out: Vec<u8>)
    ensures
        out@ == spec_encode(value@),
{
    let mut out: Vec<u8> = Vec::new();
    encode_into(value, &mut out);
    assert(out@ =~= spec_encode(value@));
    out
}

} // verus!
