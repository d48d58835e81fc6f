//! The frame decoder: reads one RESP value from a byte buffer at a given
//! position, telling incomplete input apart from malformed input.

use vstd::prelude::*;
use vstd::slice::{slice_subrange, slice_to_vec};
use vstd::utf8::{decode_utf8, valid_utf8};
use crate::decimal::{decimal_value, parse_decimal, MINUS, PLUS};
use crate::resp::{lemma_values_of, values_of, Value, COLON, CR, DOLLAR, LF, RESP, STAR};
use crate::text::text_from_utf8;

verus! {

/// Why no value could be read.
#[derive(Debug, Clone, Copy, PartialEq, Eq, Structural)]
pub enum FrameParseError {
    /// The buffer ends before the frame does: wait for more bytes.
    IncomingError,
    /// A simple string or an error carries text that is not UTF-8.
    InvalidUtf8Error,
    /// The bytes break the grammar: an unknown type byte, a length or a
    /// count that is not a decimal integer, a bulk string without its CR LF.
    ProtocolError,
}

/// The position of the first CR LF pair that starts at or after `i`.
pub open spec fn find_crlf(b: Seq<u8>, i: int) -> Option<int>
    decreases b.len() - i,
{
    if i < 0 || i + 1 >= b.len() {
        None
    } else if b[i] == CR && b[i + 1] == LF {
        Some(i)
    } else {
        find_crlf(b, i + 1)
    }
}

pub proof fn lemma_find_crlf(b: Seq<u8>, i: int)
    ensures
        match find_crlf(b, i) {
            Some(e) => 0 <= i <= e && e + 1 < b.len() && b[e] == CR && b[e + 1] == LF,
            None => true,
        },
    decreases b.len() - i,
{
    if !(i < 0 || i + 1 >= b.len()) && !(b[i] == CR && b[i + 1] == LF) {
        lemma_find_crlf(b, i + 1);
    }
}

pub open spec fn remaining(b: Seq<u8>, p: int) -> nat {
    if p < b.len() {
        (b.len() - p) as nat
    } else {
        0
    }
}

pub open spec fn is_type_byte(c: u8) -> bool {
    c == PLUS || c == MINUS || c == COLON || c == DOLLAR || c == STAR
}

/// The outcome of decoding one frame that starts at `p` in `b`: the value
/// and the number of bytes it takes up, or why there is none.
pub open spec fn parse_frame(b: Seq<u8>, p: int) -> Result<(Value, nat), FrameParseError>
    decreases remaining(b, p), 0nat,
{
    if p < 0 || p >= b.len() {
        Err(FrameParseError::IncomingError)
    } else if !is_type_byte(b[p]) {
        Err(FrameParseError::ProtocolError)
    } else {
        match find_crlf(b, p + 1) {
            None => Err(FrameParseError::IncomingError),
            Some(e) => {
                let tag = b[p];
                let text = b.subrange(p + 1, e);
                let after = e + 2;
                let used = (after - p) as nat;
                if tag == PLUS || tag == MINUS {
                    if !valid_utf8(text) {
                        Err(FrameParseError::InvalidUtf8Error)
                    } else if tag == PLUS {
                        Ok((Value::Simple(decode_utf8(text)), used))
                    } else {
                        Ok((Value::Error(decode_utf8(text)), used))
                    }
                } else {
                    match decimal_value(text) {
                        None => Err(FrameParseError::ProtocolError),
                        Some(n) => {
                            if tag == COLON {
                                Ok((Value::Integer(n), used))
                            } else if n < 0 {
                                if tag == DOLLAR {
                                    Ok((Value::Bulk(None), used))
                                } else {
                                    Ok((Value::Array(None), used))
                                }
                            } else if tag == DOLLAR {
                                if after + n + 2 > b.len() {
                                    Err(FrameParseError::IncomingError)
                                } else if b[after + n] == CR && b[after + n + 1] == LF {
                                    Ok(
                                        (
                                            Value::Bulk(Some(b.subrange(after, after + n))),
                                            (after + n + 2 - p) as nat,
                                        ),
                                    )
                                } else {
                                    Err(FrameParseError::ProtocolError)
                                }
                            } else {
                                proof {
                                    lemma_find_crlf(b, p + 1);
                                }
                                match parse_items(b, after, n as nat) {
                                    Ok((items, c)) => Ok((Value::Array(Some(items)), used + c)),
                                    Err(err) => Err(err),
                                }
                            }
                        }
                    }
                }
            },
        }
    }
}

/// The outcome of decoding `n` frames one after the other from `p` on.
pub open spec fn parse_items(b: Seq<u8>, p: int, n: nat) -> Result<(Seq<Value>, nat), FrameParseError>
    decreases remaining(b, p), n,
{
    if n == 0 {
        Ok((seq![], 0))
    } else {
        match parse_frame(b, p) {
            Err(err) => Err(err),
            Ok((v, c)) => match parse_items(b, p + c, (n - 1) as nat) {
                Err(err) => Err(err),
                Ok((vs, d)) => Ok((seq![v] + vs, c + d)),
            },
        }
    }
}

/// What a caller of the decoder learns: on success the value and the
/// position just past it, else the reason, both as `parse_frame` says.
pub open spec fn decoded(b: Seq<u8>, pos: int, r: Result<(RESP, usize), FrameParseError>) -> bool {
    match r {
        Ok((v, end)) => pos < end <= b.len() && parse_frame(b, pos) == Ok::<(Value, nat), FrameParseError>((v@, (end - pos) as nat)),
        Err(e) => parse_frame(b, pos) == Err::<(Value, nat), FrameParseError>(e),
    }
}

/// Puts `vs`, which took up `c` bytes, in front of the outcome `r`.
pub open spec fn prepend(vs: Seq<Value>, c: nat, r: Result<(Seq<Value>, nat), FrameParseError>) -> Result<(Seq<Value>, nat), FrameParseError> {
    match r {
        Ok((ws, d)) => Ok((vs + ws, c + d)),
        Err(e) => Err(e),
    }
}

fn find_line_end(buf: &[u8], start: usize) -> (r: Option<usize>)
    ensures
        match r {
            Some(e) => find_crlf(buf@, start as int) == Some(e as int),
            None => find_crlf(buf@, start as int) is None,
        },
{
    let len = buf.len();
    if len < 2 {
        return None;
    }
    let mut i = start;
    while i < len - 1
        invariant
            len == buf@.len(),
            len >= 2,
            start <= i,
            find_crlf(buf@, start as int) == find_crlf(buf@, i as int),
        decreases len - i,
    {
        if buf[i] == CR && buf[i + 1] == LF {
            return Some(i);
        }
        i = i + 1;
    }
    None
}

/// Reads the text line of a simple string or an error, whose CR LF is at `e`.
fn read_text_line(buf: &[u8], pos: usize, e: usize) -> (r: Result<String, FrameParseError>)
    requires
        pos < e,
        e + 1 < buf@.len(),
    ensures
        match r {
            Ok(s) => valid_utf8(buf@.subrange(pos + 1, e as int)) && s@ == decode_utf8(
                buf@.subrange(pos + 1, e as int),
            ),
            Err(err) => err == FrameParseError::InvalidUtf8Error && !valid_utf8(
                buf@.subrange(pos + 1, e as int),
            ),
        },
{
    match text_from_utf8(slice_subrange(buf, pos + 1, e)) {
        Some(s) => Ok(s),
        None => Err(FrameParseError::InvalidUtf8Error),
    }
}

fn read_simple_strings(buf: &[u8], pos: usize, e: usize) -> (r: Result<(RESP, usize), FrameParseError>)
    requires
        pos < buf@.len(),
        buf@[pos as int] == PLUS,
        find_crlf(buf@, pos + 1) == Some(e as int),
    ensures
        decoded(buf@, pos as int, r),
{
    proof {
        lemma_find_crlf(buf@, pos + 1);
    }
    assert(e + 2 <= buf.len());
    match read_text_line(buf, pos, e) {
        Ok(s) => Ok((RESP::SimpleStrings(s), e + 2)),
        Err(err) => Err(err),
    }
}

fn read_errors_strings(buf: &[u8], pos: usize, e: usize) -> (r: Result<(RESP, usize), FrameParseError>)
    requires
        pos < buf@.len(),
        buf@[pos as int] == MINUS,
        find_crlf(buf@, pos + 1) == Some(e as int),
    ensures
        decoded(buf@, pos as int, r),
{
    proof {
        lemma_find_crlf(buf@, pos + 1);
    }
    assert(e + 2 <= buf.len());
    match read_text_line(buf, pos, e) {
        Ok(s) => Ok((RESP::Errors(s), e + 2)),
        Err(err) => Err(err),
    }
}

/// Reads the decimal integer of the line whose CR LF is at `e`.
fn read_decimal_line(buf: &[u8], pos: usize, e: usize) -> (r: Option<i64>)
    requires
        pos < e,
        e + 1 < buf@.len(),
    ensures
        match r {
            Some(n) => decimal_value(buf@.subrange(pos + 1, e as int)) == Some(n as int),
            None => decimal_value(buf@.subrange(pos + 1, e as int)) is None,
        },
{
    parse_decimal(slice_subrange(buf, pos + 1, e))
}

fn read_integers(buf: &[u8], pos: usize, e: usize) -> (r: Result<(RESP, usize), FrameParseError>)
    requires
        pos < buf@.len(),
        buf@[pos as int] == COLON,
        find_crlf(buf@, pos + 1) == Some(e as int),
    ensures
        decoded(buf@, pos as int, r),
{
    proof {
        lemma_find_crlf(buf@, pos + 1);
    }
    assert(e + 2 <= buf.len());
    match read_decimal_line(buf, pos, e) {
        Some(n) => Ok((RESP::Integers(n), e + 2)),
        None => Err(FrameParseError::ProtocolError),
    }
}

fn read_bulk_strings(buf: &[u8], pos: usize, e: usize) -> (r: Result<(RESP, usize), FrameParseError>)
    requires
        pos < buf@.len(),
        buf@[pos as int] == DOLLAR,
        find_crlf(buf@, pos + 1) == Some(e as int),
    ensures
        decoded(buf@, pos as int, r),
{
    proof {
        lemma_find_crlf(buf@, pos + 1);
    }
    assert(e + 2 <= buf.len());
    let n = match read_decimal_line(buf, pos, e) {
        Some(n) => n,
        None => return Err(FrameParseError::ProtocolError),
    };
    if n < 0 {
        return Ok((RESP::BulkStrings(None), e + 2));
    }
    let start = e + 2;
    let avail = buf.len() - start;
    if n as u64 > avail as u64 || avail - (n as usize) < 2 {
        return Err(FrameParseError::IncomingError);
    }
    let end = start + n as usize;
    if buf[end] == CR && buf[end + 1] == LF {
        let payload = slice_to_vec(slice_subrange(buf, start, end));
        Ok((RESP::BulkStrings(Some(payload)), end + 2))
    } else {
        Err(FrameParseError::ProtocolError)
    }
}

proof fn lemma_prepend_prepend(
    vs: Seq<Value>,
    c: nat,
    ws: Seq<Value>,
    d: nat,
    r: Result<(Seq<Value>, nat), FrameParseError>,
)
    ensures
        prepend(vs, c, prepend(ws, d, r)) == prepend(vs + ws, c + d, r),
{
    match r {
        Ok((xs, k)) => {
            assert(vs + (ws + xs) =~= (vs + ws) + xs);
        },
        Err(_) => {},
    }
}

fn read_arrays(buf: &[u8], pos: usize, e: usize) -> (r: Result<(RESP, usize), FrameParseError>)
    requires
        pos < buf@.len(),
        buf@[pos as int] == STAR,
        find_crlf(buf@, pos + 1) == Some(e as int),
    ensures
        decoded(buf@, pos as int, r),
    decreases remaining(buf@, pos as int), 0nat,
{
    proof {
        lemma_find_crlf(buf@, pos + 1);
    }
    assert(e + 2 <= buf.len());
    let n = match read_decimal_line(buf, pos, e) {
        Some(n) => n,
        None => return Err(FrameParseError::ProtocolError),
    };
    if n < 0 {
        return Ok((RESP::Arrays(None), e + 2));
    }
    let start = e + 2;
    let count = n as u64;
    let mut items: Vec<RESP> = Vec::new();
    let mut k: u64 = 0;
    let mut cur = start;
    proof {
        assert(values_of(items@) =~= Seq::<Value>::empty());
        assert(prepend(Seq::<Value>::empty(), 0, parse_items(buf@, start as int, count as nat))
            =~= parse_items(buf@, start as int, count as nat));
    }
    while k < count
        invariant
            pos < start <= cur <= buf@.len(),
            k <= count,
            k == items@.len(),
            parse_frame(buf@, pos as int) == match parse_items(buf@, start as int, count as nat) {
                Ok((vs, c)) => Ok((Value::Array(Some(vs)), (start - pos + c) as nat)),
                Err(err) => Err(err),
            },
            parse_items(buf@, start as int, count as nat) == prepend(
                values_of(items@),
                (cur - start) as nat,
                parse_items(buf@, cur as int, (count - k) as nat),
            ),
        decreases count - k,
    {
        let r = read_frame(buf, cur);
        match r {
            Ok((v, end)) => {
                proof {
                    lemma_prepend_prepend(
                        values_of(items@),
                        (cur - start) as nat,
                        seq![v@],
                        (end - cur) as nat,
                        parse_items(buf@, end as int, (count - k - 1) as nat),
                    );
                }
                let ghost before = items@;
                let ghost value = v@;
                items.push(v);
                proof {
                    assert(items@.subrange(0, items@.len() - 1) =~= before);
                    assert(values_of(items@) == values_of(before).push(value));
                    assert(values_of(before) + seq![value] =~= values_of(before).push(value));
                }
                cur = end;
                k = k + 1;
            },
            Err(err) => {
                return Err(err);
            },
        }
    }
    Ok((RESP::Arrays(Some(items)), cur))
}

/// Decodes the frame that starts at `pos`: on success, the value and the
/// position just past it. On failure nothing is consumed; the caller keeps
/// its position and, for `IncomingError`, retries once more bytes came.
pub fn read_frame(buf: &[u8], pos: usize) -> (r: Result<(RESP, usize), FrameParseError>)
    ensures
        decoded(buf@, pos as int, r),
    decreases remaining(buf@, pos as int), 1nat,
{
    if pos >= buf.len() {
        return Err(FrameParseError::IncomingError);
    }
    let tag = buf[pos];
    if tag != PLUS && tag != MINUS && tag != COLON && tag != DOLLAR && tag != STAR {
        return Err(FrameParseError::ProtocolError);
    }
    let e = match find_line_end(buf, pos + 1) {
        Some(e) => e,
        None => return Err(FrameParseError::IncomingError),
    };
    if tag == PLUS {
        read_simple_strings(buf, pos, e)
    } else if tag == MINUS {
        read_errors_strings(buf, pos, e)
    } else if tag == COLON {
        read_integers(buf, pos, e)
    } else if tag == DOLLAR {
        read_bulk_strings(buf, pos, e)
    } else {
        read_arrays(buf, pos, e)
    }
}

} // verus!
