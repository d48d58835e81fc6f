//! RESP values: the executable type, its mathematical model, and the
//! canonical wire encoding.

use vstd::prelude::*;
use vstd::utf8::encode_utf8;
use vstd::string::StringSliceAdditionalSpecFns;
use crate::decimal::{decimal_text, push_decimal, push_length, MINUS, PLUS};

verus! {

pub const COLON: u8 = 0x3a;
pub const DOLLAR: u8 = 0x24;
pub const STAR: u8 = 0x2a;
pub const CR: u8 = 0x0d;
pub const LF: u8 = 0x0a;

/// One RESP value.
#[derive(Debug, PartialEq, Eq)]
pub enum RESP {
    SimpleStrings(String),
    Errors(String),
    Integers(i64),
    /// `None` is the nil bulk string.
    BulkStrings(Option<Vec<u8>>),
    /// `None` is the nil array.
    Arrays(Option<Vec<RESP>>),
}

/// The mathematical model of a RESP value.
pub enum Value {
    Simple(Seq<char>),
    Error(Seq<char>),
    Integer(int),
    Bulk(Option<Seq<u8>>),
    Array(Option<Seq<Value>>),
}

pub open spec fn value_of(r: RESP) -> Value
    decreases r,
{
    match r {
        RESP::SimpleStrings(s) => Value::Simple(s@),
        RESP::Errors(s) => Value::Error(s@),
        RESP::Integers(i) => Value::Integer(i as int),
        RESP::BulkStrings(b) => Value::Bulk(
            match b {
                Some(b) => Some(b@),
                None => None,
            },
        ),
        RESP::Arrays(items) => Value::Array(
            match items {
                Some(items) => Some(values_of(items@)),
                None => None,
            },
        ),
    }
}

pub open spec fn values_of(s: Seq<RESP>) -> Seq<Value>
    decreases s,
{
    if s.len() == 0 {
        seq![]
    } else {
        values_of(s.subrange(0, s.len() - 1)).push(value_of(s[s.len() - 1]))
    }
}

impl View for RESP {
    type V = Value;

    open spec fn view(&self) -> Value {
        value_of(*self)
    }
}

pub proof fn lemma_values_of(s: Seq<RESP>)
    ensures
        values_of(s).len() == s.len(),
        forall|i: int| 0 <= i < s.len() ==> #[trigger] values_of(s)[i] == value_of(s[i]),
    decreases s.len(),
{
    if s.len() > 0 {
        lemma_values_of(s.subrange(0, s.len() - 1));
    }
}

/// No byte of `s` is CR or LF, so `s` can stand on a line of its own.
pub open spec fn line_safe(s: Seq<u8>) -> bool {
    forall|j: int| 0 <= j < s.len() ==> #[trigger] s[j] != CR && s[j] != LF
}

/// A value in the form that the protocol can carry: line texts without CR
/// or LF, integers, lengths and counts that fit in an `i64`.
pub open spec fn well_formed(v: Value) -> bool
    decreases v,
{
    match v {
        Value::Simple(s) => line_safe(encode_utf8(s)),
        Value::Error(s) => line_safe(encode_utf8(s)),
        Value::Integer(i) => i64::MIN <= i <= i64::MAX,
        Value::Bulk(None) => true,
        Value::Bulk(Some(b)) => b.len() <= i64::MAX,
        Value::Array(None) => true,
        Value::Array(Some(items)) => items.len() <= i64::MAX && all_well_formed(items),
    }
}

pub open spec fn all_well_formed(items: Seq<Value>) -> bool
    decreases items,
{
    items.len() > 0 ==> well_formed(items[0]) && all_well_formed(
        items.subrange(1, items.len() as int),
    )
}

pub open spec fn crlf() -> Seq<u8> {
    seq![CR, LF]
}

/// The canonical encoding of a value.
pub open spec fn encoding(v: Value) -> Seq<u8>
    decreases v,
{
    match v {
        Value::Simple(s) => seq![PLUS] + encode_utf8(s) + crlf(),
        Value::Error(s) => seq![MINUS] + encode_utf8(s) + crlf(),
        Value::Integer(i) => seq![COLON] + decimal_text(i) + crlf(),
        Value::Bulk(None) => seq![DOLLAR] + decimal_text(-1) + crlf(),
        Value::Bulk(Some(b)) => seq![DOLLAR] + decimal_text(b.len() as int) + crlf() + b + crlf(),
        Value::Array(None) => seq![STAR] + decimal_text(-1) + crlf(),
        Value::Array(Some(items)) => seq![STAR] + decimal_text(items.len() as int) + crlf()
            + encoding_all(items),
    }
}

/// The encodings of `items`, one after the other.
pub open spec fn encoding_all(items: Seq<Value>) -> Seq<u8>
    decreases items,
{
    if items.len() == 0 {
        seq![]
    } else {
        encoding(items[0]) + encoding_all(items.subrange(1, items.len() as int))
    }
}

pub proof fn lemma_encoding_all_push(items: Seq<Value>, v: Value)
    ensures
        encoding_all(items.push(v)) == encoding_all(items) + encoding(v),
    decreases items.len(),
{
    let s = items.push(v);
    if items.len() == 0 {
        assert(s.subrange(1, s.len() as int) =~= Seq::<Value>::empty());
        assert(encoding_all(Seq::<Value>::empty()) == Seq::<u8>::empty());
        assert(s[0] == v);
        assert(encoding_all(s) =~= encoding(v));
        assert(encoding_all(items) =~= Seq::<u8>::empty());
        assert(encoding_all(items) + encoding(v) =~= encoding(v));
    } else {
        let rest = items.subrange(1, items.len() as int);
        assert(s.subrange(1, s.len() as int) =~= rest.push(v));
        assert(s[0] == items[0]);
        lemma_encoding_all_push(rest, v);
        assert(encoding_all(s) == encoding(items[0]) + (encoding_all(rest) + encoding(v)));
        assert(encoding_all(items) == encoding(items[0]) + encoding_all(rest));
        assert(encoding_all(s) =~= encoding_all(items) + encoding(v));
    }
}

fn push_crlf(out: &mut Vec<u8>)
    ensures
        final(out)@ == old(out)@ + crlf(),
{
    out.push(CR);
    out.push(LF);
    assert(out@ =~= old(out)@ + crlf());
}

fn push_bytes(out: &mut Vec<u8>, bytes: &[u8])
    ensures
        final(out)@ == old(out)@ + bytes@,
{
    let mut i: usize = 0;
    while i < bytes.len()
        invariant
            i <= bytes@.len(),
            out@ == old(out)@ + bytes@.subrange(0, i as int),
        decreases bytes@.len() - i,
    {
        out.push(bytes[i]);
        i = i + 1;
        assert(out@ =~= old(out)@ + bytes@.subrange(0, i as int));
    }
    assert(bytes@.subrange(0, i as int) =~= bytes@);
}

/// Appends the canonical encoding of `v` to `out`.
pub fn encode_into(v: &RESP, out: &mut Vec<u8>)
    ensures
        final(out)@ == old(out)@ + encoding(v@),
    decreases v,
{
    match v {
        RESP::SimpleStrings(s) => {
            out.push(PLUS);
            push_bytes(out, s.as_str().as_bytes());
            push_crlf(out);
            assert(out@ =~= old(out)@ + encoding(v@));
        },
        RESP::Errors(s) => {
            out.push(MINUS);
            push_bytes(out, s.as_str().as_bytes());
            push_crlf(out);
            assert(out@ =~= old(out)@ + encoding(v@));
        },
        RESP::Integers(i) => {
            out.push(COLON);
            push_decimal(out, *i);
            push_crlf(out);
            assert(out@ =~= old(out)@ + encoding(v@));
        },
        RESP::BulkStrings(None) => {
            out.push(DOLLAR);
            push_decimal(out, -1);
            push_crlf(out);
            assert(out@ =~= old(out)@ + encoding(v@));
        },
        RESP::BulkStrings(Some(b)) => {
            out.push(DOLLAR);
            push_length(out, b.len());
            push_crlf(out);
            push_bytes(out, b.as_slice());
            push_crlf(out);
            assert(out@ =~= old(out)@ + encoding(v@));
        },
        RESP::Arrays(None) => {
            out.push(STAR);
            push_decimal(out, -1);
            push_crlf(out);
            assert(out@ =~= old(out)@ + encoding(v@));
        },
        RESP::Arrays(Some(items)) => {
            out.push(STAR);
            push_length(out, items.len());
            push_crlf(out);
            let ghost header = out@;
            proof {
                lemma_values_of(items@);
            }
            let mut i: usize = 0;
            while i < items.len()
                invariant
                    i <= items@.len(),
                    *v == RESP::Arrays(Some(*items)),
                    out@ == header + encoding_all(values_of(items@).subrange(0, i as int)),
                    values_of(items@).len() == items@.len(),
                    forall|j: int| 0 <= j < items@.len() ==> #[trigger] values_of(items@)[j] == value_of(items@[j]),
                decreases items@.len() - i,
            {
                proof {
                    assert(decreases_to!(*v => (*v)->Arrays_0));
                    assert(decreases_to!((*v)->Arrays_0 => (*v)->Arrays_0->Some_0));
                    assert(decreases_to!(*items => items[i as int]));
                }
                encode_into(&items[i], out);
                proof {
                    let vs = values_of(items@);
                    assert(vs.subrange(0, i + 1) =~= vs.subrange(0, i as int).push(vs[i as int]));
                    lemma_encoding_all_push(vs.subrange(0, i as int), vs[i as int]);
                }
                i = i + 1;
            }
            assert(values_of(items@).subrange(0, i as int) =~= values_of(items@));
            assert(out@ =~= old(out)@ + encoding(v@));
        },
    }
}

/// The canonical encoding of `v`.
pub fn encode(v: &RESP) -> (r: Vec<u8>)
    ensures
        r@ == encoding(v@),
{
    let mut out: Vec<u8> = Vec::new();
    encode_into(v, &mut out);
    assert(out@ =~= encoding(v@));
    out
}

} // verus!
