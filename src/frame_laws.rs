//! What the decoder does on encoded values: it reads every well-formed
//! value back from its encoding, and it reads every proper prefix of an
//! encoding as incomplete.

use vstd::prelude::*;
use vstd::utf8::{encode_utf8, encode_utf8_decode_utf8, encode_utf8_valid_utf8};
use crate::decimal::{decimal_text, is_digit, lemma_decimal_round_trip, MINUS, PLUS};
use crate::decode::{find_crlf, parse_frame, parse_items, FrameParseError};
use crate::resp::{
    all_well_formed, crlf, encoding, encoding_all, well_formed, Value, COLON, CR, DOLLAR, LF, STAR,
};

verus! {

spec fn tag_of(v: Value) -> u8 {
    match v {
        Value::Simple(_) => PLUS,
        Value::Error(_) => MINUS,
        Value::Integer(_) => COLON,
        Value::Bulk(_) => DOLLAR,
        Value::Array(_) => STAR,
    }
}

/// The text of the first line of `v`'s encoding, between the type byte
/// and the CR LF.
spec fn header_text(v: Value) -> Seq<u8> {
    match v {
        Value::Simple(s) => encode_utf8(s),
        Value::Error(s) => encode_utf8(s),
        Value::Integer(i) => decimal_text(i),
        Value::Bulk(None) => decimal_text(-1),
        Value::Bulk(Some(d)) => decimal_text(d.len() as int),
        Value::Array(None) => decimal_text(-1),
        Value::Array(Some(items)) => decimal_text(items.len() as int),
    }
}

/// What follows the first line of `v`'s encoding.
spec fn body(v: Value) -> Seq<u8> {
    match v {
        Value::Bulk(Some(d)) => d + crlf(),
        Value::Array(Some(items)) => encoding_all(items),
        _ => seq![],
    }
}

proof fn lemma_encoding_parts(v: Value)
    ensures
        encoding(v) == seq![tag_of(v)] + header_text(v) + crlf() + body(v),
{
    assert(encoding(v) =~= seq![tag_of(v)] + header_text(v) + crlf() + body(v));
}

proof fn lemma_header_text_has_no_cr(v: Value)
    requires
        well_formed(v),
    ensures
        forall|j: int| 0 <= j < header_text(v).len() ==> #[trigger] header_text(v)[j] != CR,
{
    match v {
        Value::Simple(_) => {},
        Value::Error(_) => {},
        Value::Integer(i) => {
            lemma_decimal_round_trip(i);
        },
        Value::Bulk(None) => {
            lemma_decimal_round_trip(-1);
        },
        Value::Bulk(Some(d)) => {
            lemma_decimal_round_trip(d.len() as int);
        },
        Value::Array(None) => {
            lemma_decimal_round_trip(-1);
        },
        Value::Array(Some(items)) => {
            lemma_decimal_round_trip(items.len() as int);
        },
    }
}

proof fn lemma_find_crlf_at(b: Seq<u8>, i: int, e: int)
    requires
        0 <= i <= e,
        e + 1 < b.len(),
        b[e] == CR,
        b[e + 1] == LF,
        forall|j: int| i <= j < e ==> #[trigger] b[j] != CR,
    ensures
        find_crlf(b, i) == Some(e),
    decreases e - i,
{
    if i < e {
        lemma_find_crlf_at(b, i + 1, e);
    }
}

proof fn lemma_find_crlf_none(b: Seq<u8>, i: int)
    requires
        0 <= i,
        forall|j: int| i <= j && j + 1 < b.len() ==> #[trigger] b[j] != CR,
    ensures
        find_crlf(b, i) is None,
    decreases b.len() - i,
{
    if i + 1 < b.len() {
        lemma_find_crlf_none(b, i + 1);
    }
}

/// Where the first `a` bytes of `v`'s encoding stand at `p` in `b`, and
/// they hold its whole first line, the decoder finds that line.
proof fn lemma_header_found(b: Seq<u8>, p: int, v: Value, a: int)
    requires
        well_formed(v),
        0 <= p,
        p + a <= b.len(),
        header_text(v).len() + 3 <= a <= encoding(v).len(),
        b.subrange(p, p + a) == encoding(v).subrange(0, a),
    ensures
        b[p] == tag_of(v),
        find_crlf(b, p + 1) == Some(p + 1 + header_text(v).len()),
        b.subrange(p + 1, p + 1 + header_text(v).len()) == header_text(v),
        forall|j: int| p <= j < p + a ==> #[trigger] b[j] == encoding(v)[j - p],
{
    let enc = encoding(v);
    let t = header_text(v);
    lemma_encoding_parts(v);
    lemma_header_text_has_no_cr(v);
    assert forall|j: int| p <= j < p + a implies #[trigger] b[j] == enc[j - p] by {
        assert(b.subrange(p, p + a)[j - p] == b[j]);
    }
    let e = p + 1 + t.len();
    assert forall|j: int| p + 1 <= j < e implies #[trigger] b[j] != CR by {
        assert(enc[j - p] == t[j - p - 1]);
    }
    lemma_find_crlf_at(b, p + 1, e);
    assert forall|j: int| 0 <= j < t.len() implies b.subrange(p + 1, e)[j] == t[j] by {
        assert(b[p + 1 + j] == enc[j + 1]);
    }
    assert(b.subrange(p + 1, e) =~= t);
}

#[verifier::rlimit(60)]
proof fn lemma_parse_encoding(b: Seq<u8>, p: int, v: Value)
    requires
        well_formed(v),
        0 <= p,
        p + encoding(v).len() <= b.len(),
        b.subrange(p, p + encoding(v).len()) == encoding(v),
    ensures
        parse_frame(b, p) == Ok::<(Value, nat), FrameParseError>((v, encoding(v).len())),
    decreases v,
{
    let enc = encoding(v);
    let t = header_text(v);
    lemma_encoding_parts(v);
    assert(enc.subrange(0, enc.len() as int) =~= enc);
    lemma_header_found(b, p, v, enc.len() as int);
    let e = p + 1 + t.len();
    let after = e + 2;
    match v {
        Value::Simple(s) => {
            encode_utf8_valid_utf8(s);
            encode_utf8_decode_utf8(s);
        },
        Value::Error(s) => {
            encode_utf8_valid_utf8(s);
            encode_utf8_decode_utf8(s);
        },
        Value::Integer(i) => {
            lemma_decimal_round_trip(i);
        },
        Value::Bulk(None) => {
            lemma_decimal_round_trip(-1);
        },
        Value::Bulk(Some(d)) => {
            lemma_decimal_round_trip(d.len() as int);
            let n = d.len() as int;
            assert(b[after + n] == enc[after + n - p]);
            assert(b[after + n + 1] == enc[after + n + 1 - p]);
            assert forall|j: int| 0 <= j < n implies b.subrange(after, after + n)[j] == d[j] by {
                assert(b[after + j] == enc[after - p + j]);
            }
            assert(b.subrange(after, after + n) =~= d);
        },
        Value::Array(None) => {
            lemma_decimal_round_trip(-1);
        },
        Value::Array(Some(items)) => {
            lemma_decimal_round_trip(items.len() as int);
            let rest = encoding_all(items);
            assert forall|j: int| 0 <= j < rest.len() implies b.subrange(
                after,
                after + rest.len(),
            )[j] == rest[j] by {
                assert(b[after + j] == enc[after - p + j]);
            }
            assert(b.subrange(after, after + rest.len()) =~= rest);
            assert(decreases_to!(v => v->Array_0));
            assert(decreases_to!(v->Array_0 => v->Array_0->Some_0));
            lemma_parse_encoding_all(b, after, items);
        },
    }
}

proof fn lemma_parse_encoding_all(b: Seq<u8>, p: int, items: Seq<Value>)
    requires
        all_well_formed(items),
        0 <= p,
        p + encoding_all(items).len() <= b.len(),
        b.subrange(p, p + encoding_all(items).len()) == encoding_all(items),
    ensures
        parse_items(b, p, items.len()) == Ok::<(Seq<Value>, nat), FrameParseError>(
            (items, encoding_all(items).len()),
        ),
    decreases items,
{
    if items.len() == 0 {
        assert(items =~= Seq::<Value>::empty());
    } else {
        let first = items[0];
        let rest = items.subrange(1, items.len() as int);
        let ea = encoding_all(items);
        let l0 = encoding(first).len() as int;
        assert(ea == encoding(first) + encoding_all(rest));
        assert(b.subrange(p, p + l0) =~= ea.subrange(0, l0));
        assert(ea.subrange(0, l0) =~= encoding(first));
        lemma_parse_encoding(b, p, first);
        assert(b.subrange(p + l0, p + ea.len()) =~= ea.subrange(l0, ea.len() as int));
        assert(ea.subrange(l0, ea.len() as int) =~= encoding_all(rest));
        lemma_parse_encoding_all(b, p + l0, rest);
        assert(seq![first] + rest =~= items);
    }
}

proof fn lemma_parse_prefix(b: Seq<u8>, p: int, v: Value)
    requires
        well_formed(v),
        0 <= p <= b.len(),
        b.len() - p < encoding(v).len(),
        b.subrange(p, b.len() as int) == encoding(v).subrange(0, b.len() - p),
    ensures
        parse_frame(b, p) == Err::<(Value, nat), FrameParseError>(FrameParseError::IncomingError),
    decreases v,
{
    let enc = encoding(v);
    let t = header_text(v);
    let a = b.len() - p;
    lemma_encoding_parts(v);
    if a == 0 {
    } else if a < t.len() + 3 {
        lemma_header_text_has_no_cr(v);
        assert forall|j: int| p <= j < p + a implies #[trigger] b[j] == enc[j - p] by {
            assert(b.subrange(p, b.len() as int)[j - p] == b[j]);
        }
        assert forall|j: int| p + 1 <= j && j + 1 < b.len() implies #[trigger] b[j] != CR by {
            assert(enc[j - p] == t[j - p - 1]);
        }
        lemma_find_crlf_none(b, p + 1);
    } else {
        lemma_header_found(b, p, v, a);
        let e = p + 1 + t.len();
        let after = e + 2;
        match v {
            Value::Bulk(Some(d)) => {
                lemma_decimal_round_trip(d.len() as int);
            },
            Value::Array(Some(items)) => {
                lemma_decimal_round_trip(items.len() as int);
                let rest = encoding_all(items);
                assert forall|j: int| 0 <= j < b.len() - after implies b.subrange(
                    after,
                    b.len() as int,
                )[j] == rest.subrange(0, b.len() - after)[j] by {
                    assert(b[after + j] == enc[after - p + j]);
                }
                assert(b.subrange(after, b.len() as int) =~= rest.subrange(0, b.len() - after));
                assert(decreases_to!(v => v->Array_0));
                assert(decreases_to!(v->Array_0 => v->Array_0->Some_0));
                lemma_parse_prefix_all(b, after, items);
            },
            _ => {},
        }
    }
}

proof fn lemma_parse_prefix_all(b: Seq<u8>, p: int, items: Seq<Value>)
    requires
        all_well_formed(items),
        0 <= p <= b.len(),
        b.len() - p < encoding_all(items).len(),
        b.subrange(p, b.len() as int) == encoding_all(items).subrange(0, b.len() - p),
    ensures
        parse_items(b, p, items.len()) == Err::<(Seq<Value>, nat), FrameParseError>(
            FrameParseError::IncomingError,
        ),
    decreases items,
{
    let first = items[0];
    let rest = items.subrange(1, items.len() as int);
    let ea = encoding_all(items);
    let l0 = encoding(first).len() as int;
    let a = b.len() - p;
    assert(ea == encoding(first) + encoding_all(rest));
    if a < l0 {
        assert(b.subrange(p, b.len() as int) =~= encoding(first).subrange(0, a));
        lemma_parse_prefix(b, p, first);
    } else {
        assert(b.subrange(p, p + l0) =~= encoding(first));
        lemma_parse_encoding(b, p, first);
        assert forall|j: int| 0 <= j < a - l0 implies #[trigger] b.subrange(p + l0, b.len() as int)[j]
            == encoding_all(rest).subrange(0, a - l0)[j] by {
            assert(b.subrange(p, b.len() as int)[l0 + j] == ea.subrange(0, a)[l0 + j]);
        }
        assert(b.subrange(p + l0, b.len() as int) =~= encoding_all(rest).subrange(0, a - l0));
        lemma_parse_prefix_all(b, p + l0, rest);
    }
}

/// Decoding the encoding of a well-formed value, whatever bytes follow it,
/// gives that value back and consumes exactly its encoding: encoding what
/// was decoded reproduces the bytes.
pub proof fn lemma_round_trip(v: Value, rest: Seq<u8>)
    requires
        well_formed(v),
    ensures
        parse_frame(encoding(v) + rest, 0) == Ok::<(Value, nat), FrameParseError>(
            (v, encoding(v).len()),
        ),
{
    let b = encoding(v) + rest;
    assert(b.subrange(0, encoding(v).len() as int) =~= encoding(v));
    lemma_parse_encoding(b, 0, v);
}

/// Fed the encoding of a well-formed value one byte at a time, the decoder
/// reports incomplete input for every proper prefix, and reads the value,
/// consuming every byte, once the last byte has come.
pub proof fn lemma_incremental_delivery(v: Value, k: int)
    requires
        well_formed(v),
        0 <= k <= encoding(v).len(),
    ensures
        k < encoding(v).len() ==> parse_frame(encoding(v).subrange(0, k), 0) == Err::<
            (Value, nat),
            FrameParseError,
        >(FrameParseError::IncomingError),
        k == encoding(v).len() ==> parse_frame(encoding(v).subrange(0, k), 0) == Ok::<
            (Value, nat),
            FrameParseError,
        >((v, k as nat)),
{
    let b = encoding(v).subrange(0, k);
    if k < encoding(v).len() {
        assert(b.subrange(0, k) =~= b);
        lemma_parse_prefix(b, 0, v);
    } else {
        assert(b =~= encoding(v) + Seq::<u8>::empty());
        lemma_round_trip(v, Seq::<u8>::empty());
    }
}

} // verus!
