//! The command dispatcher: maps a decoded request to a store operation and
//! the store's answer to a reply value.

use vstd::prelude::*;
use vstd::slice::slice_to_vec;
use vstd::string::StringSliceAdditionalSpecFns;
use vstd::utf8::{decode_utf8, encode_utf8, encode_utf8_valid_utf8, valid_utf8, valid_utf8_concat};
use crate::db::{lookup, RedisDB};
use crate::resp::{lemma_values_of, values_of, Value, RESP};
use crate::text::text_from_utf8;

verus! {

pub open spec fn ascii_lower(c: u8) -> u8 {
    if 0x41 <= c <= 0x5a {
        (c + 0x20) as u8
    } else {
        c
    }
}

/// `name` spells the lower-case command name `lower`, in any case.
pub open spec fn name_is(name: Seq<u8>, lower: Seq<u8>) -> bool {
    name.len() == lower.len() && forall|i: int| 0 <= i < name.len() ==> ascii_lower(#[trigger] name[i]) == lower[i]
}

pub open spec fn get_name() -> Seq<u8> {
    seq![0x67u8, 0x65, 0x74]
}

pub open spec fn set_name() -> Seq<u8> {
    seq![0x73u8, 0x65, 0x74]
}

pub open spec fn del_name() -> Seq<u8> {
    seq![0x64u8, 0x65, 0x6c]
}

pub open spec fn flushall_name() -> Seq<u8> {
    seq![0x66u8, 0x6c, 0x75, 0x73, 0x68, 0x61, 0x6c, 0x6c]
}

pub open spec fn command_name() -> Seq<u8> {
    seq![0x63u8, 0x6f, 0x6d, 0x6d, 0x61, 0x6e, 0x64]
}

/// The parts of a request: the payloads of its bulk strings, when it is a
/// non-empty array of bulk strings none of which is nil.
pub open spec fn request_parts(v: Value) -> Option<Seq<Seq<u8>>> {
    match v {
        Value::Array(Some(items)) => {
            if items.len() > 0 && forall|i: int| 0 <= i < items.len() ==> (#[trigger] items[i] is Bulk
                && items[i]->Bulk_0 is Some) {
                Some(Seq::new(items.len(), |i: int| items[i]->Bulk_0->Some_0))
            } else {
                None
            }
        },
        _ => None,
    }
}

/// DEL of `keys` one after the other: the store left and how many keys were
/// removed.
pub open spec fn del_keys(m: Map<Seq<u8>, Seq<u8>>, keys: Seq<Seq<u8>>) -> (Map<Seq<u8>, Seq<u8>>, int)
    decreases keys.len(),
{
    if keys.len() == 0 {
        (m, 0)
    } else {
        let (m1, n) = del_keys(m, keys.drop_last());
        let k = keys.last();
        (m1.remove(k), n + if m1.contains_key(k) { 1int } else { 0int })
    }
}

/// A printable ASCII byte stays, any other byte becomes `?`: text quoted
/// in an error reply stays on its line.
pub open spec fn printable(c: u8) -> u8 {
    if 0x20 <= c <= 0x7e {
        c
    } else {
        0x3f
    }
}

pub open spec fn printable_text(s: Seq<u8>) -> Seq<u8> {
    Seq::new(s.len(), |i: int| printable(s[i]))
}

/// The arguments of an unknown command as its error reply quotes them: each
/// in single quotes and followed by a space.
pub open spec fn quoted_args(args: Seq<Seq<u8>>) -> Seq<u8>
    decreases args.len(),
{
    if args.len() == 0 {
        seq![]
    } else {
        quoted_args(args.drop_last()) + seq![0x27u8] + printable_text(args.last()) + seq![0x27u8, 0x20]
    }
}

pub open spec fn unknown_command_text(name: Seq<u8>, args: Seq<Seq<u8>>) -> Seq<u8> {
    encode_utf8("ERR unknown command `"@) + printable_text(name) + encode_utf8(
        "`, with args beginning with: "@,
    ) + quoted_args(args)
}

pub open spec fn ok_reply() -> Value {
    Value::Simple("OK"@)
}

/// The store that a request leaves and the reply it gets.
pub open spec fn command_effect(m: Map<Seq<u8>, Seq<u8>>, request: Value) -> (Map<Seq<u8>, Seq<u8>>, Value) {
    match request_parts(request) {
        None => (m, Value::Error("ERR Protocol error: expected an array of bulk strings"@)),
        Some(parts) => {
            let name = parts[0];
            let args = parts.drop_first();
            if name_is(name, get_name()) {
                if args.len() != 1 {
                    (m, Value::Error("ERR wrong number of arguments for 'get' command"@))
                } else {
                    (m, Value::Bulk(lookup(m, args[0])))
                }
            } else if name_is(name, set_name()) {
                if args.len() < 2 {
                    (m, Value::Error("ERR wrong number of arguments for 'set' command"@))
                } else if args.len() > 2 {
                    (m, Value::Error("ERR syntax error"@))
                } else {
                    (m.insert(args[0], args[1]), ok_reply())
                }
            } else if name_is(name, del_name()) {
                if args.len() == 0 {
                    (m, Value::Error("ERR wrong number of arguments for 'del' command"@))
                } else {
                    (del_keys(m, args).0, Value::Integer(del_keys(m, args).1))
                }
            } else if name_is(name, flushall_name()) {
                if args.len() != 0 {
                    (m, Value::Error("ERR wrong number of arguments for 'flushall' command"@))
                } else {
                    (Map::empty(), ok_reply())
                }
            } else if name_is(name, command_name()) {
                (m, ok_reply())
            } else {
                (m, Value::Error(decode_utf8(unknown_command_text(name, args))))
            }
        },
    }
}

/// The request is small enough that a count over its parts fits in an `i64`;
/// every request that the decoder produces is.
pub open spec fn request_fits(v: Value) -> bool {
    match v {
        Value::Array(Some(items)) => items.len() <= i64::MAX,
        _ => true,
    }
}

fn is_command(name: &[u8], lower: &[u8]) -> (r: bool)
    ensures
        r == name_is(name@, lower@),
{
    if name.len() != lower.len() {
        return false;
    }
    let mut i: usize = 0;
    while i < name.len()
        invariant
            name@.len() == lower@.len(),
            i <= name@.len(),
            forall|j: int| 0 <= j < i ==> ascii_lower(#[trigger] name@[j]) == lower@[j],
        decreases name@.len() - i,
    {
        let c = name[i];
        let l = if 0x41 <= c && c <= 0x5a {
            c + 0x20
        } else {
            c
        };
        if l != lower[i] {
            return false;
        }
        i = i + 1;
    }
    true
}

proof fn lemma_ascii_valid_utf8(b: Seq<u8>)
    requires
        forall|i: int| 0 <= i < b.len() ==> #[trigger] b[i] < 0x80,
    ensures
        valid_utf8(b),
    decreases b.len(),
{
    if b.len() > 0 {
        let c = b[0];
        assert((c & 0x7f) == c) by (bit_vector)
            requires
                c < 0x80,
        ;
        assert(vstd::utf8::pop_first_scalar(b) =~= b.subrange(1, b.len() as int));
        lemma_ascii_valid_utf8(b.subrange(1, b.len() as int));
    }
}

fn push_bytes(out: &mut Vec<u8>, bytes: &[u8])
    ensures
        final(out)@ == old(out)@ + bytes@,
{
    let mut i: usize = 0;
    while i < bytes.len()
        invariant
            i <= bytes@.len(),
            out@ == old(out)@ + bytes@.subrange(0, i as int),
        decreases bytes@.len() - i,
    {
        out.push(bytes[i]);
        i = i + 1;
        assert(out@ =~= old(out)@ + bytes@.subrange(0, i as int));
    }
    assert(bytes@.subrange(0, i as int) =~= bytes@);
}

fn push_printable(out: &mut Vec<u8>, bytes: &[u8])
    ensures
        final(out)@ == old(out)@ + printable_text(bytes@),
{
    let mut i: usize = 0;
    while i < bytes.len()
        invariant
            i <= bytes@.len(),
            out@ == old(out)@ + printable_text(bytes@.subrange(0, i as int)),
        decreases bytes@.len() - i,
    {
        let c = bytes[i];
        if 0x20 <= c && c <= 0x7e {
            out.push(c);
        } else {
            out.push(0x3f);
        }
        i = i + 1;
        assert(out@ =~= old(out)@ + printable_text(bytes@.subrange(0, i as int)));
    }
    assert(bytes@.subrange(0, i as int) =~= bytes@);
}

proof fn lemma_printable_ascii(s: Seq<u8>)
    ensures
        forall|i: int| 0 <= i < printable_text(s).len() ==> #[trigger] printable_text(s)[i] < 0x80,
{
}

proof fn lemma_quoted_args_ascii(args: Seq<Seq<u8>>)
    ensures
        forall|i: int| 0 <= i < quoted_args(args).len() ==> #[trigger] quoted_args(args)[i] < 0x80,
    decreases args.len(),
{
    if args.len() > 0 {
        lemma_quoted_args_ascii(args.drop_last());
        lemma_printable_ascii(args.last());
        let q = quoted_args(args.drop_last());
        let p = printable_text(args.last());
        assert forall|i: int| 0 <= i < quoted_args(args).len() implies #[trigger] quoted_args(args)[i] < 0x80 by {
            if i < q.len() {
                assert(quoted_args(args)[i] == q[i]);
            } else if i == q.len() {
            } else if i < q.len() + 1 + p.len() {
                assert(quoted_args(args)[i] == p[i - q.len() - 1]);
            }
        }
    }
}

proof fn lemma_unknown_command_text_valid(name: Seq<u8>, args: Seq<Seq<u8>>)
    ensures
        valid_utf8(unknown_command_text(name, args)),
{
    let a = encode_utf8("ERR unknown command `"@);
    let b = printable_text(name);
    let c = encode_utf8("`, with args beginning with: "@);
    let d = quoted_args(args);
    encode_utf8_valid_utf8("ERR unknown command `"@);
    encode_utf8_valid_utf8("`, with args beginning with: "@);
    lemma_printable_ascii(name);
    lemma_ascii_valid_utf8(b);
    lemma_quoted_args_ascii(args);
    lemma_ascii_valid_utf8(d);
    valid_utf8_concat(a, b);
    valid_utf8_concat(a + b, c);
    valid_utf8_concat(a + b + c, d);
}

/// The payload of the bulk string `items[i]`, when it is a bulk string
/// that is not nil.
fn bulk_at(items: &Vec<RESP>, i: usize) -> (r: Option<&Vec<u8>>)
    requires
        i < items@.len(),
    ensures
        match r {
            Some(b) => items@[i as int]@ == Value::Bulk(Some(b@)),
            None => !(items@[i as int]@ is Bulk && items@[i as int]@->Bulk_0 is Some),
        },
{
    match &items[i] {
        RESP::BulkStrings(Some(b)) => Some(b),
        _ => None,
    }
}

/// Whether every item is a bulk string that is not nil.
fn all_bulk(items: &Vec<RESP>) -> (r: bool)
    ensures
        r == forall|i: int| 0 <= i < items@.len() ==> (#[trigger] items@[i]@ is Bulk && items@[i]@->Bulk_0 is Some),
{
    let mut i: usize = 0;
    while i < items.len()
        invariant
            i <= items@.len(),
            forall|j: int| 0 <= j < i ==> (#[trigger] items@[j]@ is Bulk && items@[j]@->Bulk_0 is Some),
        decreases items@.len() - i,
    {
        match bulk_at(items, i) {
            Some(_) => {},
            None => return false,
        }
        i = i + 1;
    }
    true
}

fn unknown_command_reply(items: &Vec<RESP>, name: &Vec<u8>, Ghost(args): Ghost<Seq<Seq<u8>>>) -> (r: RESP)
    requires
        items@.len() >= 1,
        args.len() == items@.len() - 1,
        forall|j: int| 0 <= j < args.len() ==> #[trigger] items@[j + 1]@ == Value::Bulk(Some(args[j])),
    ensures
        r@ == Value::Error(decode_utf8(unknown_command_text(name@, args))),
{
    let mut out: Vec<u8> = Vec::new();
    push_bytes(&mut out, "ERR unknown command `".as_bytes());
    push_printable(&mut out, name.as_slice());
    push_bytes(&mut out, "`, with args beginning with: ".as_bytes());
    let ghost head = out@;
    let mut i: usize = 1;
    while i < items.len()
        invariant
            1 <= i <= items@.len(),
            args.len() == items@.len() - 1,
            forall|j: int| 0 <= j < args.len() ==> #[trigger] items@[j + 1]@ == Value::Bulk(Some(args[j])),
            out@ == head + quoted_args(args.subrange(0, i - 1)),
        decreases items@.len() - i,
    {
        match bulk_at(items, i) {
            Some(arg) => {
                assert(items@[(i - 1) + 1]@ == Value::Bulk(Some(args[i - 1])));
                out.push(0x27);
                push_printable(&mut out, arg.as_slice());
                out.push(0x27);
                out.push(0x20);
                proof {
                    let s = args.subrange(0, i as int);
                    assert(s.drop_last() =~= args.subrange(0, i - 1));
                    assert(out@ =~= head + quoted_args(s));
                }
            },
            None => {
                assert(items@[(i - 1) + 1]@ == Value::Bulk(Some(args[i - 1])));
            },
        }
        i = i + 1;
    }
    assert(args.subrange(0, i - 1) =~= args);
    assert(out@ =~= unknown_command_text(name@, args));
    proof {
        lemma_unknown_command_text_valid(name@, args);
    }
    match text_from_utf8(out.as_slice()) {
        Some(text) => RESP::Errors(text),
        None => RESP::Errors(String::new()),
    }
}

fn error_reply(text: &str) -> (r: RESP)
    ensures
        r@ == Value::Error(text@),
{
    RESP::Errors(text.to_owned())
}

fn ok() -> (r: RESP)
    ensures
        r@ == ok_reply(),
{
    RESP::SimpleStrings("OK".to_owned())
}

/// Runs one request against the store and gives its reply: GET, SET, DEL,
/// FLUSHALL and COMMAND, named in any case, with their arity rules; any
/// other request gets an error reply and leaves the store as it was.
pub fn execute(db: &mut RedisDB, resp: RESP) -> (r: RESP)
    requires
        old(db).wf(),
        request_fits(resp@),
    ensures
        final(db).wf(),
        (final(db)@, r@) == command_effect(old(db)@, resp@),
{
    let items = match resp {
        RESP::Arrays(Some(items)) => items,
        _ => return error_reply("ERR Protocol error: expected an array of bulk strings"),
    };
    proof {
        lemma_values_of(items@);
    }
    let ghost vals = values_of(items@);
    assert(resp@ == Value::Array(Some(vals)));
    if items.len() == 0 || !all_bulk(&items) {
        proof {
            if items.len() != 0 {
                let i = choose|i: int| 0 <= i < items@.len() && !(#[trigger] items@[i]@ is Bulk && items@[i]@->Bulk_0 is Some);
                assert(vals[i] == items@[i]@);
            }
        }
        return error_reply("ERR Protocol error: expected an array of bulk strings");
    }
    let ghost parts = Seq::new(vals.len(), |i: int| vals[i]->Bulk_0->Some_0);
    assert forall|i: int| 0 <= i < vals.len() implies (#[trigger] vals[i] is Bulk && vals[i]->Bulk_0 is Some) by {
        assert(vals[i] == items@[i]@);
    }
    assert(request_parts(resp@) is Some);
    assert(request_parts(resp@)->Some_0 =~= parts);
    let ghost args = parts.drop_first();
    assert forall|j: int| 0 <= j < parts.len() implies #[trigger] items@[j]@ == Value::Bulk(Some(parts[j])) by {
        assert(vals[j] == items@[j]@);
    }
    assert forall|j: int| 0 <= j < args.len() implies #[trigger] items@[j + 1]@ == Value::Bulk(Some(args[j])) by {
        assert(items@[j + 1]@ == Value::Bulk(Some(parts[j + 1])));
    }
    let name = match bulk_at(&items, 0) {
        Some(name) => name,
        None => return error_reply("ERR Protocol error: expected an array of bulk strings"),
    };
    let nargs = items.len() - 1;
    if is_command(name.as_slice(), &[0x67, 0x65, 0x74]) {
        assert(name_is(name@, get_name()));
        if nargs != 1 {
            return error_reply("ERR wrong number of arguments for 'get' command");
        }
        let key = match bulk_at(&items, 1) {
            Some(key) => key,
            None => return error_reply("ERR Protocol error: expected an array of bulk strings"),
        };
        assert(key@ == args[0]);
        match db.get(key.as_slice()) {
            Some(v) => RESP::BulkStrings(Some(slice_to_vec(v.as_slice()))),
            None => RESP::BulkStrings(None),
        }
    } else if is_command(name.as_slice(), &[0x73, 0x65, 0x74]) {
        assert(name_is(name@, set_name()));
        if nargs < 2 {
            return error_reply("ERR wrong number of arguments for 'set' command");
        }
        if nargs > 2 {
            return error_reply("ERR syntax error");
        }
        let key = match bulk_at(&items, 1) {
            Some(key) => key,
            None => return error_reply("ERR Protocol error: expected an array of bulk strings"),
        };
        let value = match bulk_at(&items, 2) {
            Some(value) => value,
            None => return error_reply("ERR Protocol error: expected an array of bulk strings"),
        };
        assert(key@ == args[0]);
        assert(value@ == args[1]);
        db.set(slice_to_vec(key.as_slice()), slice_to_vec(value.as_slice()));
        ok()
    } else if is_command(name.as_slice(), &[0x64, 0x65, 0x6c]) {
        assert(name_is(name@, del_name()));
        if nargs == 0 {
            return error_reply("ERR wrong number of arguments for 'del' command");
        }
        let mut removed: i64 = 0;
        let mut i: usize = 1;
        assert(args.subrange(0, 0) =~= Seq::<Seq<u8>>::empty());
        while i < items.len()
            invariant
                1 <= i <= items@.len(),
                items@.len() <= i64::MAX,
                args.len() == items@.len() - 1,
                forall|j: int| 0 <= j < args.len() ==> #[trigger] items@[j + 1]@ == Value::Bulk(Some(args[j])),
                db.wf(),
                0 <= removed < i,
                (db@, removed as int) == del_keys(old(db)@, args.subrange(0, i - 1)),
            decreases items@.len() - i,
        {
            let ghost before = db@;
            match bulk_at(&items, i) {
                Some(key) => {
                    assert(items@[(i - 1) + 1]@ == Value::Bulk(Some(args[i - 1])));
                    let n = db.del(key.as_slice());
                    removed = removed + n;
                    proof {
                        let s = args.subrange(0, i as int);
                        assert(s.drop_last() =~= args.subrange(0, i - 1));
                        assert(s.last() == key@);
                    }
                },
                None => {
                    assert(items@[(i - 1) + 1]@ == Value::Bulk(Some(args[i - 1])));
                },
            }
            i = i + 1;
        }
        assert(args.subrange(0, i - 1) =~= args);
        RESP::Integers(removed)
    } else if is_command(name.as_slice(), &[0x66, 0x6c, 0x75, 0x73, 0x68, 0x61, 0x6c, 0x6c]) {
        assert(name_is(name@, flushall_name()));
        if nargs != 0 {
            return error_reply("ERR wrong number of arguments for 'flushall' command");
        }
        db.flushall();
        ok()
    } else if is_command(name.as_slice(), &[0x63, 0x6f, 0x6d, 0x6d, 0x61, 0x6e, 0x64]) {
        assert(name_is(name@, command_name()));
        ok()
    } else {
        unknown_command_reply(&items, name, Ghost(args))
    }
}

} // verus!
