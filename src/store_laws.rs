//! Laws of the store operations, over the map that a store holds.

use vstd::prelude::*;
use crate::command::del_keys;
use crate::db::lookup;

verus! {

/// Whether a key is present in `m`.
pub open spec fn present_in(m: Map<Seq<u8>, Seq<u8>>) -> spec_fn(Seq<u8>) -> bool {
    |k: Seq<u8>| m.contains_key(k)
}

/// After FLUSHALL every key reads as nil, whatever the store held.
pub proof fn law_flushall_then_get(m: Map<Seq<u8>, Seq<u8>>, k: Seq<u8>)
    ensures
        lookup(Map::<Seq<u8>, Seq<u8>>::empty(), k) is None,
{
}

/// After SET of `k` to `v`, GET of `k` returns exactly `v`, whatever bytes
/// `v` holds.
pub proof fn law_set_then_get(m: Map<Seq<u8>, Seq<u8>>, k: Seq<u8>, v: Seq<u8>)
    ensures
        lookup(m.insert(k, v), k) == Some(v),
{
}

/// DEL of a key that is absent removes nothing and counts 0.
pub proof fn law_del_absent(m: Map<Seq<u8>, Seq<u8>>, k: Seq<u8>)
    requires
        !m.contains_key(k),
    ensures
        del_keys(m, seq![k]) == (m, 0int),
{
    assert(seq![k].drop_last() =~= Seq::<Seq<u8>>::empty());
    assert(del_keys(m, Seq::<Seq<u8>>::empty()) == (m, 0int));
    assert(m.remove(k) =~= m);
}

/// DEL of distinct keys counts those of them that were present, after it
/// each of them reads as nil, and every other key reads as before.
pub proof fn law_del_counts_present(m: Map<Seq<u8>, Seq<u8>>, keys: Seq<Seq<u8>>)
    requires
        keys.no_duplicates(),
    ensures
        del_keys(m, keys).1 == keys.filter(present_in(m)).len(),
        forall|i: int| 0 <= i < keys.len() ==> lookup(del_keys(m, keys).0, #[trigger] keys[i]) is None,
        forall|k: Seq<u8>| !keys.contains(k) ==> #[trigger] lookup(del_keys(m, keys).0, k) == lookup(m, k),
    decreases keys.len(),
{
    if keys.len() > 0 {
        let rest = keys.drop_last();
        let last = keys.last();
        assert(rest.no_duplicates());
        law_del_counts_present(m, rest);
        assert(!rest.contains(last)) by {
            if rest.contains(last) {
                let i = choose|i: int| 0 <= i < rest.len() && rest[i] == last;
                assert(keys[i] == keys[keys.len() - 1]);
            }
        }
        let m1 = del_keys(m, rest).0;
        assert(lookup(m1, last) == lookup(m, last));
        reveal(Seq::filter);
        let f = rest.filter(present_in(m));
        assert(present_in(m)(last) == m.contains_key(last));
        assert(keys.filter(present_in(m)) == (if present_in(m)(last) { f.push(last) } else { f }));
        assert(keys.filter(present_in(m)).len() == rest.filter(present_in(m)).len() + if m.contains_key(last) { 1int } else { 0int });
        assert forall|i: int| 0 <= i < keys.len() implies lookup(del_keys(m, keys).0, #[trigger] keys[i]) is None by {
            if i < keys.len() - 1 {
                assert(rest[i] == keys[i]);
            }
        }
        assert forall|k: Seq<u8>| !keys.contains(k) implies #[trigger] lookup(del_keys(m, keys).0, k) == lookup(m, k) by {
            assert(k != last);
            if rest.contains(k) {
                let i = choose|i: int| 0 <= i < rest.len() && rest[i] == k;
                assert(keys[i] == k);
            }
            assert(lookup(m1, k) == lookup(m, k));
        }
    }
}

} // verus!
