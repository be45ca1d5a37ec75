//! Stable orders by an integer key: every list of keys has one, which is
//! why the archive index order and the map save order always exist.

use vstd::prelude::*;

use crate::ecs::Entity;
use crate::wmap_world::{is_save_order, save_order_of, saved_before};
use crate::wpak_build::{index_before, index_order_of, is_index_order, lists_index, EntryView};

verus! {

/// Position `i` comes before position `j`: smaller key, or the same key and
/// earlier.
pub open spec fn key_before(keys: Seq<int>, i: int, j: int) -> bool {
    keys[i] < keys[j] || (keys[i] == keys[j] && i < j)
}

/// `order` lists every position once, sorted stably by key.
pub open spec fn is_key_order(keys: Seq<int>, order: Seq<int>) -> bool {
    &&& order.len() == keys.len()
    &&& forall|k: int| 0 <= k < order.len() ==> 0 <= #[trigger] order[k] < keys.len()
    &&& forall|i: int| 0 <= i < keys.len() ==> #[trigger] lists_index(order, i)
    &&& forall|a: int, b: int|
        0 <= a < b < order.len() ==> key_before(keys, #[trigger] order[a], #[trigger] order[b])
}

/// The first position from `q` on whose key exceeds `x`.
pub open spec fn first_above(order: Seq<int>, keys: Seq<int>, x: int, q: int) -> int
    decreases order.len() - q,
{
    if q >= order.len() {
        order.len() as int
    } else if keys[order[q]] > x {
        q
    } else {
        first_above(order, keys, x, q + 1)
    }
}

proof fn lemma_first_above(order: Seq<int>, keys: Seq<int>, x: int, q: int)
    requires
        0 <= q <= order.len(),
        is_key_order(keys, order),
    ensures
        q <= first_above(order, keys, x, q) <= order.len(),
        forall|r: int| q <= r < first_above(order, keys, x, q) ==> keys[#[trigger] order[r]] <= x,
        forall|r: int| first_above(order, keys, x, q) <= r < order.len() ==> keys[#[trigger] order[r]] > x,
    decreases order.len() - q,
{
    if q < order.len() {
        if keys[order[q]] > x {
            assert forall|r: int| q <= r < order.len() implies keys[#[trigger] order[r]] > x by {
                if r > q {
                    assert(key_before(keys, order[q], order[r]));
                }
            }
        } else {
            lemma_first_above(order, keys, x, q + 1);
        }
    }
}

/// Every list of keys has a stable order.
pub proof fn lemma_key_order_exists(keys: Seq<int>)
    ensures
        exists|o: Seq<int>| is_key_order(keys, o),
    decreases keys.len(),
{
    if keys.len() == 0 {
        assert(is_key_order(keys, Seq::<int>::empty()));
        return;
    }
    let n = keys.len() - 1;
    let prev = keys.take(n);
    lemma_key_order_exists(prev);
    let o = choose|o: Seq<int>| is_key_order(prev, o);
    let x = keys[n];
    lemma_first_above(o, prev, x, 0);
    let p = first_above(o, prev, x, 0);
    let o2 = o.insert(p, n);
    assert forall|k: int| 0 <= k < o2.len() implies 0 <= #[trigger] o2[k] < keys.len() by {
        if k < p {
            assert(o2[k] == o[k]);
        } else if k > p {
            assert(o2[k] == o[k - 1]);
        }
    }
    assert forall|i: int| 0 <= i < keys.len() implies #[trigger] lists_index(o2, i) by {
        if i == n {
            assert(o2[p] == n);
        } else {
            assert(lists_index(o, i));
            let k = choose|k: int| 0 <= k < o.len() && o[k] == i;
            if k < p {
                assert(o2[k] == i);
            } else {
                assert(o2[k + 1] == i);
            }
        }
    }
    assert forall|a: int, b: int| 0 <= a < b < o2.len() implies key_before(keys, #[trigger] o2[a], #[trigger] o2[b]) by {
        if b < p {
            assert(o2[a] == o[a] && o2[b] == o[b]);
            assert(key_before(prev, o[a], o[b]));
        } else if b == p {
            assert(o2[a] == o[a]);
            assert(prev[o[a]] <= x);
        } else if a < p {
            assert(o2[a] == o[a] && o2[b] == o[b - 1]);
            assert(key_before(prev, o[a], o[b - 1]));
        } else if a == p {
            assert(o2[b] == o[b - 1]);
            assert(prev[o[b - 1]] > x);
        } else {
            assert(o2[a] == o[a - 1] && o2[b] == o[b - 1]);
            assert(key_before(prev, o[a - 1], o[b - 1]));
        }
    }
    assert(is_key_order(keys, o2));
}

/// The path hashes of entries, as keys.
pub open spec fn hash_keys(es: Seq<EntryView>) -> Seq<int> {
    es.map_values(|e: EntryView| e.path_hash as int)
}

/// Entries always have an index order.
pub proof fn lemma_index_order_exists(es: Seq<EntryView>)
    ensures
        is_index_order(es, index_order_of(es)),
{
    let keys = hash_keys(es);
    lemma_key_order_exists(keys);
    let o = choose|o: Seq<int>| is_key_order(keys, o);
    assert forall|a: int, b: int| 0 <= a < b < o.len() implies index_before(es, #[trigger] o[a], #[trigger] o[b]) by {
        assert(key_before(keys, o[a], o[b]));
    }
    assert(is_index_order(es, o));
}

/// The (index, generation) of entities, as keys.
pub open spec fn slot_keys(es: Seq<Entity>) -> Seq<int> {
    es.map_values(|e: Entity| e.index as int * 0x1_0000_0000 + e.generation as int)
}

/// Entities always have a save order.
pub proof fn lemma_save_order_exists(es: Seq<Entity>)
    ensures
        is_save_order(es, save_order_of(es)),
{
    let keys = slot_keys(es);
    lemma_key_order_exists(keys);
    let o = choose|o: Seq<int>| is_key_order(keys, o);
    assert forall|a: int, b: int| 0 <= a < b < o.len() implies saved_before(es, #[trigger] o[a], #[trigger] o[b]) by {
        assert(key_before(keys, o[a], o[b]));
        let i = o[a];
        let j = o[b];
        assert(keys[i] == es[i].index as int * 0x1_0000_0000 + es[i].generation as int);
        assert(keys[j] == es[j].index as int * 0x1_0000_0000 + es[j].generation as int);
        if es[i].index < es[j].index {
        } else if es[i].index > es[j].index {
            assert(keys[i] > keys[j]);
        }
    }
    assert(is_save_order(es, o));
}

} // verus!
