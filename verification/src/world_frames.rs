//! How the world-model operations leave the other entities alone: where an
//! entity's row sits after an operation, and that its values are kept.

use vstd::prelude::*;

use crate::ecs::{
    alloc_at_slots, empty_archetype, free_list_ok, seq_without, ArchetypeModel, Entity, SlotModel,
    WorldModel,
};
use crate::world_laws::{
    at_place, held_at_most_once, lemma_add_then_get, lemma_locate_only, lemma_locate_some,
};

verus! {

/// Row `s` of archetype `b` in `w2` has the signature and values of row `r`
/// of archetype `a` in `w`.
pub open spec fn same_row<V>(w: WorldModel<V>, a: int, r: int, w2: WorldModel<V>, b: int, s: int) -> bool {
    &&& w2.archetypes[b].id == w.archetypes[a].id
    &&& forall|k: u32|
        w.archetypes[a].id.contains(k) ==> #[trigger] w2.archetypes[b].columns[k][s]
            == w.archetypes[a].columns[k][r]
}

/// Every stored entity is alive and sits in exactly one row.
pub open spec fn stores_live_once<V>(w: WorldModel<V>) -> bool {
    forall|y: Entity| #[trigger] w.stored(y) ==> w.is_alive(y) && held_at_most_once(w, y)
}

/// The archetypes are consistent and their signatures distinct.
pub open spec fn archetypes_ok<V>(w: WorldModel<V>) -> bool {
    &&& forall|a: int| 0 <= a < w.archetypes.len() ==> (#[trigger] w.archetypes[a]).wf()
    &&& forall|a: int, b: int|
        0 <= a < w.archetypes.len() && 0 <= b < w.archetypes.len() && a != b
            ==> w.archetypes[a].id != w.archetypes[b].id
}

/// A live entity that sits once is read at its row.
pub proof fn lemma_component_at<V>(w: WorldModel<V>, z: Entity, a: int, r: int, k: u32)
    requires
        w.is_alive(z),
        at_place(w, z, a, r),
        held_at_most_once(w, z),
    ensures
        w.component(z, k) == (if w.archetypes[a].id.contains(k) {
            Some(w.archetypes[a].columns[k][r])
        } else {
            None
        }),
{
    lemma_locate_only(w, z, a, r);
}

/// Two worlds that keep a live entity's row read the same components of it.
pub proof fn lemma_same_components<V>(
    w: WorldModel<V>,
    w2: WorldModel<V>,
    z: Entity,
    a: int,
    r: int,
    b: int,
    s: int,
)
    requires
        w.is_alive(z),
        w2.is_alive(z),
        at_place(w, z, a, r),
        held_at_most_once(w, z),
        at_place(w2, z, b, s),
        held_at_most_once(w2, z),
        same_row(w, a, r, w2, b, s),
    ensures
        forall|k: u32| #[trigger] w2.component(z, k) == w.component(z, k),
{
    assert forall|k: u32| #[trigger] w2.component(z, k) == w.component(z, k) by {
        lemma_component_at(w, z, a, r, k);
        lemma_component_at(w2, z, b, s, k);
    }
}

/// Overwriting one cell of row `r` keeps every other row where it is.
pub proof fn lemma_cell_frame<V>(w: WorldModel<V>, a: int, r: int, k: u32, v: V, z: Entity, b: int, s: int)
    requires
        0 <= a < w.archetypes.len(),
        w.archetypes[a].wf(),
        w.archetypes[a].id.contains(k),
        0 <= r < w.archetypes[a].entities.len(),
        at_place(w, z, b, s),
        held_at_most_once(w, z),
        !(a == b && r == s),
    ensures
        at_place(w.with_archetypes(w.archetypes.update(a, w.archetypes[a].with_cell(r, k, v))), z, b, s),
        held_at_most_once(w.with_archetypes(w.archetypes.update(a, w.archetypes[a].with_cell(r, k, v))), z),
        same_row(w, b, s, w.with_archetypes(w.archetypes.update(a, w.archetypes[a].with_cell(r, k, v))), b, s),
{
    let w2 = w.with_archetypes(w.archetypes.update(a, w.archetypes[a].with_cell(r, k, v)));
    assert forall|c: int| 0 <= c < w2.archetypes.len() implies #[trigger] w2.archetypes[c].entities
        == w.archetypes[c].entities by {}
    assert forall|k2: u32| w.archetypes[b].id.contains(k2) implies #[trigger] w2.archetypes[b].columns[k2][s]
        == w.archetypes[b].columns[k2][s] by {
        if b == a && k2 == k {
            assert(w2.archetypes[b].columns[k2] == w.archetypes[a].columns[k].update(r, v));
        }
    }
}

/// The row of `z` after row `r` of archetype `a` is swap-removed.
pub open spec fn swapped_row<V>(w: WorldModel<V>, a: int, r: int, b: int, s: int) -> int {
    if b == a && s == w.archetypes[a].entities.len() - 1 {
        r
    } else {
        s
    }
}

/// Swap-removing row `r` moves only the last row of that archetype, to `r`.
pub proof fn lemma_swap_frame<V>(w: WorldModel<V>, a: int, r: int, z: Entity, b: int, s: int)
    requires
        0 <= a < w.archetypes.len(),
        w.archetypes[a].wf(),
        0 <= r < w.archetypes[a].entities.len(),
        at_place(w, z, b, s),
        held_at_most_once(w, z),
        !(a == b && r == s),
    ensures
        at_place(w.with_archetypes(w.archetypes.update(a, w.archetypes[a].swap_removed(r))), z, b, swapped_row(w, a, r, b, s)),
        held_at_most_once(w.with_archetypes(w.archetypes.update(a, w.archetypes[a].swap_removed(r))), z),
        same_row(w, b, s, w.with_archetypes(w.archetypes.update(a, w.archetypes[a].swap_removed(r))), b, swapped_row(w, a, r, b, s)),
{
    let arch = w.archetypes[a];
    let n = arch.entities.len();
    let w2 = w.with_archetypes(w.archetypes.update(a, arch.swap_removed(r)));
    let s2 = swapped_row(w, a, r, b, s);
    // Every place of `w2` comes from a place of `w`.
    assert forall|c: int, j: int| #[trigger] at_place(w2, z, c, j) implies (if c == a && j == r {
        at_place(w, z, a, n - 1)
    } else {
        at_place(w, z, c, j)
    }) by {
        if c == a {
            assert(w2.archetypes[c].entities == arch.entities.update(r, arch.entities.last()).drop_last());
        } else {
            assert(w2.archetypes[c] == w.archetypes[c]);
        }
    }
    if b == a {
        assert(w2.archetypes[a].entities == arch.entities.update(r, arch.entities.last()).drop_last());
        if s == n - 1 {
            assert(w2.archetypes[a].entities[r] == arch.entities[n - 1]);
        } else {
            assert(w2.archetypes[a].entities[s] == arch.entities[s]);
        }
    } else {
        assert(w2.archetypes[b] == w.archetypes[b]);
    }
    assert forall|k2: u32| w.archetypes[b].id.contains(k2) implies #[trigger] w2.archetypes[b].columns[k2][s2]
        == w.archetypes[b].columns[k2][s] by {
        if b == a {
            assert(arch.columns[k2].len() == n);
            assert(w2.archetypes[b].columns[k2] == arch.columns[k2].update(r, arch.columns[k2].last()).drop_last());
        }
    }
    assert forall|a1: int, r1: int, a2: int, r2: int|
        at_place(w2, z, a1, r1) && at_place(w2, z, a2, r2) implies a1 == a2 && r1 == r2 by {
        assert(at_place(w2, z, a1, r1));
        assert(at_place(w2, z, a2, r2));
        if a1 == a && r1 == r && !(a2 == a && r2 == r) {
            assert(at_place(w, z, a, n - 1));
            assert(at_place(w, z, a2, r2));
        } else if a2 == a && r2 == r && !(a1 == a && r1 == r) {
            assert(at_place(w, z, a, n - 1));
            assert(at_place(w, z, a1, r1));
        } else if !(a1 == a && r1 == r) && !(a2 == a && r2 == r) {
            assert(at_place(w, z, a1, r1));
            assert(at_place(w, z, a2, r2));
        }
    }
}

/// Appending a row for another entity keeps every row where it is.
pub proof fn lemma_push_frame<V>(w: WorldModel<V>, id: Set<u32>, x: Entity, row: Map<u32, V>, z: Entity, b: int, s: int)
    requires
        archetypes_ok(w),
        at_place(w, z, b, s),
        held_at_most_once(w, z),
        z != x,
    ensures
        at_place(w.with_archetypes(w.archetypes_with_row(id, x, row)), z, b, s),
        held_at_most_once(w.with_archetypes(w.archetypes_with_row(id, x, row)), z),
        same_row(w, b, s, w.with_archetypes(w.archetypes_with_row(id, x, row)), b, s),
{
    let w2 = w.with_archetypes(w.archetypes_with_row(id, x, row));
    assert forall|c: int, j: int| #[trigger] at_place(w2, z, c, j) implies at_place(w, z, c, j) by {
        match w.find_archetype(id) {
            Some(d) => {
                if c == d {
                    assert(w2.archetypes[c].entities == w.archetypes[d].entities.push(x));
                } else {
                    assert(w2.archetypes[c] == w.archetypes[c]);
                }
            },
            None => {
                if c == w.archetypes.len() {
                    assert(w2.archetypes[c].entities == Seq::<Entity>::empty().push(x));
                } else {
                    assert(w2.archetypes[c] == w.archetypes[c]);
                }
            },
        }
    }
    match w.find_archetype(id) {
        Some(d) => {
            if b == d {
                assert(w2.archetypes[b].entities == w.archetypes[d].entities.push(x));
                assert forall|k2: u32| w.archetypes[b].id.contains(k2) implies #[trigger] w2.archetypes[b].columns[k2][s]
                    == w.archetypes[b].columns[k2][s] by {
                    assert(w.archetypes[b].wf());
                    assert(w2.archetypes[b].columns[k2] == w.archetypes[b].columns[k2].push(row[k2]));
                }
            } else {
                assert(w2.archetypes[b] == w.archetypes[b]);
            }
        },
        None => {
            assert(w2.archetypes[b] == w.archetypes[b]);
        },
    }
    assert forall|a1: int, r1: int, a2: int, r2: int|
        at_place(w2, z, a1, r1) && at_place(w2, z, a2, r2) implies a1 == a2 && r1 == r2 by {
        assert(at_place(w, z, a1, r1));
        assert(at_place(w, z, a2, r2));
    }
}

// --- The archetypes stay consistent ---------------------------------------------------

proof fn lemma_cell_ok<V>(w: WorldModel<V>, a: int, r: int, k: u32, v: V)
    requires
        archetypes_ok(w),
        0 <= a < w.archetypes.len(),
        w.archetypes[a].id.contains(k),
        0 <= r < w.archetypes[a].entities.len(),
    ensures
        archetypes_ok(w.with_archetypes(w.archetypes.update(a, w.archetypes[a].with_cell(r, k, v)))),
{
    let arch = w.archetypes[a];
    let c = arch.with_cell(r, k, v);
    assert(arch.wf());
    assert(c.columns.dom() =~= arch.columns.dom());
    assert(c.wf());
}

pub(crate) proof fn lemma_swap_ok<V>(w: WorldModel<V>, a: int, r: int)
    requires
        archetypes_ok(w),
        0 <= a < w.archetypes.len(),
        0 <= r < w.archetypes[a].entities.len(),
    ensures
        archetypes_ok(w.with_archetypes(w.archetypes.update(a, w.archetypes[a].swap_removed(r)))),
{
    let arch = w.archetypes[a];
    let c = arch.swap_removed(r);
    assert(arch.wf());
    assert(c.columns.dom() =~= arch.id);
    assert forall|k: u32| c.id.contains(k) implies #[trigger] c.columns[k].len() == c.entities.len() by {
        assert(arch.columns[k].len() == arch.entities.len());
    }
    assert(c.wf());
}

pub(crate) proof fn lemma_push_ok<V>(w: WorldModel<V>, id: Set<u32>, x: Entity, row: Map<u32, V>)
    requires
        archetypes_ok(w),
        id.finite(),
    ensures
        archetypes_ok(w.with_archetypes(w.archetypes_with_row(id, x, row))),
{
    let w2 = w.with_archetypes(w.archetypes_with_row(id, x, row));
    match w.find_archetype(id) {
        Some(d) => {
            let arch = w.archetypes[d];
            let c = arch.pushed(x, row);
            assert(arch.wf());
            assert(c.columns.dom() =~= arch.id);
            assert forall|k: u32| c.id.contains(k) implies #[trigger] c.columns[k].len() == c.entities.len() by {
                assert(arch.columns[k].len() == arch.entities.len());
            }
            assert(c.wf());
        },
        None => {
            let c = empty_archetype::<V>(id).pushed(x, row);
            assert(empty_archetype::<V>(id).columns.dom() =~= id);
            assert(c.columns.dom() =~= id);
            assert(c.wf());
            assert forall|b: int| 0 <= b < w.archetypes.len() implies w.archetypes[b].id != id by {}
        },
    }
}

// --- Setting a component ------------------------------------------------------------------

/// Setting a component of a live entity that sits once keeps the archetypes
/// consistent.
pub proof fn lemma_with_component_ok<V>(w: WorldModel<V>, x: Entity, k: u32, v: V)
    requires
        archetypes_ok(w),
    ensures
        archetypes_ok(w.with_component(x, k, v)),
{
    if w.is_alive(x) {
        match w.locate(x) {
            None => {},
            Some((a, r)) => {
                lemma_locate_in_range(w, x);
                let arch = w.archetypes[a];
                if arch.id.contains(k) {
                    lemma_cell_ok(w, a, r, k, v);
                } else {
                    let removed = w.with_archetypes(w.archetypes.update(a, arch.swap_removed(r)));
                    lemma_swap_ok(w, a, r);
                    assert(arch.wf());
                    lemma_push_ok(removed, arch.id.insert(k), x, arch.row(r).insert(k, v));
                    assert(w.with_component(x, k, v) == removed.with_archetypes(
                        removed.archetypes_with_row(arch.id.insert(k), x, arch.row(r).insert(k, v)),
                    ));
                }
            },
        }
    }
}

/// Where `locate` points is a place.
pub proof fn lemma_locate_in_range<V>(w: WorldModel<V>, x: Entity)
    requires
        w.locate(x) is Some,
    ensures
        at_place(w, x, w.locate(x)->Some_0.0, w.locate(x)->Some_0.1),
{
    let h = w.holders(x);
    h.index_of_first_ensures(true);
    let a = h.index_of_first(true).unwrap();
    w.archetypes[a].entities.index_of_first_ensures(x);
}

/// Setting a component of `x` keeps every other live entity that sits once
/// alive, sitting once, and with the same components.
pub proof fn lemma_with_component_frame<V>(w: WorldModel<V>, x: Entity, k: u32, v: V, z: Entity)
    requires
        archetypes_ok(w),
        w.is_alive(z),
        w.stored(z),
        held_at_most_once(w, z),
        z != x,
    ensures
        w.with_component(x, k, v).is_alive(z),
        w.with_component(x, k, v).stored(z),
        held_at_most_once(w.with_component(x, k, v), z),
        forall|k2: u32| #[trigger] w.with_component(x, k, v).component(z, k2) == w.component(z, k2),
{
    let w2 = w.with_component(x, k, v);
    lemma_locate_some(w, z);
    let (b, s) = w.locate(z).unwrap();
    if !w.is_alive(x) || w.locate(x) is None {
        lemma_same_components(w, w2, z, b, s, b, s);
        return;
    }
    lemma_locate_in_range(w, x);
    let (a, r) = w.locate(x).unwrap();
    let arch = w.archetypes[a];
    assert(!(a == b && r == s));
    if arch.id.contains(k) {
        lemma_cell_frame(w, a, r, k, v, z, b, s);
        lemma_same_components(w, w2, z, b, s, b, s);
        assert(w2.archetypes[b].entities.contains(z));
    } else {
        let removed = w.with_archetypes(w.archetypes.update(a, arch.swap_removed(r)));
        lemma_swap_frame(w, a, r, z, b, s);
        let s2 = swapped_row(w, a, r, b, s);
        lemma_swap_ok(w, a, r);
        let id = arch.id.insert(k);
        let row = arch.row(r).insert(k, v);
        lemma_push_frame(removed, id, x, row, z, b, s2);
        assert(w2 == removed.with_archetypes(removed.archetypes_with_row(id, x, row)));
        assert(same_row(w, b, s, w2, b, s2));
        lemma_same_components(w, w2, z, b, s, b, s2);
        assert(w2.archetypes[b].entities.contains(z));
    }
}

/// After setting a component of `x`, whatever is stored is `x` or was
/// stored before.
pub proof fn lemma_with_component_stored<V>(w: WorldModel<V>, x: Entity, k: u32, v: V, y: Entity)
    requires
        archetypes_ok(w),
        w.with_component(x, k, v).stored(y),
        y != x,
    ensures
        w.stored(y),
{
    let w2 = w.with_component(x, k, v);
    let c = choose|c: int| 0 <= c < w2.archetypes.len() && w2.archetypes[c].entities.contains(y);
    let j = choose|j: int| 0 <= j < w2.archetypes[c].entities.len() && w2.archetypes[c].entities[j] == y;
    if !w.is_alive(x) || w.locate(x) is None {
        assert(w.archetypes[c].entities.contains(y));
        return;
    }
    lemma_locate_in_range(w, x);
    let (a, r) = w.locate(x).unwrap();
    let arch = w.archetypes[a];
    let n = arch.entities.len();
    if arch.id.contains(k) {
        assert(w2.archetypes[c].entities == w.archetypes[c].entities);
        assert(w.archetypes[c].entities.contains(y));
    } else {
        let removed = w.with_archetypes(w.archetypes.update(a, arch.swap_removed(r)));
        let id = arch.id.insert(k);
        let row = arch.row(r).insert(k, v);
        assert(w2 == removed.with_archetypes(removed.archetypes_with_row(id, x, row)));
        // the place in `removed`
        let held_in_removed = removed.stored(y);
        assert(held_in_removed) by {
            match removed.find_archetype(id) {
                Some(d) => {
                    if c == d {
                        assert(w2.archetypes[c].entities == removed.archetypes[d].entities.push(x));
                        assert(j < removed.archetypes[d].entities.len());
                        assert(removed.archetypes[c].entities[j] == y);
                    } else {
                        assert(w2.archetypes[c] == removed.archetypes[c]);
                    }
                    assert(removed.archetypes[c].entities.contains(y));
                },
                None => {
                    if c == removed.archetypes.len() {
                        assert(w2.archetypes[c].entities == Seq::<Entity>::empty().push(x));
                    } else {
                        assert(w2.archetypes[c] == removed.archetypes[c]);
                        assert(removed.archetypes[c].entities.contains(y));
                    }
                },
            }
        }
        let c2 = choose|c2: int| 0 <= c2 < removed.archetypes.len() && removed.archetypes[c2].entities.contains(y);
        let j2 = choose|j2: int| 0 <= j2 < removed.archetypes[c2].entities.len() && removed.archetypes[c2].entities[j2] == y;
        if c2 == a {
            assert(removed.archetypes[c2].entities == arch.entities.update(r, arch.entities.last()).drop_last());
            if j2 == r {
                assert(arch.entities[n - 1] == y);
                assert(w.archetypes[a].entities.contains(y));
            } else {
                assert(arch.entities[j2] == y);
                assert(w.archetypes[a].entities.contains(y));
            }
        } else {
            assert(removed.archetypes[c2] == w.archetypes[c2]);
            assert(w.archetypes[c2].entities.contains(y));
        }
    }
}

// --- Creating an entity at a given handle ---------------------------------------------------

/// Taking `x` out of a list keeps everything else, and keeps it free of
/// duplicates.
pub proof fn lemma_seq_without(s: Seq<u32>, x: u32)
    ensures
        forall|y: u32| #[trigger] seq_without(s, x).contains(y) <==> (s.contains(y) && y != x),
        s.no_duplicates() ==> seq_without(s, x).no_duplicates(),
    decreases s.len(),
{
    if s.len() > 0 {
        let d = s.drop_last();
        lemma_seq_without(d, x);
        let t = seq_without(d, x);
        assert forall|y: u32| s.contains(y) <==> (d.contains(y) || y == s.last()) by {
            if s.contains(y) {
                let i = choose|i: int| 0 <= i < s.len() && s[i] == y;
                if i < s.len() - 1 {
                    assert(d[i] == y);
                }
            }
            if d.contains(y) {
                let i = choose|i: int| 0 <= i < d.len() && d[i] == y;
                assert(s[i] == y);
            }
            if y == s.last() {
                assert(s[s.len() - 1] == y);
            }
        }
        if s.last() != x {
            assert forall|y: u32| #[trigger] t.push(s.last()).contains(y) <==> (t.contains(y) || y == s.last()) by {
                if t.push(s.last()).contains(y) {
                    let i = choose|i: int| 0 <= i < t.len() + 1 && t.push(s.last())[i] == y;
                    if i < t.len() {
                        assert(t[i] == y);
                    }
                }
                if t.contains(y) {
                    let i = choose|i: int| 0 <= i < t.len() && t[i] == y;
                    assert(t.push(s.last())[i] == y);
                }
                if y == s.last() {
                    assert(t.push(s.last())[t.len() as int] == y);
                }
            }
            if s.no_duplicates() {
                assert(d.no_duplicates());
                assert(!d.contains(s.last())) by {
                    if d.contains(s.last()) {
                        let i = choose|i: int| 0 <= i < d.len() && d[i] == s.last();
                        assert(s[i] == s[s.len() - 1]);
                    }
                }
                assert(!t.contains(s.last()));
                assert forall|i: int, j: int|
                    0 <= i < t.len() + 1 && 0 <= j < t.len() + 1 && i != j implies t.push(s.last())[i]
                    != t.push(s.last())[j] by {
                    if i < t.len() && j < t.len() {
                    } else if i < t.len() {
                        assert(t.contains(t[i]));
                    } else {
                        assert(t.contains(t[j]));
                    }
                }
            }
        } else {
            if s.no_duplicates() {
                assert(d.no_duplicates());
            }
        }
    }
}

/// Occupying a slot keeps the free list consistent once that slot is taken
/// out of it.
pub proof fn lemma_alloc_at_free_list(slots: Seq<SlotModel>, free_list: Seq<u32>, e: Entity)
    requires
        free_list_ok(slots, free_list),
    ensures
        free_list_ok(alloc_at_slots(slots, e), seq_without(free_list, e.index)),
{
    let fl = seq_without(free_list, e.index);
    let s2 = alloc_at_slots(slots, e);
    lemma_seq_without(free_list, e.index);
    assert forall|i: int| 0 <= i < fl.len() implies (#[trigger] fl[i] as int) < s2.len() && !s2[fl[i] as int].1 by {
        assert(fl.contains(fl[i]));
        assert(free_list.contains(fl[i]));
        let j = choose|j: int| 0 <= j < free_list.len() && free_list[j] == fl[i];
        assert((free_list[j] as int) < slots.len());
        assert(!slots[free_list[j] as int].1);
    }
}

/// The world `created_at(x)` makes when `x` is dead and nowhere stored.
pub proof fn lemma_created_at_shape<V>(w: WorldModel<V>, x: Entity)
    requires
        !w.is_alive(x),
        !w.stored(x),
    ensures
        w.created_at(x).archetypes == w.archetypes_with_row(Set::empty(), x, Map::empty()),
        w.created_at(x).slots == alloc_at_slots(w.slots, x),
        w.created_at(x).names == w.names,
        w.created_at(x).entity_types == w.entity_types,
{
    match w.find_archetype(Set::empty()) {
        Some(b) => {
            assert(!w.archetypes[b].entities.contains(x));
        },
        None => {},
    }
}

/// Creating `x` keeps every other live entity that sits once alive, sitting
/// once, and with the same components, when its slot is another one.
pub proof fn lemma_created_at_frame<V>(w: WorldModel<V>, x: Entity, z: Entity)
    requires
        archetypes_ok(w),
        !w.is_alive(x),
        !w.stored(x),
        w.is_alive(z),
        w.stored(z),
        held_at_most_once(w, z),
        z.index != x.index,
    ensures
        w.created_at(x).is_alive(z),
        w.created_at(x).stored(z),
        held_at_most_once(w.created_at(x), z),
        forall|k2: u32| #[trigger] w.created_at(x).component(z, k2) == w.component(z, k2),
{
    let w2 = w.created_at(x);
    lemma_created_at_shape(w, x);
    lemma_locate_some(w, z);
    let (b, s) = w.locate(z).unwrap();
    let wa = w.with_archetypes(w.archetypes_with_row(Set::empty(), x, Map::empty()));
    lemma_push_frame(w, Set::empty(), x, Map::empty(), z, b, s);
    assert(w2.archetypes == wa.archetypes);
    assert(at_place(w2, z, b, s));
    assert(w2.archetypes[b].entities.contains(z));
    assert(held_at_most_once(w2, z));
    assert(w2.slots[z.index as int] == w.slots[z.index as int]);
    lemma_same_components(w, w2, z, b, s, b, s);
}

/// A created entity is alive and sits once.
pub proof fn lemma_created_at_self<V>(w: WorldModel<V>, x: Entity)
    requires
        archetypes_ok(w),
        !w.is_alive(x),
        !w.stored(x),
    ensures
        w.created_at(x).is_alive(x),
        w.created_at(x).stored(x),
        held_at_most_once(w.created_at(x), x),
{
    let w2 = w.created_at(x);
    lemma_created_at_shape(w, x);
    let (c, j) = match w.find_archetype(Set::empty()) {
        Some(d) => (d, w.archetypes[d].entities.len() as int),
        None => (w.archetypes.len() as int, 0int),
    };
    match w.find_archetype(Set::empty()) {
        Some(d) => {
            assert(w2.archetypes[d].entities == w.archetypes[d].entities.push(x));
        },
        None => {
            assert(w2.archetypes[c].entities == Seq::<Entity>::empty().push(x));
        },
    }
    assert(at_place(w2, x, c, j));
    assert(w2.archetypes[c].entities.contains(x));
    assert forall|a1: int, r1: int| #[trigger] at_place(w2, x, a1, r1) implies a1 == c && r1 == j by {
        if !(a1 == c && r1 == j) {
            match w.find_archetype(Set::empty()) {
                Some(d) => {
                    if a1 == d {
                        assert(w2.archetypes[a1].entities[r1] == w.archetypes[d].entities[r1]);
                    } else {
                        assert(w2.archetypes[a1] == w.archetypes[a1]);
                    }
                },
                None => {
                    assert(w2.archetypes[a1] == w.archetypes[a1]);
                },
            }
            assert(w.archetypes[a1].entities.contains(x));
        }
    }
    crate::world_laws::lemma_once_by_places(w2, x);
}

/// Creating `x` keeps the world consistent; what is stored afterwards is
/// `x` or was stored before.
pub proof fn lemma_created_at_ok<V>(w: WorldModel<V>, x: Entity)
    requires
        w.wf(),
        !w.is_alive(x),
        !w.stored(x),
    ensures
        w.created_at(x).wf(),
        forall|y: Entity| #[trigger] w.created_at(x).stored(y) && y != x ==> w.stored(y),
{
    let w2 = w.created_at(x);
    lemma_created_at_shape(w, x);
    lemma_alloc_at_free_list(w.slots, w.free_list, x);
    assert(archetypes_ok(w));
    lemma_push_ok(w, Set::empty(), x, Map::empty());
    let wa = w.with_archetypes(w.archetypes_with_row(Set::empty(), x, Map::empty()));
    assert(archetypes_ok(wa));
    assert(w2.archetypes == wa.archetypes);
    assert(archetypes_ok(w2));
    assert(w2.free_list == seq_without(w.free_list, x.index));
    assert(free_list_ok(w2.slots, w2.free_list));
    assert forall|y: Entity| #[trigger] w2.stored(y) && y != x implies w.stored(y) by {
        let c = choose|c: int| 0 <= c < w2.archetypes.len() && w2.archetypes[c].entities.contains(y);
        let j = choose|j: int| 0 <= j < w2.archetypes[c].entities.len() && w2.archetypes[c].entities[j] == y;
        match w.find_archetype(Set::empty()) {
            Some(d) => {
                if c == d {
                    assert(w2.archetypes[c].entities == w.archetypes[d].entities.push(x));
                    assert(w.archetypes[c].entities[j] == y);
                } else {
                    assert(w2.archetypes[c] == w.archetypes[c]);
                }
                assert(w.archetypes[c].entities.contains(y));
            },
            None => {
                if c == w.archetypes.len() {
                    assert(w2.archetypes[c].entities == Seq::<Entity>::empty().push(x));
                } else {
                    assert(w2.archetypes[c] == w.archetypes[c]);
                    assert(w.archetypes[c].entities.contains(y));
                }
            },
        }
    }
}

// --- Steps of building a world ------------------------------------------------------------

/// The model invariant of a world being built: consistent, every stored
/// entity alive and sitting once, and every live entity stored.
pub open spec fn tidy<V>(w: WorldModel<V>) -> bool {
    &&& w.wf()
    &&& stores_live_once(w)
    &&& forall|y: Entity| #[trigger] w.is_alive(y) ==> w.stored(y)
}

/// A step that works on `x` leaves every other entity as it was: what is
/// stored stays stored with the same components, nothing else becomes
/// stored, and the names and template names of others are kept.
pub open spec fn keeps_others<V>(w: WorldModel<V>, w2: WorldModel<V>, x: Entity) -> bool {
    &&& forall|z: Entity| z != x && #[trigger] w.stored(z) ==> w2.stored(z)
    &&& forall|z: Entity| z != x && #[trigger] w2.stored(z) ==> w.stored(z)
    &&& forall|z: Entity, k: u32|
        z != x && w.stored(z) ==> #[trigger] w2.component(z, k) == w.component(z, k)
    &&& w2.names.remove(x) == w.names.remove(x)
    &&& w2.entity_types.remove(x) == w.entity_types.remove(x)
}

pub proof fn lemma_keeps_others_trans<V>(w1: WorldModel<V>, w2: WorldModel<V>, w3: WorldModel<V>, x: Entity)
    requires
        keeps_others(w1, w2, x),
        keeps_others(w2, w3, x),
    ensures
        keeps_others(w1, w3, x),
{
    assert forall|z: Entity, k: u32| z != x && w1.stored(z) implies #[trigger] w3.component(z, k)
        == w1.component(z, k) by {
        assert(w2.stored(z));
        assert(w3.component(z, k) == w2.component(z, k));
    }
}

pub proof fn lemma_keeps_others_refl<V>(w: WorldModel<V>, x: Entity)
    ensures
        keeps_others(w, w, x),
{
}

/// Setting a component of a live entity of a tidy world.
pub proof fn lemma_set_step<V>(w: WorldModel<V>, x: Entity, k: u32, v: V)
    requires
        tidy(w),
        w.is_alive(x),
    ensures
        tidy(w.with_component(x, k, v)),
        w.with_component(x, k, v).is_alive(x),
        w.with_component(x, k, v).stored(x),
        w.with_component(x, k, v).component(x, k) == Some(v),
        forall|k2: u32| k2 != k ==> #[trigger] w.with_component(x, k, v).component(x, k2) == w.component(x, k2),
        keeps_others(w, w.with_component(x, k, v), x),
        w.with_component(x, k, v).names == w.names,
        w.with_component(x, k, v).entity_types == w.entity_types,
{
    let w2 = w.with_component(x, k, v);
    assert(w.stored(x));
    assert(held_at_most_once(w, x));
    lemma_add_then_get(w, x, k, v);
    assert forall|k2: u32| k2 != k implies #[trigger] w2.component(x, k2) == w.component(x, k2) by {
        crate::world_laws::lemma_add_keeps_other_kinds(w, x, k, v, k2);
    }
    lemma_with_component_ok(w, x, k, v);
    assert forall|z: Entity| z != x && #[trigger] w.stored(z) implies w2.stored(z) && w2.is_alive(z)
        && held_at_most_once(w2, z) by {
        lemma_with_component_frame(w, x, k, v, z);
    }
    assert forall|z: Entity| z != x && #[trigger] w2.stored(z) implies w.stored(z) by {
        lemma_with_component_stored(w, x, k, v, z);
    }
    assert forall|z: Entity, k2: u32| z != x && w.stored(z) implies #[trigger] w2.component(z, k2)
        == w.component(z, k2) by {
        lemma_with_component_frame(w, x, k, v, z);
    }
    assert(w2.slots == w.slots);
    assert forall|y: Entity| #[trigger] w2.stored(y) implies w2.is_alive(y) && held_at_most_once(w2, y) by {
        if y != x {
            lemma_with_component_stored(w, x, k, v, y);
            lemma_with_component_frame(w, x, k, v, y);
        }
    }
    assert forall|y: Entity| #[trigger] w2.is_alive(y) implies w2.stored(y) by {
        assert(w.is_alive(y));
        if y != x {
            lemma_with_component_frame(w, x, k, v, y);
        }
    }
    assert(w2.wf());
    assert(w2.names.remove(x) =~= w.names.remove(x));
    assert(w2.entity_types.remove(x) =~= w.entity_types.remove(x));
}

/// Creating `x` in a tidy world where no other stored entity uses its slot.
pub proof fn lemma_create_step<V>(w: WorldModel<V>, x: Entity)
    requires
        tidy(w),
        forall|z: Entity| #[trigger] w.stored(z) && z.index == x.index ==> z == x,
    ensures
        tidy(w.created_at(x)),
        w.created_at(x).is_alive(x),
        w.created_at(x).stored(x),
        keeps_others(w, w.created_at(x), x),
        w.created_at(x).names == w.names,
        w.created_at(x).entity_types == w.entity_types,
{
    let w2 = w.created_at(x);
    if w.is_alive(x) {
        assert(w2 == w);
        return;
    }
    assert(!w.stored(x));
    lemma_created_at_shape(w, x);
    lemma_created_at_ok(w, x);
    lemma_created_at_self(w, x);
    assert(archetypes_ok(w));
    assert forall|z: Entity| z != x && #[trigger] w.stored(z) implies w2.stored(z) && w2.is_alive(z)
        && held_at_most_once(w2, z) by {
        lemma_created_at_frame(w, x, z);
    }
    assert forall|z: Entity, k2: u32| z != x && w.stored(z) implies #[trigger] w2.component(z, k2)
        == w.component(z, k2) by {
        lemma_created_at_frame(w, x, z);
    }
    assert forall|y: Entity| #[trigger] w2.stored(y) implies w2.is_alive(y) && held_at_most_once(w2, y) by {
        if y != x {
            lemma_created_at_frame(w, x, y);
        }
    }
    assert forall|y: Entity| #[trigger] w2.is_alive(y) implies w2.stored(y) by {
        if y != x {
            if y.index == x.index {
                assert(w2.slots[y.index as int] == (x.generation, true));
            } else {
                assert(w2.slots[y.index as int] == w.slots[y.index as int]);
                assert(w.is_alive(y));
                lemma_created_at_frame(w, x, y);
            }
        }
    }
    assert(w2.names.remove(x) =~= w.names.remove(x));
    assert(w2.entity_types.remove(x) =~= w.entity_types.remove(x));
}

/// Renaming or retyping only changes the tables.
pub proof fn lemma_tables_step<V>(w: WorldModel<V>, x: Entity, names: Map<Entity, Seq<char>>, types: Map<Entity, Seq<char>>)
    requires
        tidy(w),
        names.remove(x) == w.names.remove(x),
        types.remove(x) == w.entity_types.remove(x),
    ensures
        tidy(w.with_names(names).with_entity_types(types)),
        keeps_others(w, w.with_names(names).with_entity_types(types), x),
        forall|y: Entity| #[trigger] w.with_names(names).with_entity_types(types).stored(y) == w.stored(y),
        forall|y: Entity| #[trigger] w.with_names(names).with_entity_types(types).is_alive(y) == w.is_alive(y),
{
    let w2 = w.with_names(names).with_entity_types(types);
    assert(w2.archetypes == w.archetypes && w2.slots == w.slots && w2.free_list == w.free_list);
    assert forall|y: Entity| #[trigger] w2.stored(y) == w.stored(y) by {}
    assert forall|y: Entity, k: u32| #[trigger] w2.component(y, k) == w.component(y, k) by {}
    assert(w2.wf());
    assert forall|y: Entity| #[trigger] w2.stored(y) implies w2.is_alive(y) && held_at_most_once(w2, y) by {
        assert(w.stored(y));
        assert(held_at_most_once(w, y));
    }
    assert forall|y: Entity| #[trigger] w2.is_alive(y) implies w2.stored(y) by {
        assert(w.is_alive(y));
    }
}

} // verus!
