//! Every operation on a world keeps it tidy: each stored entity is alive and
//! sits in one row, and each live entity is stored.

use vstd::prelude::*;

use crate::ecs::{entities_prefix, has_kinds, matching_prefix, Entity, WorldModel};
use crate::world_frames::{
    archetypes_ok, keeps_others, lemma_push_frame, lemma_push_ok, lemma_same_components,
    lemma_swap_frame, lemma_swap_ok, same_row, swapped_row, tidy,
};
use crate::world_laws::{
    at_place, held_at_most_once, lemma_locate_some, lemma_matching_prefix,
    lemma_query_finds_components, lemma_query_membership, lemma_spawn_fresh,
};

verus! {

/// The world with the row where `x` is located swap-removed.
pub open spec fn taken_out<V>(w: WorldModel<V>, x: Entity) -> WorldModel<V> {
    match w.locate(x) {
        Some((a, r)) => w.with_archetypes(w.archetypes.update(a, w.archetypes[a].swap_removed(r))),
        None => w,
    }
}

/// Every stored entity sits in one row.
pub open spec fn stored_once<V>(w: WorldModel<V>) -> bool {
    forall|y: Entity| #[trigger] w.stored(y) ==> held_at_most_once(w, y)
}

/// Taking out the row of a stored `x`: `x` is no longer stored, and every
/// other entity keeps its row, its single place and its components.
proof fn lemma_take_out<V>(w: WorldModel<V>, x: Entity)
    requires
        archetypes_ok(w),
        w.stored(x),
        stored_once(w),
    ensures
        archetypes_ok(taken_out(w, x)),
        taken_out(w, x).slots == w.slots,
        taken_out(w, x).free_list == w.free_list,
        taken_out(w, x).names == w.names,
        taken_out(w, x).entity_types == w.entity_types,
        !taken_out(w, x).stored(x),
        forall|z: Entity| z != x ==> #[trigger] taken_out(w, x).stored(z) == w.stored(z),
        stored_once(taken_out(w, x)),
        forall|z: Entity, k: u32|
            z != x && w.stored(z) && w.is_alive(z) ==> #[trigger] taken_out(w, x).component(z, k)
                == w.component(z, k),
{
    lemma_locate_some(w, x);
    let (a, r) = w.locate(x).unwrap();
    let arch = w.archetypes[a];
    let n = arch.entities.len();
    let w2 = taken_out(w, x);
    assert(w2 == w.with_archetypes(w.archetypes.update(a, arch.swap_removed(r))));
    lemma_swap_ok(w, a, r);
    assert(w2.archetypes[a].entities == arch.entities.update(r, arch.entities.last()).drop_last());
    assert forall|y: Entity, c: int, j: int| #[trigger] at_place(w2, y, c, j) implies (if c == a && j
        == r {
        at_place(w, y, a, n - 1)
    } else {
        at_place(w, y, c, j)
    }) by {
        if c != a {
            assert(w2.archetypes[c] == w.archetypes[c]);
        }
    }
    assert(at_place(w, x, a, r));
    assert(held_at_most_once(w, x));
    if w2.stored(x) {
        let c = choose|c: int| 0 <= c < w2.archetypes.len() && w2.archetypes[c].entities.contains(x);
        let j = choose|j: int| 0 <= j < w2.archetypes[c].entities.len() && w2.archetypes[c].entities[j] == x;
        assert(at_place(w2, x, c, j));
        if c == a && j == r {
            assert(at_place(w, x, a, n - 1));
        } else {
            assert(at_place(w, x, c, j));
        }
    }
    assert forall|z: Entity| z != x && #[trigger] w.stored(z) implies w2.stored(z) && held_at_most_once(
        w2,
        z,
    ) && (w.is_alive(z) ==> forall|k: u32| #[trigger] w2.component(z, k) == w.component(z, k)) by {
        lemma_locate_some(w, z);
        let (b, s) = w.locate(z).unwrap();
        assert(at_place(w, z, b, s));
        lemma_swap_frame(w, a, r, z, b, s);
        let s2 = swapped_row(w, a, r, b, s);
        assert(at_place(w2, z, b, s2));
        assert(w2.archetypes[b].entities.contains(z));
        if w.is_alive(z) {
            lemma_same_components(w, w2, z, b, s, b, s2);
        }
    }
    assert forall|z: Entity| z != x && #[trigger] w2.stored(z) implies w.stored(z) by {
        let c = choose|c: int| 0 <= c < w2.archetypes.len() && w2.archetypes[c].entities.contains(z);
        let j = choose|j: int| 0 <= j < w2.archetypes[c].entities.len() && w2.archetypes[c].entities[j] == z;
        assert(at_place(w2, z, c, j));
        if c == a && j == r {
            assert(at_place(w, z, a, n - 1));
            assert(w.archetypes[a].entities.contains(z));
        } else {
            assert(at_place(w, z, c, j));
            assert(w.archetypes[c].entities.contains(z));
        }
    }
    assert forall|z: Entity| z != x implies #[trigger] w2.stored(z) == w.stored(z) by {
        if w.stored(z) {
            assert(w2.stored(z));
        }
        if w2.stored(z) {
            assert(w.stored(z));
        }
    }
    assert forall|y: Entity| #[trigger] w2.stored(y) implies held_at_most_once(w2, y) by {
        assert(y != x);
        assert(w.stored(y));
    }
}

/// Where a row for `id` lands.
pub open spec fn landing<V>(w: WorldModel<V>, id: Set<u32>) -> int {
    match w.find_archetype(id) {
        Some(d) => d,
        None => w.archetypes.len() as int,
    }
}

/// Appending a row for an unstored `x`: `x` is stored in one row with the
/// given values, and every other entity keeps its row and components.
proof fn lemma_put_in<V>(w: WorldModel<V>, id: Set<u32>, x: Entity, row: Map<u32, V>)
    requires
        archetypes_ok(w),
        id.finite(),
        !w.stored(x),
        stored_once(w),
    ensures
        archetypes_ok(w.with_archetypes(w.archetypes_with_row(id, x, row))),
        w.with_archetypes(w.archetypes_with_row(id, x, row)).stored(x),
        forall|z: Entity|
            z != x ==> #[trigger] w.with_archetypes(w.archetypes_with_row(id, x, row)).stored(z)
                == w.stored(z),
        stored_once(w.with_archetypes(w.archetypes_with_row(id, x, row))),
        forall|z: Entity, k: u32|
            z != x && w.stored(z) && w.is_alive(z) ==> #[trigger] w.with_archetypes(
                w.archetypes_with_row(id, x, row),
            ).component(z, k) == w.component(z, k),
{
    let w2 = w.with_archetypes(w.archetypes_with_row(id, x, row));
    lemma_push_ok(w, id, x, row);
    let d = landing(w, id);
    let last = w2.archetypes[d].entities.len() - 1;
    // Every place of `w2` is a place of `w` or the new row.
    assert forall|y: Entity, c: int, j: int| #[trigger] at_place(w2, y, c, j) implies at_place(w, y, c, j)
        || (y == x && c == d && j == last) by {
        match w.find_archetype(id) {
            Some(dd) => {
                if c == dd {
                    assert(w2.archetypes[c].entities == w.archetypes[dd].entities.push(x));
                } else {
                    assert(w2.archetypes[c] == w.archetypes[c]);
                }
            },
            None => {
                if c == w.archetypes.len() {
                    assert(w2.archetypes[c].entities == Seq::<Entity>::empty().push(x));
                } else {
                    assert(w2.archetypes[c] == w.archetypes[c]);
                }
            },
        }
    }
    match w.find_archetype(id) {
        Some(dd) => {
            assert(w2.archetypes[dd].entities == w.archetypes[dd].entities.push(x));
        },
        None => {
            assert(w2.archetypes[d].entities == Seq::<Entity>::empty().push(x));
        },
    }
    assert(at_place(w2, x, d, last));
    assert(w2.archetypes[d].entities.contains(x));
    assert forall|a1: int, r1: int, a2: int, r2: int|
        at_place(w2, x, a1, r1) && at_place(w2, x, a2, r2) implies a1 == a2 && r1 == r2 by {
        if at_place(w, x, a1, r1) {
            assert(w.archetypes[a1].entities.contains(x));
        }
        if at_place(w, x, a2, r2) {
            assert(w.archetypes[a2].entities.contains(x));
        }
    }
    assert forall|z: Entity| z != x && #[trigger] w.stored(z) implies w2.stored(z) && held_at_most_once(
        w2,
        z,
    ) && (w.is_alive(z) ==> forall|k: u32| #[trigger] w2.component(z, k) == w.component(z, k)) by {
        lemma_locate_some(w, z);
        let (b, s) = w.locate(z).unwrap();
        assert(at_place(w, z, b, s));
        lemma_push_frame(w, id, x, row, z, b, s);
        assert(at_place(w2, z, b, s));
        assert(w2.archetypes[b].entities.contains(z));
        if w.is_alive(z) {
            lemma_same_components(w, w2, z, b, s, b, s);
        }
    }
    assert forall|z: Entity| z != x implies #[trigger] w2.stored(z) == w.stored(z) by {
        if w2.stored(z) {
            let c = choose|c: int| 0 <= c < w2.archetypes.len() && w2.archetypes[c].entities.contains(z);
            let j = choose|j: int| 0 <= j < w2.archetypes[c].entities.len() && w2.archetypes[c].entities[j] == z;
            assert(at_place(w2, z, c, j));
            assert(w.archetypes[c].entities.contains(z));
        }
        if w.stored(z) {
            assert(w2.stored(z));
        }
    }
    assert forall|y: Entity| #[trigger] w2.stored(y) implies held_at_most_once(w2, y) by {
        if y != x {
            assert(w.stored(y));
        }
    }
}

/// Spawning in a tidy world: the new handle was not stored, it is stored
/// now, and nothing else changes.
pub proof fn lemma_spawn_step<V>(w: WorldModel<V>)
    requires
        tidy(w),
        w.can_spawn(),
    ensures
        tidy(w.spawned()),
        !w.stored(w.next_spawn()),
        w.spawned().stored(w.next_spawn()),
        keeps_others(w, w.spawned(), w.next_spawn()),
        forall|k: u32| #[trigger] w.spawned().component(w.next_spawn(), k) == None::<V>,
{
    let x = w.next_spawn();
    let w2 = w.spawned();
    lemma_spawned_wf(w);
    lemma_spawn_fresh(w);
    assert(!w.stored(x));
    let w1 = w.with_archetypes(w.archetypes_with_row(Set::empty(), x, Map::empty()));
    assert(stored_once(w));
    lemma_put_in(w, Set::empty(), x, Map::empty());
    assert(w2.archetypes == w1.archetypes);
    assert forall|y: Entity| #[trigger] w2.stored(y) == w1.stored(y) by {}
    assert forall|z: Entity, k: u32| z != x && w.stored(z) implies #[trigger] w2.component(z, k)
        == w.component(z, k) by {
        assert(w.is_alive(z));
        assert(w1.component(z, k) == w.component(z, k));
        assert(w2.is_alive(z) == w1.is_alive(z));
    }
    assert forall|y: Entity| #[trigger] w2.stored(y) implies w2.is_alive(y) && held_at_most_once(w2, y) by {
        assert(held_at_most_once(w1, y));
        if y != x {
            assert(w.stored(y));
        }
    }
    assert forall|y: Entity| #[trigger] w2.is_alive(y) implies w2.stored(y) by {
        if y != x {
            assert(w.is_alive(y));
            assert(w.stored(y));
        }
    }
    assert forall|k: u32| #[trigger] w2.component(x, k) == None::<V> by {
        crate::world_laws::lemma_locate_some(w2, x);
        let (a, r) = w2.locate(x).unwrap();
        assert(at_place(w2, x, a, r));
        let d = landing(w, Set::empty());
        match w.find_archetype(Set::<u32>::empty()) {
            Some(dd) => {
                assert(w2.archetypes[dd].id == Set::<u32>::empty());
            },
            None => {},
        }
        assert(at_place(w2, x, d, w2.archetypes[d].entities.len() - 1));
        assert(w2.archetypes[d].id == Set::<u32>::empty());
        assert(held_at_most_once(w2, x));
    }
}

/// Despawning in a tidy world: the entity is no longer stored, and nothing
/// else changes.
pub proof fn lemma_despawn_step<V>(w: WorldModel<V>, x: Entity)
    requires
        tidy(w),
    ensures
        tidy(w.despawned(x)),
        !w.despawned(x).stored(x),
        keeps_others(w, w.despawned(x), x),
{
    let w2 = w.despawned(x);
    lemma_despawned_wf(w, x);
    if !w.is_alive(x) {
        assert(!w.stored(x));
        return;
    }
    assert(w.stored(x));
    assert(stored_once(w));
    lemma_take_out(w, x);
    let w1 = taken_out(w, x);
    lemma_locate_some(w, x);
    assert(w2.archetypes == w1.archetypes);
    assert forall|y: Entity| #[trigger] w2.stored(y) == w1.stored(y) by {}
    assert forall|y: Entity| y != x implies #[trigger] w2.is_alive(y) == w.is_alive(y) by {
        if y.index == x.index {
            assert(w2.slots[y.index as int] == (x.generation, false));
        } else if (y.index as int) < w.slots.len() {
            assert(w2.slots[y.index as int] == w.slots[y.index as int]);
        }
    }
    assert forall|z: Entity, k: u32| z != x && w.stored(z) implies #[trigger] w2.component(z, k)
        == w.component(z, k) by {
        assert(w.is_alive(z));
        assert(w1.component(z, k) == w.component(z, k));
        assert(w2.is_alive(z) == w1.is_alive(z));
    }
    assert forall|y: Entity| #[trigger] w2.stored(y) implies w2.is_alive(y) && held_at_most_once(w2, y) by {
        assert(y != x);
        assert(w.stored(y));
        assert(held_at_most_once(w1, y));
    }
    assert forall|y: Entity| #[trigger] w2.is_alive(y) implies w2.stored(y) by {
        assert(w.is_alive(y));
        assert(w.stored(y));
    }
    assert(w2.names.remove(x) =~= w.names.remove(x));
    assert(w2.entity_types.remove(x) =~= w.entity_types.remove(x));
}

/// Removing a component in a tidy world keeps it tidy, keeps `x` stored
/// and alive as it was, and leaves every other entity alone.
pub proof fn lemma_unset_step<V>(w: WorldModel<V>, x: Entity, k: u32)
    requires
        tidy(w),
    ensures
        tidy(w.without_component(x, k)),
        keeps_others(w, w.without_component(x, k), x),
        w.without_component(x, k).stored(x) == w.stored(x),
        forall|y: Entity| #[trigger] w.without_component(x, k).is_alive(y) == w.is_alive(y),
        w.without_component(x, k).names == w.names,
        w.without_component(x, k).entity_types == w.entity_types,
{
    let w2 = w.without_component(x, k);
    if !w.is_alive(x) || w.locate(x) is None {
        return;
    }
    let (a, r) = w.locate(x).unwrap();
    let arch = w.archetypes[a];
    if !arch.id.contains(k) {
        return;
    }
    assert(w.stored(x));
    assert(stored_once(w));
    lemma_take_out(w, x);
    let removed = taken_out(w, x);
    assert(removed == w.with_archetypes(w.archetypes.update(a, arch.swap_removed(r))));
    lemma_locate_some(w, x);
    assert(arch.wf());
    let id = arch.id.remove(k);
    let row = arch.row(r).remove(k);
    lemma_put_in(removed, id, x, row);
    assert(w2 == removed.with_archetypes(removed.archetypes_with_row(id, x, row)));
    assert forall|z: Entity, k2: u32| z != x && w.stored(z) implies #[trigger] w2.component(z, k2)
        == w.component(z, k2) by {
        assert(w.is_alive(z));
        assert(removed.stored(z));
        assert(removed.component(z, k2) == w.component(z, k2));
        assert(w2.component(z, k2) == removed.component(z, k2));
    }
    assert forall|y: Entity| #[trigger] w2.stored(y) implies w2.is_alive(y) && held_at_most_once(w2, y) by {
        if y != x {
            assert(removed.stored(y));
            assert(w.stored(y));
        }
    }
    assert(w2.slots == w.slots);
    assert forall|y: Entity| #[trigger] w2.is_alive(y) implies w2.stored(y) by {
        if y != x {
            assert(w.is_alive(y));
            assert(w.stored(y));
            assert(removed.stored(y));
        }
    }
    assert forall|z: Entity| z != x && #[trigger] w.stored(z) implies w2.stored(z) by {
        assert(removed.stored(z));
    }
    assert forall|z: Entity| z != x && #[trigger] w2.stored(z) implies w.stored(z) by {
        assert(removed.stored(z));
    }
}

/// Setting a component keeps a tidy world tidy, whatever the value.
pub proof fn lemma_set_keeps_tidy<V>(w: WorldModel<V>, x: Entity, k: u32)
    requires
        tidy(w),
    ensures
        forall|v: V| tidy(#[trigger] w.with_component(x, k, v)),
{
    assert forall|v: V| tidy(#[trigger] w.with_component(x, k, v)) by {
        if w.is_alive(x) {
            crate::world_frames::lemma_set_step(w, x, k, v);
        }
    }
}

/// Creating `x` where no other live entity uses its slot keeps a tidy world
/// tidy.
pub proof fn lemma_create_keeps_tidy<V>(w: WorldModel<V>, x: Entity)
    requires
        tidy(w),
        forall|z: Entity| #[trigger] w.is_alive(z) && z.index == x.index ==> z == x,
    ensures
        tidy(w.created_at(x)),
{
    assert forall|z: Entity| #[trigger] w.stored(z) && z.index == x.index implies z == x by {
        assert(w.is_alive(z));
    }
    crate::world_frames::lemma_create_step(w, x);
}

/// Changing the name and template-name tables keeps a tidy world tidy.
pub proof fn lemma_tables_keep_tidy<V>(w: WorldModel<V>, names: Map<Entity, Seq<char>>, types: Map<Entity, Seq<char>>)
    requires
        tidy(w),
    ensures
        tidy(w.with_names(names)),
        tidy(w.with_entity_types(types)),
{
    assert forall|y: Entity| #[trigger] w.with_names(names).stored(y) implies w.with_names(names).is_alive(y)
        && held_at_most_once(w.with_names(names), y) by {
        assert(w.stored(y));
        assert(held_at_most_once(w, y));
    }
    assert forall|y: Entity| #[trigger] w.with_names(names).is_alive(y) implies w.with_names(names).stored(y) by {
        assert(w.is_alive(y));
        let c = choose|c: int| 0 <= c < w.archetypes.len() && w.archetypes[c].entities.contains(y);
        assert(w.with_names(names).archetypes[c] == w.archetypes[c]);
    }
    assert forall|y: Entity| #[trigger] w.with_entity_types(types).stored(y) implies w.with_entity_types(
        types,
    ).is_alive(y) && held_at_most_once(w.with_entity_types(types), y) by {
        assert(w.stored(y));
        assert(held_at_most_once(w, y));
    }
    assert forall|y: Entity| #[trigger] w.with_entity_types(types).is_alive(y) implies w.with_entity_types(
        types,
    ).stored(y) by {
        assert(w.is_alive(y));
        let c = choose|c: int| 0 <= c < w.archetypes.len() && w.archetypes[c].entities.contains(y);
        assert(w.with_entity_types(types).archetypes[c] == w.archetypes[c]);
    }
}

/// Spawning keeps the model consistent.
proof fn lemma_spawned_wf<V>(w: WorldModel<V>)
    requires
        w.wf(),
        w.can_spawn(),
    ensures
        w.spawned().wf(),
{
    let w2 = w.spawned();
    let fl = w.free_list;
    lemma_push_ok(w, Set::empty(), w.next_spawn(), Map::empty());
    assert(w2.archetypes == w.with_archetypes(
        w.archetypes_with_row(Set::empty(), w.next_spawn(), Map::empty()),
    ).archetypes);
    if fl.len() > 0 {
        let id = fl.last();
        let f2 = fl.drop_last();
        assert forall|i: int| 0 <= i < f2.len() implies !w2.slots[#[trigger] f2[i] as int].1 by {
            assert(f2[i] == fl[i]);
            assert(fl[i] != fl[fl.len() - 1]);
        }
        assert forall|i: int| 0 <= i < f2.len() implies (#[trigger] f2[i] as int) < w2.slots.len() by {
            assert(f2[i] == fl[i]);
        }
        assert(f2.no_duplicates()) by {
            assert forall|i: int, j: int| 0 <= i < f2.len() && 0 <= j < f2.len() && i != j implies f2[i]
                != f2[j] by {
                assert(f2[i] == fl[i] && f2[j] == fl[j]);
            }
        }
        assert(w2.free_list == f2);
    } else {
        assert(w2.slots == w.slots.push((1u32, true)));
        assert forall|i: int| 0 <= i < fl.len() implies !w2.slots[#[trigger] fl[i] as int].1 by {
            assert(w2.slots[fl[i] as int] == w.slots[fl[i] as int]);
        }
        assert forall|i: int| 0 <= i < fl.len() implies (#[trigger] fl[i] as int) < w2.slots.len() by {}
    }
}

/// Despawning keeps the model consistent.
proof fn lemma_despawned_wf<V>(w: WorldModel<V>, x: Entity)
    requires
        w.wf(),
        stored_once(w),
        forall|y: Entity| #[trigger] w.is_alive(y) ==> w.stored(y),
    ensures
        w.despawned(x).wf(),
{
    let w2 = w.despawned(x);
    if !w.is_alive(x) {
        return;
    }
    assert(w.stored(x));
    lemma_take_out(w, x);
    lemma_locate_some(w, x);
    assert(w2.archetypes == taken_out(w, x).archetypes);
    let fl = w.free_list;
    let f2 = fl.push(x.index);
    assert forall|i: int| 0 <= i < fl.len() implies fl[i] != x.index by {
        assert(!w.slots[fl[i] as int].1);
    }
    assert(f2.no_duplicates()) by {
        assert forall|i: int, j: int| 0 <= i < f2.len() && 0 <= j < f2.len() && i != j implies f2[i] != f2[j] by {
            if i < fl.len() && j < fl.len() {
                assert(f2[i] == fl[i] && f2[j] == fl[j]);
            } else if i < fl.len() {
                assert(f2[i] == fl[i]);
            } else if j < fl.len() {
                assert(f2[j] == fl[j]);
            }
        }
    }
    assert forall|i: int| 0 <= i < f2.len() implies !w2.slots[#[trigger] f2[i] as int].1 by {
        if i < fl.len() {
            assert(f2[i] == fl[i]);
        }
    }
    assert forall|i: int| 0 <= i < f2.len() implies (#[trigger] f2[i] as int) < w2.slots.len() by {
        if i < fl.len() {
            assert(f2[i] == fl[i]);
        }
    }
}

/// When every stored entity sits once, the entities of the matching
/// archetypes are listed without repeats.
proof fn lemma_matching_distinct<V>(w: WorldModel<V>, required: Seq<u32>, n: int)
    requires
        0 <= n <= w.archetypes.len(),
        stored_once(w),
    ensures
        matching_prefix(w.archetypes, required, n).no_duplicates(),
    decreases n,
{
    if n > 0 {
        lemma_matching_distinct(w, required, n - 1);
        let prev = matching_prefix(w.archetypes, required, n - 1);
        let arch = w.archetypes[n - 1];
        if has_kinds(arch, required) {
            let cur = prev + arch.entities;
            assert(matching_prefix(w.archetypes, required, n) == cur);
            assert forall|i: int, j: int| 0 <= i < cur.len() && 0 <= j < cur.len() && i != j implies cur[i]
                != cur[j] by {
                if cur[i] == cur[j] {
                    let e = cur[i];
                    if i < prev.len() && j < prev.len() {
                        assert(prev[i] == e && prev[j] == e);
                    } else if i >= prev.len() && j >= prev.len() {
                        assert(at_place(w, e, n - 1, i - prev.len()));
                        assert(at_place(w, e, n - 1, j - prev.len()));
                        assert(w.archetypes[n - 1].entities.contains(e));
                        assert(w.stored(e));
                        assert(held_at_most_once(w, e));
                    } else {
                        let (p, q) = if i < prev.len() { (i, j) } else { (j, i) };
                        assert(prev[p] == e);
                        assert(prev.contains(e));
                        lemma_matching_prefix(w, required, e, n - 1);
                        let c = choose|c: int|
                            0 <= c < n - 1 && #[trigger] w.archetypes[c].entities.contains(e) && has_kinds(
                                w.archetypes[c],
                                required,
                            );
                        let jj = choose|jj: int| 0 <= jj < w.archetypes[c].entities.len() && w.archetypes[c].entities[jj] == e;
                        assert(at_place(w, e, c, jj));
                        assert(at_place(w, e, n - 1, q - prev.len()));
                        assert(w.stored(e));
                        assert(held_at_most_once(w, e));
                    }
                }
            }
        }
    }
}

/// Without requirements, the matching archetypes are all of them.
proof fn lemma_matching_all<V>(w: WorldModel<V>, n: int)
    requires
        0 <= n <= w.archetypes.len(),
    ensures
        matching_prefix(w.archetypes, Seq::<u32>::empty(), n) == entities_prefix(w.archetypes, n),
    decreases n,
{
    if n > 0 {
        lemma_matching_all(w, n - 1);
        assert(has_kinds(w.archetypes[n - 1], Seq::<u32>::empty()));
    }
}

/// In a tidy world a query lists each entity at most once, and lists
/// exactly the live entities that have every required component.
pub proof fn lemma_tidy_query<V>(w: WorldModel<V>, required: Seq<u32>)
    requires
        tidy(w),
    ensures
        w.query_entities(required).no_duplicates(),
        forall|e: Entity|
            #[trigger] w.query_entities(required).contains(e) <==> w.is_alive(e) && forall|j: int|
                0 <= j < required.len() ==> (#[trigger] w.component(e, required[j])) is Some,
{
    lemma_matching_distinct(w, required, w.archetypes.len() as int);
    assert forall|e: Entity|
        #[trigger] w.query_entities(required).contains(e) <==> w.is_alive(e) && forall|j: int|
            0 <= j < required.len() ==> (#[trigger] w.component(e, required[j])) is Some by {
        lemma_query_membership(w, required, e);
        if w.is_alive(e) {
            lemma_query_finds_components(w, required, e);
        } else if w.query_entities(required).contains(e) {
            let a = choose|a: int|
                0 <= a < w.archetypes.len() && #[trigger] w.archetypes[a].entities.contains(e) && has_kinds(
                    w.archetypes[a],
                    required,
                );
            assert(w.stored(e));
        }
    }
}

/// In a tidy world the entity list holds each live entity once and nothing
/// else.
pub proof fn lemma_tidy_entities<V>(w: WorldModel<V>)
    requires
        tidy(w),
    ensures
        w.all_entities().no_duplicates(),
        forall|e: Entity| #[trigger] w.all_entities().contains(e) <==> w.is_alive(e),
{
    let n = w.archetypes.len() as int;
    lemma_matching_all(w, n);
    lemma_tidy_query(w, Seq::<u32>::empty());
    assert(w.query_entities(Seq::<u32>::empty()) == w.all_entities());
}

} // verus!
