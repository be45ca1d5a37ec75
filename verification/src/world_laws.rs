//! Laws of the entity-component storage, stated over the world model.

use vstd::prelude::*;

use crate::ecs::{
    empty_archetype, has_kinds, lemma_first_index, matching_prefix, Entity,
    WorldModel,
};

verus! {

/// Row `r` of archetype `a` holds `z`.
pub open spec fn at_place<V>(w: WorldModel<V>, z: Entity, a: int, r: int) -> bool {
    &&& 0 <= a < w.archetypes.len()
    &&& 0 <= r < w.archetypes[a].entities.len()
    &&& w.archetypes[a].entities[r] == z
}

/// `e` sits in at most one row of one archetype.
pub open spec fn held_at_most_once<V>(w: WorldModel<V>, e: Entity) -> bool {
    forall|a1: int, r1: int, a2: int, r2: int|
        0 <= a1 < w.archetypes.len() && 0 <= a2 < w.archetypes.len() && 0 <= r1
            < w.archetypes[a1].entities.len() && 0 <= r2 < w.archetypes[a2].entities.len()
            && w.archetypes[a1].entities[r1] == e && w.archetypes[a2].entities[r2] == e ==> a1 == a2
            && r1 == r2
}

/// Sitting once, stated over places.
pub proof fn lemma_once_by_places<V>(w: WorldModel<V>, e: Entity)
    ensures
        held_at_most_once(w, e) <==> forall|a1: int, r1: int, a2: int, r2: int|
            #[trigger] at_place(w, e, a1, r1) && #[trigger] at_place(w, e, a2, r2) ==> a1 == a2 && r1
                == r2,
{
    if held_at_most_once(w, e) {
        assert forall|a1: int, r1: int, a2: int, r2: int|
            #[trigger] at_place(w, e, a1, r1) && #[trigger] at_place(w, e, a2, r2) implies a1 == a2 && r1
                == r2 by {}
    }
    if forall|a1: int, r1: int, a2: int, r2: int|
        #[trigger] at_place(w, e, a1, r1) && #[trigger] at_place(w, e, a2, r2) ==> a1 == a2 && r1 == r2 {
        assert forall|a1: int, r1: int, a2: int, r2: int|
            0 <= a1 < w.archetypes.len() && 0 <= a2 < w.archetypes.len() && 0 <= r1
                < w.archetypes[a1].entities.len() && 0 <= r2 < w.archetypes[a2].entities.len()
                && w.archetypes[a1].entities[r1] == e && w.archetypes[a2].entities[r2] == e implies a1
                == a2 && r1 == r2 by {
            assert(at_place(w, e, a1, r1));
            assert(at_place(w, e, a2, r2));
        }
    }
}

/// Where `e` sits when it sits in exactly one place.
pub(crate) proof fn lemma_locate_only<V>(w: WorldModel<V>, e: Entity, a: int, r: int)
    requires
        0 <= a < w.archetypes.len(),
        0 <= r < w.archetypes[a].entities.len(),
        w.archetypes[a].entities[r] == e,
        held_at_most_once(w, e),
    ensures
        w.locate(e) == Some((a, r)),
{
    let h = w.holders(e);
    assert(w.archetypes[a].entities.contains(e));
    assert forall|c: int| 0 <= c < a implies h[c] != true by {
        if w.archetypes[c].entities.contains(e) {
            let j = choose|j: int| 0 <= j < w.archetypes[c].entities.len() && w.archetypes[c].entities[j] == e;
        }
    }
    lemma_first_index(h, true, a);
    assert forall|j: int| 0 <= j < r implies w.archetypes[a].entities[j] != e by {}
    lemma_first_index(w.archetypes[a].entities, e, r);
}

/// Where a located entity sits.
pub(crate) proof fn lemma_locate_some<V>(w: WorldModel<V>, e: Entity)
    requires
        w.stored(e),
    ensures
        w.locate(e) matches Some((a, r)) && 0 <= a < w.archetypes.len() && 0 <= r
            < w.archetypes[a].entities.len() && w.archetypes[a].entities[r] == e,
{
    let h = w.holders(e);
    let c = choose|c: int| 0 <= c < w.archetypes.len() && w.archetypes[c].entities.contains(e);
    assert(h[c] == true);
    h.index_of_first_ensures(true);
    let a = h.index_of_first(true).unwrap();
    assert(w.archetypes[a].entities.contains(e));
    w.archetypes[a].entities.index_of_first_ensures(e);
}

/// A spawned handle was dead and is alive afterwards; no other handle
/// changes liveness.
pub proof fn lemma_spawn_fresh<V>(w: WorldModel<V>)
    requires
        w.wf(),
        w.can_spawn(),
    ensures
        !w.is_alive(w.next_spawn()),
        w.spawned().is_alive(w.next_spawn()),
        forall|e: Entity| e != w.next_spawn() ==> w.spawned().is_alive(e) == w.is_alive(e),
{
    let e = w.next_spawn();
    if w.free_list.len() > 0 {
        assert(w.free_list[w.free_list.len() - 1] == w.free_list.last());
    }
}

/// Despawning a live entity and spawning again never revives the old
/// handle: the slot comes back with a newer generation.
pub proof fn lemma_despawn_then_spawn_differs<V>(w: WorldModel<V>, e: Entity)
    requires
        w.wf(),
        w.is_alive(e),
        w.despawned(e).can_spawn(),
    ensures
        w.despawned(e).next_spawn() != e,
        w.despawned(e).next_spawn().index == e.index,
        w.despawned(e).next_spawn().generation == e.generation + 1,
{
}

/// A despawned entity is dead, nameless and has no components.
pub proof fn lemma_despawn_kills<V>(w: WorldModel<V>, e: Entity, k: u32)
    requires
        w.wf(),
    ensures
        !w.despawned(e).is_alive(e),
        w.despawned(e).component(e, k) == None::<V>,
        w.is_alive(e) ==> !w.despawned(e).names.contains_key(e),
{
}

/// Setting a component of a live entity that sits in one place and reading
/// it back gives the value written.
pub proof fn lemma_add_then_get<V>(w: WorldModel<V>, e: Entity, k: u32, v: V)
    requires
        w.wf(),
        w.is_alive(e),
        w.stored(e),
        held_at_most_once(w, e),
    ensures
        w.with_component(e, k, v).component(e, k) == Some(v),
        held_at_most_once(w.with_component(e, k, v), e),
        w.with_component(e, k, v).stored(e),
{
    lemma_locate_some(w, e);
    let (a, r) = w.locate(e).unwrap();
    let arch = w.archetypes[a];
    let w2 = w.with_component(e, k, v);
    if arch.id.contains(k) {
        let archs2 = w.archetypes.update(a, arch.with_cell(r, k, v));
        assert(w2.archetypes == archs2);
        assert(w2.archetypes[a].entities == arch.entities);
        assert forall|c: int| 0 <= c < w2.archetypes.len() implies w2.archetypes[c].entities
            == w.archetypes[c].entities by {}
        lemma_locate_only(w2, e, a, r);
        assert(w2.archetypes[a].columns[k] == arch.columns[k].update(r, v));
    } else {
        moved_row_facts(w, e, k, v, a, r);
    }
}

/// The facts about the row of `e` moving to the archetype that also has `k`.
proof fn moved_row_facts<V>(w: WorldModel<V>, e: Entity, k: u32, v: V, a: int, r: int)
    requires
        w.wf(),
        w.is_alive(e),
        held_at_most_once(w, e),
        0 <= a < w.archetypes.len(),
        0 <= r < w.archetypes[a].entities.len(),
        w.archetypes[a].entities[r] == e,
        w.locate(e) == Some((a, r)),
        !w.archetypes[a].id.contains(k),
    ensures
        w.with_component(e, k, v).component(e, k) == Some(v),
        held_at_most_once(w.with_component(e, k, v), e),
        w.with_component(e, k, v).stored(e),
{
    let arch = w.archetypes[a];
    let removed = w.with_archetypes(w.archetypes.update(a, arch.swap_removed(r)));
    let new_id = arch.id.insert(k);
    let row = arch.row(r).insert(k, v);
    let w2 = w.with_component(e, k, v);
    assert(w2.archetypes == removed.archetypes_with_row(new_id, e, row));
    // nobody holds `e` once its row is removed
    assert forall|c: int, j: int|
        0 <= c < removed.archetypes.len() && 0 <= j < removed.archetypes[c].entities.len() implies
        removed.archetypes[c].entities[j] != e by {
        if c == a {
            let ents = arch.entities;
            let n = ents.len();
            assert(removed.archetypes[c].entities == ents.update(r, ents.last()).drop_last());
            if j == r {
                assert(removed.archetypes[c].entities[j] == ents[n - 1]);
                if ents[n - 1] == e {
                    assert(n - 1 == r);
                }
            } else {
                assert(removed.archetypes[c].entities[j] == ents[j]);
            }
        } else {
            assert(removed.archetypes[c] == w.archetypes[c]);
        }
    }
    assert(arch.wf());
    match removed.find_archetype(new_id) {
        Some(b) => {
            let bb = removed.archetypes[b];
            let n = bb.entities.len();
            assert(w2.archetypes[b] == bb.pushed(e, row));
            assert(w2.archetypes[b].entities[n as int] == e);
            assert forall|a1: int, r1: int, a2: int, r2: int|
                0 <= a1 < w2.archetypes.len() && 0 <= a2 < w2.archetypes.len() && 0 <= r1
                    < w2.archetypes[a1].entities.len() && 0 <= r2 < w2.archetypes[a2].entities.len()
                    && w2.archetypes[a1].entities[r1] == e && w2.archetypes[a2].entities[r2]
                    == e implies a1 == a2 && r1 == r2 by {
                if a1 != b {
                    assert(w2.archetypes[a1] == removed.archetypes[a1]);
                } else if r1 < n {
                    assert(w2.archetypes[a1].entities[r1] == bb.entities[r1]);
                }
                if a2 != b {
                    assert(w2.archetypes[a2] == removed.archetypes[a2]);
                } else if r2 < n {
                    assert(w2.archetypes[a2].entities[r2] == bb.entities[r2]);
                }
            }
            lemma_locate_only(w2, e, b, n as int);
            assert(w2.archetypes[b].id == new_id);
            assert(new_id.contains(k));
            assert(w2.archetypes[b].columns[k] == bb.columns[k].push(row[k]));
            assert(w2.is_alive(e));
            assert(w2.archetypes[b].entities.contains(e));
        },
        None => {
            let b = removed.archetypes.len() as int;
            assert(w2.archetypes == removed.archetypes.push(empty_archetype(new_id).pushed(e, row)));
            assert(w2.archetypes[b].entities[0] == e);
            assert forall|a1: int, r1: int, a2: int, r2: int|
                0 <= a1 < w2.archetypes.len() && 0 <= a2 < w2.archetypes.len() && 0 <= r1
                    < w2.archetypes[a1].entities.len() && 0 <= r2 < w2.archetypes[a2].entities.len()
                    && w2.archetypes[a1].entities[r1] == e && w2.archetypes[a2].entities[r2]
                    == e implies a1 == a2 && r1 == r2 by {
                if a1 != b {
                    assert(w2.archetypes[a1] == removed.archetypes[a1]);
                }
                if a2 != b {
                    assert(w2.archetypes[a2] == removed.archetypes[a2]);
                }
            }
            lemma_locate_only(w2, e, b, 0);
            assert(w2.archetypes[b].id == new_id);
            assert(new_id.contains(k));
            assert(w2.archetypes[b].columns[k] == Seq::<V>::empty().push(row[k]));
            assert(w2.archetypes[b].entities.contains(e));
        },
    }
}


/// Taking a component from a live entity that sits in one place and reading
/// it back gives nothing.
pub proof fn lemma_remove_then_absent<V>(w: WorldModel<V>, e: Entity, k: u32)
    requires
        w.wf(),
        w.is_alive(e),
        w.stored(e),
        held_at_most_once(w, e),
    ensures
        w.without_component(e, k).component(e, k) == None::<V>,
        held_at_most_once(w.without_component(e, k), e),
        w.without_component(e, k).stored(e),
{
    lemma_locate_some(w, e);
    let (a, r) = w.locate(e).unwrap();
    let arch = w.archetypes[a];
    if !arch.id.contains(k) {
        return;
    }
    let removed = w.with_archetypes(w.archetypes.update(a, arch.swap_removed(r)));
    let new_id = arch.id.remove(k);
    let row = arch.row(r).remove(k);
    let w2 = w.without_component(e, k);
    assert(w2.archetypes == removed.archetypes_with_row(new_id, e, row));
    assert forall|c: int, j: int|
        0 <= c < removed.archetypes.len() && 0 <= j < removed.archetypes[c].entities.len() implies
        removed.archetypes[c].entities[j] != e by {
        if c == a {
            let ents = arch.entities;
            let n = ents.len();
            if j == r {
                assert(removed.archetypes[c].entities[j] == ents[n - 1]);
                if ents[n - 1] == e {
                    assert(n - 1 == r);
                }
            } else {
                assert(removed.archetypes[c].entities[j] == ents[j]);
            }
        } else {
            assert(removed.archetypes[c] == w.archetypes[c]);
        }
    }
    let b = match removed.find_archetype(new_id) {
        Some(b) => b,
        None => removed.archetypes.len() as int,
    };
    let n = if b < removed.archetypes.len() {
        removed.archetypes[b].entities.len() as int
    } else {
        0
    };
    assert(w2.archetypes[b].entities[n] == e);
    assert forall|a1: int, r1: int, a2: int, r2: int|
        0 <= a1 < w2.archetypes.len() && 0 <= a2 < w2.archetypes.len() && 0 <= r1
            < w2.archetypes[a1].entities.len() && 0 <= r2 < w2.archetypes[a2].entities.len()
            && w2.archetypes[a1].entities[r1] == e && w2.archetypes[a2].entities[r2]
            == e implies a1 == a2 && r1 == r2 by {
        if a1 != b {
            assert(w2.archetypes[a1] == removed.archetypes[a1]);
        } else if r1 < n {
            assert(w2.archetypes[a1].entities[r1] == removed.archetypes[b].entities[r1]);
        }
        if a2 != b {
            assert(w2.archetypes[a2] == removed.archetypes[a2]);
        } else if r2 < n {
            assert(w2.archetypes[a2].entities[r2] == removed.archetypes[b].entities[r2]);
        }
    }
    lemma_locate_only(w2, e, b, n);
    assert(w2.archetypes[b].id == new_id);
    assert(w2.archetypes[b].entities.contains(e));
}

/// Setting one component leaves the other components of that entity as
/// they were, when it sits in one place.
pub proof fn lemma_add_keeps_other_kinds<V>(w: WorldModel<V>, e: Entity, k: u32, v: V, k2: u32)
    requires
        w.wf(),
        w.is_alive(e),
        w.stored(e),
        held_at_most_once(w, e),
        k2 != k,
    ensures
        w.with_component(e, k, v).component(e, k2) == w.component(e, k2),
{
    lemma_locate_some(w, e);
    let (a, r) = w.locate(e).unwrap();
    let arch = w.archetypes[a];
    let w2 = w.with_component(e, k, v);
    if arch.id.contains(k) {
        assert forall|c: int| 0 <= c < w2.archetypes.len() implies w2.archetypes[c].entities
            == w.archetypes[c].entities by {}
        lemma_locate_only(w2, e, a, r);
        assert(w2.archetypes[a].id == arch.id);
        if arch.id.contains(k2) {
            assert(w2.archetypes[a].columns[k2] == arch.columns[k2]);
        }
    } else {
        lemma_add_then_get(w, e, k, v);
        lemma_locate_some(w2, e);
        let (b, n) = w2.locate(e).unwrap();
        let removed = w.with_archetypes(w.archetypes.update(a, arch.swap_removed(r)));
        let new_id = arch.id.insert(k);
        let row = arch.row(r).insert(k, v);
        assert(w2.archetypes == removed.archetypes_with_row(new_id, e, row));
        // `e` sits at the end of the archetype with signature `new_id`
        assert forall|c: int, j: int|
            0 <= c < removed.archetypes.len() && 0 <= j < removed.archetypes[c].entities.len() implies
            removed.archetypes[c].entities[j] != e by {
            if c == a {
                let ents = arch.entities;
                let nn = ents.len();
                if j == r {
                    assert(removed.archetypes[c].entities[j] == ents[nn - 1]);
                    if ents[nn - 1] == e {
                        assert(nn - 1 == r);
                    }
                } else {
                    assert(removed.archetypes[c].entities[j] == ents[j]);
                }
            } else {
                assert(removed.archetypes[c] == w.archetypes[c]);
            }
        }
        match removed.find_archetype(new_id) {
            Some(bb) => {
                if b != bb {
                    assert(w2.archetypes[b] == removed.archetypes[b]);
                } else if n < removed.archetypes[bb].entities.len() {
                    assert(w2.archetypes[b].entities[n] == removed.archetypes[bb].entities[n]);
                }
                assert(b == bb);
                assert(n == removed.archetypes[bb].entities.len());
                assert(w2.archetypes[b].id == new_id);
                if new_id.contains(k2) {
                    assert(w2.archetypes[b].columns[k2] == removed.archetypes[bb].columns[k2].push(row[k2]));
                }
            },
            None => {
                let bb = removed.archetypes.len() as int;
                if b != bb {
                    assert(w2.archetypes[b] == removed.archetypes[b]);
                }
                assert(b == bb);
                assert(w2.archetypes[b].id == new_id);
                if new_id.contains(k2) {
                    assert(w2.archetypes[b].columns[k2] == Seq::<V>::empty().push(row[k2]));
                }
            },
        }
        assert(arch.row(r).insert(k, v)[k2] == arch.row(r)[k2] || !arch.id.contains(k2));
    }
}

/// The entities a query returns are those held by an archetype storing all
/// required kinds.
pub proof fn lemma_query_membership<V>(w: WorldModel<V>, required: Seq<u32>, e: Entity)
    ensures
        w.query_entities(required).contains(e) <==> exists|a: int|
            0 <= a < w.archetypes.len() && #[trigger] w.archetypes[a].entities.contains(e) && has_kinds(
                w.archetypes[a],
                required,
            ),
{
    lemma_matching_prefix(w, required, e, w.archetypes.len() as int);
}

pub(crate) proof fn lemma_matching_prefix<V>(w: WorldModel<V>, required: Seq<u32>, e: Entity, n: int)
    requires
        0 <= n <= w.archetypes.len(),
    ensures
        matching_prefix(w.archetypes, required, n).contains(e) <==> exists|a: int|
            0 <= a < n && #[trigger] w.archetypes[a].entities.contains(e) && has_kinds(
                w.archetypes[a],
                required,
            ),
    decreases n,
{
    if n > 0 {
        lemma_matching_prefix(w, required, e, n - 1);
        let prev = matching_prefix(w.archetypes, required, n - 1);
        let arch = w.archetypes[n - 1];
        if has_kinds(arch, required) {
            let cur = prev + arch.entities;
            assert(matching_prefix(w.archetypes, required, n) == cur);
            if cur.contains(e) {
                let i = choose|i: int| 0 <= i < cur.len() && cur[i] == e;
                if i < prev.len() {
                    assert(prev[i] == e);
                    assert(prev.contains(e));
                } else {
                    assert(arch.entities[i - prev.len()] == e);
                    assert(arch.entities.contains(e));
                }
            }
            if prev.contains(e) {
                let i = choose|i: int| 0 <= i < prev.len() && prev[i] == e;
                assert(cur[i] == e);
            }
            if arch.entities.contains(e) {
                let i = choose|i: int| 0 <= i < arch.entities.len() && arch.entities[i] == e;
                assert(cur[prev.len() + i] == e);
            }
        }
    }
}

/// For a live entity held in one place, a query finds it exactly when it
/// has every required component.
pub proof fn lemma_query_finds_components<V>(w: WorldModel<V>, required: Seq<u32>, e: Entity)
    requires
        w.wf(),
        w.is_alive(e),
        w.stored(e),
        held_at_most_once(w, e),
    ensures
        w.query_entities(required).contains(e) <==> forall|j: int|
            0 <= j < required.len() ==> (#[trigger] w.component(e, required[j])) is Some,
{
    lemma_query_membership(w, required, e);
    lemma_locate_some(w, e);
    let (a, r) = w.locate(e).unwrap();
    if w.query_entities(required).contains(e) {
        let c = choose|c: int|
            0 <= c < w.archetypes.len() && #[trigger] w.archetypes[c].entities.contains(e) && has_kinds(
                w.archetypes[c],
                required,
            );
        let j = choose|j: int| 0 <= j < w.archetypes[c].entities.len() && w.archetypes[c].entities[j] == e;
        assert(c == a);
        assert forall|i: int| 0 <= i < required.len() implies (#[trigger] w.component(e, required[i])) is Some by {
            assert(w.archetypes[a].id.contains(required[i]));
        }
    }
    if forall|j: int| 0 <= j < required.len() ==> (#[trigger] w.component(e, required[j])) is Some {
        assert forall|j: int| 0 <= j < required.len() implies w.archetypes[a].id.contains(#[trigger] required[j]) by {
            assert(w.component(e, required[j]) is Some);
        }
        assert(w.archetypes[a].entities.contains(e));
    }
}

} // verus!
