//! Archetype-based entity-component storage.

use vstd::prelude::*;

use crate::world_frames::tidy;
use crate::world_steps::{
    lemma_create_keeps_tidy, lemma_despawn_step, lemma_set_keeps_tidy, lemma_spawn_step,
    lemma_tables_keep_tidy, lemma_unset_step,
};

verus! {

broadcast use vstd::std_specs::hash::group_hash_axioms;

/// 64-bit generational entity handle: a slab index and a generation.
#[derive(Clone, Copy, Debug, PartialEq, Eq, Structural, Hash)]
pub struct Entity {
    pub index: u32,
    pub generation: u32,
}

/// The packed 64-bit form: the low 16 bits of the generation in the top
/// 16 bits, the index in the low 32 bits.
pub open spec fn packed_entity(index: u32, generation: u32) -> u64 {
    ((generation as u64) << 48u64) | (index as u64)
}

impl Entity {
    pub fn new(index: u32, generation: u32) -> (e: Self)
        ensures
            e.index == index,
            e.generation == generation,
    {
        Entity { index, generation }
    }

    pub fn to_u64(self) -> (raw: u64)
        ensures
            raw == packed_entity(self.index, self.generation),
            raw as int == (self.generation as int % 0x1_0000) * 0x1_0000_0000_0000
                + self.index as int,
    {
        let g = self.generation as u64;
        let i = self.index as u64;
        assert((g << 48u64) | i == (g % 0x1_0000) * 0x1_0000_0000_0000 + i) by (bit_vector)
            requires
                g <= 0xffff_ffff,
                i <= 0xffff_ffff,
        ;
        (g << 48u64) | i
    }

    pub fn from_u64(raw: u64) -> (e: Self)
        ensures
            e.index == raw as u32,
            e.generation == (raw >> 48u64) as u32,
            e.index as int == raw as int % 0x1_0000_0000,
            e.generation as int == raw as int / 0x1_0000_0000_0000,
    {
        assert(raw as u32 == raw % 0x1_0000_0000) by (bit_vector);
        assert((raw >> 48u64) as u32 == raw / 0x1_0000_0000_0000) by (bit_vector);
        Entity { index: raw as u32, generation: (raw >> 48u64) as u32 }
    }
}

/// Packing then unpacking a handle gives it back when its generation fits
/// in 16 bits (the packed form keeps only 16 generation bits).
pub proof fn lemma_entity_u64_round_trip(e: Entity)
    requires
        e.generation < 0x1_0000,
    ensures
        (packed_entity(e.index, e.generation) as u32) == e.index,
        ((packed_entity(e.index, e.generation) >> 48u64) as u32) == e.generation,
{
    let g = e.generation;
    let i = e.index;
    assert((((g as u64) << 48u64) | (i as u64)) as u32 == i) by (bit_vector);
    assert(((((g as u64) << 48u64) | (i as u64)) >> 48u64) as u32 == g) by (bit_vector)
        requires
            g < 0x1_0000,
    ;
}


// ---------------------------------------------------------------------------
// Slot model shared by the entity index and the world
// ---------------------------------------------------------------------------

/// A slot of the entity slab, as (generation, alive).
pub type SlotModel = (u32, bool);

/// Whether `e` names the live occupant of its slot.
pub open spec fn slot_alive(slots: Seq<SlotModel>, e: Entity) -> bool {
    &&& (e.index as int) < slots.len()
    &&& slots[e.index as int].1
    &&& slots[e.index as int].0 == e.generation
}

/// A slab is consistent with a free list when every listed slot exists,
/// is dead, and is listed once.
pub open spec fn free_list_ok(slots: Seq<SlotModel>, free_list: Seq<u32>) -> bool {
    &&& forall|i: int| 0 <= i < free_list.len() ==> (#[trigger] free_list[i] as int) < slots.len()
    &&& forall|i: int| 0 <= i < free_list.len() ==> !slots[#[trigger] free_list[i] as int].1
    &&& free_list.no_duplicates()
}

/// Whether the next allocation can bump a generation or an index without
/// overflow.
pub open spec fn can_alloc(slots: Seq<SlotModel>, free_list: Seq<u32>) -> bool {
    if free_list.len() > 0 {
        slots[free_list.last() as int].0 < u32::MAX
    } else {
        slots.len() < u32::MAX
    }
}

/// The handle that the next allocation hands out: the most recently freed
/// slot with its generation bumped, else a fresh slot with generation 1.
pub open spec fn alloc_entity(slots: Seq<SlotModel>, free_list: Seq<u32>) -> Entity {
    if free_list.len() > 0 {
        let id = free_list.last();
        Entity { index: id, generation: (slots[id as int].0 + 1) as u32 }
    } else {
        Entity { index: slots.len() as u32, generation: 1 }
    }
}

pub open spec fn alloc_slots(slots: Seq<SlotModel>, free_list: Seq<u32>) -> Seq<SlotModel> {
    let e = alloc_entity(slots, free_list);
    if free_list.len() > 0 {
        slots.update(e.index as int, (e.generation, true))
    } else {
        slots.push((1u32, true))
    }
}

pub open spec fn alloc_free_list(free_list: Seq<u32>) -> Seq<u32> {
    if free_list.len() > 0 {
        free_list.drop_last()
    } else {
        free_list
    }
}

/// The slab after occupying slot `e.index` with generation `e.generation`,
/// growing it with dead generation-0 slots as needed.
pub open spec fn alloc_at_slots(slots: Seq<SlotModel>, e: Entity) -> Seq<SlotModel> {
    let grown = if (e.index as int) < slots.len() {
        slots
    } else {
        slots + Seq::new((e.index as int + 1 - slots.len()) as nat, |i: int| (0u32, false))
    };
    grown.update(e.index as int, (e.generation, true))
}

pub open spec fn alloc_at_free_list(free_list: Seq<u32>, e: Entity) -> Seq<u32> {
    seq_without(free_list, e.index)
}

/// `s` with every occurrence of `x` taken out, order kept.
pub open spec fn seq_without(s: Seq<u32>, x: u32) -> Seq<u32>
    decreases s.len(),
{
    if s.len() == 0 {
        s
    } else if s.last() != x {
        seq_without(s.drop_last(), x).push(s.last())
    } else {
        seq_without(s.drop_last(), x)
    }
}

/// The slab after freeing `e`, which is only done when `e` is alive.
pub open spec fn free_slots(slots: Seq<SlotModel>, e: Entity) -> Seq<SlotModel> {
    if slot_alive(slots, e) {
        slots.update(e.index as int, (e.generation, false))
    } else {
        slots
    }
}

pub open spec fn free_free_list(slots: Seq<SlotModel>, free_list: Seq<u32>, e: Entity) -> Seq<u32> {
    if slot_alive(slots, e) {
        free_list.push(e.index)
    } else {
        free_list
    }
}

// ---------------------------------------------------------------------------
// EntityIndex — slab with generation tracking
// ---------------------------------------------------------------------------

#[derive(Clone, Copy, Debug)]
struct EntitySlot {
    generation: u32,
    alive: bool,
}

struct EntityIndex {
    slots: Vec<EntitySlot>,
    free_list: Vec<u32>,
    next_id: u32,
}

impl EntityIndex {
    spec fn slots_view(&self) -> Seq<SlotModel> {
        self.slots@.map_values(|s: EntitySlot| (s.generation, s.alive))
    }

    spec fn wf(&self) -> bool {
        &&& self.next_id as int == self.slots@.len()
        &&& free_list_ok(self.slots_view(), self.free_list@)
    }

    fn new() -> (r: Self)
        ensures
            r.wf(),
            r.slots_view() == Seq::<SlotModel>::empty(),
            r.free_list@ == Seq::<u32>::empty(),
    {
        let r = EntityIndex { slots: Vec::new(), free_list: Vec::new(), next_id: 0 };
        assert(r.slots_view() =~= Seq::<SlotModel>::empty());
        r
    }

    fn allocate(&mut self) -> (e: Entity)
        requires
            old(self).wf(),
            can_alloc(old(self).slots_view(), old(self).free_list@),
        ensures
            final(self).wf(),
            e == alloc_entity(old(self).slots_view(), old(self).free_list@),
            final(self).slots_view() == alloc_slots(old(self).slots_view(), old(self).free_list@),
            final(self).free_list@ == alloc_free_list(old(self).free_list@),
    {
        let ghost old_slots = self.slots_view();
        let ghost old_free = self.free_list@;
        if let Some(id) = self.free_list.pop() {
            let mut slot = self.slots[id as usize];
            slot.alive = true;
            slot.generation = slot.generation + 1;
            self.slots.set(id as usize, slot);
            proof {
                assert(self.slots_view() =~= old_slots.update(id as int, (slot.generation, true)));
                assert forall|i: int| 0 <= i < self.free_list@.len() implies
                    !self.slots_view()[#[trigger] self.free_list@[i] as int].1 by {
                    assert(old_free[i] == self.free_list@[i]);
                    assert(old_free[old_free.len() - 1] == id);
                    assert(self.free_list@[i] != id);
                }
            }
            Entity::new(id, slot.generation)
        } else {
            let id = self.next_id;
            self.next_id = self.next_id + 1;
            let generation: u32 = 1;
            self.slots.push(EntitySlot { generation, alive: true });
            proof {
                assert(self.slots_view() =~= old_slots.push((1u32, true)));
            }
            Entity::new(id, generation)
        }
    }

    fn alloc_at(&mut self, entity: Entity)
        requires
            old(self).wf(),
            entity.index < u32::MAX,
        ensures
            final(self).wf(),
            final(self).slots_view() == alloc_at_slots(old(self).slots_view(), entity),
            final(self).free_list@ == alloc_at_free_list(old(self).free_list@, entity),
    {
        let ghost old_slots = self.slots_view();
        let ghost old_free = self.free_list@;
        let id = entity.index as usize;
        if id >= self.slots.len() {
            let ghost start = self.slots@.len();
            while self.slots.len() < id + 1
                invariant
                    start <= self.slots@.len() <= id + 1,
                    start == old_slots.len(),
                    id + 1 <= u32::MAX,
                    self.free_list@ == old_free,
                    self.next_id == old(self).next_id,
                    id == entity.index,
                    self.slots_view() =~= old_slots + Seq::new(
                        (self.slots@.len() - start) as nat,
                        |i: int| (0u32, false),
                    ),
                decreases id + 1 - self.slots@.len(),
            {
                let ghost before = self.slots_view();
                self.slots.push(EntitySlot { generation: 0, alive: false });
                proof {
                    assert(self.slots_view() =~= before.push((0u32, false)));
                    assert(self.slots_view() =~= old_slots + Seq::new(
                        (self.slots@.len() - start) as nat,
                        |i: int| (0u32, false),
                    ));
                }
            }
        }
        let ghost grown = self.slots_view();
        self.slots.set(id, EntitySlot { generation: entity.generation, alive: true });
        if entity.index >= self.next_id {
            self.next_id = entity.index + 1;
        }
        let mut kept: Vec<u32> = Vec::new();
        let mut i: usize = 0;
        while i < self.free_list.len()
            invariant
                0 <= i <= self.free_list@.len(),
                self.free_list@ == old_free,
                old_free.no_duplicates(),
                kept@ == seq_without(old_free.take(i as int), entity.index),
                kept@.no_duplicates(),
                forall|k: int| 0 <= k < kept@.len() ==> #[trigger] kept@[k] != entity.index,
                forall|k: int| 0 <= k < kept@.len() ==> old_free.take(i as int).contains(#[trigger] kept@[k]),
            decreases self.free_list@.len() - i,
        {
            let f = self.free_list[i];
            proof {
                assert(old_free.take(i + 1).drop_last() =~= old_free.take(i as int));
                assert(old_free.take(i + 1).last() == f);
                assert forall|k: int| 0 <= k < kept@.len() implies #[trigger] kept@[k] != f by {
                    let j = choose|j: int| 0 <= j < i && old_free.take(i as int)[j] == kept@[k];
                    assert(old_free[j] == kept@[k]);
                }
                assert forall|k: int| 0 <= k < kept@.len() implies
                    old_free.take(i + 1).contains(#[trigger] kept@[k]) by {
                    let j = choose|j: int| 0 <= j < i && old_free.take(i as int)[j] == kept@[k];
                    assert(old_free.take(i + 1)[j] == kept@[k]);
                }
            }
            if f != entity.index {
                kept.push(f);
                proof {
                    assert(old_free.take(i + 1)[i as int] == f);
                }
            }
            i = i + 1;
        }
        proof {
            assert(old_free.take(old_free.len() as int) =~= old_free);
        }
        self.free_list = kept;
        proof {
            assert(self.slots_view() =~= alloc_at_slots(old_slots, entity));
            let fl = self.free_list@;
            assert forall|k: int| 0 <= k < fl.len() implies
                (#[trigger] fl[k] as int) < self.slots_view().len()
                && !self.slots_view()[fl[k] as int].1 by {
                let j = choose|j: int| 0 <= j < old_free.len() && old_free[j] == fl[k];
                assert(old_free[j] == fl[k]);
                assert(fl[k] != entity.index);
            }
        }
    }

    fn free(&mut self, entity: Entity) -> (freed: bool)
        requires
            old(self).wf(),
        ensures
            final(self).wf(),
            freed == slot_alive(old(self).slots_view(), entity),
            final(self).slots_view() == free_slots(old(self).slots_view(), entity),
            final(self).free_list@ == free_free_list(old(self).slots_view(), old(self).free_list@, entity),
    {
        let ghost old_slots = self.slots_view();
        let ghost old_free = self.free_list@;
        let id = entity.index as usize;
        if id < self.slots.len() {
            let slot = self.slots[id];
            if slot.alive && slot.generation == entity.generation {
                self.slots.set(id, EntitySlot { generation: slot.generation, alive: false });
                self.free_list.push(entity.index);
                proof {
                    assert(self.slots_view() =~= old_slots.update(id as int, (entity.generation, false)));
                    assert(!old_free.contains(entity.index));
                    assert forall|a: int, b: int| 0 <= a < b < self.free_list@.len() implies
                        self.free_list@[a] != self.free_list@[b] by {
                        if b == self.free_list@.len() - 1 {
                            assert(old_free[a] == self.free_list@[a]);
                        }
                    }
                }
                return true;
            }
        }
        false
    }

    fn is_alive(&self, entity: Entity) -> (alive: bool)
        requires
            self.wf(),
        ensures
            alive == slot_alive(self.slots_view(), entity),
    {
        let id = entity.index as usize;
        if id < self.slots.len() {
            let slot = self.slots[id];
            slot.alive && slot.generation == entity.generation
        } else {
            false
        }
    }

    fn generation(&self, index: u32) -> (g: u32)
        requires
            self.wf(),
        ensures
            g == if (index as int) < self.slots_view().len() {
                self.slots_view()[index as int].0
            } else {
                0
            },
    {
        let id = index as usize;
        if id < self.slots.len() {
            self.slots[id].generation
        } else {
            0
        }
    }
}


// ---------------------------------------------------------------------------
// ArchetypeId — sorted component signature
// ---------------------------------------------------------------------------

pub open spec fn strictly_sorted(s: Seq<u32>) -> bool {
    forall|i: int, j: int| 0 <= i < j < s.len() ==> s[i] < s[j]
}

/// Two strictly increasing sequences with the same elements are equal.
pub proof fn lemma_sorted_same_elements(s: Seq<u32>, t: Seq<u32>)
    requires
        strictly_sorted(s),
        strictly_sorted(t),
        s.to_set() == t.to_set(),
    ensures
        s == t,
    decreases s.len(),
{
    if s.len() == 0 {
        if t.len() > 0 {
            assert(t.to_set().contains(t[0]));
        }
        assert(s =~= t);
    } else if t.len() == 0 {
        assert(s.to_set().contains(s[0]));
    } else {
        assert(s.to_set().contains(s[0]));
        assert(t.to_set().contains(t[0]));
        let j = choose|j: int| 0 <= j < t.len() && t[j] == s[0];
        let i = choose|i: int| 0 <= i < s.len() && s[i] == t[0];
        if j > 0 {
            assert(t[0] < t[j]);
        }
        if i > 0 {
            assert(s[0] < s[i]);
        }
        assert(s[0] == t[0]);
        let s1 = s.drop_first();
        let t1 = t.drop_first();
        assert forall|x: u32| s1.to_set().contains(x) implies t1.to_set().contains(x) by {
            let a = choose|a: int| 0 <= a < s1.len() && s1[a] == x;
            assert(s[a + 1] == x);
            assert(s[0] < s[a + 1]);
            assert(t.to_set().contains(x));
            let b = choose|b: int| 0 <= b < t.len() && t[b] == x;
            assert(b != 0);
            assert(t1[b - 1] == x);
        }
        assert forall|x: u32| t1.to_set().contains(x) implies s1.to_set().contains(x) by {
            let a = choose|a: int| 0 <= a < t1.len() && t1[a] == x;
            assert(t[a + 1] == x);
            assert(t[0] < t[a + 1]);
            assert(s.to_set().contains(x));
            let b = choose|b: int| 0 <= b < s.len() && s[b] == x;
            assert(b != 0);
            assert(s1[b - 1] == x);
        }
        assert(s1.to_set() =~= t1.to_set());
        lemma_sorted_same_elements(s1, t1);
        assert(s =~= seq![s[0]] + s1);
        assert(t =~= seq![t[0]] + t1);
    }
}

/// In a strictly increasing sequence an element sits at one position only.
pub proof fn lemma_sorted_position(s: Seq<u32>, i: int, j: int)
    requires
        strictly_sorted(s),
        0 <= i < s.len(),
        0 <= j < s.len(),
        s[i] == s[j],
    ensures
        i == j,
{
    if i < j {
        assert(s[i] < s[j]);
    } else if j < i {
        assert(s[j] < s[i]);
    }
}

/// The sorted, duplicate-free set of component kinds an archetype stores.
#[derive(Clone, Debug)]
pub struct ArchetypeId {
    components: Vec<u32>,
}

impl View for ArchetypeId {
    type V = Seq<u32>;

    closed spec fn view(&self) -> Seq<u32> {
        self.components@
    }
}

/// Inserts `k` into a strictly sorted vector unless it is already there.
fn insert_sorted(v: &mut Vec<u32>, k: u32) -> (p: usize)
    requires
        strictly_sorted(old(v)@),
    ensures
        strictly_sorted(final(v)@),
        final(v)@.to_set() == old(v)@.to_set().insert(k),
        old(v)@.contains(k) ==> final(v)@ == old(v)@,
        !old(v)@.contains(k) ==> p <= old(v)@.len() && final(v)@ == old(v)@.insert(p as int, k),
{
    let ghost s = v@;
    let mut p: usize = 0;
    while p < v.len() && v[p] < k
        invariant
            0 <= p <= v@.len(),
            v@ == s,
            strictly_sorted(s),
            forall|i: int| 0 <= i < p ==> s[i] < k,
        decreases v@.len() - p,
    {
        p = p + 1;
    }
    if p < v.len() && v[p] == k {
        assert(s.to_set().insert(k) =~= s.to_set());
        return p;
    }
    v.insert(p, k);
    proof {
        let t = v@;
        assert(t =~= s.insert(p as int, k));
        assert forall|i: int, j: int| 0 <= i < j < t.len() implies t[i] < t[j] by {
            if j < p {
            } else if i < p && j == p {
            } else if i < p {
                assert(t[j] == s[j - 1]);
                assert(s[i] < k);
                if j - 1 > p {
                    assert(s[p as int] < s[j - 1]);
                }
                assert(s[p as int] > k);
            } else if i == p {
                assert(t[j] == s[j - 1]);
                if j - 1 > p {
                    assert(s[p as int] < s[j - 1]);
                }
            } else {
                assert(t[i] == s[i - 1]);
                assert(t[j] == s[j - 1]);
            }
        }
        assert forall|x: u32| t.to_set().contains(x) <==> s.to_set().insert(k).contains(x) by {
            if t.to_set().contains(x) {
                let i = choose|i: int| 0 <= i < t.len() && t[i] == x;
                if i < p {
                    assert(s[i] == x);
                } else if i > p {
                    assert(s[i - 1] == x);
                }
            }
            if s.to_set().contains(x) {
                let i = choose|i: int| 0 <= i < s.len() && s[i] == x;
                if i < p {
                    assert(t[i] == x);
                } else {
                    assert(t[i + 1] == x);
                }
            }
            if x == k {
                assert(t[p as int] == k);
            }
        }
        assert(t.to_set() =~= s.to_set().insert(k));
        if s.contains(k) {
            let i = choose|i: int| 0 <= i < s.len() && s[i] == k;
            if i < p {
                assert(s[i] < k);
            } else {
                if i > p {
                    assert(s[p as int] < s[i]);
                }
            }
        }
    }
    p
}

impl ArchetypeId {
    /// Builds the signature of a component list: sorted, duplicates dropped.
    pub fn new(components: Vec<u32>) -> (r: Self)
        ensures
            strictly_sorted(r@),
            r@.to_set() == components@.to_set(),
    {
        let mut sorted: Vec<u32> = Vec::new();
        let mut i: usize = 0;
        while i < components.len()
            invariant
                0 <= i <= components@.len(),
                strictly_sorted(sorted@),
                sorted@.to_set() == components@.take(i as int).to_set(),
            decreases components@.len() - i,
        {
            insert_sorted(&mut sorted, components[i]);
            proof {
                let pre = components@.take(i as int);
                let pre1 = components@.take(i + 1);
                let c = components@[i as int];
                assert forall|x: u32| pre1.to_set().contains(x) implies pre.to_set().insert(c).contains(x) by {
                    let j = choose|j: int| 0 <= j < pre1.len() && pre1[j] == x;
                    if j < i {
                        assert(pre[j] == x);
                    }
                }
                assert forall|x: u32| pre.to_set().contains(x) implies pre1.to_set().contains(x) by {
                    let j = choose|j: int| 0 <= j < pre.len() && pre[j] == x;
                    assert(pre1[j] == x);
                }
                assert(pre1[i as int] == c);
                assert(pre1.to_set() =~= pre.to_set().insert(c));
            }
            i = i + 1;
        }
        assert(components@.take(components@.len() as int) =~= components@);
        ArchetypeId { components: sorted }
    }

    /// The signature with `kind` added, and the position `kind` takes in it
    /// when it was not there before.
    fn with(&self, kind: u32) -> (r: (Self, usize))
        requires
            strictly_sorted(self@),
        ensures
            strictly_sorted(r.0@),
            r.0@.to_set() == self@.to_set().insert(kind),
            self@.contains(kind) ==> r.0@ == self@,
            !self@.contains(kind) ==> r.1 <= self@.len() && r.0@ == self@.insert(r.1 as int, kind),
    {
        let mut c = self.components.clone();
        assert(c@ == self@);
        let p = insert_sorted(&mut c, kind);
        (ArchetypeId { components: c }, p)
    }

    /// The signature with `kind` taken out, and the position it had.
    fn without(&self, kind: u32) -> (r: (Self, Option<usize>))
        requires
            strictly_sorted(self@),
        ensures
            strictly_sorted(r.0@),
            r.0@.to_set() == self@.to_set().remove(kind),
            match r.1 {
                Some(p) => p < self@.len() && self@[p as int] == kind && r.0@ == self@.remove(p as int),
                None => !self@.contains(kind) && r.0@ == self@,
            },
    {
        match self.position_of(kind) {
            Some(p) => {
                let mut c = self.components.clone();
                assert(c@ == self@);
                c.remove(p);
                proof {
                    let s = self@;
                    let t = c@;
                    assert(t =~= s.remove(p as int));
                    assert forall|i: int, j: int| 0 <= i < j < t.len() implies t[i] < t[j] by {
                        if j < p {
                        } else if i < p {
                            assert(t[j] == s[j + 1]);
                        } else {
                            assert(t[i] == s[i + 1]);
                            assert(t[j] == s[j + 1]);
                        }
                    }
                    assert forall|x: u32| t.to_set().contains(x) <==> s.to_set().remove(kind).contains(x) by {
                        if t.to_set().contains(x) {
                            let i = choose|i: int| 0 <= i < t.len() && t[i] == x;
                            if i < p {
                                assert(s[i] == x);
                                assert(s[i] < s[p as int]);
                            } else {
                                assert(s[i + 1] == x);
                                assert(s[p as int] < s[i + 1]);
                            }
                        }
                        if s.to_set().remove(kind).contains(x) {
                            let i = choose|i: int| 0 <= i < s.len() && s[i] == x;
                            assert(i != p);
                            if i < p {
                                assert(t[i] == x);
                            } else {
                                assert(t[i - 1] == x);
                            }
                        }
                    }
                    assert(t.to_set() =~= s.to_set().remove(kind));
                }
                (ArchetypeId { components: c }, Some(p))
            },
            None => {
                let c = self.components.clone();
                assert(c@ == self@);
                assert(self@.to_set().remove(kind) =~= self@.to_set());
                (ArchetypeId { components: c }, None)
            },
        }
    }

    /// Whether `kind` is in the signature.
    fn contains(&self, kind: u32) -> (b: bool)
        ensures
            b == self@.contains(kind),
    {
        let mut i: usize = 0;
        while i < self.components.len()
            invariant
                0 <= i <= self@.len(),
                forall|j: int| 0 <= j < i ==> self@[j] != kind,
            decreases self@.len() - i,
        {
            if self.components[i] == kind {
                return true;
            }
            i = i + 1;
        }
        false
    }

    /// Whether every kind of `required` is in the signature.
    fn is_superset_of(&self, required: &[u32]) -> (b: bool)
        ensures
            b == forall|j: int| 0 <= j < required@.len() ==> self@.contains(#[trigger] required@[j]),
    {
        let mut j: usize = 0;
        while j < required.len()
            invariant
                0 <= j <= required@.len(),
                forall|i: int| 0 <= i < j ==> self@.contains(#[trigger] required@[i]),
            decreases required@.len() - j,
        {
            if !self.contains(required[j]) {
                return false;
            }
            j = j + 1;
        }
        true
    }

    /// Position of `kind` in the signature.
    fn position_of(&self, kind: u32) -> (p: Option<usize>)
        ensures
            match p {
                Some(i) => i < self@.len() && self@[i as int] == kind,
                None => !self@.contains(kind),
            },
    {
        let mut i: usize = 0;
        while i < self.components.len()
            invariant
                0 <= i <= self@.len(),
                forall|j: int| 0 <= j < i ==> self@[j] != kind,
            decreases self@.len() - i,
        {
            if self.components[i] == kind {
                return Some(i);
            }
            i = i + 1;
        }
        None
    }

    /// Whether two signatures list the same kinds.
    fn same_as(&self, other: &ArchetypeId) -> (b: bool)
        ensures
            b == (self@ == other@),
    {
        if self.components.len() != other.components.len() {
            return false;
        }
        let mut i: usize = 0;
        while i < self.components.len()
            invariant
                0 <= i <= self@.len(),
                self@.len() == other@.len(),
                forall|j: int| 0 <= j < i ==> self@[j] == other@[j],
            decreases self@.len() - i,
        {
            if self.components[i] != other.components[i] {
                return false;
            }
            i = i + 1;
        }
        assert(self@ =~= other@);
        true
    }
}


// ---------------------------------------------------------------------------
// Archetype model
// ---------------------------------------------------------------------------

/// The component values of one row, keyed by component kind, from values
/// listed in the order of a signature.
pub open spec fn row_map<V>(ids: Seq<u32>, vals: Seq<V>) -> Map<u32, V> {
    Map::new(|k: u32| ids.contains(k), |k: u32| vals[ids.index_of(k)])
}

/// In a strictly increasing sequence `index_of` finds the one position.
pub proof fn lemma_index_of_sorted(s: Seq<u32>, i: int)
    requires
        strictly_sorted(s),
        0 <= i < s.len(),
    ensures
        s.index_of(s[i]) == i,
{
    assert(s.contains(s[i]));
    let c = s.index_of(s[i]);
    lemma_sorted_position(s, c, i);
}

proof fn lemma_row_map_insert<V>(ids: Seq<u32>, vals: Seq<V>, p: int, k: u32, v: V)
    requires
        strictly_sorted(ids.insert(p, k)),
        strictly_sorted(ids),
        !ids.contains(k),
        vals.len() == ids.len(),
        0 <= p <= ids.len(),
    ensures
        row_map(ids.insert(p, k), vals.insert(p, v)) == row_map(ids, vals).insert(k, v),
{
    let ids2 = ids.insert(p, k);
    let vals2 = vals.insert(p, v);
    assert forall|x: u32| #[trigger] row_map(ids2, vals2).contains_key(x) <==> row_map(ids, vals).insert(k, v).contains_key(x) by {
        if ids2.contains(x) && x != k {
            let i = choose|i: int| 0 <= i < ids2.len() && ids2[i] == x;
            if i < p {
                assert(ids[i] == x);
            } else {
                assert(ids[i - 1] == x);
            }
        }
        if ids.contains(x) {
            let i = choose|i: int| 0 <= i < ids.len() && ids[i] == x;
            if i < p {
                assert(ids2[i] == x);
            } else {
                assert(ids2[i + 1] == x);
            }
        }
        assert(ids2[p] == k);
    }
    assert forall|x: u32| #[trigger] row_map(ids2, vals2).contains_key(x) implies row_map(ids2, vals2)[x]
        == row_map(ids, vals).insert(k, v)[x] by {
        if x == k {
            assert(ids2[p] == k);
            lemma_index_of_sorted(ids2, p);
        } else {
            let i = choose|i: int| 0 <= i < ids2.len() && ids2[i] == x;
            lemma_index_of_sorted(ids2, i);
            if i < p {
                assert(ids[i] == x);
                lemma_index_of_sorted(ids, i);
            } else {
                assert(ids[i - 1] == x);
                lemma_index_of_sorted(ids, i - 1);
            }
        }
    }
    assert(row_map(ids2, vals2) =~= row_map(ids, vals).insert(k, v));
}

proof fn lemma_row_map_remove<V>(ids: Seq<u32>, vals: Seq<V>, p: int)
    requires
        strictly_sorted(ids),
        strictly_sorted(ids.remove(p)),
        vals.len() == ids.len(),
        0 <= p < ids.len(),
    ensures
        row_map(ids.remove(p), vals.remove(p)) == row_map(ids, vals).remove(ids[p]),
{
    let ids2 = ids.remove(p);
    let vals2 = vals.remove(p);
    let k = ids[p];
    assert forall|x: u32| #[trigger] row_map(ids2, vals2).contains_key(x) <==> row_map(ids, vals).remove(k).contains_key(x) by {
        if ids2.contains(x) {
            let i = choose|i: int| 0 <= i < ids2.len() && ids2[i] == x;
            if i < p {
                assert(ids[i] == x);
                assert(ids[i] < ids[p]);
            } else {
                assert(ids[i + 1] == x);
                assert(ids[p] < ids[i + 1]);
            }
        }
        if ids.contains(x) && x != k {
            let i = choose|i: int| 0 <= i < ids.len() && ids[i] == x;
            if i < p {
                assert(ids2[i] == x);
            } else {
                assert(i != p);
                assert(ids2[i - 1] == x);
            }
        }
    }
    assert forall|x: u32| #[trigger] row_map(ids2, vals2).contains_key(x) implies row_map(ids2, vals2)[x]
        == row_map(ids, vals).remove(k)[x] by {
        let i = choose|i: int| 0 <= i < ids2.len() && ids2[i] == x;
        lemma_index_of_sorted(ids2, i);
        if i < p {
            assert(ids[i] == x);
            lemma_index_of_sorted(ids, i);
        } else {
            assert(ids[i + 1] == x);
            lemma_index_of_sorted(ids, i + 1);
        }
    }
    assert(row_map(ids2, vals2) =~= row_map(ids, vals).remove(k));
}

/// An archetype: the entities sharing one component signature, one row per
/// entity, one value column per component kind.
#[verifier::ext_equal]
pub ghost struct ArchetypeModel<V> {
    pub id: Set<u32>,
    pub entities: Seq<Entity>,
    pub columns: Map<u32, Seq<V>>,
}

pub open spec fn empty_archetype<V>(id: Set<u32>) -> ArchetypeModel<V> {
    ArchetypeModel {
        id,
        entities: Seq::empty(),
        columns: Map::new(|k: u32| id.contains(k), |k: u32| Seq::<V>::empty()),
    }
}

impl<V> ArchetypeModel<V> {
    pub open spec fn wf(self) -> bool {
        &&& self.id.finite()
        &&& self.columns.dom() == self.id
        &&& forall|k: u32| self.id.contains(k) ==> #[trigger] self.columns[k].len() == self.entities.len()
    }

    /// The component values of row `r`.
    pub open spec fn row(self, r: int) -> Map<u32, V> {
        Map::new(|k: u32| self.id.contains(k), |k: u32| self.columns[k][r])
    }

    /// The archetype with a row appended.
    pub open spec fn pushed(self, e: Entity, row: Map<u32, V>) -> Self {
        ArchetypeModel {
            id: self.id,
            entities: self.entities.push(e),
            columns: Map::new(|k: u32| self.id.contains(k), |k: u32| self.columns[k].push(row[k])),
        }
    }

    /// The archetype with row `r` replaced by its last row, the last row
    /// dropped.
    pub open spec fn swap_removed(self, r: int) -> Self {
        ArchetypeModel {
            id: self.id,
            entities: self.entities.update(r, self.entities.last()).drop_last(),
            columns: Map::new(
                |k: u32| self.id.contains(k),
                |k: u32| self.columns[k].update(r, self.columns[k].last()).drop_last(),
            ),
        }
    }

    /// The archetype with the value of component `k` in row `r` replaced.
    pub open spec fn with_cell(self, r: int, k: u32, v: V) -> Self {
        ArchetypeModel {
            id: self.id,
            entities: self.entities,
            columns: self.columns.insert(k, self.columns[k].update(r, v)),
        }
    }
}

// ---------------------------------------------------------------------------
// ComponentColumn — one component kind's values, one per row
// ---------------------------------------------------------------------------

struct ComponentColumn<V> {
    values: Vec<V>,
}

impl<V> ComponentColumn<V> {
    fn new() -> (c: Self)
        ensures
            c.values@ == Seq::<V>::empty(),
    {
        ComponentColumn { values: Vec::new() }
    }

    fn push_value(&mut self, val: V)
        ensures
            final(self).values@ == old(self).values@.push(val),
    {
        self.values.push(val);
    }

    fn get(&self, row: usize) -> (r: Option<&V>)
        ensures
            match r {
                Some(v) => row < self.values@.len() && *v == self.values@[row as int],
                None => row >= self.values@.len(),
            },
    {
        if row < self.values.len() {
            Some(&self.values[row])
        } else {
            None
        }
    }

    fn write_value(&mut self, row: usize, val: V)
        ensures
            row < old(self).values@.len() ==> final(self).values@ == old(self).values@.update(row as int, val),
            row >= old(self).values@.len() ==> final(self).values@ == old(self).values@,
    {
        if row < self.values.len() {
            self.values.set(row, val);
        }
    }

    fn swap_remove(&mut self, row: usize) -> (v: V)
        requires
            row < old(self).values@.len(),
        ensures
            v == old(self).values@[row as int],
            final(self).values@ == old(self).values@.update(row as int, old(self).values@.last()).drop_last(),
    {
        self.values.swap_remove(row)
    }

    fn len(&self) -> (n: usize)
        ensures
            n == self.values@.len(),
    {
        self.values.len()
    }
}

// ---------------------------------------------------------------------------
// Archetype — entities sharing the same component signature
// ---------------------------------------------------------------------------

struct Archetype<V> {
    id: ArchetypeId,
    entities: Vec<Entity>,
    columns: Vec<ComponentColumn<V>>,
}

impl<V> Archetype<V> {
    spec fn wf(&self) -> bool {
        &&& strictly_sorted(self.id@)
        &&& self.columns@.len() == self.id@.len()
        &&& forall|i: int| 0 <= i < self.columns@.len() ==> (#[trigger] self.columns@[i]).values@.len()
            == self.entities@.len()
    }

    spec fn view(&self) -> ArchetypeModel<V> {
        ArchetypeModel {
            id: self.id@.to_set(),
            entities: self.entities@,
            columns: Map::new(
                |k: u32| self.id@.contains(k),
                |k: u32| self.columns@[self.id@.index_of(k)].values@,
            ),
        }
    }

    proof fn lemma_view_wf(&self)
        requires
            self.wf(),
        ensures
            self.view().wf(),
    {
        assert(self.view().columns.dom() =~= self.view().id);
        assert forall|k: u32| self.view().id.contains(k) implies #[trigger] self.view().columns[k].len()
            == self.view().entities.len() by {
            let i = self.id@.index_of(k);
            assert(self.id@.contains(k));
            assert(self.columns@[i].values@.len() == self.entities@.len());
        }
        vstd::seq_lib::seq_to_set_is_finite(self.id@);
    }

    fn new(id: ArchetypeId) -> (a: Self)
        requires
            strictly_sorted(id@),
        ensures
            a.wf(),
            a.id@ == id@,
            a.view() == empty_archetype::<V>(id@.to_set()),
    {
        let mut columns: Vec<ComponentColumn<V>> = Vec::new();
        let mut i: usize = 0;
        let n = id.components.len();
        while i < n
            invariant
                0 <= i <= n,
                n == id@.len(),
                columns@.len() == i,
                forall|j: int| 0 <= j < i ==> (#[trigger] columns@[j]).values@ == Seq::<V>::empty(),
            decreases n - i,
        {
            columns.push(ComponentColumn::new());
            i = i + 1;
        }
        let a = Archetype { id, entities: Vec::new(), columns };
        proof {
            assert forall|k: u32| #[trigger] a.view().columns.contains_key(k) implies a.view().columns[k]
                =~= empty_archetype::<V>(id@.to_set()).columns[k] by {
                assert(id@.contains(k));
            }
            assert(a.view().columns =~~= empty_archetype::<V>(id@.to_set()).columns);
            assert(a.view() =~~= empty_archetype::<V>(id@.to_set()));
        }
        a
    }

    fn row_of(&self, entity: Entity) -> (r: Option<usize>)
        ensures
            match r {
                Some(i) => i < self.entities@.len() && self.entities@[i as int] == entity && forall|j: int|
                    0 <= j < i ==> self.entities@[j] != entity,
                None => !self.entities@.contains(entity),
            },
    {
        let mut i: usize = 0;
        while i < self.entities.len()
            invariant
                0 <= i <= self.entities@.len(),
                forall|j: int| 0 <= j < i ==> self.entities@[j] != entity,
            decreases self.entities@.len() - i,
        {
            if self.entities[i] == entity {
                return Some(i);
            }
            i = i + 1;
        }
        None
    }

    fn entity_count(&self) -> (n: usize)
        ensures
            n == self.entities@.len(),
    {
        self.entities.len()
    }

    /// Removes row `row` by moving the last row into its place. Gives back
    /// the entity that moved into `row` (none when `row` was the last) and
    /// the removed row's values in signature order.
    fn swap_remove(&mut self, row: usize) -> (r: (Option<Entity>, Vec<V>))
        requires
            old(self).wf(),
            row < old(self).entities@.len(),
        ensures
            final(self).wf(),
            final(self).id@ == old(self).id@,
            final(self).view() == old(self).view().swap_removed(row as int),
            r.1@.len() == old(self).id@.len(),
            row_map(old(self).id@, r.1@) == old(self).view().row(row as int),
            r.0 == (if row + 1 < old(self).entities@.len() {
                Some(old(self).entities@.last())
            } else {
                None::<Entity>
            }),
    {
        let ghost old_cols = self.columns@;
        let ghost old_view = self.view();
        let ghost ids = self.id@;
        let n = self.columns.len();
        let mut vals: Vec<V> = Vec::new();
        let mut i: usize = 0;
        while i < n
            invariant
                0 <= i <= n,
                n == old_cols.len(),
                self.columns@.len() == n,
                self.id@ == ids,
                self.entities@ == old(self).entities@,
                row < self.entities@.len(),
                forall|j: int| 0 <= j < old_cols.len() ==> (#[trigger] old_cols[j]).values@.len()
                    == self.entities@.len(),
                forall|j: int| 0 <= j < i ==> (#[trigger] self.columns@[j]).values@
                    == old_cols[j].values@.update(row as int, old_cols[j].values@.last()).drop_last(),
                forall|j: int| i <= j < n ==> #[trigger] self.columns@[j] == old_cols[j],
                vals@.len() == i,
                forall|j: int| 0 <= j < i ==> #[trigger] vals@[j] == old_cols[j].values@[row as int],
            decreases n - i,
        {
            let v = self.columns[i].swap_remove(row);
            vals.push(v);
            i = i + 1;
        }
        let last = self.entities.len() - 1;
        self.entities.swap_remove(row);
        let moved = if row < last {
            Some(self.entities[row])
        } else {
            None
        };
        proof {
            let nv = self.view();
            let target = old_view.swap_removed(row as int);
            assert(nv.entities =~= target.entities);
            assert forall|k: u32| #[trigger] nv.columns.contains_key(k) implies nv.columns[k]
                == target.columns[k] by {
                assert(ids.contains(k));
            }
            assert(nv.columns =~= target.columns);
            assert(nv =~~= target);
            assert forall|k: u32| #[trigger] row_map(ids, vals@).contains_key(k) implies row_map(ids, vals@)[k]
                == old_view.row(row as int)[k] by {
                assert(ids.contains(k));
            }
            assert(row_map(ids, vals@) =~= old_view.row(row as int));
        }
        (moved, vals)
    }

    /// Appends a row: `entity` with `vals`, given in signature order.
    fn push_row(&mut self, entity: Entity, vals: Vec<V>)
        requires
            old(self).wf(),
            vals@.len() == old(self).id@.len(),
        ensures
            final(self).wf(),
            final(self).id@ == old(self).id@,
            final(self).view() == old(self).view().pushed(entity, row_map(old(self).id@, vals@)),
    {
        let ghost old_cols = self.columns@;
        let ghost old_view = self.view();
        let ghost ids = self.id@;
        let ghost all_vals = vals@;
        let mut vals = vals;
        let mut i: usize = self.columns.len();
        while i > 0
            invariant
                0 <= i <= old_cols.len(),
                self.columns@.len() == old_cols.len(),
                self.id@ == ids,
                all_vals.len() == ids.len(),
                old_cols.len() == ids.len(),
                self.entities@ == old(self).entities@,
                vals@ == all_vals.take(i as int),
                forall|j: int| i <= j < old_cols.len() ==> (#[trigger] self.columns@[j]).values@
                    == old_cols[j].values@.push(all_vals[j]),
                forall|j: int| 0 <= j < i ==> #[trigger] self.columns@[j] == old_cols[j],
            decreases i,
        {
            let v = vals.pop().unwrap();
            proof {
                assert(v == all_vals[i - 1]);
                assert(vals@ =~= all_vals.take(i - 1));
            }
            self.columns[i - 1].push_value(v);
            i = i - 1;
        }
        self.entities.push(entity);
        proof {
            let nv = self.view();
            let target = old_view.pushed(entity, row_map(ids, all_vals));
            assert(nv.entities =~= target.entities);
            assert forall|k: u32| #[trigger] nv.columns.contains_key(k) implies nv.columns[k]
                == target.columns[k] by {
                assert(ids.contains(k));
            }
            assert(nv.columns =~= target.columns);
            assert(nv =~~= target);
            assert forall|j: int| 0 <= j < self.columns@.len() implies (#[trigger] self.columns@[j]).values@.len()
                == self.entities@.len() by {
                assert(old_cols[j].values@.len() == old(self).entities@.len());
            }
        }
    }

    /// Replaces the value of the component at signature position `pos` in
    /// row `row`.
    fn set_cell(&mut self, row: usize, pos: usize, val: V)
        requires
            old(self).wf(),
            row < old(self).entities@.len(),
            pos < old(self).id@.len(),
        ensures
            final(self).wf(),
            final(self).id@ == old(self).id@,
            final(self).view() == old(self).view().with_cell(row as int, old(self).id@[pos as int], val),
    {
        let ghost old_view = self.view();
        let ghost ids = self.id@;
        let ghost old_cols = self.columns@;
        self.columns[pos].write_value(row, val);
        proof {
            let nv = self.view();
            let k = ids[pos as int];
            let target = old_view.with_cell(row as int, k, val);
            lemma_index_of_sorted(ids, pos as int);
            assert forall|x: u32| #[trigger] nv.columns.contains_key(x) implies nv.columns[x]
                == target.columns[x] by {
                assert(ids.contains(x));
                let j = choose|j: int| 0 <= j < ids.len() && ids[j] == x;
                lemma_index_of_sorted(ids, j);
            }
            assert(nv.columns =~= target.columns);
            assert(nv =~~= target);
            assert(old_cols[pos as int].values@.len() == self.entities@.len());
        }
    }
}


// ---------------------------------------------------------------------------
// EntityLabels — one string per entity (names, template names)
// ---------------------------------------------------------------------------

/// The key of an entity in a label table: its generation above its index.
pub open spec fn label_key(e: Entity) -> u64 {
    ((e.generation as u64) << 32u64) | (e.index as u64)
}

/// Different entities have different label keys.
pub proof fn lemma_label_key_injective(a: Entity, b: Entity)
    ensures
        label_key(a) == label_key(b) ==> a == b,
{
    let ai = a.index;
    let ag = a.generation;
    let bi = b.index;
    let bg = b.generation;
    assert((((ag as u64) << 32u64) | (ai as u64)) == (((bg as u64) << 32u64) | (bi as u64)) ==> ai
        == bi && ag == bg) by (bit_vector);
}

fn label_key_of(e: Entity) -> (k: u64)
    ensures
        k == label_key(e),
{
    ((e.generation as u64) << 32u64) | (e.index as u64)
}

struct EntityLabels {
    entries: std::collections::HashMap<u64, String>,
}

impl EntityLabels {
    spec fn wf(&self) -> bool {
        true
    }

    spec fn view(&self) -> Map<Entity, Seq<char>> {
        Map::new(
            |e: Entity| self.entries@.contains_key(label_key(e)),
            |e: Entity| self.entries@[label_key(e)]@,
        )
    }

    fn new() -> (l: Self)
        ensures
            l.wf(),
            l.view() == Map::<Entity, Seq<char>>::empty(),
    {
        let l = EntityLabels { entries: std::collections::HashMap::new() };
        assert(l.view() =~= Map::<Entity, Seq<char>>::empty());
        l
    }

    fn get(&self, e: Entity) -> (r: Option<&String>)
        requires
            self.wf(),
        ensures
            match r {
                Some(s) => self.view().contains_key(e) && self.view()[e] == s@,
                None => !self.view().contains_key(e),
            },
    {
        self.entries.get(&label_key_of(e))
    }

    fn remove(&mut self, e: Entity)
        requires
            old(self).wf(),
        ensures
            final(self).wf(),
            final(self).view() == old(self).view().remove(e),
    {
        let ghost before = self.view();
        let k = label_key_of(e);
        self.entries.remove(&k);
        proof {
            assert forall|x: Entity| #[trigger] self.view().contains_key(x) == before.remove(e).contains_key(x) by {
                lemma_label_key_injective(x, e);
            }
            assert(self.view() =~= before.remove(e));
        }
    }

    fn insert(&mut self, e: Entity, label: String)
        requires
            old(self).wf(),
        ensures
            final(self).wf(),
            final(self).view() == old(self).view().insert(e, label@),
    {
        let ghost before = self.view();
        let ghost l = label@;
        let k = label_key_of(e);
        self.entries.insert(k, label);
        proof {
            assert forall|x: Entity| #[trigger] self.view().contains_key(x) == before.insert(e, l).contains_key(x) by {
                lemma_label_key_injective(x, e);
            }
            assert forall|x: Entity| #[trigger] self.view().contains_key(x) implies self.view()[x] == before.insert(e, l)[x] by {
                lemma_label_key_injective(x, e);
            }
            assert(self.view() =~= before.insert(e, l));
        }
    }
}

// ---------------------------------------------------------------------------
// World model
// ---------------------------------------------------------------------------

/// The first occurrence of `x` in `s` is at `i`.
pub proof fn lemma_first_index<A>(s: Seq<A>, x: A, i: int)
    requires
        0 <= i < s.len(),
        s[i] == x,
        forall|j: int| 0 <= j < i ==> s[j] != x,
    ensures
        s.index_of_first(x) == Some(i),
{
    s.index_of_first_ensures(x);
    assert(s.contains(x));
    let k = s.index_of_first(x).unwrap();
    if k > i {
        assert(s[i] != x);
    }
}

/// `x` does not occur in `s`.
pub proof fn lemma_first_index_none<A>(s: Seq<A>, x: A)
    requires
        forall|j: int| 0 <= j < s.len() ==> s[j] != x,
    ensures
        s.index_of_first(x) == None::<int>,
{
    s.index_of_first_ensures(x);
}

/// The entities of the first `n` archetypes, archetype by archetype.
pub open spec fn entities_prefix<V>(archs: Seq<ArchetypeModel<V>>, n: int) -> Seq<Entity>
    decreases n,
{
    if n <= 0 {
        Seq::empty()
    } else {
        entities_prefix(archs, n - 1) + archs[n - 1].entities
    }
}

/// Whether an archetype stores every kind of `required`.
pub open spec fn has_kinds<V>(a: ArchetypeModel<V>, required: Seq<u32>) -> bool {
    forall|j: int| 0 <= j < required.len() ==> a.id.contains(#[trigger] required[j])
}

/// The entities of those of the first `n` archetypes that store every kind
/// of `required`.
pub open spec fn matching_prefix<V>(archs: Seq<ArchetypeModel<V>>, required: Seq<u32>, n: int) -> Seq<
    Entity,
>
    decreases n,
{
    if n <= 0 {
        Seq::empty()
    } else if has_kinds(archs[n - 1], required) {
        matching_prefix(archs, required, n - 1) + archs[n - 1].entities
    } else {
        matching_prefix(archs, required, n - 1)
    }
}

/// The whole state of a world: the entity slab and its free list, the
/// archetypes in creation order, and the name and template-name tables.
#[verifier::ext_equal]
pub ghost struct WorldModel<V> {
    pub slots: Seq<SlotModel>,
    pub free_list: Seq<u32>,
    pub archetypes: Seq<ArchetypeModel<V>>,
    pub names: Map<Entity, Seq<char>>,
    pub entity_types: Map<Entity, Seq<char>>,
}

impl<V> WorldModel<V> {
    pub open spec fn wf(self) -> bool {
        &&& free_list_ok(self.slots, self.free_list)
        &&& forall|a: int| 0 <= a < self.archetypes.len() ==> (#[trigger] self.archetypes[a]).wf()
        &&& forall|a: int, b: int|
            0 <= a < self.archetypes.len() && 0 <= b < self.archetypes.len() && a != b
                ==> self.archetypes[a].id != self.archetypes[b].id
    }

    pub open spec fn is_alive(self, e: Entity) -> bool {
        slot_alive(self.slots, e)
    }

    /// For each archetype, whether it holds `e`.
    pub open spec fn holders(self, e: Entity) -> Seq<bool> {
        self.archetypes.map_values(|a: ArchetypeModel<V>| a.entities.contains(e))
    }

    /// Whether some archetype holds `e`.
    pub open spec fn stored(self, e: Entity) -> bool {
        exists|a: int| 0 <= a < self.archetypes.len() && self.archetypes[a].entities.contains(e)
    }

    /// The first archetype that holds `e`, and the first row of `e` there.
    pub open spec fn locate(self, e: Entity) -> Option<(int, int)> {
        match self.holders(e).index_of_first(true) {
            Some(a) => match self.archetypes[a].entities.index_of_first(e) {
                Some(r) => Some((a, r)),
                None => None,
            },
            None => None,
        }
    }

    /// The value of component `k` of `e`: read at the first place `e` is
    /// held, and only while `e` is alive.
    pub open spec fn component(self, e: Entity, k: u32) -> Option<V> {
        if !self.is_alive(e) {
            None
        } else {
            match self.locate(e) {
                Some((a, r)) => if self.archetypes[a].id.contains(k) {
                    Some(self.archetypes[a].columns[k][r])
                } else {
                    None
                },
                None => None,
            }
        }
    }

    /// The archetype whose signature is `id`.
    pub open spec fn find_archetype(self, id: Set<u32>) -> Option<int> {
        if exists|b: int| 0 <= b < self.archetypes.len() && self.archetypes[b].id == id {
            Some(choose|b: int| 0 <= b < self.archetypes.len() && self.archetypes[b].id == id)
        } else {
            None
        }
    }

    /// The archetypes after appending a row to the archetype with signature
    /// `id`, which is created at the end when missing.
    pub open spec fn archetypes_with_row(self, id: Set<u32>, e: Entity, row: Map<u32, V>) -> Seq<
        ArchetypeModel<V>,
    > {
        match self.find_archetype(id) {
            Some(b) => self.archetypes.update(b, self.archetypes[b].pushed(e, row)),
            None => self.archetypes.push(empty_archetype(id).pushed(e, row)),
        }
    }

    /// The entity that `spawn` hands out next.
    pub open spec fn next_spawn(self) -> Entity {
        alloc_entity(self.slots, self.free_list)
    }

    /// Whether `spawn` can run without a generation or index overflowing.
    pub open spec fn can_spawn(self) -> bool {
        can_alloc(self.slots, self.free_list)
    }

    /// The world after `spawn`: the next handle allocated and appended to
    /// the archetype without components.
    pub open spec fn spawned(self) -> Self {
        WorldModel {
            slots: alloc_slots(self.slots, self.free_list),
            free_list: alloc_free_list(self.free_list),
            archetypes: self.archetypes_with_row(Set::empty(), self.next_spawn(), Map::empty()),
            names: self.names,
            entity_types: self.entity_types,
        }
    }

    /// The world after `despawn(e)`: a live `e` loses its name and template
    /// name, its first row, and its slot.
    pub open spec fn despawned(self, e: Entity) -> Self {
        if !self.is_alive(e) {
            self
        } else {
            WorldModel {
                slots: free_slots(self.slots, e),
                free_list: free_free_list(self.slots, self.free_list, e),
                archetypes: match self.locate(e) {
                    Some((a, r)) => self.archetypes.update(a, self.archetypes[a].swap_removed(r)),
                    None => self.archetypes,
                },
                names: self.names.remove(e),
                entity_types: self.entity_types.remove(e),
            }
        }
    }

    /// The world after `create_entity_at(e)`: a dead `e` takes its slot and
    /// joins the archetype without components unless it is already there.
    pub open spec fn created_at(self, e: Entity) -> Self {
        if self.is_alive(e) {
            self
        } else {
            WorldModel {
                slots: alloc_at_slots(self.slots, e),
                free_list: alloc_at_free_list(self.free_list, e),
                archetypes: match self.find_archetype(Set::empty()) {
                    Some(b) => if self.archetypes[b].entities.contains(e) {
                        self.archetypes
                    } else {
                        self.archetypes_with_row(Set::empty(), e, Map::empty())
                    },
                    None => self.archetypes_with_row(Set::empty(), e, Map::empty()),
                },
                names: self.names,
                entity_types: self.entity_types,
            }
        }
    }

    /// The world with another name table.
    pub open spec fn with_names(self, names: Map<Entity, Seq<char>>) -> Self {
        WorldModel {
            slots: self.slots,
            free_list: self.free_list,
            archetypes: self.archetypes,
            names,
            entity_types: self.entity_types,
        }
    }

    /// The world with another template-name table.
    pub open spec fn with_entity_types(self, entity_types: Map<Entity, Seq<char>>) -> Self {
        WorldModel {
            slots: self.slots,
            free_list: self.free_list,
            archetypes: self.archetypes,
            names: self.names,
            entity_types,
        }
    }

    /// The world with other archetypes.
    pub open spec fn with_archetypes(self, archetypes: Seq<ArchetypeModel<V>>) -> Self {
        WorldModel {
            slots: self.slots,
            free_list: self.free_list,
            archetypes,
            names: self.names,
            entity_types: self.entity_types,
        }
    }

    /// The world after `add_component(e, k, v)`: when `e` is alive and held,
    /// its value of `k` is overwritten in place, or its first row moves to
    /// the archetype whose signature also has `k`.
    pub open spec fn with_component(self, e: Entity, k: u32, v: V) -> Self {
        if !self.is_alive(e) {
            self
        } else {
            match self.locate(e) {
                None => self,
                Some((a, r)) => {
                    let arch = self.archetypes[a];
                    if arch.id.contains(k) {
                        self.with_archetypes(self.archetypes.update(a, arch.with_cell(r, k, v)))
                    } else {
                        let removed = self.with_archetypes(self.archetypes.update(a, arch.swap_removed(r)));
                        self.with_archetypes(
                            removed.archetypes_with_row(arch.id.insert(k), e, arch.row(r).insert(k, v)),
                        )
                    }
                },
            }
        }
    }

    /// The world after `remove_component(e, k)`: when `e` is alive, held,
    /// and its first row has `k`, that row moves to the archetype whose
    /// signature lacks `k`.
    pub open spec fn without_component(self, e: Entity, k: u32) -> Self {
        if !self.is_alive(e) {
            self
        } else {
            match self.locate(e) {
                None => self,
                Some((a, r)) => {
                    let arch = self.archetypes[a];
                    if !arch.id.contains(k) {
                        self
                    } else {
                        let removed = self.with_archetypes(self.archetypes.update(a, arch.swap_removed(r)));
                        self.with_archetypes(
                            removed.archetypes_with_row(arch.id.remove(k), e, arch.row(r).remove(k)),
                        )
                    }
                },
            }
        }
    }

    /// Every stored entity, archetype by archetype.
    pub open spec fn all_entities(self) -> Seq<Entity> {
        entities_prefix(self.archetypes, self.archetypes.len() as int)
    }

    /// The stored entities of every archetype holding all kinds of
    /// `required`.
    pub open spec fn query_entities(self, required: Seq<u32>) -> Seq<Entity> {
        matching_prefix(self.archetypes, required, self.archetypes.len() as int)
    }
}

// ---------------------------------------------------------------------------
// World — archetype-based ECS
// ---------------------------------------------------------------------------

/// Entity storage: generational handles, component values grouped by
/// signature, and per-entity names and template names. Component kinds are
/// `u32` ids; `V` is the type of the stored component values.
pub struct World<V> {
    entity_index: EntityIndex,
    archetypes: Vec<Archetype<V>>,
    names: EntityLabels,
    entity_types: EntityLabels,
}

impl<V> View for World<V> {
    type V = WorldModel<V>;

    closed spec fn view(&self) -> WorldModel<V> {
        WorldModel {
            slots: self.entity_index.slots_view(),
            free_list: self.entity_index.free_list@,
            archetypes: self.archetypes@.map_values(|a: Archetype<V>| a.view()),
            names: self.names.view(),
            entity_types: self.entity_types.view(),
        }
    }
}

impl<V> World<V> {
    closed spec fn archetypes_wf(&self) -> bool {
        &&& forall|a: int| 0 <= a < self.archetypes@.len() ==> (#[trigger] self.archetypes@[a]).wf()
        &&& forall|a: int, b: int|
            0 <= a < self.archetypes@.len() && 0 <= b < self.archetypes@.len() && a != b
                ==> self.archetypes@[a].id@ != self.archetypes@[b].id@
    }

    /// The internal consistency every operation keeps.
    pub closed spec fn wf(&self) -> bool {
        &&& self.entity_index.wf()
        &&& self.archetypes_wf()
        &&& self.names.wf()
        &&& self.entity_types.wf()
    }

    proof fn lemma_archetypes_model(&self)
        requires
            self.archetypes_wf(),
        ensures
            forall|a: int| 0 <= a < self@.archetypes.len() ==> (#[trigger] self@.archetypes[a]).wf(),
            forall|a: int, b: int|
                0 <= a < self@.archetypes.len() && 0 <= b < self@.archetypes.len() && a != b
                    ==> self@.archetypes[a].id != self@.archetypes[b].id,
    {
        assert forall|a: int| 0 <= a < self@.archetypes.len() implies (#[trigger] self@.archetypes[a]).wf() by {
            self.archetypes@[a].lemma_view_wf();
        }
        assert forall|a: int, b: int|
            0 <= a < self@.archetypes.len() && 0 <= b < self@.archetypes.len() && a
                != b implies self@.archetypes[a].id != self@.archetypes[b].id by {
            if self@.archetypes[a].id == self@.archetypes[b].id {
                lemma_sorted_same_elements(self.archetypes@[a].id@, self.archetypes@[b].id@);
            }
        }
    }

    /// A consistent world has a consistent model.
    pub proof fn lemma_wf(&self)
        requires
            self.wf(),
        ensures
            self@.wf(),
    {
        self.lemma_archetypes_model();
    }

    pub fn new() -> (w: Self)
        ensures
            w.wf(),
            w@.slots == Seq::<SlotModel>::empty(),
            w@.free_list == Seq::<u32>::empty(),
            w@.archetypes == Seq::<ArchetypeModel<V>>::empty(),
            w@.names == Map::<Entity, Seq<char>>::empty(),
            w@.entity_types == Map::<Entity, Seq<char>>::empty(),
            tidy(w@),
    {
        let w = World {
            entity_index: EntityIndex::new(),
            archetypes: Vec::new(),
            names: EntityLabels::new(),
            entity_types: EntityLabels::new(),
        };
        assert(w@.archetypes =~= Seq::<ArchetypeModel<V>>::empty());
        proof {
            w.lemma_wf();
        }
        w
    }

    fn find_archetype_index(&self, id: &ArchetypeId) -> (r: Option<usize>)
        requires
            self.archetypes_wf(),
            strictly_sorted(id@),
        ensures
            match r {
                Some(b) => self@.find_archetype(id@.to_set()) == Some(b as int) && b
                    < self.archetypes@.len() && self.archetypes@[b as int].id@ == id@,
                None => self@.find_archetype(id@.to_set()) == None::<int>,
            },
    {
        let mut b: usize = 0;
        while b < self.archetypes.len()
            invariant
                0 <= b <= self.archetypes@.len(),
                self.archetypes_wf(),
                strictly_sorted(id@),
                forall|c: int| 0 <= c < b ==> self.archetypes@[c].id@ != id@,
            decreases self.archetypes@.len() - b,
        {
            if self.archetypes[b].id.same_as(id) {
                proof {
                    self.lemma_archetypes_model();
                    let m = self@;
                    assert(m.archetypes[b as int].id == id@.to_set());
                    let c = choose|c: int| 0 <= c < m.archetypes.len() && m.archetypes[c].id == id@.to_set();
                    if c != b {
                        assert(m.archetypes[c].id != m.archetypes[b as int].id);
                    }
                }
                return Some(b);
            }
            b = b + 1;
        }
        proof {
            assert forall|c: int| 0 <= c < self@.archetypes.len() implies self@.archetypes[c].id != id@.to_set() by {
                if self@.archetypes[c].id == id@.to_set() {
                    lemma_sorted_same_elements(self.archetypes@[c].id@, id@);
                }
            }
        }
        None
    }

    fn locate(&self, entity: Entity) -> (r: Option<(usize, usize)>)
        requires
            self.archetypes_wf(),
        ensures
            match r {
                Some((a, row)) => self@.locate(entity) == Some((a as int, row as int)) && a
                    < self.archetypes@.len() && row < self.archetypes@[a as int].entities@.len(),
                None => self@.locate(entity) == None::<(int, int)>,
            },
    {
        let mut a: usize = 0;
        while a < self.archetypes.len()
            invariant
                0 <= a <= self.archetypes@.len(),
                forall|c: int| 0 <= c < a ==> !self.archetypes@[c].entities@.contains(entity),
            decreases self.archetypes@.len() - a,
        {
            match self.archetypes[a].row_of(entity) {
                Some(row) => {
                    proof {
                        let h = self@.holders(entity);
                        assert(self.archetypes@[a as int].entities@.contains(entity));
                        assert forall|c: int| 0 <= c < a implies h[c] != true by {
                            assert(!self.archetypes@[c].entities@.contains(entity));
                        }
                        lemma_first_index(h, true, a as int);
                        lemma_first_index(self.archetypes@[a as int].entities@, entity, row as int);
                    }
                    return Some((a, row));
                },
                None => {},
            }
            a = a + 1;
        }
        proof {
            let h = self@.holders(entity);
            assert forall|c: int| 0 <= c < h.len() implies h[c] != true by {
                assert(!self.archetypes@[c].entities@.contains(entity));
            }
            lemma_first_index_none(h, true);
        }
        None
    }

    /// Appends a row to the archetype with signature `id`, creating it at
    /// the end when missing.
    fn push_into(&mut self, id: ArchetypeId, entity: Entity, vals: Vec<V>)
        requires
            old(self).archetypes_wf(),
            strictly_sorted(id@),
            vals@.len() == id@.len(),
        ensures
            final(self).archetypes_wf(),
            final(self).entity_index == old(self).entity_index,
            final(self).names == old(self).names,
            final(self).entity_types == old(self).entity_types,
            final(self)@.archetypes == old(self)@.archetypes_with_row(
                id@.to_set(),
                entity,
                row_map(id@, vals@),
            ),
    {
        let ghost old_views = self@.archetypes;
        let ghost ids = id@;
        let ghost row = row_map(id@, vals@);
        match self.find_archetype_index(&id) {
            Some(b) => {
                self.archetypes[b].push_row(entity, vals);
                proof {
                    assert(self@.archetypes =~= old_views.update(b as int, old_views[b as int].pushed(entity, row)));
                }
            },
            None => {
                let mut arch = Archetype::new(id);
                arch.push_row(entity, vals);
                self.archetypes.push(arch);
                proof {
                    assert(self@.archetypes =~= old_views.push(
                        empty_archetype::<V>(ids.to_set()).pushed(entity, row),
                    ));
                    assert forall|c: int| 0 <= c < old_views.len() implies self.archetypes@[c].id@ != ids by {
                        if self.archetypes@[c].id@ == ids {
                            assert(old_views[c].id == ids.to_set());
                        }
                    }
                }
            },
        }
    }

    /// Creates a new entity with no components.
    pub fn spawn(&mut self) -> (e: Entity)
        requires
            old(self).wf(),
            old(self)@.can_spawn(),
        ensures
            final(self).wf(),
            e == old(self)@.next_spawn(),
            final(self)@ == old(self)@.spawned(),
            tidy(old(self)@) ==> tidy(final(self)@),
    {
        let ghost old_model = self@;
        let e = self.entity_index.allocate();
        let no_components: Vec<u32> = Vec::new();
        let ghost nc = no_components@;
        let empty_id = ArchetypeId::new(no_components);
        proof {
            assert(nc =~= Seq::<u32>::empty());
            lemma_sorted_same_elements(empty_id@, Seq::<u32>::empty());
            assert(empty_id@.to_set() =~= Set::<u32>::empty());
        }
        let vals: Vec<V> = Vec::new();
        self.push_into(empty_id, e, vals);
        proof {
            assert(row_map(Seq::<u32>::empty(), Seq::<V>::empty()) =~= Map::<u32, V>::empty());
            assert(self@ =~= old_model.spawned());
            self.lemma_wf();
            if tidy(old_model) {
                lemma_spawn_step(old_model);
            }
        }
        e
    }

    /// Whether `entity` is a live handle.
    pub fn is_alive(&self, entity: Entity) -> (alive: bool)
        requires
            self.wf(),
        ensures
            alive == self@.is_alive(entity),
    {
        self.entity_index.is_alive(entity)
    }

    /// Destroys a live entity: its name, template name, first row and slot
    /// go. A dead handle changes nothing.
    pub fn despawn(&mut self, entity: Entity)
        requires
            old(self).wf(),
        ensures
            final(self).wf(),
            final(self)@ == old(self)@.despawned(entity),
            tidy(old(self)@) ==> tidy(final(self)@),
    {
        let ghost old_model = self@;
        if !self.entity_index.is_alive(entity) {
            return;
        }
        self.names.remove(entity);
        self.entity_types.remove(entity);
        match self.locate(entity) {
            Some((a, row)) => {
                let ghost views = self@.archetypes;
                let _moved = self.archetypes[a].swap_remove(row);
                proof {
                    assert(self@.archetypes =~= views.update(a as int, views[a as int].swap_removed(row as int)));
                }
            },
            None => {},
        }
        self.entity_index.free(entity);
        proof {
            assert(self@ =~~= old_model.despawned(entity));
            self.lemma_wf();
            if tidy(old_model) {
                lemma_despawn_step(old_model, entity);
            }
        }
    }

    /// Occupies the slot of `entity` with exactly that handle (used when a
    /// saved world is loaded) and puts it among the entities without
    /// components. A live handle changes nothing.
    pub fn create_entity_at(&mut self, entity: Entity)
        requires
            old(self).wf(),
            old(self)@.is_alive(entity) || entity.index < u32::MAX,
        ensures
            final(self).wf(),
            final(self)@ == old(self)@.created_at(entity),
            tidy(old(self)@) && (forall|z: Entity|
                #[trigger] old(self)@.is_alive(z) && z.index == entity.index ==> z == entity)
                ==> tidy(final(self)@),
    {
        let ghost old_model = self@;
        proof {
            if tidy(old_model) && (forall|z: Entity|
                #[trigger] old_model.is_alive(z) && z.index == entity.index ==> z == entity) {
                lemma_create_keeps_tidy(old_model, entity);
            }
        }
        if self.entity_index.is_alive(entity) {
            return;
        }
        self.entity_index.alloc_at(entity);
        let no_components: Vec<u32> = Vec::new();
        let ghost nc = no_components@;
        let empty_id = ArchetypeId::new(no_components);
        proof {
            assert(nc =~= Seq::<u32>::empty());
            lemma_sorted_same_elements(empty_id@, Seq::<u32>::empty());
            assert(empty_id@.to_set() =~= Set::<u32>::empty());
            assert(row_map(Seq::<u32>::empty(), Seq::<V>::empty()) =~= Map::<u32, V>::empty());
        }
        let present = match self.find_archetype_index(&empty_id) {
            Some(b) => self.archetypes[b].row_of(entity).is_some(),
            None => false,
        };
        if !present {
            let vals: Vec<V> = Vec::new();
            self.push_into(empty_id, entity, vals);
        }
        proof {
            assert(self@ =~~= old_model.created_at(entity));
        }
    }

    /// Gives `e` a name; the empty name removes it.
    pub fn set_name(&mut self, e: Entity, name: &str)
        requires
            old(self).wf(),
        ensures
            final(self).wf(),
            final(self)@ == old(self)@.with_names(
                if name@.len() == 0 {
                    old(self)@.names.remove(e)
                } else {
                    old(self)@.names.insert(e, name@)
                },
            ),
            tidy(old(self)@) ==> tidy(final(self)@),
    {
        let ghost old_model = self@;
        proof {
            if tidy(old_model) {
                lemma_tables_keep_tidy(old_model, old_model.names.remove(e), old_model.entity_types);
                lemma_tables_keep_tidy(old_model, old_model.names.insert(e, name@), old_model.entity_types);
            }
        }
        if name.is_empty() {
            self.names.remove(e);
        } else {
            self.names.insert(e, name.to_owned());
        }
        proof {
            assert(self@ =~~= old_model.with_names(self@.names));
        }
    }

    /// The name of `e`, if it has one.
    pub fn get_name(&self, e: &Entity) -> (r: Option<&String>)
        requires
            self.wf(),
        ensures
            match r {
                Some(s) => self@.names.contains_key(*e) && self@.names[*e] == s@,
                None => !self@.names.contains_key(*e),
            },
    {
        self.names.get(*e)
    }

    /// The name of `e`, or `default` when it has none.
    pub fn get_name_or(&self, e: &Entity, default: &str) -> (r: String)
        requires
            self.wf(),
        ensures
            r@ == if self@.names.contains_key(*e) {
                self@.names[*e]
            } else {
                default@
            },
    {
        match self.names.get(*e) {
            Some(s) => s.clone(),
            None => default.to_owned(),
        }
    }

    /// Records the template name of `e`; the empty name removes it.
    pub fn set_entity_type(&mut self, e: Entity, template: &str)
        requires
            old(self).wf(),
        ensures
            final(self).wf(),
            final(self)@ == old(self)@.with_entity_types(
                if template@.len() == 0 {
                    old(self)@.entity_types.remove(e)
                } else {
                    old(self)@.entity_types.insert(e, template@)
                },
            ),
            tidy(old(self)@) ==> tidy(final(self)@),
    {
        let ghost old_model = self@;
        proof {
            if tidy(old_model) {
                lemma_tables_keep_tidy(old_model, old_model.names, old_model.entity_types.remove(e));
                lemma_tables_keep_tidy(old_model, old_model.names, old_model.entity_types.insert(e, template@));
            }
        }
        if template.is_empty() {
            self.entity_types.remove(e);
        } else {
            self.entity_types.insert(e, template.to_owned());
        }
        proof {
            assert(self@ =~~= old_model.with_entity_types(self@.entity_types));
        }
    }

    /// The template name of `e`, if it has one.
    pub fn get_entity_type(&self, e: Entity) -> (r: Option<&String>)
        requires
            self.wf(),
        ensures
            match r {
                Some(s) => self@.entity_types.contains_key(e) && self@.entity_types[e] == s@,
                None => !self@.entity_types.contains_key(e),
            },
    {
        self.entity_types.get(e)
    }

    /// Sets component `kind` of a live, held entity to `component`: in place
    /// when its row already has that kind, otherwise by moving the row to
    /// the archetype with `kind` added to its signature.
    pub fn add_component(&mut self, entity: Entity, kind: u32, component: V)
        requires
            old(self).wf(),
        ensures
            final(self).wf(),
            final(self)@ == old(self)@.with_component(entity, kind, component),
            tidy(old(self)@) ==> tidy(final(self)@),
    {
        let ghost old_model = self@;
        proof {
            if tidy(old_model) {
                lemma_set_keeps_tidy(old_model, entity, kind);
                assert(tidy(old_model.with_component(entity, kind, component)));
            }
        }
        if !self.entity_index.is_alive(entity) {
            return;
        }
        let (a, row) = match self.locate(entity) {
            Some(loc) => loc,
            None => {
                return;
            },
        };
        let ghost ids = self.archetypes@[a as int].id@;
        let ghost arch = old_model.archetypes[a as int];
        match self.archetypes[a].id.position_of(kind) {
            Some(pos) => {
                self.archetypes[a].set_cell(row, pos, component);
                proof {
                    assert(ids.to_set().contains(kind));
                    assert(self@.archetypes =~= old_model.archetypes.update(
                        a as int,
                        arch.with_cell(row as int, kind, component),
                    ));
                    assert(self@ =~~= old_model.with_component(entity, kind, component));
                }
            },
            None => {
                let (new_id, p) = self.archetypes[a].id.with(kind);
                let (_moved, mut vals) = self.archetypes[a].swap_remove(row);
                proof {
                    assert(!ids.to_set().contains(kind));
                    assert(self@.archetypes =~= old_model.archetypes.update(
                        a as int,
                        arch.swap_removed(row as int),
                    ));
                    assert forall|c: int, d: int|
                        0 <= c < self.archetypes@.len() && 0 <= d < self.archetypes@.len() && c
                            != d implies self.archetypes@[c].id@ != self.archetypes@[d].id@ by {
                        assert(old(self).archetypes@[c].id@ != old(self).archetypes@[d].id@);
                    }
                    lemma_row_map_insert(ids, vals@, p as int, kind, component);
                }
                vals.insert(p, component);
                let ghost removed = self@;
                self.push_into(new_id, entity, vals);
                proof {
                    assert(removed =~~= old_model.with_archetypes(
                        old_model.archetypes.update(a as int, arch.swap_removed(row as int)),
                    ));
                    assert(self@ =~~= old_model.with_component(entity, kind, component));
                }
            },
        }
    }

    /// The value of component `kind` of `entity`.
    pub fn get_component(&self, entity: Entity, kind: u32) -> (r: Option<&V>)
        requires
            self.wf(),
        ensures
            match r {
                Some(v) => self@.component(entity, kind) == Some(*v),
                None => self@.component(entity, kind) == None::<V>,
            },
    {
        if !self.entity_index.is_alive(entity) {
            return None;
        }
        match self.locate(entity) {
            None => None,
            Some((a, row)) => {
                let arch = &self.archetypes[a];
                match arch.id.position_of(kind) {
                    None => None,
                    Some(p) => {
                        proof {
                            lemma_index_of_sorted(arch.id@, p as int);
                            assert(arch.id@.to_set().contains(kind));
                        }
                        arch.columns[p].get(row)
                    },
                }
            },
        }
    }

    /// A mutable reference to the value of component `kind` of `entity`;
    /// what is written through it becomes that value.
    pub fn get_component_mut(&mut self, entity: Entity, kind: u32) -> (r: Option<&mut V>)
        requires
            old(self).wf(),
        ensures
            final(self).wf(),
            match r {
                Some(v) => old(self)@.component(entity, kind) == Some(*v) && final(self)@ =~~= old(
                    self,
                )@.with_component(entity, kind, *final(v)),
                None => old(self)@.component(entity, kind) == None::<V> && final(self)@ == old(self)@,
            },
            tidy(old(self)@) ==> match r {
                Some(v) => tidy(old(self)@.with_component(entity, kind, *final(v))),
                None => tidy(final(self)@),
            },
    {
        let ghost old_model = self@;
        proof {
            if tidy(old_model) {
                lemma_set_keeps_tidy(old_model, entity, kind);
            }
        }
        if !self.entity_index.is_alive(entity) {
            return None;
        }
        let (a, row) = match self.locate(entity) {
            Some(loc) => loc,
            None => {
                return None;
            },
        };
        let ghost arch = old_model.archetypes[a as int];
        let ghost ids = self.archetypes@[a as int].id@;
        match self.archetypes[a].id.position_of(kind) {
            None => None,
            Some(p) => {
                proof {
                    lemma_index_of_sorted(ids, p as int);
                    assert(ids.to_set().contains(kind));
                    assert(old(self).archetypes@[a as int].columns@[p as int].values@.len() == arch.entities.len());
                }
                let v = &mut self.archetypes[a].columns[p].values[row];
                Some(v)
            },
        }
    }

    /// Whether `entity` has a value for component `kind`.
    pub fn has_component(&self, entity: Entity, kind: u32) -> (b: bool)
        requires
            self.wf(),
        ensures
            b == self@.component(entity, kind).is_some(),
    {
        self.get_component(entity, kind).is_some()
    }

    /// Takes component `kind` from a live, held entity whose row has it, by
    /// moving the row to the archetype with `kind` removed from its
    /// signature.
    pub fn remove_component(&mut self, entity: Entity, kind: u32)
        requires
            old(self).wf(),
        ensures
            final(self).wf(),
            final(self)@ == old(self)@.without_component(entity, kind),
            tidy(old(self)@) ==> tidy(final(self)@),
    {
        let ghost old_model = self@;
        proof {
            if tidy(old_model) {
                lemma_unset_step(old_model, entity, kind);
            }
        }
        if !self.entity_index.is_alive(entity) {
            return;
        }
        let (a, row) = match self.locate(entity) {
            Some(loc) => loc,
            None => {
                return;
            },
        };
        let ghost ids = self.archetypes@[a as int].id@;
        let ghost arch = old_model.archetypes[a as int];
        if !self.archetypes[a].id.contains(kind) {
            proof {
                assert(!ids.to_set().contains(kind));
            }
            return;
        }
        let (new_id, pos) = self.archetypes[a].id.without(kind);
        let p = match pos {
            Some(p) => p,
            None => {
                return;
            },
        };
        let (_moved, mut vals) = self.archetypes[a].swap_remove(row);
        proof {
            assert(ids.to_set().contains(kind));
            assert(self@.archetypes =~= old_model.archetypes.update(a as int, arch.swap_removed(row as int)));
            assert forall|c: int, d: int|
                0 <= c < self.archetypes@.len() && 0 <= d < self.archetypes@.len() && c
                    != d implies self.archetypes@[c].id@ != self.archetypes@[d].id@ by {
                assert(old(self).archetypes@[c].id@ != old(self).archetypes@[d].id@);
            }
            lemma_row_map_remove(ids, vals@, p as int);
        }
        vals.remove(p);
        let ghost removed = self@;
        self.push_into(new_id, entity, vals);
        proof {
            assert(removed =~~= old_model.with_archetypes(
                old_model.archetypes.update(a as int, arch.swap_removed(row as int)),
            ));
            assert(self@ =~~= old_model.without_component(entity, kind));
        }
    }

    /// A query over this world that requires no component kinds yet.
    pub fn query(&self) -> (q: Query<'_, V>)
        ensures
            q.world_view() == self@,
            q.required_kinds() == Seq::<u32>::empty(),
    {
        Query::new(self)
    }

    /// Every stored entity, archetype by archetype.
    pub fn entities(&self) -> (r: Vec<Entity>)
        ensures
            r@ == self@.all_entities(),
    {
        let mut result: Vec<Entity> = Vec::new();
        let mut a: usize = 0;
        while a < self.archetypes.len()
            invariant
                0 <= a <= self.archetypes@.len(),
                result@ == entities_prefix(self@.archetypes, a as int),
            decreases self.archetypes@.len() - a,
        {
            let ents = &self.archetypes[a].entities;
            let mut i: usize = 0;
            while i < ents.len()
                invariant
                    0 <= i <= ents@.len(),
                    ents@ == self@.archetypes[a as int].entities,
                    result@ == entities_prefix(self@.archetypes, a as int) + ents@.take(i as int),
                decreases ents@.len() - i,
            {
                result.push(ents[i]);
                proof {
                    assert(ents@.take(i + 1) =~= ents@.take(i as int).push(ents@[i as int]));
                    assert(result@ =~= entities_prefix(self@.archetypes, a as int) + ents@.take(i + 1));
                }
                i = i + 1;
            }
            proof {
                assert(ents@.take(ents@.len() as int) =~= ents@);
            }
            a = a + 1;
        }
        result
    }

    /// The number of archetypes.
    pub fn archetype_count(&self) -> (n: usize)
        ensures
            n == self@.archetypes.len(),
    {
        self.archetypes.len()
    }

    /// The number of stored entities.
    pub fn entity_count(&self) -> (n: usize)
        ensures
            n == self@.all_entities().len(),
    {
        self.entities().len()
    }
}


// ---------------------------------------------------------------------------
// Query
// ---------------------------------------------------------------------------

/// A filter over the archetypes of a world by the component kinds they
/// store.
pub struct Query<'w, V> {
    world: &'w World<V>,
    required: Vec<u32>,
}

impl<'w, V> Query<'w, V> {
    /// The world the query reads.
    pub closed spec fn world_view(&self) -> WorldModel<V> {
        self.world@
    }

    /// The component kinds the query requires.
    pub closed spec fn required_kinds(&self) -> Seq<u32> {
        self.required@
    }

    pub fn new(world: &'w World<V>) -> (q: Self)
        ensures
            q.world_view() == world@,
            q.required_kinds() == Seq::<u32>::empty(),
    {
        Query { world, required: Vec::new() }
    }

    /// The query that also requires `kind`.
    pub fn with(self, kind: u32) -> (q: Self)
        ensures
            q.world_view() == self.world_view(),
            q.required_kinds() == if self.required_kinds().contains(kind) {
                self.required_kinds()
            } else {
                self.required_kinds().push(kind)
            },
    {
        let mut q = self;
        let mut found = false;
        let mut i: usize = 0;
        while i < q.required.len()
            invariant
                0 <= i <= q.required@.len(),
                found == exists|j: int| 0 <= j < i && q.required@[j] == kind,
            decreases q.required@.len() - i,
        {
            if q.required[i] == kind {
                found = true;
            }
            i = i + 1;
        }
        if !found {
            q.required.push(kind);
        }
        q
    }

    /// The entities of every archetype that stores all required kinds,
    /// archetype by archetype.
    pub fn iter_entities(&self) -> (r: Vec<Entity>)
        ensures
            r@ == self.world_view().query_entities(self.required_kinds()),
    {
        let world = self.world;
        let mut results: Vec<Entity> = Vec::new();
        let mut a: usize = 0;
        while a < world.archetypes.len()
            invariant
                0 <= a <= world.archetypes@.len(),
                world == self.world,
                results@ == matching_prefix(world@.archetypes, self.required@, a as int),
            decreases world.archetypes@.len() - a,
        {
            let arch = &world.archetypes[a];
            let matches = arch.id.is_superset_of(self.required.as_slice());
            proof {
                assert(matches == has_kinds(world@.archetypes[a as int], self.required@));
            }
            if matches {
                let mut i: usize = 0;
                while i < arch.entities.len()
                    invariant
                        0 <= i <= arch.entities@.len(),
                        arch.entities@ == world@.archetypes[a as int].entities,
                        results@ == matching_prefix(world@.archetypes, self.required@, a as int)
                            + arch.entities@.take(i as int),
                    decreases arch.entities@.len() - i,
                {
                    results.push(arch.entities[i]);
                    proof {
                        assert(arch.entities@.take(i + 1) =~= arch.entities@.take(i as int).push(
                            arch.entities@[i as int],
                        ));
                        assert(results@ =~= matching_prefix(world@.archetypes, self.required@, a as int)
                            + arch.entities@.take(i + 1));
                    }
                    i = i + 1;
                }
                proof {
                    assert(arch.entities@.take(arch.entities@.len() as int) =~= arch.entities@);
                }
            }
            a = a + 1;
        }
        results
    }
}

} // verus!
