//! Saving a world to WMAP bytes and loading it back.

use vstd::prelude::*;
use crate::components::{
    kind_of, Component, ANGULAR_VEL_ID, AUDIO_LISTENER_ID, AUDIO_SOURCE_ID, CAMERA_ID, COLLIDER_ID,
    COLOR_ID, GROUND_ID, MODEL_ID, PLAYER_ID, RIGID_BODY_ID, SCRIPT_ID, SENSOR_ID, STATIC_ID,
    TRANSFORM_ID, VELOCITY_ID,
};
use crate::ecs::{Entity, World, WorldModel};
use crate::entity_types::{apply_type, built, default_templates, lookup};
use crate::wmap::{
    component_record, component_view, encode_component, entity_type_record, push_str,
    MapComponent, WmapError, ENTITY_TYPE_ID,
};
use crate::wmap_file::{
    decode_wmap, decode_wmap_spec, encode_wmap, entity_views, record_views, wmap_image,
    EntityRecord, EntityRecordView, MapEntity, MapEntityView, RawComponent,
};
use crate::wpak_build::{lists_index, usize_as_ints};

verus! {

// --- Entity ids in a map ------------------------------------------------------------

/// The id an entity is saved under: generation in the high 32 bits, index in
/// the low 32 bits.
pub open spec fn map_id(e: Entity) -> u64 {
    ((e.generation as u64) << 32u64) | (e.index as u64)
}

/// The entity a saved id names.
pub open spec fn entity_of_map_id(id: u64) -> Entity {
    Entity { index: (id & 0xFFFF_FFFFu64) as u32, generation: (id >> 32u64) as u32 }
}

/// Saving an entity's id and reading it back gives the entity.
pub proof fn lemma_map_id_round_trip(e: Entity)
    ensures
        entity_of_map_id(map_id(e)) == e,
{
    let g = e.generation;
    let i = e.index;
    assert(((((g as u64) << 32u64) | (i as u64)) & 0xFFFF_FFFFu64) as u32 == i) by (bit_vector);
    assert(((((g as u64) << 32u64) | (i as u64)) >> 32u64) as u32 == g) by (bit_vector);
}

fn map_id_of(e: Entity) -> (id: u64)
    ensures
        id == map_id(e),
{
    ((e.generation as u64) << 32u64) | (e.index as u64)
}

fn entity_from_map_id(id: u64) -> (e: Entity)
    ensures
        e == entity_of_map_id(id),
{
    Entity { index: (id & 0xFFFF_FFFFu64) as u32, generation: (id >> 32u64) as u32 }
}

// --- The save order ------------------------------------------------------------------

/// Entity `i` is saved before entity `j`: smaller (index, generation), or
/// the same and listed earlier.
pub open spec fn saved_before(es: Seq<Entity>, i: int, j: int) -> bool {
    es[i].index < es[j].index || (es[i].index == es[j].index && (es[i].generation
        < es[j].generation || (es[i].generation == es[j].generation && i < j)))
}

/// `order` lists every entity once, sorted stably by (index, generation).
pub open spec fn is_save_order(es: Seq<Entity>, order: Seq<int>) -> bool {
    &&& order.len() == es.len()
    &&& forall|k: int| 0 <= k < order.len() ==> 0 <= #[trigger] order[k] < es.len()
    &&& forall|i: int| 0 <= i < es.len() ==> #[trigger] lists_index(order, i)
    &&& forall|a: int, b: int|
        0 <= a < b < order.len() ==> saved_before(es, #[trigger] order[a], #[trigger] order[b])
}

/// There is one save order of given entities.
pub proof fn lemma_save_order_unique(es: Seq<Entity>, o1: Seq<int>, o2: Seq<int>)
    requires
        is_save_order(es, o1),
        is_save_order(es, o2),
    ensures
        o1 == o2,
{
    if o1.len() > 0 {
        lemma_save_orders_agree_upto(es, o1, o2, o1.len() - 1);
    }
    assert(o1 =~= o2);
}

proof fn lemma_save_orders_agree_upto(es: Seq<Entity>, o1: Seq<int>, o2: Seq<int>, p: int)
    requires
        is_save_order(es, o1),
        is_save_order(es, o2),
        0 <= p < o1.len(),
    ensures
        forall|q: int| 0 <= q <= p ==> o1[q] == o2[q],
    decreases p,
{
    if p > 0 {
        lemma_save_orders_agree_upto(es, o1, o2, p - 1);
    }
    if o1[p] != o2[p] {
        let a = o1[p];
        let b = o2[p];
        assert(lists_index(o2, a));
        assert(lists_index(o1, b));
        let r = choose|k: int| 0 <= k < o2.len() && o2[k] == a;
        let s = choose|k: int| 0 <= k < o1.len() && o1[k] == b;
        if r < p {
            assert(o1[r] == o2[r]);
            assert(saved_before(es, o1[r], o1[p]));
        } else {
            assert(saved_before(es, o2[p], o2[r]));
            if s < p {
                assert(o1[s] == o2[s]);
                assert(saved_before(es, o2[s], o2[p]));
            } else {
                assert(saved_before(es, o1[p], o1[s]));
            }
        }
    }
}

/// The save order of the entities (there is exactly one).
pub open spec fn save_order_of(es: Seq<Entity>) -> Seq<int> {
    choose|o: Seq<int>| is_save_order(es, o)
}

fn save_order(es: &Vec<Entity>) -> (order: Vec<usize>)
    ensures
        is_save_order(es@, usize_as_ints(order@)),
{
    let n = es.len();
    let mut order: Vec<usize> = Vec::new();
    let mut i: usize = 0;
    while i < n
        invariant
            n == es@.len(),
            i <= n,
            order@.len() == i,
            forall|k: int| 0 <= k < order@.len() ==> #[trigger] order@[k] < i,
            forall|j: int|
                0 <= j < i ==> #[trigger] lists_index(usize_as_ints(order@), j),
            forall|a: int, b: int|
                0 <= a < b < order@.len() ==> saved_before(
                    es@,
                    #[trigger] order@[a] as int,
                    #[trigger] order@[b] as int,
                ),
        decreases n - i,
    {
        let e = es[i];
        let mut p: usize = 0;
        while p < order.len() && (es[order[p]].index < e.index || (es[order[p]].index == e.index
            && es[order[p]].generation <= e.generation))
            invariant
                n == es@.len(),
                i < n,
                e == es@[i as int],
                p <= order@.len(),
                forall|k: int| 0 <= k < order@.len() ==> #[trigger] order@[k] < i,
                forall|q: int| 0 <= q < p ==> saved_before(es@, #[trigger] order@[q] as int, i as int),
            decreases order@.len() - p,
        {
            p = p + 1;
        }
        let ghost old_order = order@;
        proof {
            assert forall|q: int| p <= q < old_order.len() implies saved_before(
                es@,
                i as int,
                #[trigger] old_order[q] as int,
            ) by {
                if q > p {
                    assert(saved_before(es@, old_order[p as int] as int, old_order[q] as int));
                }
            }
        }
        order.insert(p, i);
        proof {
            let ints = usize_as_ints(order@);
            let old_ints = usize_as_ints(old_order);
            assert forall|j: int| 0 <= j <= i implies #[trigger] lists_index(ints, j) by {
                if j == i {
                    assert(ints[p as int] == i);
                } else {
                    assert(lists_index(old_ints, j));
                    let k = choose|k: int| 0 <= k < old_ints.len() && old_ints[k] == j;
                    if k < p {
                        assert(ints[k] == j);
                    } else {
                        assert(ints[k + 1] == j);
                    }
                }
            }
            assert forall|a: int, b: int|
                0 <= a < b < order@.len() implies saved_before(
                    es@,
                    #[trigger] order@[a] as int,
                    #[trigger] order@[b] as int,
                ) by {
                if b < p {
                    assert(order@[a] == old_order[a] && order@[b] == old_order[b]);
                } else if b == p {
                    assert(order@[a] == old_order[a]);
                } else if a < p {
                    assert(order@[a] == old_order[a] && order@[b] == old_order[b - 1]);
                } else if a == p {
                    assert(order@[b] == old_order[b - 1]);
                } else {
                    assert(order@[a] == old_order[a - 1] && order@[b] == old_order[b - 1]);
                }
            }
        }
        i = i + 1;
    }
    order
}

// --- What a world saves ----------------------------------------------------------------

/// The component kinds a map carries, in the order each entity's records
/// list them (after its template name).
pub open spec fn carried_kinds() -> Seq<u32> {
    seq![
        TRANSFORM_ID,
        VELOCITY_ID,
        ANGULAR_VEL_ID,
        RIGID_BODY_ID,
        COLLIDER_ID,
        COLOR_ID,
        PLAYER_ID,
        GROUND_ID,
        STATIC_ID,
        SENSOR_ID,
        AUDIO_LISTENER_ID,
        CAMERA_ID,
        MODEL_ID,
        SCRIPT_ID,
        AUDIO_SOURCE_ID,
    ]
}

/// The record saved for kind `k` of `e`: its component's record, when `e`
/// has a component of that type under that kind.
pub open spec fn carried_record(w: WorldModel<Component>, e: Entity, k: u32) -> Seq<
    (u32, u32, Seq<u8>),
> {
    match w.component(e, k) {
        Some(c) => if kind_of(c) == k && component_record(component_view(c)) is Some {
            seq![component_record(component_view(c))->Some_0]
        } else {
            Seq::empty()
        },
        None => Seq::empty(),
    }
}

/// The records saved for the first `i` carried kinds.
pub open spec fn carried_records(w: WorldModel<Component>, e: Entity, i: int) -> Seq<
    (u32, u32, Seq<u8>),
>
    decreases i,
{
    if i <= 0 {
        Seq::empty()
    } else {
        carried_records(w, e, i - 1) + carried_record(w, e, carried_kinds()[i - 1])
    }
}

/// The template-name record of `e`, if it has a template name.
pub open spec fn type_records(w: WorldModel<Component>, e: Entity) -> Seq<(u32, u32, Seq<u8>)> {
    if w.entity_types.contains_key(e) {
        seq![entity_type_record(w.entity_types[e])]
    } else {
        Seq::empty()
    }
}

/// What is saved of one entity: its id, its name (empty for none), its
/// template name and its carried components.
pub open spec fn save_record(w: WorldModel<Component>, e: Entity) -> EntityRecordView {
    EntityRecordView {
        id: map_id(e),
        name: if w.names.contains_key(e) {
            w.names[e]
        } else {
            Seq::empty()
        },
        components: type_records(w, e) + carried_records(w, e, carried_kinds().len() as int),
    }
}

/// What is saved of a world: one record per stored entity, in save order.
pub open spec fn save_records(w: WorldModel<Component>) -> Seq<EntityRecordView> {
    let es = w.all_entities();
    save_order_of(es).map_values(|i: int| save_record(w, es[i]))
}

fn entity_record(world: &World<Component>, e: Entity) -> (r: EntityRecord)
    requires
        world.wf(),
    ensures
        r@ == save_record(world@, e),
{
    let empty = "";
    proof {
        reveal_strlit("");
    }
    let name = world.get_name_or(&e, empty);
    proof {
        assert(empty@ =~= Seq::<char>::empty());
    }
    let mut comps: Vec<RawComponent> = Vec::new();
    match world.get_entity_type(e) {
        Some(t) => {
            let mut d: Vec<u8> = Vec::new();
            push_str(&mut d, t.as_str());
            comps.push((ENTITY_TYPE_ID, 1u32, d));
        },
        None => {},
    }
    let ghost head = comps@.map_values(|c: RawComponent| (c.0, c.1, c.2@));
    proof {
        assert(head =~= type_records(world@, e));
    }
    let kinds: Vec<u32> = vec![
        TRANSFORM_ID,
        VELOCITY_ID,
        ANGULAR_VEL_ID,
        RIGID_BODY_ID,
        COLLIDER_ID,
        COLOR_ID,
        PLAYER_ID,
        GROUND_ID,
        STATIC_ID,
        SENSOR_ID,
        AUDIO_LISTENER_ID,
        CAMERA_ID,
        MODEL_ID,
        SCRIPT_ID,
        AUDIO_SOURCE_ID,
    ];
    proof {
        assert(kinds@ =~= carried_kinds());
    }
    let mut i: usize = 0;
    while i < kinds.len()
        invariant
            world.wf(),
            kinds@ == carried_kinds(),
            i <= kinds@.len(),
            head == type_records(world@, e),
            comps@.map_values(|c: RawComponent| (c.0, c.1, c.2@)) == head + carried_records(
                world@,
                e,
                i as int,
            ),
        decreases kinds@.len() - i,
    {
        let k = kinds[i];
        let ghost before = comps@.map_values(|c: RawComponent| (c.0, c.1, c.2@));
        match world.get_component(e, k) {
            Some(c) => {
                if c.kind() == k {
                    match encode_component(c) {
                        Some(rec) => {
                            comps.push(rec);
                            proof {
                                assert(comps@.map_values(|c: RawComponent| (c.0, c.1, c.2@))
                                    =~= before.push((rec.0, rec.1, rec.2@)));
                            }
                        },
                        None => {},
                    }
                }
            },
            None => {},
        }
        proof {
            assert(comps@.map_values(|c: RawComponent| (c.0, c.1, c.2@)) =~= head
                + carried_records(world@, e, i + 1));
        }
        i = i + 1;
    }
    let r = EntityRecord { id: map_id_of(e), name, components: comps };
    proof {
        assert(r@.components == type_records(world@, e) + carried_records(
            world@,
            e,
            carried_kinds().len() as int,
        ));
        assert(r@.name == save_record(world@, e).name);
        assert(r@ =~~= save_record(world@, e));
    }
    r
}

/// The records of every stored entity, in save order.
pub fn world_records(world: &World<Component>) -> (r: Vec<EntityRecord>)
    requires
        world.wf(),
    ensures
        record_views(r@) == save_records(world@),
        is_save_order(world@.all_entities(), save_order_of(world@.all_entities())),
{
    let es = world.entities();
    let order = save_order(&es);
    let ghost ord = usize_as_ints(order@);
    let n = es.len();
    let mut out: Vec<EntityRecord> = Vec::new();
    let mut k: usize = 0;
    while k < n
        invariant
            world.wf(),
            n == es@.len(),
            es@ == world@.all_entities(),
            is_save_order(es@, ord),
            ord == usize_as_ints(order@),
            order@.len() == n,
            k <= n,
            record_views(out@) == ord.take(k as int).map_values(|i: int| save_record(world@, es@[i])),
        decreases n - k,
    {
        proof {
            assert(ord[k as int] == order@[k as int] as int);
        }
        let rec = entity_record(world, es[order[k]]);
        proof {
            assert(record_views(out@.push(rec)) =~= record_views(out@).push(rec@));
            assert(ord.take(k + 1) =~= ord.take(k as int).push(ord[k as int]));
            assert(ord.take(k + 1).map_values(|i: int| save_record(world@, es@[i])) =~= ord.take(
                k as int,
            ).map_values(|i: int| save_record(world@, es@[i])).push(
                save_record(world@, es@[ord[k as int]]),
            ));
        }
        out.push(rec);
        k = k + 1;
    }
    proof {
        lemma_save_order_unique(es@, ord, save_order_of(es@));
        assert(ord.take(n as int) =~= ord);
    }
    out
}

/// The bytes of a world map holding `world` and an RNG seed.
pub fn write_world_bytes(world: &World<Component>, seed: u64) -> (out: Vec<u8>)
    requires
        world.wf(),
    ensures
        out@ == wmap_image(seed, save_records(world@)),
        is_save_order(world@.all_entities(), save_order_of(world@.all_entities())),
{
    let recs = world_records(world);
    encode_wmap(seed, recs.as_slice())
}

// --- Loading ------------------------------------------------------------------------------

/// A world with nothing in it.
pub open spec fn empty_world() -> WorldModel<Component> {
    WorldModel {
        slots: Seq::empty(),
        free_list: Seq::empty(),
        archetypes: Seq::empty(),
        names: Map::empty(),
        entity_types: Map::empty(),
    }
}

/// The world after loading one component record of `e`: a component is
/// set under its kind; a template name is recorded and the template's
/// defaults are applied; an unknown record changes nothing.
pub open spec fn load_component(w: WorldModel<Component>, e: Entity, c: MapComponent) -> WorldModel<
    Component,
> {
    match c {
        MapComponent::Value(v) => w.with_component(e, kind_of(v), v),
        MapComponent::EntityType(s) => {
            let w1 = w.with_entity_types(
                if s@.len() == 0 {
                    w.entity_types.remove(e)
                } else {
                    w.entity_types.insert(e, s@)
                },
            );
            match lookup(default_templates(), s@) {
                Some(t) => built(w1, e, t.recipe),
                None => w1,
            }
        },
        MapComponent::Unknown(_) => w,
    }
}

/// The world after loading the first `i` component records of `e`.
pub open spec fn load_components(
    w: WorldModel<Component>,
    e: Entity,
    cs: Seq<MapComponent>,
    i: int,
) -> WorldModel<Component>
    decreases i,
{
    if i <= 0 {
        w
    } else {
        load_component(load_components(w, e, cs, i - 1), e, cs[i - 1])
    }
}

/// The world after loading one entity record: the entity is created at its
/// saved id, named when its name is not empty, and given its components.
/// An entity whose slot index is the largest `u32` cannot be created.
pub open spec fn load_entity(w: WorldModel<Component>, ent: MapEntity) -> Result<
    WorldModel<Component>,
    WmapError,
> {
    let e = entity_of_map_id(ent.id);
    if !w.is_alive(e) && e.index == u32::MAX {
        Err(WmapError::EntityIndexOutOfRange)
    } else {
        let w1 = w.created_at(e);
        let w2 = if ent.name@.len() > 0 {
            w1.with_names(w1.names.insert(e, ent.name@))
        } else {
            w1
        };
        Ok(load_components(w2, e, ent.components@, ent.components@.len() as int))
    }
}

/// The world after loading the first `k` entity records.
pub open spec fn load_entities(w: WorldModel<Component>, ents: Seq<MapEntity>, k: int) -> Result<
    WorldModel<Component>,
    WmapError,
>
    decreases k,
{
    if k <= 0 {
        Ok(w)
    } else {
        match load_entities(w, ents, k - 1) {
            Err(e) => Err(e),
            Ok(w1) => load_entity(w1, ents[k - 1]),
        }
    }
}

/// The named entities among the first `k` records, with their names.
pub open spec fn loaded_names(ents: Seq<MapEntity>, k: int) -> Seq<(Entity, Seq<char>)>
    decreases k,
{
    if k <= 0 {
        Seq::empty()
    } else if ents[k - 1].name@.len() > 0 {
        loaded_names(ents, k - 1).push((entity_of_map_id(ents[k - 1].id), ents[k - 1].name@))
    } else {
        loaded_names(ents, k - 1)
    }
}

pub open spec fn name_pairs(v: Seq<(Entity, String)>) -> Seq<(Entity, Seq<char>)> {
    v.map_values(|p: (Entity, String)| (p.0, p.1@))
}

/// Build the world a decoded map describes, with the list of named entities.
pub fn load_world(ents: Vec<MapEntity>) -> (r: Result<
    (World<Component>, Vec<(Entity, String)>),
    WmapError,
>)
    ensures
        match r {
            Ok((w, names)) => w.wf() && load_entities(empty_world(), ents@, ents@.len() as int)
                == Ok::<WorldModel<Component>, WmapError>(w@) && name_pairs(names@) == loaded_names(
                ents@,
                ents@.len() as int,
            ),
            Err(e) => load_entities(empty_world(), ents@, ents@.len() as int) == Err::<
                WorldModel<Component>,
                WmapError,
            >(e),
        },
{
    let ghost all = ents@;
    let n = ents.len();
    let mut rest = ents;
    proof {
        assert(rest@ == all);
    }
    let mut world: World<Component> = World::new();
    let mut names: Vec<(Entity, String)> = Vec::new();
    proof {
        assert(world@ =~~= empty_world());
        assert(name_pairs(names@) =~= Seq::<(Entity, Seq<char>)>::empty());
    }
    let mut k: usize = 0;
    let mut failed = false;
    while k < n
        invariant_except_break
            k <= n,
            rest@ == all.skip(k as int),
            load_entities(empty_world(), all, k as int) == Ok::<WorldModel<Component>, WmapError>(
                world@,
            ),
            name_pairs(names@) == loaded_names(all, k as int),
            !failed,
        invariant
            n == all.len(),
            world.wf(),
        ensures
            failed ==> load_entities(empty_world(), all, n as int) == Err::<
                WorldModel<Component>,
                WmapError,
            >(WmapError::EntityIndexOutOfRange),
            !failed ==> load_entities(empty_world(), all, n as int) == Ok::<
                WorldModel<Component>,
                WmapError,
            >(world@) && name_pairs(names@) == loaded_names(all, n as int),
        decreases n - k,
    {
        let ent = rest.remove(0);
        proof {
            assert(ent == all[k as int]);
            lemma_load_err_extends(all, k as int, n as int);
        }
        let e = entity_from_map_id(ent.id);
        if !world.is_alive(e) && e.index == u32::MAX {
            proof {
                assert(load_entity(world@, all[k as int]) == Err::<WorldModel<Component>, WmapError>(
                    WmapError::EntityIndexOutOfRange,
                ));
                assert(load_entities(empty_world(), all, k + 1) == Err::<
                    WorldModel<Component>,
                    WmapError,
                >(WmapError::EntityIndexOutOfRange));
                assert(load_entities(empty_world(), all, n as int) == Err::<
                    WorldModel<Component>,
                    WmapError,
                >(WmapError::EntityIndexOutOfRange));
            }
            failed = true;
            break;
        }
        world.create_entity_at(e);
        let ghost created = world@;
        let MapEntity { id, name, components } = ent;
        if !name.as_str().is_empty() {
            world.set_name(e, name.as_str());
            proof {
                assert(name@.len() > 0);
            }
            names.push((e, name));
            proof {
                assert(name_pairs(names@) =~= loaded_names(all, k as int).push((e, all[k as int].name@)));
            }
        } else {
            proof {
                assert(name@.len() == 0);
            }
        }
        let ghost named = world@;
        let ghost cs = components@;
        let m = components.len();
        let mut comps = components;
        let mut i: usize = 0;
        while i < m
            invariant
                m == cs.len(),
                i <= m,
                comps@ == cs.skip(i as int),
                world.wf(),
                world@ == load_components(named, e, cs, i as int),
            decreases m - i,
        {
            let c = comps.remove(0);
            proof {
                assert(c == cs[i as int]);
            }
            match c {
                MapComponent::Value(v) => {
                    world.attach(e, v);
                },
                MapComponent::EntityType(t) => {
                    world.set_entity_type(e, t.as_str());
                    apply_type(&mut world, e, t.as_str());
                },
                MapComponent::Unknown(_) => {},
            }
            proof {
                assert(comps@ =~= cs.skip(i + 1));
            }
            i = i + 1;
        }
        proof {
            assert(rest@ =~= all.skip(k + 1));
        }
        k = k + 1;
    }
    if failed {
        return Err(WmapError::EntityIndexOutOfRange);
    }
    Ok((world, names))
}

proof fn lemma_load_err_extends(all: Seq<MapEntity>, k: int, n: int)
    requires
        0 <= k < n,
        load_entities(empty_world(), all, k) is Ok,
    ensures
        load_entities(empty_world(), all, k + 1) is Err ==> load_entities(empty_world(), all, n)
            == load_entities(empty_world(), all, k + 1),
    decreases n,
{
    if n > k + 1 {
        lemma_load_err_extends(all, k, n - 1);
    }
}

/// Read a world map from its bytes: the world it describes, its RNG seed and
/// its named entities.
pub fn read_world_bytes(b: &[u8]) -> (r: Result<
    (World<Component>, u64, Vec<(Entity, String)>),
    WmapError,
>)
    ensures
        match decode_wmap_spec(b@) {
            Err(e) => r == Err::<(World<Component>, u64, Vec<(Entity, String)>), WmapError>(e),
            Ok((seed, views)) => exists|ents: Seq<MapEntity>|
                #![trigger entity_views(ents)]
                entity_views(ents) == views && match r {
                    Ok((w, s, names)) => s == seed && w.wf() && load_entities(
                        empty_world(),
                        ents,
                        ents.len() as int,
                    ) == Ok::<WorldModel<Component>, WmapError>(w@) && name_pairs(names@)
                        == loaded_names(ents, ents.len() as int),
                    Err(e) => load_entities(empty_world(), ents, ents.len() as int) == Err::<
                        WorldModel<Component>,
                        WmapError,
                    >(e),
                },
        },
{
    let file = match decode_wmap(b) {
        Ok(f) => f,
        Err(e) => {
            return Err(e);
        },
    };
    let seed = file.seed;
    let ghost ents = file.entities@;
    match load_world(file.entities) {
        Ok((w, names)) => {
            proof {
                assert(entity_views(ents) == entity_views(ents));
            }
            Ok((w, seed, names))
        },
        Err(e) => {
            proof {
                assert(entity_views(ents) == entity_views(ents));
            }
            Err(e)
        },
    }
}

} // verus!
