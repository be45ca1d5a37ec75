//! Saving a world and loading it back: the world read from a written map
//! has every saved entity, alive under the same handle, with its name, its
//! template name and the components the format carries.

use vstd::prelude::*;
use vstd::utf8::encode_utf8;

use crate::components::{
    default_transform, kind_of, AngularVelocity, Component, RigidBody, Velocity3D, ANGULAR_VEL_ID,
    AUDIO_LISTENER_ID, CAMERA_ID, COLLIDER_ID, F32_ONE, F32_ZERO, PLAYER_ID, RIGID_BODY_ID, SENSOR_ID,
    SKY_SETTINGS_ID, SUN_LIGHT_ID, TRANSFORM_ID, VELOCITY_ID,
};
use crate::ecs::{entities_prefix, ArchetypeModel, Entity, WorldModel};
use crate::world_laws::held_at_most_once;
use crate::entity_types::{built, with_transform, zero_vec3, Recipe};
use crate::wmap::{
    component_record, component_view, decode_record, entity_type_record, lemma_component_codec,
    lemma_entity_type_codec, strings_fit, MapComponentView, WmapError,
};
use crate::wmap::MapComponent;
use crate::wmap_file::{
    decode_wmap_spec, decoded_component, decoded_entity, entity_views, lemma_wmap_round_trip,
    records_decode, records_fit, wmap_image, EntityRecordView, MapEntity, MapEntityView,
};
use crate::wmap_world::{
    carried_kinds, carried_record, carried_records, empty_world, entity_of_map_id, is_save_order,
    lemma_map_id_round_trip, load_component, load_components, load_entities, load_entity,
    save_order_of, save_record, save_records, type_records,
};
use crate::wpak_build::lists_index;
use crate::world_frames::{
    keeps_others, lemma_create_step, lemma_keeps_others_refl, lemma_keeps_others_trans,
    lemma_set_step, lemma_tables_step, tidy,
};
use crate::entity_types::{default_templates, lookup};

verus! {

// --- Template defaults -------------------------------------------------------------------

/// One more component set on `x`, on top of steps that kept the others.
proof fn lemma_then_set(w0: WorldModel<Component>, w: WorldModel<Component>, x: Entity, k: u32, v: Component)
    requires
        tidy(w),
        w.is_alive(x),
        keeps_others(w0, w, x),
        w.names == w0.names,
        w.entity_types == w0.entity_types,
    ensures
        tidy(w.with_component(x, k, v)),
        w.with_component(x, k, v).is_alive(x),
        keeps_others(w0, w.with_component(x, k, v), x),
        w.with_component(x, k, v).names == w0.names,
        w.with_component(x, k, v).entity_types == w0.entity_types,
{
    lemma_set_step(w, x, k, v);
    lemma_keeps_others_trans(w0, w, w.with_component(x, k, v), x);
}

/// Applying a template's defaults to a live entity of a tidy world only
/// touches that entity's components.
pub proof fn lemma_built_step(w: WorldModel<Component>, x: Entity, recipe: Recipe)
    requires
        tidy(w),
        w.is_alive(x),
    ensures
        tidy(built(w, x, recipe)),
        built(w, x, recipe).is_alive(x),
        keeps_others(w, built(w, x, recipe), x),
        built(w, x, recipe).names == w.names,
        built(w, x, recipe).entity_types == w.entity_types,
{
    let z = zero_vec3();
    let w1 = with_transform(w, x);
    assert(keeps_others(w, w, x));
    lemma_then_set(w, w, x, TRANSFORM_ID, Component::Transform(default_transform()));
    match recipe {
        Recipe::PropMesh => {},
        Recipe::EnvFog => {},
        Recipe::LightPoint => {},
        Recipe::EnvSun => {
            lemma_then_set(w, w1, x, SUN_LIGHT_ID, Component::SunLight(crate::components::default_sun_light()));
        },
        Recipe::EnvSky => {
            lemma_then_set(w, w1, x, SKY_SETTINGS_ID, Component::SkySettings(crate::components::default_sky_settings()));
        },
        Recipe::PropPhysics => {
            let w2 = w1.with_component(x, VELOCITY_ID, Component::Velocity(Velocity3D { linear: z }));
            lemma_then_set(w, w1, x, VELOCITY_ID, Component::Velocity(Velocity3D { linear: z }));
            let w3 = w2.with_component(x, ANGULAR_VEL_ID, Component::AngularVelocity(AngularVelocity { radians: z }));
            lemma_then_set(w, w2, x, ANGULAR_VEL_ID, Component::AngularVelocity(AngularVelocity { radians: z }));
            let rb = Component::RigidBody(
                RigidBody { mass: F32_ONE, restitution: 0x3e99_999au32, angular_damping: 0x3f73_3333u32 },
            );
            let w4 = w3.with_component(x, RIGID_BODY_ID, rb);
            lemma_then_set(w, w3, x, RIGID_BODY_ID, rb);
            lemma_then_set(w, w4, x, COLLIDER_ID, Component::Collider(crate::components::default_collider()));
        },
        Recipe::InfoSpawn => {
            let w2 = w1.with_component(x, VELOCITY_ID, Component::Velocity(Velocity3D { linear: z }));
            lemma_then_set(w, w1, x, VELOCITY_ID, Component::Velocity(Velocity3D { linear: z }));
            let rb = Component::RigidBody(
                RigidBody { mass: F32_ONE, restitution: F32_ZERO, angular_damping: 0x3f73_3333u32 },
            );
            let w3 = w2.with_component(x, RIGID_BODY_ID, rb);
            lemma_then_set(w, w2, x, RIGID_BODY_ID, rb);
            let col = Component::Collider(crate::components::default_collider());
            let w4 = w3.with_component(x, COLLIDER_ID, col);
            lemma_then_set(w, w3, x, COLLIDER_ID, col);
            let w5 = w4.with_component(x, PLAYER_ID, Component::Player);
            lemma_then_set(w, w4, x, PLAYER_ID, Component::Player);
            let cam = Component::Camera(crate::components::default_camera());
            let w6 = w5.with_component(x, CAMERA_ID, cam);
            lemma_then_set(w, w5, x, CAMERA_ID, cam);
            lemma_then_set(w, w6, x, AUDIO_LISTENER_ID, Component::AudioListener);
        },
        Recipe::TriggerBox => {
            let col = Component::Collider(crate::components::default_collider());
            let w2 = w1.with_component(x, COLLIDER_ID, col);
            lemma_then_set(w, w1, x, COLLIDER_ID, col);
            lemma_then_set(w, w2, x, SENSOR_ID, Component::Sensor);
        },
    }
}

// --- The records of one entity ----------------------------------------------------------

/// The carried kinds are distinct.
pub proof fn lemma_carried_kinds_distinct()
    ensures
        carried_kinds().len() == 15,
        forall|i: int, j: int|
            0 <= i < 15 && 0 <= j < 15 && i != j ==> carried_kinds()[i] != carried_kinds()[j],
{
}

/// Two components with the same view are stored under the same kind.
pub proof fn lemma_kind_by_view(c1: Component, c2: Component)
    requires
        component_view(c1) == component_view(c2),
    ensures
        kind_of(c1) == kind_of(c2),
{
    match c1 {
        Component::Transform(_) => {},
        Component::Velocity(_) => {},
        Component::AngularVelocity(_) => {},
        Component::RigidBody(_) => {},
        Component::Collider(_) => {},
        Component::Color(_) => {},
        Component::Player => {},
        Component::Ground => {},
        Component::Static => {},
        Component::Sensor => {},
        Component::AudioListener => {},
        Component::Camera(_) => {},
        Component::Model(_) => {},
        Component::Script(_) => {},
        Component::AudioSource(_) => {},
        Component::SunLight(_) => {},
        Component::SkySettings(_) => {},
    }
}

/// At most one record per carried kind.
pub proof fn lemma_carried_len(w: WorldModel<Component>, x: Entity, p: int)
    requires
        0 <= p,
    ensures
        carried_records(w, x, p).len() <= p,
    decreases p,
{
    if p > 0 {
        lemma_carried_len(w, x, p - 1);
    }
}

/// The records of the first `p` kinds begin the records of the first `q`.
pub proof fn lemma_carried_prefix(w: WorldModel<Component>, x: Entity, p: int, q: int)
    requires
        0 <= p <= q,
    ensures
        carried_records(w, x, p).len() <= carried_records(w, x, q).len(),
        carried_records(w, x, q).subrange(0, carried_records(w, x, p).len() as int)
            == carried_records(w, x, p),
    decreases q,
{
    if q > p {
        lemma_carried_prefix(w, x, p, q - 1);
        let a = carried_records(w, x, q - 1);
        let b = carried_records(w, x, q);
        assert(b == a + carried_record(w, x, carried_kinds()[q - 1]));
        assert(b.subrange(0, carried_records(w, x, p).len() as int) =~= a.subrange(
            0,
            carried_records(w, x, p).len() as int,
        ));
    } else {
        assert(carried_records(w, x, q).subrange(0, carried_records(w, x, q).len() as int)
            =~= carried_records(w, x, q));
    }
}

/// Whether `x`'s component of kind `k` is saved: it exists, is stored under
/// its own kind, and the format has a record for its type.
pub open spec fn saved_component(w: WorldModel<Component>, x: Entity, k: u32) -> bool {
    match w.component(x, k) {
        Some(c) => kind_of(c) == k && component_record(component_view(c)) is Some,
        None => false,
    }
}

/// The strings of every component of `x` fit the format.
pub open spec fn component_strings_fit(w: WorldModel<Component>, x: Entity) -> bool {
    forall|k: u32| #[trigger] w.component(x, k) matches Some(c) ==> strings_fit(component_view(c))
}

/// A carried record is there exactly when the component is saved, and it
/// decodes to that component.
pub proof fn lemma_carried_record(w: WorldModel<Component>, x: Entity, k: u32)
    requires
        component_strings_fit(w, x),
    ensures
        carried_record(w, x, k).len() == (if saved_component(w, x, k) { 1int } else { 0int }),
        saved_component(w, x, k) ==> decode_record(
            carried_record(w, x, k)[0].0,
            carried_record(w, x, k)[0].1,
            carried_record(w, x, k)[0].2,
        ) == Ok::<MapComponentView, WmapError>(
            MapComponentView::Value(component_view(w.component(x, k)->Some_0)),
        ),
{
    match w.component(x, k) {
        Some(c) => {
            assert(strings_fit(component_view(c)));
            lemma_component_codec(c);
        },
        None => {},
    }
}

/// Every carried record of `x` decodes.
pub proof fn lemma_carried_decode(w: WorldModel<Component>, x: Entity, p: int)
    requires
        0 <= p <= 15,
        component_strings_fit(w, x),
    ensures
        forall|i: int|
            0 <= i < carried_records(w, x, p).len() ==> decode_record(
                (#[trigger] carried_records(w, x, p)[i]).0,
                carried_records(w, x, p)[i].1,
                carried_records(w, x, p)[i].2,
            ) is Ok,
    decreases p,
{
    if p > 0 {
        lemma_carried_decode(w, x, p - 1);
        let k = carried_kinds()[p - 1];
        lemma_carried_record(w, x, k);
        let a = carried_records(w, x, p - 1);
        assert(carried_records(w, x, p) == a + carried_record(w, x, k));
        assert forall|i: int| 0 <= i < carried_records(w, x, p).len() implies decode_record(
            (#[trigger] carried_records(w, x, p)[i]).0,
            carried_records(w, x, p)[i].1,
            carried_records(w, x, p)[i].2,
        ) is Ok by {
            if i < a.len() {
                assert(carried_records(w, x, p)[i] == a[i]);
            } else {
                assert(carried_records(w, x, p)[i] == carried_record(w, x, k)[0]);
            }
        }
    }
}

/// The template-name record of `x`, when there is one, decodes to the name.
pub proof fn lemma_type_record(w: WorldModel<Component>, x: Entity)
    requires
        w.entity_types.contains_key(x) ==> encode_utf8(w.entity_types[x]).len() <= u32::MAX,
    ensures
        type_records(w, x).len() == (if w.entity_types.contains_key(x) { 1int } else { 0int }),
        w.entity_types.contains_key(x) ==> decode_record(
            type_records(w, x)[0].0,
            type_records(w, x)[0].1,
            type_records(w, x)[0].2,
        ) == Ok::<MapComponentView, WmapError>(MapComponentView::EntityType(w.entity_types[x])),
{
    if w.entity_types.contains_key(x) {
        lemma_entity_type_codec(w.entity_types[x]);
        assert(type_records(w, x)[0] == entity_type_record(w.entity_types[x]));
    }
}

// --- Loading the records of one entity -------------------------------------------------------

/// `x`'s component of kind `k` in `w2` is the one `w` saves, when `w` saves
/// one (compared by value, strings by their characters).
pub open spec fn keeps_component(w: WorldModel<Component>, w2: WorldModel<Component>, x: Entity, k: u32) -> bool {
    saved_component(w, x, k) ==> (w2.component(x, k) matches Some(c2) && component_view(c2)
        == component_view(w.component(x, k)->Some_0))
}

/// The template-name table after loading `x`'s template-name record, if
/// `w` saves one.
pub open spec fn typed_table(w: WorldModel<Component>, table: Map<Entity, Seq<char>>, x: Entity) -> Map<Entity, Seq<char>> {
    if w.entity_types.contains_key(x) {
        if w.entity_types[x].len() == 0 {
            table.remove(x)
        } else {
            table.insert(x, w.entity_types[x])
        }
    } else {
        table
    }
}

/// Loading the template-name record (if any) of a live entity.
proof fn lemma_load_type(w: WorldModel<Component>, w2: WorldModel<Component>, x: Entity, cs: Seq<MapComponent>, t: int)
    requires
        tidy(w2),
        w2.is_alive(x),
        t == type_records(w, x).len(),
        cs.len() >= t,
        w.entity_types.contains_key(x) ==> encode_utf8(w.entity_types[x]).len() <= u32::MAX,
        t == 1 ==> cs[0]@ == MapComponentView::EntityType(w.entity_types[x]),
    ensures
        tidy(load_components(w2, x, cs, t)),
        load_components(w2, x, cs, t).is_alive(x),
        keeps_others(w2, load_components(w2, x, cs, t), x),
        load_components(w2, x, cs, t).names == w2.names,
        load_components(w2, x, cs, t).entity_types == typed_table(w, w2.entity_types, x),
{
    lemma_type_record(w, x);
    if t == 0 {
        assert(load_components(w2, x, cs, 0) == w2);
        lemma_keeps_others_refl(w2, x);
    } else {
        assert(load_components(w2, x, cs, 0) == w2);
        assert(load_components(w2, x, cs, 1) == load_component(w2, x, cs[0]));
        let name = w.entity_types[x];
        match cs[0] {
            MapComponent::EntityType(s) => {
                assert(s@ == name);
                let table = if s@.len() == 0 {
                    w2.entity_types.remove(x)
                } else {
                    w2.entity_types.insert(x, s@)
                };
                let w1 = w2.with_entity_types(table);
                assert(table.remove(x) =~= w2.entity_types.remove(x));
                assert(w2.names.remove(x) == w2.names.remove(x));
                lemma_tables_step(w2, x, w2.names, table);
                assert(w2.with_names(w2.names).with_entity_types(table) =~= w1);
                assert(w1.is_alive(x));
                match lookup(default_templates(), s@) {
                    Some(tm) => {
                        lemma_built_step(w1, x, tm.recipe);
                        lemma_keeps_others_trans(w2, w1, built(w1, x, tm.recipe), x);
                    },
                    None => {},
                }
            },
            MapComponent::Value(c) => {
                assert(false);
            },
            MapComponent::Unknown(u) => {
                assert(false);
            },
        }
    }
}

/// Loading the first `p` carried kinds' records of a live entity.
proof fn lemma_load_carried(
    w: WorldModel<Component>,
    w2: WorldModel<Component>,
    x: Entity,
    cs: Seq<MapComponent>,
    t: int,
    p: int,
)
    requires
        0 <= p <= 15,
        0 <= t,
        component_strings_fit(w, x),
        cs.len() == t + carried_records(w, x, 15).len(),
        forall|i: int|
            0 <= i < carried_records(w, x, 15).len() ==> (#[trigger] cs.skip(t)[i])@
                == decoded_component(carried_records(w, x, 15)[i]),
        tidy(load_components(w2, x, cs, t)),
        load_components(w2, x, cs, t).is_alive(x),
        keeps_others(w2, load_components(w2, x, cs, t), x),
    ensures
        tidy(load_components(w2, x, cs, t + carried_records(w, x, p).len())),
        load_components(w2, x, cs, t + carried_records(w, x, p).len()).is_alive(x),
        keeps_others(w2, load_components(w2, x, cs, t + carried_records(w, x, p).len()), x),
        load_components(w2, x, cs, t + carried_records(w, x, p).len()).names == load_components(
            w2,
            x,
            cs,
            t,
        ).names,
        load_components(w2, x, cs, t + carried_records(w, x, p).len()).entity_types
            == load_components(w2, x, cs, t).entity_types,
        forall|q: int|
            0 <= q < p ==> keeps_component(
                w,
                load_components(w2, x, cs, t + carried_records(w, x, p).len()),
                x,
                #[trigger] carried_kinds()[q],
            ),
    decreases p,
{
    if p == 0 {
        lemma_keeps_others_refl(w2, x);
        return;
    }
    lemma_load_carried(w, w2, x, cs, t, p - 1);
    lemma_carried_kinds_distinct();
    let k = carried_kinds()[p - 1];
    lemma_carried_record(w, x, k);
    let a = carried_records(w, x, p - 1);
    let l = t + a.len();
    let wprev = load_components(w2, x, cs, l);
    assert(carried_records(w, x, p) == a + carried_record(w, x, k));
    if !saved_component(w, x, k) {
        assert(carried_records(w, x, p).len() == a.len());
        return;
    }
    lemma_carried_prefix(w, x, p, 15);
    let b = carried_records(w, x, p);
    assert(b[a.len() as int] == carried_record(w, x, k)[0]);
    assert(carried_records(w, x, 15)[a.len() as int] == b[a.len() as int]);
    assert(cs.skip(t)[a.len() as int] == cs[l]);
    let c = w.component(x, k)->Some_0;
    assert(cs[l]@ == MapComponentView::Value(component_view(c)));
    assert(load_components(w2, x, cs, l + 1) == load_component(wprev, x, cs[l]));
    match cs[l] {
        MapComponent::Value(c2) => {
            lemma_kind_by_view(c2, c);
            lemma_set_step(wprev, x, k, c2);
            lemma_keeps_others_trans(w2, wprev, wprev.with_component(x, k, c2), x);
            let wp = wprev.with_component(x, k, c2);
            assert(b.len() == a.len() + 1);
            assert(wp == load_components(w2, x, cs, t + b.len()));
            assert forall|q: int| 0 <= q < p implies keeps_component(w, wp, x, #[trigger] carried_kinds()[q]) by {
                if q < p - 1 {
                    assert(carried_kinds()[q] != k);
                    assert(keeps_component(w, wprev, x, carried_kinds()[q]));
                }
            }
        },
        MapComponent::EntityType(s) => {
            assert(false);
        },
        MapComponent::Unknown(u) => {
            assert(false);
        },
    }
}

// --- Loading one entity --------------------------------------------------------------------

/// What a loaded world holds of `z` is what `w` saves of it: its name and its
/// template name when they are not empty, and each carried component.
pub open spec fn loaded_as_saved(w: WorldModel<Component>, wl: WorldModel<Component>, z: Entity) -> bool {
    &&& wl.names.contains_key(z) == (w.names.contains_key(z) && w.names[z].len() > 0)
    &&& wl.names.contains_key(z) ==> wl.names[z] == w.names[z]
    &&& wl.entity_types.contains_key(z) == (w.entity_types.contains_key(z) && w.entity_types[z].len()
        > 0)
    &&& wl.entity_types.contains_key(z) ==> wl.entity_types[z] == w.entity_types[z]
    &&& forall|q: int| 0 <= q < 15 ==> keeps_component(w, wl, z, #[trigger] carried_kinds()[q])
}

/// A world partly loaded from a map of `w`: tidy, storing only entities `w`
/// stores, each as saved, and naming only stored entities.
pub open spec fn loading(w: WorldModel<Component>, wl: WorldModel<Component>) -> bool {
    &&& tidy(wl)
    &&& forall|z: Entity| #[trigger] wl.stored(z) ==> w.stored(z) && loaded_as_saved(w, wl, z)
    &&& forall|z: Entity| #[trigger] wl.names.contains_key(z) ==> wl.stored(z)
    &&& forall|z: Entity| #[trigger] wl.entity_types.contains_key(z) ==> wl.stored(z)
}

/// A world whose map reads back: consistent; every stored entity alive,
/// sitting once, not in the last slot, and with strings that fit the format.
pub open spec fn saveable(w: WorldModel<Component>) -> bool {
    &&& w.wf()
    &&& forall|z: Entity| #[trigger]
        w.stored(z) ==> w.is_alive(z) && held_at_most_once(w, z) && z.index < u32::MAX && (
        w.names.contains_key(z) ==> encode_utf8(w.names[z]).len() <= u32::MAX) && (
        w.entity_types.contains_key(z) ==> encode_utf8(w.entity_types[z]).len() <= u32::MAX)
            && component_strings_fit(w, z)
}

/// A tidy world (the kind every world operation keeps) whose stored
/// entities fit the file's limits can be saved and loaded back.
pub proof fn lemma_tidy_saveable(w: WorldModel<Component>)
    requires
        crate::world_frames::tidy(w),
        forall|z: Entity| #[trigger] w.stored(z) ==> z.index < u32::MAX && (w.names.contains_key(z)
            ==> encode_utf8(w.names[z]).len() <= u32::MAX) && (w.entity_types.contains_key(z)
            ==> encode_utf8(w.entity_types[z]).len() <= u32::MAX) && component_strings_fit(w, z),
    ensures
        saveable(w),
{
}

proof fn lemma_loaded_as_saved_frame(
    w: WorldModel<Component>,
    wj: WorldModel<Component>,
    wl: WorldModel<Component>,
    y: Entity,
    z: Entity,
)
    requires
        keeps_others(wj, wl, y),
        z != y,
        wj.stored(z),
        loaded_as_saved(w, wj, z),
    ensures
        loaded_as_saved(w, wl, z),
{
    assert(wl.names.remove(y).contains_key(z) == wl.names.contains_key(z));
    assert(wj.names.remove(y).contains_key(z) == wj.names.contains_key(z));
    assert(wl.entity_types.remove(y).contains_key(z) == wl.entity_types.contains_key(z));
    assert(wj.entity_types.remove(y).contains_key(z) == wj.entity_types.contains_key(z));
    if wl.names.contains_key(z) {
        assert(wl.names.remove(y)[z] == wl.names[z]);
        assert(wj.names.remove(y)[z] == wj.names[z]);
    }
    if wl.entity_types.contains_key(z) {
        assert(wl.entity_types.remove(y)[z] == wl.entity_types[z]);
        assert(wj.entity_types.remove(y)[z] == wj.entity_types[z]);
    }
    assert forall|q: int| 0 <= q < 15 implies keeps_component(w, wl, z, #[trigger] carried_kinds()[q]) by {
        assert(wl.component(z, carried_kinds()[q]) == wj.component(z, carried_kinds()[q]));
        assert(keeps_component(w, wj, z, carried_kinds()[q]));
    }
}

/// Loading the record `w` saves for a stored entity keeps the loading
/// invariant and stores that entity.
pub proof fn lemma_load_entity_step(w: WorldModel<Component>, wj: WorldModel<Component>, ent: MapEntity, y: Entity)
    requires
        saveable(w),
        w.stored(y),
        ent@ == decoded_entity(save_record(w, y)),
        loading(w, wj),
    ensures
        load_entity(wj, ent) matches Ok(wl) && loading(w, wl) && wl.stored(y) && forall|z: Entity|
            #[trigger] wj.stored(z) ==> wl.stored(z),
{
    lemma_map_id_round_trip(y);
    let rec = save_record(w, y);
    assert(ent.id == rec.id);
    assert(entity_of_map_id(ent.id) == y);
    assert(w.is_alive(y) && y.index < u32::MAX);
    // creating the entity
    assert forall|z: Entity| #[trigger] wj.stored(z) && z.index == y.index implies z == y by {
        assert(w.stored(z));
        assert(w.is_alive(z));
        assert(w.slots[z.index as int].0 == z.generation);
    }
    lemma_create_step(wj, y);
    let w1 = wj.created_at(y);
    // naming it
    let name = rec.name;
    assert(ent.name@ == name);
    let w2 = if name.len() > 0 {
        w1.with_names(w1.names.insert(y, name))
    } else {
        w1
    };
    if name.len() > 0 {
        assert(w1.names.insert(y, name).remove(y) =~= w1.names.remove(y));
        lemma_tables_step(w1, y, w1.names.insert(y, name), w1.entity_types);
        assert(w1.with_names(w1.names.insert(y, name)).with_entity_types(w1.entity_types) =~= w2);
    } else {
        lemma_keeps_others_refl(w1, y);
    }
    assert(tidy(w2) && w2.is_alive(y));
    lemma_keeps_others_trans(wj, w1, w2, y);
    // its records
    let cs = ent.components@;
    let t = type_records(w, y).len() as int;
    let cr = carried_records(w, y, 15);
    let recs = rec.components;
    assert(recs == type_records(w, y) + cr);
    assert(ent@.components == cs.map_values(|c: MapComponent| c@));
    assert(ent@.components == recs.map_values(|c: (u32, u32, Seq<u8>)| decoded_component(c)));
    assert(cs.len() == recs.len());
    assert forall|i: int| 0 <= i < cs.len() implies (#[trigger] cs[i])@ == decoded_component(recs[i]) by {
        assert(ent@.components[i] == cs[i]@);
        assert(ent@.components[i] == decoded_component(recs[i]));
    }
    lemma_type_record(w, y);
    if t == 1 {
        assert(recs[0] == type_records(w, y)[0]);
        assert(cs[0]@ == decoded_component(recs[0]));
    }
    lemma_load_type(w, w2, y, cs, t);
    assert forall|i: int| 0 <= i < cr.len() implies (#[trigger] cs.skip(t)[i])@ == decoded_component(cr[i]) by {
        assert(cs.skip(t)[i] == cs[t + i]);
        assert(recs[t + i] == cr[i]);
    }
    lemma_carried_len(w, y, 15);
    lemma_load_carried(w, w2, y, cs, t, 15);
    let wl = load_components(w2, y, cs, cs.len() as int);
    assert(wl == load_components(w2, y, cs, t + cr.len()));
    assert(load_entity(wj, ent) == Ok::<WorldModel<Component>, WmapError>(wl));
    lemma_keeps_others_trans(wj, w2, wl, y);
    // the loading invariant
    let wa = load_components(w2, y, cs, t);
    assert(wl.names == w2.names);
    assert(wl.entity_types == typed_table(w, w2.entity_types, y));
    assert(w2.entity_types == wj.entity_types);
    assert(wl.stored(y));
    assert(loaded_as_saved(w, wl, y)) by {
        if name.len() > 0 {
            assert(w.names.contains_key(y));
            assert(wl.names == wj.names.insert(y, name));
        } else {
            assert(wl.names == wj.names);
            if wj.names.contains_key(y) {
                assert(wj.stored(y));
                assert(loaded_as_saved(w, wj, y));
            }
        }
        if !w.entity_types.contains_key(y) {
            if wj.entity_types.contains_key(y) {
                assert(wj.stored(y));
                assert(loaded_as_saved(w, wj, y));
            }
        }
    }
    assert forall|z: Entity| #[trigger] wl.stored(z) implies w.stored(z) && loaded_as_saved(w, wl, z) by {
        if z != y {
            assert(wj.stored(z));
            lemma_loaded_as_saved_frame(w, wj, wl, y, z);
        }
    }
    assert forall|z: Entity| #[trigger] wl.names.contains_key(z) implies wl.stored(z) by {
        if z != y {
            assert(wl.names.remove(y).contains_key(z));
            assert(wj.names.contains_key(z));
            assert(wj.stored(z));
        }
    }
    assert forall|z: Entity| #[trigger] wl.entity_types.contains_key(z) implies wl.stored(z) by {
        if z != y {
            assert(wl.entity_types.remove(y).contains_key(z));
            assert(wj.entity_types.contains_key(z));
            assert(wj.stored(z));
        }
    }
    assert forall|z: Entity| #[trigger] wj.stored(z) implies wl.stored(z) by {
        if z != y {
            assert(wl.stored(z));
        }
    }
}

// --- Loading every entity -------------------------------------------------------------------

/// The entities listed for the first `n` archetypes are the ones they hold.
pub proof fn lemma_entities_prefix<V>(archs: Seq<ArchetypeModel<V>>, n: int)
    requires
        0 <= n <= archs.len(),
    ensures
        forall|i: int|
            0 <= i < entities_prefix(archs, n).len() ==> exists|a: int|
                0 <= a < n && (#[trigger] archs[a]).entities.contains(
                    #[trigger] entities_prefix(archs, n)[i],
                ),
        forall|a: int, r: int|
            0 <= a < n && 0 <= r < archs[a].entities.len() ==> entities_prefix(archs, n).contains(
                #[trigger] archs[a].entities[r],
            ),
    decreases n,
{
    if n > 0 {
        lemma_entities_prefix(archs, n - 1);
        let p = entities_prefix(archs, n - 1);
        let l = entities_prefix(archs, n);
        let last = archs[n - 1].entities;
        assert(l == p + last);
        assert forall|i: int| 0 <= i < l.len() implies exists|a: int|
            0 <= a < n && (#[trigger] archs[a]).entities.contains(#[trigger] l[i]) by {
            if i < p.len() {
                assert(l[i] == p[i]);
                let a = choose|a: int| 0 <= a < n - 1 && (#[trigger] archs[a]).entities.contains(p[i]);
                assert(archs[a].entities.contains(l[i]));
            } else {
                assert(l[i] == last[i - p.len()]);
                assert(archs[n - 1].entities.contains(l[i]));
            }
        }
        assert forall|a: int, r: int| 0 <= a < n && 0 <= r < archs[a].entities.len() implies l.contains(
            #[trigger] archs[a].entities[r],
        ) by {
            if a < n - 1 {
                let i = choose|i: int| 0 <= i < p.len() && p[i] == archs[a].entities[r];
                assert(l[i] == p[i]);
            } else {
                assert(l[p.len() + r] == last[r]);
            }
        }
    }
}

/// The stored entities are exactly those `all_entities` lists.
pub proof fn lemma_all_entities<V>(w: WorldModel<V>)
    ensures
        forall|i: int| 0 <= i < w.all_entities().len() ==> w.stored(#[trigger] w.all_entities()[i]),
        forall|e: Entity| #[trigger] w.stored(e) ==> w.all_entities().contains(e),
{
    let n = w.archetypes.len() as int;
    lemma_entities_prefix(w.archetypes, n);
    assert forall|i: int| 0 <= i < w.all_entities().len() implies w.stored(#[trigger] w.all_entities()[i]) by {
        let a = choose|a: int| 0 <= a < n && (#[trigger] w.archetypes[a]).entities.contains(w.all_entities()[i]);
    }
    assert forall|e: Entity| #[trigger] w.stored(e) implies w.all_entities().contains(e) by {
        let a = choose|a: int| 0 <= a < n && w.archetypes[a].entities.contains(e);
        let r = choose|r: int| 0 <= r < w.archetypes[a].entities.len() && w.archetypes[a].entities[r] == e;
        assert(w.all_entities().contains(w.archetypes[a].entities[r]));
    }
}

/// The empty world is a start for loading.
pub proof fn lemma_loading_empty(w: WorldModel<Component>)
    ensures
        loading(w, empty_world()),
{
    let e = empty_world();
    assert(e.free_list.no_duplicates());
    assert forall|y: Entity| #[trigger] e.stored(y) implies false by {}
}

/// Loading the first `j` records of `w`'s map, in save order.
pub proof fn lemma_load_all(w: WorldModel<Component>, ents: Seq<MapEntity>, j: int)
    requires
        saveable(w),
        is_save_order(w.all_entities(), save_order_of(w.all_entities())),
        ents.len() == w.all_entities().len(),
        forall|q: int|
            0 <= q < ents.len() ==> (#[trigger] ents[q])@ == decoded_entity(
                save_record(w, w.all_entities()[save_order_of(w.all_entities())[q]]),
            ),
        0 <= j <= ents.len(),
    ensures
        load_entities(empty_world(), ents, j) matches Ok(wl) && loading(w, wl) && forall|q: int|
            0 <= q < j ==> wl.stored(
                w.all_entities()[#[trigger] save_order_of(w.all_entities())[q]],
            ),
    decreases j,
{
    let es = w.all_entities();
    let o = save_order_of(es);
    if j == 0 {
        lemma_loading_empty(w);
        return;
    }
    lemma_load_all(w, ents, j - 1);
    let wprev = load_entities(empty_world(), ents, j - 1)->Ok_0;
    lemma_all_entities(w);
    assert(0 <= o[j - 1] < es.len());
    let y = es[o[j - 1]];
    assert(w.stored(y));
    lemma_load_entity_step(w, wprev, ents[j - 1], y);
    let wl = load_entity(wprev, ents[j - 1])->Ok_0;
    assert(load_entities(empty_world(), ents, j) == load_entity(wprev, ents[j - 1]));
    assert forall|q: int| 0 <= q < j implies wl.stored(es[#[trigger] o[q]]) by {
        if q < j - 1 {
            assert(wprev.stored(es[o[q]]));
        }
    }
}

// --- The round trip -------------------------------------------------------------------------

/// What a map of `w` reads back as, entity by entity.
pub open spec fn decoded_records(rs: Seq<EntityRecordView>) -> Seq<MapEntityView> {
    rs.map_values(|e: EntityRecordView| decoded_entity(e))
}

proof fn lemma_saved_records_readable(w: WorldModel<Component>)
    requires
        saveable(w),
        is_save_order(w.all_entities(), save_order_of(w.all_entities())),
    ensures
        records_fit(save_records(w)),
        records_decode(save_records(w)),
        save_records(w).len() == w.all_entities().len(),
        forall|q: int|
            0 <= q < save_records(w).len() ==> #[trigger] save_records(w)[q] == save_record(
                w,
                w.all_entities()[save_order_of(w.all_entities())[q]],
            ),
{
    let es = w.all_entities();
    let o = save_order_of(es);
    let rs = save_records(w);
    lemma_all_entities(w);
    assert forall|q: int| 0 <= q < rs.len() implies #[trigger] rs[q] == save_record(w, es[o[q]]) by {}
    assert forall|q: int| 0 <= q < rs.len() implies encode_utf8((#[trigger] rs[q]).name).len() <= u32::MAX
        && rs[q].components.len() <= u32::MAX by {
        let y = es[o[q]];
        assert(w.stored(y));
        lemma_type_record(w, y);
        lemma_carried_len(w, y, 15);
        if !w.names.contains_key(y) {
            assert(encode_utf8(Seq::<char>::empty()) =~= Seq::<u8>::empty());
        }
    }
    assert forall|q: int, i: int|
        0 <= q < rs.len() && 0 <= i < rs[q].components.len() implies decode_record(
        (#[trigger] rs[q].components[i]).0,
        rs[q].components[i].1,
        rs[q].components[i].2,
    ) is Ok by {
        let y = es[o[q]];
        assert(w.stored(y));
        lemma_type_record(w, y);
        lemma_carried_decode(w, y, 15);
        let t = type_records(w, y);
        let cr = carried_records(w, y, 15);
        assert(rs[q].components == t + cr);
        if i < t.len() {
            assert(rs[q].components[i] == t[i]);
        } else {
            assert(rs[q].components[i] == cr[i - t.len()]);
        }
    }
}

/// Writing a world's map and reading it back gives every entity the world
/// stores, alive under the same handle, with its name and template name
/// (when not empty) and every component the format carries (compared by
/// value, strings by their characters); nothing else is stored. This holds
/// for worlds whose stored entities are alive, sit once, are not in the
/// last slot, and whose strings fit the format's 32-bit lengths, when the
/// map is small enough for its 64-bit offsets.
pub proof fn lemma_world_round_trip(w: WorldModel<Component>, seed: u64, ents: Seq<MapEntity>)
    requires
        saveable(w),
        wmap_image(seed, save_records(w)).len() <= u64::MAX,
    ensures
        decode_wmap_spec(wmap_image(seed, save_records(w))) == Ok::<
            (u64, Seq<MapEntityView>),
            WmapError,
        >((seed, decoded_records(save_records(w)))),
        entity_views(ents) == decoded_records(save_records(w)) ==> (load_entities(
            empty_world(),
            ents,
            ents.len() as int,
        ) matches Ok(wl) && (forall|e: Entity|
            #[trigger] w.stored(e) ==> wl.is_alive(e) && loaded_as_saved(w, wl, e)) && (forall|
            e: Entity,
        | #[trigger] wl.stored(e) ==> w.stored(e))),
{
    let rs = save_records(w);
    crate::orders::lemma_save_order_exists(w.all_entities());
    lemma_saved_records_readable(w);
    lemma_wmap_round_trip(seed, rs);
    assert(rs.map_values(|e: EntityRecordView| decoded_entity(e)) == decoded_records(rs));
    if entity_views(ents) == decoded_records(rs) {
        let es = w.all_entities();
        let o = save_order_of(es);
        assert(entity_views(ents).len() == ents.len());
        assert(decoded_records(rs).len() == rs.len());
        assert(ents.len() == rs.len());
        assert forall|q: int| 0 <= q < ents.len() implies (#[trigger] ents[q])@ == decoded_entity(
            save_record(w, es[o[q]]),
        ) by {
            assert(entity_views(ents)[q] == ents[q]@);
            assert(decoded_records(rs)[q] == decoded_entity(rs[q]));
        }
        lemma_load_all(w, ents, ents.len() as int);
        let wl = load_entities(empty_world(), ents, ents.len() as int)->Ok_0;
        lemma_all_entities(w);
        assert forall|e: Entity| #[trigger] w.stored(e) implies wl.is_alive(e) && loaded_as_saved(w, wl, e) by {
            assert(es.contains(e));
            let i = choose|i: int| 0 <= i < es.len() && es[i] == e;
            assert(lists_index(o, i));
            let q = choose|q: int| 0 <= q < o.len() && o[q] == i;
            assert(wl.stored(es[o[q]]));
        }
    }
}

} // verus!
