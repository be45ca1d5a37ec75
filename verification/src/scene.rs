//! Building a world from a scene description (the entities of a `.wscene`
//! file): names, templates, transforms, colors, colliders, models, scripts
//! and tags, entity by entity in the order the scene lists them.

use vstd::prelude::*;

use crate::components::{
    default_camera, kind_of, Camera, Collider, Color, Component, Model, QuatBits, ScriptComponent,
    Transform3D, Vec3Bits, AUDIO_LISTENER_ID, CAMERA_ID, COLLIDER_ID, COLOR_ID, F32_ONE, F32_ZERO,
    GROUND_ID, MODEL_ID, PLAYER_ID, SCRIPT_ID, SENSOR_ID, STATIC_ID, TRANSFORM_ID,
};
use crate::ecs::{World, WorldModel};
use crate::entity_types::{apply_type, built, default_templates, lemma_built_tidy, lookup, Recipe};
use crate::text::same_str;
use crate::world_frames::{
    keeps_others, lemma_keeps_others_refl, lemma_keeps_others_trans, lemma_set_step, lemma_tables_step, tidy,
};
use crate::world_laws::lemma_spawn_fresh;
use crate::world_steps::lemma_spawn_step;

verus! {

/// A transform as a scene gives it; missing parts take their defaults.
pub struct SceneTransform {
    pub position: Option<[u32; 3]>,
    pub rotation: Option<[u32; 4]>,
    pub scale: Option<[u32; 3]>,
}

/// A color as a scene gives it; alpha defaults to one.
pub struct SceneColor {
    pub r: u32,
    pub g: u32,
    pub b: u32,
    pub a: Option<u32>,
}

/// One entity of a scene. Numbers are single-precision bit patterns.
pub struct SceneEntity {
    pub name: Option<String>,
    pub entity_type: Option<String>,
    pub transform: Option<SceneTransform>,
    pub color: Option<SceneColor>,
    pub collider: Option<[u32; 3]>,
    pub script: Option<String>,
    pub model: Option<String>,
    pub tags: Option<Vec<String>>,
}

pub open spec fn vec3_of(a: [u32; 3]) -> Vec3Bits {
    Vec3Bits { x: a@[0], y: a@[1], z: a@[2] }
}

/// The transform a scene transform describes.
pub open spec fn scene_transform(t: SceneTransform) -> Transform3D {
    Transform3D {
        position: match t.position {
            Some(p) => vec3_of(p),
            None => Vec3Bits { x: F32_ZERO, y: F32_ZERO, z: F32_ZERO },
        },
        rotation: match t.rotation {
            Some(q) => QuatBits { x: q@[0], y: q@[1], z: q@[2], w: q@[3] },
            None => QuatBits { x: F32_ZERO, y: F32_ZERO, z: F32_ZERO, w: F32_ONE },
        },
        scale: match t.scale {
            Some(s) => vec3_of(s),
            None => Vec3Bits { x: F32_ONE, y: F32_ONE, z: F32_ONE },
        },
    }
}

/// The component a tag stands for: `Player`, `Ground`, `Static`, `Sensor`,
/// `Camera` (with default settings) or `AudioListener`; other tags stand
/// for nothing.
pub open spec fn tag_component(tag: Seq<char>) -> Option<Component> {
    if tag == "Player"@ {
        Some(Component::Player)
    } else if tag == "Ground"@ {
        Some(Component::Ground)
    } else if tag == "Static"@ {
        Some(Component::Static)
    } else if tag == "Sensor"@ {
        Some(Component::Sensor)
    } else if tag == "Camera"@ {
        Some(Component::Camera(default_camera()))
    } else if tag == "AudioListener"@ {
        Some(Component::AudioListener)
    } else {
        None
    }
}

/// The world after the first `k` tags of `e`.
pub open spec fn with_tags(w: WorldModel<Component>, e: crate::ecs::Entity, tags: Seq<String>, k: int) -> WorldModel<Component>
    decreases k,
{
    if k <= 0 {
        w
    } else {
        let before = with_tags(w, e, tags, k - 1);
        match tag_component(tags[k - 1]@) {
            Some(c) => before.with_component(e, kind_of(c), c),
            None => before,
        }
    }
}

/// Setting a component when there is one to set.
pub open spec fn with_opt(w: WorldModel<Component>, e: crate::ecs::Entity, c: Option<Component>) -> WorldModel<Component> {
    match c {
        Some(v) => w.with_component(e, kind_of(v), v),
        None => w,
    }
}

/// The world with `e` named, when the scene names it.
pub open spec fn named(w: WorldModel<Component>, e: crate::ecs::Entity, name: Option<String>) -> WorldModel<Component> {
    match name {
        Some(n) => w.with_names(
            if n@.len() == 0 {
                w.names.remove(e)
            } else {
                w.names.insert(e, n@)
            },
        ),
        None => w,
    }
}

/// The world with `e`'s template recorded and its defaults applied, when
/// the scene gives one.
pub open spec fn typed(w: WorldModel<Component>, e: crate::ecs::Entity, ty: Option<String>) -> WorldModel<Component> {
    match ty {
        Some(t) => {
            let wt = w.with_entity_types(
                if t@.len() == 0 {
                    w.entity_types.remove(e)
                } else {
                    w.entity_types.insert(e, t@)
                },
            );
            match lookup(default_templates(), t@) {
                Some(tm) => built(wt, e, tm.recipe),
                None => wt,
            }
        },
        None => w,
    }
}

pub open spec fn transform_component(t: Option<SceneTransform>) -> Option<Component> {
    match t {
        Some(t) => Some(Component::Transform(scene_transform(t))),
        None => None,
    }
}

pub open spec fn color_component(c: Option<SceneColor>) -> Option<Component> {
    match c {
        Some(c) => Some(Component::Color(Color { rgba: [c.r, c.g, c.b, match c.a {
            Some(a) => a,
            None => F32_ONE,
        }] })),
        None => None,
    }
}

pub open spec fn collider_component(h: Option<[u32; 3]>) -> Option<Component> {
    match h {
        Some(h) => Some(Component::Collider(Collider { half_extents: vec3_of(h) })),
        None => None,
    }
}

pub open spec fn model_component(m: Option<String>) -> Option<Component> {
    match m {
        Some(p) => Some(Component::Model(Model { path: p })),
        None => None,
    }
}

pub open spec fn script_component(s: Option<String>) -> Option<Component> {
    match s {
        Some(n) => Some(Component::Script(ScriptComponent { script_name: n })),
        None => None,
    }
}

/// The world with the components of `e`'s tags set, when the scene gives
/// tags.
pub open spec fn tagged(w: WorldModel<Component>, e: crate::ecs::Entity, tags: Option<Vec<String>>) -> WorldModel<Component> {
    match tags {
        Some(ts) => with_tags(w, e, ts@, ts@.len() as int),
        None => w,
    }
}

/// The world after one scene entity: spawned, named, given its template,
/// then its transform, color, collider, model, script and tags.
pub open spec fn scene_entity_world(w: WorldModel<Component>, ent: SceneEntity) -> WorldModel<Component> {
    let e = w.next_spawn();
    let w3 = typed(named(w.spawned(), e, ent.name), e, ent.entity_type);
    let w8 = with_opt(
        with_opt(
            with_opt(
                with_opt(with_opt(w3, e, transform_component(ent.transform)), e, color_component(ent.color)),
                e,
                collider_component(ent.collider),
            ),
            e,
            model_component(ent.model),
        ),
        e,
        script_component(ent.script),
    );
    tagged(w8, e, ent.tags)
}

/// The world built from the first `k` entities of a scene.
pub open spec fn scene_world(es: Seq<SceneEntity>, k: int) -> WorldModel<Component>
    decreases k,
{
    if k <= 0 {
        crate::wmap_world::empty_world()
    } else {
        scene_entity_world(scene_world(es, k - 1), es[k - 1])
    }
}

/// Template defaults and component changes keep the entity slab.
proof fn lemma_built_slab(w: WorldModel<Component>, e: crate::ecs::Entity, r: Recipe)
    ensures
        built(w, e, r).slots == w.slots,
        built(w, e, r).free_list == w.free_list,
{
}

proof fn lemma_tags_slab(w: WorldModel<Component>, e: crate::ecs::Entity, tags: Seq<String>, k: int)
    ensures
        with_tags(w, e, tags, k).slots == w.slots,
        with_tags(w, e, tags, k).free_list == w.free_list,
    decreases k,
{
    if k > 0 {
        lemma_tags_slab(w, e, tags, k - 1);
    }
}

proof fn lemma_opt_slab(w: WorldModel<Component>, e: crate::ecs::Entity, c: Option<Component>)
    ensures
        with_opt(w, e, c).slots == w.slots,
        with_opt(w, e, c).free_list == w.free_list,
{
}

/// A scene entity takes exactly the next fresh slot.
proof fn lemma_scene_entity_slab(w: WorldModel<Component>, ent: SceneEntity)
    ensures
        scene_entity_world(w, ent).slots == w.spawned().slots,
        scene_entity_world(w, ent).free_list == w.spawned().free_list,
{
    let e = w.next_spawn();
    let w2 = named(w.spawned(), e, ent.name);
    assert(w2.slots == w.spawned().slots && w2.free_list == w.spawned().free_list);
    let w3 = typed(w2, e, ent.entity_type);
    match ent.entity_type {
        Some(t) => {
            let wt = w2.with_entity_types(
                if t@.len() == 0 {
                    w2.entity_types.remove(e)
                } else {
                    w2.entity_types.insert(e, t@)
                },
            );
            match lookup(default_templates(), t@) {
                Some(tm) => lemma_built_slab(wt, e, tm.recipe),
                None => {},
            }
        },
        None => {},
    }
    let w4 = with_opt(w3, e, transform_component(ent.transform));
    lemma_opt_slab(w3, e, transform_component(ent.transform));
    let w5 = with_opt(w4, e, color_component(ent.color));
    lemma_opt_slab(w4, e, color_component(ent.color));
    let w6 = with_opt(w5, e, collider_component(ent.collider));
    lemma_opt_slab(w5, e, collider_component(ent.collider));
    let w7 = with_opt(w6, e, model_component(ent.model));
    lemma_opt_slab(w6, e, model_component(ent.model));
    let w8 = with_opt(w7, e, script_component(ent.script));
    lemma_opt_slab(w7, e, script_component(ent.script));
    match ent.tags {
        Some(ts) => lemma_tags_slab(w8, e, ts@, ts@.len() as int),
        None => {},
    }
}


/// Each scene tag stands for its own component: `Player`, `Ground`,
/// `Static`, `Sensor`, `Camera` (with default settings) and
/// `AudioListener`.
pub proof fn lemma_tag_names()
    ensures
        tag_component("Player"@) == Some(Component::Player),
        tag_component("Ground"@) == Some(Component::Ground),
        tag_component("Static"@) == Some(Component::Static),
        tag_component("Sensor"@) == Some(Component::Sensor),
        tag_component("Camera"@) == Some(Component::Camera(default_camera())),
        tag_component("AudioListener"@) == Some(Component::AudioListener),
{
    reveal_strlit("Player");
    reveal_strlit("Ground");
    reveal_strlit("Static");
    reveal_strlit("Sensor");
    reveal_strlit("Camera");
    reveal_strlit("AudioListener");
    assert("Player"@[0] != "Ground"@[0]);
    assert("Player"@ != "Ground"@);
    assert("Player"@[0] != "Static"@[0]);
    assert("Player"@ != "Static"@);
    assert("Player"@[0] != "Sensor"@[0]);
    assert("Player"@ != "Sensor"@);
    assert("Player"@[0] != "Camera"@[0]);
    assert("Player"@ != "Camera"@);
    assert("Player"@.len() != "AudioListener"@.len());
    assert("Player"@ != "AudioListener"@);
    assert("Ground"@[0] != "Static"@[0]);
    assert("Ground"@ != "Static"@);
    assert("Ground"@[0] != "Sensor"@[0]);
    assert("Ground"@ != "Sensor"@);
    assert("Ground"@[0] != "Camera"@[0]);
    assert("Ground"@ != "Camera"@);
    assert("Ground"@.len() != "AudioListener"@.len());
    assert("Ground"@ != "AudioListener"@);
    assert("Static"@[1] != "Sensor"@[1]);
    assert("Static"@ != "Sensor"@);
    assert("Static"@[0] != "Camera"@[0]);
    assert("Static"@ != "Camera"@);
    assert("Static"@.len() != "AudioListener"@.len());
    assert("Static"@ != "AudioListener"@);
    assert("Sensor"@[0] != "Camera"@[0]);
    assert("Sensor"@ != "Camera"@);
    assert("Sensor"@.len() != "AudioListener"@.len());
    assert("Sensor"@ != "AudioListener"@);
    assert("Camera"@.len() != "AudioListener"@.len());
    assert("Camera"@ != "AudioListener"@);
}

/// Applying tags to a live entity of a tidy world keeps the world tidy, and
/// every known tag among them gives the entity its component.
pub proof fn lemma_tags_give_components(w: WorldModel<Component>, e: crate::ecs::Entity, tags: Seq<String>, k: int)
    requires
        tidy(w),
        w.is_alive(e),
        0 <= k <= tags.len(),
    ensures
        tidy(with_tags(w, e, tags, k)),
        with_tags(w, e, tags, k).is_alive(e),
        keeps_others(w, with_tags(w, e, tags, k), e),
        with_tags(w, e, tags, k).names == w.names,
        with_tags(w, e, tags, k).entity_types == w.entity_types,
        forall|k2: u32| k2 != PLAYER_ID && k2 != GROUND_ID && k2 != STATIC_ID && k2 != SENSOR_ID && k2 != CAMERA_ID && k2 != AUDIO_LISTENER_ID ==> #[trigger] with_tags(w, e, tags, k).component(e, k2) == w.component(e, k2),
        (exists|j: int| 0 <= j < k && #[trigger] tags[j]@ == "Player"@) ==> with_tags(w, e, tags, k).component(e, PLAYER_ID) == Some(Component::Player),
        (exists|j: int| 0 <= j < k && #[trigger] tags[j]@ == "Ground"@) ==> with_tags(w, e, tags, k).component(e, GROUND_ID) == Some(Component::Ground),
        (exists|j: int| 0 <= j < k && #[trigger] tags[j]@ == "Static"@) ==> with_tags(w, e, tags, k).component(e, STATIC_ID) == Some(Component::Static),
        (exists|j: int| 0 <= j < k && #[trigger] tags[j]@ == "Sensor"@) ==> with_tags(w, e, tags, k).component(e, SENSOR_ID) == Some(Component::Sensor),
        (exists|j: int| 0 <= j < k && #[trigger] tags[j]@ == "Camera"@) ==> with_tags(w, e, tags, k).component(e, CAMERA_ID) == Some(Component::Camera(default_camera())),
        (exists|j: int| 0 <= j < k && #[trigger] tags[j]@ == "AudioListener"@) ==> with_tags(w, e, tags, k).component(e, AUDIO_LISTENER_ID) == Some(Component::AudioListener),
    decreases k,
{
    if k == 0 {
        lemma_keeps_others_refl(w, e);
        return;
    }
    lemma_tag_names();
    lemma_tags_give_components(w, e, tags, k - 1);
    let before = with_tags(w, e, tags, k - 1);
    match tag_component(tags[k - 1]@) {
        Some(c) => {
            lemma_set_step(before, e, kind_of(c), c);
            lemma_keeps_others_trans(w, before, with_tags(w, e, tags, k), e);
        },
        None => {},
    }
    let after = with_tags(w, e, tags, k);
    assert(after == match tag_component(tags[k - 1]@) {
        Some(c) => before.with_component(e, kind_of(c), c),
        None => before,
    });
        if exists|j: int| 0 <= j < k && #[trigger] tags[j]@ == "Player"@ {
            let j = choose|j: int| 0 <= j < k && #[trigger] tags[j]@ == "Player"@;
            if j == k - 1 {
                assert(tag_component(tags[k - 1]@) == Some(Component::Player));
            } else {
                assert(exists|j2: int| 0 <= j2 < k - 1 && #[trigger] tags[j2]@ == "Player"@);
            }
        }
        if exists|j: int| 0 <= j < k && #[trigger] tags[j]@ == "Ground"@ {
            let j = choose|j: int| 0 <= j < k && #[trigger] tags[j]@ == "Ground"@;
            if j == k - 1 {
                assert(tag_component(tags[k - 1]@) == Some(Component::Ground));
            } else {
                assert(exists|j2: int| 0 <= j2 < k - 1 && #[trigger] tags[j2]@ == "Ground"@);
            }
        }
        if exists|j: int| 0 <= j < k && #[trigger] tags[j]@ == "Static"@ {
            let j = choose|j: int| 0 <= j < k && #[trigger] tags[j]@ == "Static"@;
            if j == k - 1 {
                assert(tag_component(tags[k - 1]@) == Some(Component::Static));
            } else {
                assert(exists|j2: int| 0 <= j2 < k - 1 && #[trigger] tags[j2]@ == "Static"@);
            }
        }
        if exists|j: int| 0 <= j < k && #[trigger] tags[j]@ == "Sensor"@ {
            let j = choose|j: int| 0 <= j < k && #[trigger] tags[j]@ == "Sensor"@;
            if j == k - 1 {
                assert(tag_component(tags[k - 1]@) == Some(Component::Sensor));
            } else {
                assert(exists|j2: int| 0 <= j2 < k - 1 && #[trigger] tags[j2]@ == "Sensor"@);
            }
        }
        if exists|j: int| 0 <= j < k && #[trigger] tags[j]@ == "Camera"@ {
            let j = choose|j: int| 0 <= j < k && #[trigger] tags[j]@ == "Camera"@;
            if j == k - 1 {
                assert(tag_component(tags[k - 1]@) == Some(Component::Camera(default_camera())));
            } else {
                assert(exists|j2: int| 0 <= j2 < k - 1 && #[trigger] tags[j2]@ == "Camera"@);
            }
        }
        if exists|j: int| 0 <= j < k && #[trigger] tags[j]@ == "AudioListener"@ {
            let j = choose|j: int| 0 <= j < k && #[trigger] tags[j]@ == "AudioListener"@;
            if j == k - 1 {
                assert(tag_component(tags[k - 1]@) == Some(Component::AudioListener));
            } else {
                assert(exists|j2: int| 0 <= j2 < k - 1 && #[trigger] tags[j2]@ == "AudioListener"@);
            }
        }
}


proof fn lemma_named_step(w: WorldModel<Component>, e: crate::ecs::Entity, name: Option<String>)
    requires
        tidy(w),
        w.is_alive(e),
    ensures
        tidy(named(w, e, name)),
        named(w, e, name).is_alive(e),
        keeps_others(w, named(w, e, name), e),
        named(w, e, name).entity_types == w.entity_types,
        forall|k2: u32| #[trigger] named(w, e, name).component(e, k2) == w.component(e, k2),
        name matches Some(n) ==> (n@.len() > 0 ==> named(w, e, name).names.contains_key(e) && named(
            w,
            e,
            name,
        ).names[e] == n@),
{
    match name {
        Some(n) => {
            let ns = if n@.len() == 0 { w.names.remove(e) } else { w.names.insert(e, n@) };
            assert(ns.remove(e) =~= w.names.remove(e));
            assert(w.entity_types.remove(e) =~= w.entity_types.remove(e));
            lemma_tables_step(w, e, ns, w.entity_types);
            assert(named(w, e, name) =~~= w.with_names(ns).with_entity_types(w.entity_types));
        },
        None => lemma_keeps_others_refl(w, e),
    }
}

proof fn lemma_typed_step(w: WorldModel<Component>, e: crate::ecs::Entity, ty: Option<String>)
    requires
        tidy(w),
        w.is_alive(e),
    ensures
        tidy(typed(w, e, ty)),
        typed(w, e, ty).is_alive(e),
        keeps_others(w, typed(w, e, ty), e),
        typed(w, e, ty).names == w.names,
        ty matches Some(t) ==> (t@.len() > 0 ==> typed(w, e, ty).entity_types.contains_key(e) && typed(
            w,
            e,
            ty,
        ).entity_types[e] == t@),
{
    match ty {
        Some(t) => {
            let ts = if t@.len() == 0 { w.entity_types.remove(e) } else { w.entity_types.insert(e, t@) };
            assert(ts.remove(e) =~= w.entity_types.remove(e));
            lemma_tables_step(w, e, w.names, ts);
            let wt = w.with_entity_types(ts);
            assert(wt =~~= w.with_names(w.names).with_entity_types(ts));
            match lookup(default_templates(), t@) {
                Some(tm) => {
                    lemma_built_tidy(wt, e, tm.recipe);
                    lemma_keeps_others_trans(w, wt, built(wt, e, tm.recipe), e);
                },
                None => {},
            }
        },
        None => lemma_keeps_others_refl(w, e),
    }
}

proof fn lemma_opt_step(w: WorldModel<Component>, e: crate::ecs::Entity, c: Option<Component>)
    requires
        tidy(w),
        w.is_alive(e),
    ensures
        tidy(with_opt(w, e, c)),
        with_opt(w, e, c).is_alive(e),
        keeps_others(w, with_opt(w, e, c), e),
        with_opt(w, e, c).names == w.names,
        with_opt(w, e, c).entity_types == w.entity_types,
        match c {
            Some(v) => with_opt(w, e, c).component(e, kind_of(v)) == Some(v) && forall|k2: u32|
                k2 != kind_of(v) ==> #[trigger] with_opt(w, e, c).component(e, k2) == w.component(e, k2),
            None => with_opt(w, e, c) == w,
        },
{
    match c {
        Some(v) => lemma_set_step(w, e, kind_of(v), v),
        None => lemma_keeps_others_refl(w, e),
    }
}

/// Adding one scene entity to a tidy world keeps it tidy, spawns the next
/// handle, leaves every other entity as it was, and gives the new entity
/// the component of every known tag the scene lists for it.
pub proof fn lemma_scene_entity(w: WorldModel<Component>, ent: SceneEntity)
    requires
        tidy(w),
        w.can_spawn(),
    ensures
        tidy(scene_entity_world(w, ent)),
        scene_entity_world(w, ent).is_alive(w.next_spawn()),
        keeps_others(w, scene_entity_world(w, ent), w.next_spawn()),
        ent.name matches Some(n) ==> (n@.len() > 0 ==> scene_entity_world(w, ent).names.contains_key(w.next_spawn()) && scene_entity_world(w, ent).names[w.next_spawn()]
            == n@),
        ent.entity_type matches Some(t) ==> (t@.len() > 0 ==> scene_entity_world(w, ent).entity_types.contains_key(w.next_spawn())
            && scene_entity_world(w, ent).entity_types[w.next_spawn()] == t@),
        ent.transform matches Some(t) ==> scene_entity_world(w, ent).component(w.next_spawn(), TRANSFORM_ID) == Some(
            Component::Transform(
                Transform3D {
                    position: match t.position {
                        Some(p) => Vec3Bits { x: p@[0], y: p@[1], z: p@[2] },
                        None => Vec3Bits { x: F32_ZERO, y: F32_ZERO, z: F32_ZERO },
                    },
                    rotation: match t.rotation {
                        Some(q) => QuatBits { x: q@[0], y: q@[1], z: q@[2], w: q@[3] },
                        None => QuatBits { x: F32_ZERO, y: F32_ZERO, z: F32_ZERO, w: F32_ONE },
                    },
                    scale: match t.scale {
                        Some(sc) => Vec3Bits { x: sc@[0], y: sc@[1], z: sc@[2] },
                        None => Vec3Bits { x: F32_ONE, y: F32_ONE, z: F32_ONE },
                    },
                },
            ),
        ),
        ent.color matches Some(c) ==> scene_entity_world(w, ent).component(w.next_spawn(), COLOR_ID) == Some(
            Component::Color(Color { rgba: [c.r, c.g, c.b, match c.a {
                Some(a) => a,
                None => F32_ONE,
            }] }),
        ),
        ent.collider matches Some(h) ==> scene_entity_world(w, ent).component(w.next_spawn(), COLLIDER_ID) == Some(
            Component::Collider(Collider { half_extents: Vec3Bits { x: h@[0], y: h@[1], z: h@[2] } }),
        ),
        ent.model matches Some(m) ==> scene_entity_world(w, ent).component(w.next_spawn(), MODEL_ID) == Some(
            Component::Model(Model { path: m }),
        ),
        ent.script matches Some(n) ==> scene_entity_world(w, ent).component(w.next_spawn(), SCRIPT_ID) == Some(
            Component::Script(ScriptComponent { script_name: n }),
        ),
        ent.tags matches Some(ts) && (exists|j: int| 0 <= j < ts@.len() && #[trigger] ts@[j]@ == "Player"@) ==> scene_entity_world(w, ent).component(w.next_spawn(), PLAYER_ID) == Some(Component::Player),
        ent.tags matches Some(ts) && (exists|j: int| 0 <= j < ts@.len() && #[trigger] ts@[j]@ == "Ground"@) ==> scene_entity_world(w, ent).component(w.next_spawn(), GROUND_ID) == Some(Component::Ground),
        ent.tags matches Some(ts) && (exists|j: int| 0 <= j < ts@.len() && #[trigger] ts@[j]@ == "Static"@) ==> scene_entity_world(w, ent).component(w.next_spawn(), STATIC_ID) == Some(Component::Static),
        ent.tags matches Some(ts) && (exists|j: int| 0 <= j < ts@.len() && #[trigger] ts@[j]@ == "Sensor"@) ==> scene_entity_world(w, ent).component(w.next_spawn(), SENSOR_ID) == Some(Component::Sensor),
        ent.tags matches Some(ts) && (exists|j: int| 0 <= j < ts@.len() && #[trigger] ts@[j]@ == "Camera"@) ==> scene_entity_world(w, ent).component(w.next_spawn(), CAMERA_ID) == Some(Component::Camera(default_camera())),
        ent.tags matches Some(ts) && (exists|j: int| 0 <= j < ts@.len() && #[trigger] ts@[j]@ == "AudioListener"@) ==> scene_entity_world(w, ent).component(w.next_spawn(), AUDIO_LISTENER_ID) == Some(Component::AudioListener),
{
    let e = w.next_spawn();
    lemma_spawn_step(w);
    lemma_spawn_fresh(w);
    let w1 = w.spawned();
    let w2 = named(w1, e, ent.name);
    lemma_named_step(w1, e, ent.name);
    lemma_keeps_others_trans(w, w1, w2, e);
    let w3 = typed(w2, e, ent.entity_type);
    lemma_typed_step(w2, e, ent.entity_type);
    lemma_keeps_others_trans(w, w2, w3, e);
    let w4 = with_opt(w3, e, transform_component(ent.transform));
    lemma_opt_step(w3, e, transform_component(ent.transform));
    lemma_keeps_others_trans(w, w3, w4, e);
    let w5 = with_opt(w4, e, color_component(ent.color));
    lemma_opt_step(w4, e, color_component(ent.color));
    lemma_keeps_others_trans(w, w4, w5, e);
    let w6 = with_opt(w5, e, collider_component(ent.collider));
    lemma_opt_step(w5, e, collider_component(ent.collider));
    lemma_keeps_others_trans(w, w5, w6, e);
    let w7 = with_opt(w6, e, model_component(ent.model));
    lemma_opt_step(w6, e, model_component(ent.model));
    lemma_keeps_others_trans(w, w6, w7, e);
    let w8 = with_opt(w7, e, script_component(ent.script));
    lemma_opt_step(w7, e, script_component(ent.script));
    lemma_keeps_others_trans(w, w7, w8, e);
    assert(scene_entity_world(w, ent) == tagged(w8, e, ent.tags));
    match ent.tags {
        Some(ts) => {
            lemma_tags_give_components(w8, e, ts@, ts@.len() as int);
            lemma_keeps_others_trans(w, w8, tagged(w8, e, ent.tags), e);
        },
        None => lemma_keeps_others_refl(w8, e),
    }
}


/// The scene entity lists the tag `name`.
pub open spec fn lists_tag(ent: SceneEntity, name: Seq<char>) -> bool {
    ent.tags matches Some(ts) && exists|j: int| 0 <= j < ts@.len() && #[trigger] ts@[j]@ == name
}

/// `e` carries the scene name, when the scene gives a non-empty one.
pub open spec fn carries_name(w: WorldModel<Component>, e: crate::ecs::Entity, name: Option<String>) -> bool {
    name matches Some(n) ==> (n@.len() > 0 ==> w.names.contains_key(e) && w.names[e] == n@)
}

/// `e` carries the template name, when the scene gives a non-empty one.
pub open spec fn carries_type(w: WorldModel<Component>, e: crate::ecs::Entity, ty: Option<String>) -> bool {
    ty matches Some(t) ==> (t@.len() > 0 ==> w.entity_types.contains_key(e) && w.entity_types[e] == t@)
}

/// The handle of the `i`-th scene entity in the world built from a scene.
pub open spec fn scene_handle(i: int) -> crate::ecs::Entity {
    crate::ecs::Entity { index: i as u32, generation: 1 }
}

/// Building a scene gives a tidy world in which the `i`-th scene entity is
/// the live handle at slot `i`, and every known tag a scene entity lists
/// gives that entity its component: `Player`, `Ground`, `Static`,
/// `Sensor`, `Camera` (with default settings) and `AudioListener`.
pub proof fn lemma_scene_world(es: Seq<SceneEntity>, k: int)
    requires
        0 <= k <= es.len(),
        es.len() < u32::MAX,
    ensures
        tidy(scene_world(es, k)),
        scene_world(es, k).slots.len() == k,
        scene_world(es, k).free_list == Seq::<u32>::empty(),
        forall|i: int| 0 <= i < k ==> #[trigger] scene_world(es, k).is_alive(scene_handle(i)),
        forall|i: int| 0 <= i < k ==> #[trigger] carries_name(scene_world(es, k), scene_handle(i), es[i].name),
        forall|i: int| 0 <= i < k ==> #[trigger] carries_type(scene_world(es, k), scene_handle(i), es[i].entity_type),
        forall|i: int| 0 <= i < k ==> (es[i].transform matches Some(t) ==> #[trigger] scene_world(es, k).component(scene_handle(i), TRANSFORM_ID) == Some(
            Component::Transform(
                Transform3D {
                    position: match t.position {
                        Some(p) => Vec3Bits { x: p@[0], y: p@[1], z: p@[2] },
                        None => Vec3Bits { x: F32_ZERO, y: F32_ZERO, z: F32_ZERO },
                    },
                    rotation: match t.rotation {
                        Some(q) => QuatBits { x: q@[0], y: q@[1], z: q@[2], w: q@[3] },
                        None => QuatBits { x: F32_ZERO, y: F32_ZERO, z: F32_ZERO, w: F32_ONE },
                    },
                    scale: match t.scale {
                        Some(sc) => Vec3Bits { x: sc@[0], y: sc@[1], z: sc@[2] },
                        None => Vec3Bits { x: F32_ONE, y: F32_ONE, z: F32_ONE },
                    },
                },
            ),
        )),
        forall|i: int| 0 <= i < k ==> (es[i].color matches Some(c) ==> #[trigger] scene_world(es, k).component(scene_handle(i), COLOR_ID) == Some(
            Component::Color(Color { rgba: [c.r, c.g, c.b, match c.a {
                Some(a) => a,
                None => F32_ONE,
            }] }),
        )),
        forall|i: int| 0 <= i < k ==> (es[i].collider matches Some(h) ==> #[trigger] scene_world(es, k).component(scene_handle(i), COLLIDER_ID) == Some(
            Component::Collider(Collider { half_extents: Vec3Bits { x: h@[0], y: h@[1], z: h@[2] } }),
        )),
        forall|i: int| 0 <= i < k ==> (es[i].model matches Some(m) ==> #[trigger] scene_world(es, k).component(scene_handle(i), MODEL_ID) == Some(
            Component::Model(Model { path: m }),
        )),
        forall|i: int| 0 <= i < k ==> (es[i].script matches Some(n) ==> #[trigger] scene_world(es, k).component(scene_handle(i), SCRIPT_ID) == Some(
            Component::Script(ScriptComponent { script_name: n }),
        )),
        forall|i: int| 0 <= i < k && #[trigger] lists_tag(es[i], "Player"@) ==> scene_world(es, k).component(scene_handle(i), PLAYER_ID) == Some(Component::Player),
        forall|i: int| 0 <= i < k && #[trigger] lists_tag(es[i], "Ground"@) ==> scene_world(es, k).component(scene_handle(i), GROUND_ID) == Some(Component::Ground),
        forall|i: int| 0 <= i < k && #[trigger] lists_tag(es[i], "Static"@) ==> scene_world(es, k).component(scene_handle(i), STATIC_ID) == Some(Component::Static),
        forall|i: int| 0 <= i < k && #[trigger] lists_tag(es[i], "Sensor"@) ==> scene_world(es, k).component(scene_handle(i), SENSOR_ID) == Some(Component::Sensor),
        forall|i: int| 0 <= i < k && #[trigger] lists_tag(es[i], "Camera"@) ==> scene_world(es, k).component(scene_handle(i), CAMERA_ID) == Some(Component::Camera(default_camera())),
        forall|i: int| 0 <= i < k && #[trigger] lists_tag(es[i], "AudioListener"@) ==> scene_world(es, k).component(scene_handle(i), AUDIO_LISTENER_ID) == Some(Component::AudioListener),
    decreases k,
{
    if k == 0 {
        let w0 = crate::wmap_world::empty_world();
        assert(w0.wf());
        return;
    }
    lemma_scene_world(es, k - 1);
    let w = scene_world(es, k - 1);
    let ent = es[k - 1];
    let w2 = scene_world(es, k);
    assert(w2 == scene_entity_world(w, ent));
    assert(w.next_spawn() == scene_handle(k - 1));
    lemma_scene_entity(w, ent);
    lemma_scene_entity_slab(w, ent);
    assert(w2.slots == w.slots.push((1u32, true)));
    assert forall|i: int| 0 <= i < k implies #[trigger] w2.is_alive(scene_handle(i)) by {
        if i < k - 1 {
            assert(w.is_alive(scene_handle(i)));
            assert(w.stored(scene_handle(i)));
            assert(w2.stored(scene_handle(i)));
        }
    }
    assert forall|i: int| 0 <= i < k && #[trigger] lists_tag(es[i], "Player"@) implies w2.component(scene_handle(i), PLAYER_ID) == Some(Component::Player) by {
        if i < k - 1 {
            assert(w.is_alive(scene_handle(i)));
            assert(w.stored(scene_handle(i)));
            assert(w2.component(scene_handle(i), PLAYER_ID) == w.component(scene_handle(i), PLAYER_ID));
        } else {
            assert(es[i] == ent);
        }
    }
    assert forall|i: int| 0 <= i < k && #[trigger] lists_tag(es[i], "Ground"@) implies w2.component(scene_handle(i), GROUND_ID) == Some(Component::Ground) by {
        if i < k - 1 {
            assert(w.is_alive(scene_handle(i)));
            assert(w.stored(scene_handle(i)));
            assert(w2.component(scene_handle(i), GROUND_ID) == w.component(scene_handle(i), GROUND_ID));
        } else {
            assert(es[i] == ent);
        }
    }
    assert forall|i: int| 0 <= i < k && #[trigger] lists_tag(es[i], "Static"@) implies w2.component(scene_handle(i), STATIC_ID) == Some(Component::Static) by {
        if i < k - 1 {
            assert(w.is_alive(scene_handle(i)));
            assert(w.stored(scene_handle(i)));
            assert(w2.component(scene_handle(i), STATIC_ID) == w.component(scene_handle(i), STATIC_ID));
        } else {
            assert(es[i] == ent);
        }
    }
    assert forall|i: int| 0 <= i < k && #[trigger] lists_tag(es[i], "Sensor"@) implies w2.component(scene_handle(i), SENSOR_ID) == Some(Component::Sensor) by {
        if i < k - 1 {
            assert(w.is_alive(scene_handle(i)));
            assert(w.stored(scene_handle(i)));
            assert(w2.component(scene_handle(i), SENSOR_ID) == w.component(scene_handle(i), SENSOR_ID));
        } else {
            assert(es[i] == ent);
        }
    }
    assert forall|i: int| 0 <= i < k && #[trigger] lists_tag(es[i], "Camera"@) implies w2.component(scene_handle(i), CAMERA_ID) == Some(Component::Camera(default_camera())) by {
        if i < k - 1 {
            assert(w.is_alive(scene_handle(i)));
            assert(w.stored(scene_handle(i)));
            assert(w2.component(scene_handle(i), CAMERA_ID) == w.component(scene_handle(i), CAMERA_ID));
        } else {
            assert(es[i] == ent);
        }
    }
    assert forall|i: int| 0 <= i < k && #[trigger] lists_tag(es[i], "AudioListener"@) implies w2.component(scene_handle(i), AUDIO_LISTENER_ID) == Some(Component::AudioListener) by {
        if i < k - 1 {
            assert(w.is_alive(scene_handle(i)));
            assert(w.stored(scene_handle(i)));
            assert(w2.component(scene_handle(i), AUDIO_LISTENER_ID) == w.component(scene_handle(i), AUDIO_LISTENER_ID));
        } else {
            assert(es[i] == ent);
        }
    }
    assert forall|i: int| 0 <= i < k - 1 implies (w2.names.contains_key(scene_handle(i)) == w.names.contains_key(scene_handle(i))
        && (w.names.contains_key(scene_handle(i)) ==> w2.names[scene_handle(i)] == w.names[scene_handle(i)])
        && w2.entity_types.contains_key(scene_handle(i)) == w.entity_types.contains_key(scene_handle(i))
        && (w.entity_types.contains_key(scene_handle(i)) ==> w2.entity_types[scene_handle(i)] == w.entity_types[scene_handle(i)])) by {
        let x = scene_handle(k - 1);
        let y = scene_handle(i);
        assert(y != x);
        assert(w2.names.remove(x) == w.names.remove(x));
        assert(w2.entity_types.remove(x) == w.entity_types.remove(x));
        assert(w2.names.remove(x).contains_key(y) == w2.names.contains_key(y));
        assert(w.names.remove(x).contains_key(y) == w.names.contains_key(y));
        assert(w2.entity_types.remove(x).contains_key(y) == w2.entity_types.contains_key(y));
        assert(w.entity_types.remove(x).contains_key(y) == w.entity_types.contains_key(y));
        if w.names.contains_key(y) {
            assert(w2.names.remove(x)[y] == w2.names[y]);
            assert(w.names.remove(x)[y] == w.names[y]);
        }
        if w.entity_types.contains_key(y) {
            assert(w2.entity_types.remove(x)[y] == w2.entity_types[y]);
            assert(w.entity_types.remove(x)[y] == w.entity_types[y]);
        }
    }
    assert forall|i: int, kk: u32| 0 <= i < k - 1 implies #[trigger] w2.component(scene_handle(i), kk) == w.component(scene_handle(i), kk) by {
        assert(w.is_alive(scene_handle(i)));
        assert(w.stored(scene_handle(i)));
        assert(scene_handle(i) != scene_handle(k - 1));
    }
    assert(es[k - 1] == ent);
    assert forall|i: int| 0 <= i < k implies #[trigger] carries_name(w2, scene_handle(i), es[i].name) by {
        if i < k - 1 {
            assert(carries_name(w, scene_handle(i), es[i].name));
        }
    }
    assert forall|i: int| 0 <= i < k implies #[trigger] carries_type(w2, scene_handle(i), es[i].entity_type) by {
        if i < k - 1 {
            assert(carries_type(w, scene_handle(i), es[i].entity_type));
        }
    }
}

fn tag_of(tag: &str) -> (c: Option<Component>)
    ensures
        c == tag_component(tag@),
{
    proof {
        reveal_strlit("Player");
        reveal_strlit("Ground");
        reveal_strlit("Static");
        reveal_strlit("Sensor");
        reveal_strlit("Camera");
        reveal_strlit("AudioListener");
    }
    if same_str(tag, "Player") {
        Some(Component::Player)
    } else if same_str(tag, "Ground") {
        Some(Component::Ground)
    } else if same_str(tag, "Static") {
        Some(Component::Static)
    } else if same_str(tag, "Sensor") {
        Some(Component::Sensor)
    } else if same_str(tag, "Camera") {
        Some(Component::Camera(Camera::default()))
    } else if same_str(tag, "AudioListener") {
        Some(Component::AudioListener)
    } else {
        None
    }
}

fn attach_opt(world: &mut World<Component>, e: crate::ecs::Entity, c: Option<Component>)
    requires
        old(world).wf(),
    ensures
        final(world).wf(),
        final(world)@ == with_opt(old(world)@, e, c),
{
    match c {
        Some(v) => world.attach(e, v),
        None => {},
    }
}

/// Add one scene entity to a world.
fn add_scene_entity(world: &mut World<Component>, ent: SceneEntity)
    requires
        old(world).wf(),
        old(world)@.can_spawn(),
    ensures
        final(world).wf(),
        final(world)@ == scene_entity_world(old(world)@, ent),
{
    let ghost ev = ent;
    let e = world.spawn();
    let SceneEntity { name, entity_type, transform, color, collider, script, model, tags } = ent;
    match name {
        Some(n) => world.set_name(e, n.as_str()),
        None => {},
    }
    assert(world@ == named(old(world)@.spawned(), e, ev.name));
    match entity_type {
        Some(t) => {
            world.set_entity_type(e, t.as_str());
            apply_type(world, e, t.as_str());
        },
        None => {},
    }
    let ghost w3 = world@;
    assert(w3 == typed(named(old(world)@.spawned(), e, ev.name), e, ev.entity_type));
    let tc = match transform {
        Some(t) => {
            let position = match t.position {
                Some(p) => Vec3Bits { x: p[0], y: p[1], z: p[2] },
                None => Vec3Bits { x: F32_ZERO, y: F32_ZERO, z: F32_ZERO },
            };
            let rotation = match t.rotation {
                Some(q) => QuatBits { x: q[0], y: q[1], z: q[2], w: q[3] },
                None => QuatBits { x: F32_ZERO, y: F32_ZERO, z: F32_ZERO, w: F32_ONE },
            };
            let scale = match t.scale {
                Some(s) => Vec3Bits { x: s[0], y: s[1], z: s[2] },
                None => Vec3Bits { x: F32_ONE, y: F32_ONE, z: F32_ONE },
            };
            Some(Component::Transform(Transform3D { position, rotation, scale }))
        },
        None => None,
    };
    assert(tc == transform_component(ev.transform));
    attach_opt(world, e, tc);
    let cc = match color {
        Some(c) => {
            let a = match c.a {
                Some(a) => a,
                None => F32_ONE,
            };
            Some(Component::Color(Color { rgba: [c.r, c.g, c.b, a] }))
        },
        None => None,
    };
    proof {
        match ev.color {
            Some(c0) => {
                let x = cc->Some_0->Color_0.rgba;
                let y: [u32; 4] = [c0.r, c0.g, c0.b, match c0.a {
                    Some(a) => a,
                    None => F32_ONE,
                }];
                assert(x@ =~= y@);
                vstd::array::axiom_array_ext_equal(x, y);
                assert(x == y);
            },
            None => {},
        }
    }
    assert(cc == color_component(ev.color));
    attach_opt(world, e, cc);
    let hc = match collider {
        Some(h) => Some(Component::Collider(Collider { half_extents: Vec3Bits { x: h[0], y: h[1], z: h[2] } })),
        None => None,
    };
    assert(hc == collider_component(ev.collider));
    attach_opt(world, e, hc);
    let mc = match model {
        Some(p) => Some(Component::Model(Model { path: p })),
        None => None,
    };
    assert(mc == model_component(ev.model));
    attach_opt(world, e, mc);
    let sc = match script {
        Some(s) => Some(Component::Script(ScriptComponent { script_name: s })),
        None => None,
    };
    assert(sc == script_component(ev.script));
    attach_opt(world, e, sc);
    match tags {
        Some(tags) => {
            let ghost start = world@;
            let ghost tv = tags@;
            let n = tags.len();
            let mut k: usize = 0;
            while k < n
                invariant
                    n == tv.len(),
                    tv == tags@,
                    k <= n,
                    world.wf(),
                    world@ == with_tags(start, e, tv, k as int),
                decreases n - k,
            {
                let c = tag_of(tags[k].as_str());
                attach_opt(world, e, c);
                k = k + 1;
            }
        },
        None => {},
    }
    proof {
        assert(world@ == scene_entity_world(old(world)@, ev));
    }
}

/// The world a scene's entities describe, spawned in order into an empty
/// world. A scene holds fewer entities than there are slot indices.
pub fn build_world(entities: Vec<SceneEntity>) -> (w: World<Component>)
    requires
        entities@.len() < u32::MAX,
    ensures
        w.wf(),
        w@ == scene_world(entities@, entities@.len() as int),
{
    let ghost es = entities@;
    let n = entities.len();
    let mut world: World<Component> = World::new();
    proof {
        assert(world@ =~~= crate::wmap_world::empty_world());
    }
    let mut rest = entities;
    let mut i: usize = 0;
    while i < n
        invariant
            n == es.len(),
            n < u32::MAX,
            i <= n,
            rest@ == es.skip(i as int),
            world.wf(),
            world@ == scene_world(es, i as int),
            world@.free_list.len() == 0,
            world@.slots.len() == i,
        decreases n - i,
    {
        let ent = rest.remove(0);
        proof {
            assert(ent == es[i as int]);
            lemma_scene_entity_slab(world@, ent);
        }
        add_scene_entity(&mut world, ent);
        proof {
            assert(rest@ =~= es.skip(i + 1));
        }
        i = i + 1;
    }
    world
}

} // verus!
