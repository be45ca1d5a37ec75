//! Entity templates: named recipes that give a new entity a predefined set
//! of components, and the registry that looks them up.

use vstd::prelude::*;

use crate::components::{
    default_camera, default_collider, default_sky_settings, default_sun_light, default_transform,
    vec3_splat, AngularVelocity, Camera, Collider, Component, RigidBody, SkySettings, SunLight,
    Transform3D, Vec3Bits, Velocity3D, ANGULAR_VEL_ID, AUDIO_LISTENER_ID, CAMERA_ID, COLLIDER_ID,
    F32_ONE, F32_ZERO, PLAYER_ID, RIGID_BODY_ID, SENSOR_ID, SKY_SETTINGS_ID, SUN_LIGHT_ID,
    TRANSFORM_ID, VELOCITY_ID,
};
use crate::ecs::{Entity, World, WorldModel};
use crate::world_frames::{keeps_others, lemma_keeps_others_trans, lemma_set_step, tidy};
use crate::world_laws::lemma_spawn_fresh;
use crate::world_steps::lemma_spawn_step;
use crate::text::{lemma_str_lt_order, same_str, str_less, str_lt};

verus! {

/// Which set of components a template gives.
#[derive(Clone, Copy, Debug, PartialEq, Eq, Structural)]
pub enum Recipe {
    PropMesh,
    PropPhysics,
    EnvSun,
    EnvSky,
    EnvFog,
    InfoSpawn,
    TriggerBox,
    LightPoint,
}

/// A recipe for creating an entity with a predefined set of components.
#[derive(Clone, Copy, Debug)]
pub struct EntityTemplate {
    /// Dotted name, e.g. "prop.physics".
    pub name: &'static str,
    /// Editor category, e.g. "Props", "Environment", "Gameplay".
    pub category: &'static str,
    /// Human-readable label, e.g. "Physics Prop".
    pub display_name: &'static str,
    /// The components it gives.
    pub recipe: Recipe,
}

pub open spec fn zero_vec3() -> Vec3Bits {
    vec3_splat(F32_ZERO)
}

pub open spec fn with_transform(w: WorldModel<Component>, e: Entity) -> WorldModel<Component> {
    w.with_component(e, TRANSFORM_ID, Component::Transform(default_transform()))
}

/// The world after a recipe has been applied to `e`, component by
/// component in the order the recipe lists them.
pub open spec fn built(w: WorldModel<Component>, e: Entity, recipe: Recipe) -> WorldModel<Component> {
    match recipe {
        Recipe::PropMesh => with_transform(w, e),
        Recipe::EnvFog => with_transform(w, e),
        Recipe::LightPoint => with_transform(w, e),
        Recipe::EnvSun => with_transform(w, e).with_component(
            e,
            SUN_LIGHT_ID,
            Component::SunLight(default_sun_light()),
        ),
        Recipe::EnvSky => with_transform(w, e).with_component(
            e,
            SKY_SETTINGS_ID,
            Component::SkySettings(default_sky_settings()),
        ),
        Recipe::PropPhysics => with_transform(w, e).with_component(
            e,
            VELOCITY_ID,
            Component::Velocity(Velocity3D { linear: zero_vec3() }),
        ).with_component(
            e,
            ANGULAR_VEL_ID,
            Component::AngularVelocity(AngularVelocity { radians: zero_vec3() }),
        ).with_component(
            e,
            RIGID_BODY_ID,
            Component::RigidBody(
                RigidBody { mass: F32_ONE, restitution: 0x3e99_999au32, angular_damping: 0x3f73_3333u32 },
            ),
        ).with_component(e, COLLIDER_ID, Component::Collider(default_collider())),
        Recipe::InfoSpawn => with_transform(w, e).with_component(
            e,
            VELOCITY_ID,
            Component::Velocity(Velocity3D { linear: zero_vec3() }),
        ).with_component(
            e,
            RIGID_BODY_ID,
            Component::RigidBody(
                RigidBody { mass: F32_ONE, restitution: F32_ZERO, angular_damping: 0x3f73_3333u32 },
            ),
        ).with_component(e, COLLIDER_ID, Component::Collider(default_collider())).with_component(
            e,
            PLAYER_ID,
            Component::Player,
        ).with_component(e, CAMERA_ID, Component::Camera(default_camera())).with_component(
            e,
            AUDIO_LISTENER_ID,
            Component::AudioListener,
        ),
        Recipe::TriggerBox => with_transform(w, e).with_component(
            e,
            COLLIDER_ID,
            Component::Collider(default_collider()),
        ).with_component(e, SENSOR_ID, Component::Sensor),
    }
}

/// On a tidy world and a live entity: a static mesh gets a default transform. Its other components and
/// every other entity are left as they were.
pub proof fn lemma_prop_mesh_components(w: WorldModel<Component>, e: Entity)
    requires
        tidy(w),
        w.is_alive(e),
    ensures
        tidy(built(w, e, Recipe::PropMesh)),
        built(w, e, Recipe::PropMesh).is_alive(e),
        built(w, e, Recipe::PropMesh).component(e, TRANSFORM_ID) == Some(Component::Transform(default_transform())),
        forall|k: u32| k != TRANSFORM_ID ==> #[trigger] built(w, e, Recipe::PropMesh).component(e, k) == w.component(e, k),
        keeps_others(w, built(w, e, Recipe::PropMesh), e),
        built(w, e, Recipe::PropMesh).names == w.names,
        built(w, e, Recipe::PropMesh).entity_types == w.entity_types,
{
    let w1 = w.with_component(e, TRANSFORM_ID, Component::Transform(default_transform()));
    lemma_set_step(w, e, TRANSFORM_ID, Component::Transform(default_transform()));
    assert(built(w, e, Recipe::PropMesh) == w1);
}

/// On a tidy world and a live entity: a physics prop gets a default transform, zero velocity and angular velocity, a rigid body of mass 1, restitution 0.3 and angular damping 0.95, and a default collider. Its other components and
/// every other entity are left as they were.
pub proof fn lemma_prop_physics_components(w: WorldModel<Component>, e: Entity)
    requires
        tidy(w),
        w.is_alive(e),
    ensures
        tidy(built(w, e, Recipe::PropPhysics)),
        built(w, e, Recipe::PropPhysics).is_alive(e),
        built(w, e, Recipe::PropPhysics).component(e, TRANSFORM_ID) == Some(Component::Transform(default_transform())),
        built(w, e, Recipe::PropPhysics).component(e, VELOCITY_ID) == Some(Component::Velocity(Velocity3D { linear: zero_vec3() })),
        built(w, e, Recipe::PropPhysics).component(e, ANGULAR_VEL_ID) == Some(Component::AngularVelocity(AngularVelocity { radians: zero_vec3() })),
        built(w, e, Recipe::PropPhysics).component(e, RIGID_BODY_ID) == Some(Component::RigidBody(RigidBody { mass: F32_ONE, restitution: 0x3e99_999au32, angular_damping: 0x3f73_3333u32 })),
        built(w, e, Recipe::PropPhysics).component(e, COLLIDER_ID) == Some(Component::Collider(default_collider())),
        forall|k: u32| k != TRANSFORM_ID && k != VELOCITY_ID && k != ANGULAR_VEL_ID && k != RIGID_BODY_ID && k != COLLIDER_ID ==> #[trigger] built(w, e, Recipe::PropPhysics).component(e, k) == w.component(e, k),
        keeps_others(w, built(w, e, Recipe::PropPhysics), e),
        built(w, e, Recipe::PropPhysics).names == w.names,
        built(w, e, Recipe::PropPhysics).entity_types == w.entity_types,
{
    let w1 = w.with_component(e, TRANSFORM_ID, Component::Transform(default_transform()));
    lemma_set_step(w, e, TRANSFORM_ID, Component::Transform(default_transform()));
    let w2 = w1.with_component(e, VELOCITY_ID, Component::Velocity(Velocity3D { linear: zero_vec3() }));
    lemma_set_step(w1, e, VELOCITY_ID, Component::Velocity(Velocity3D { linear: zero_vec3() }));
    lemma_keeps_others_trans(w, w1, w2, e);
    let w3 = w2.with_component(e, ANGULAR_VEL_ID, Component::AngularVelocity(AngularVelocity { radians: zero_vec3() }));
    lemma_set_step(w2, e, ANGULAR_VEL_ID, Component::AngularVelocity(AngularVelocity { radians: zero_vec3() }));
    lemma_keeps_others_trans(w, w2, w3, e);
    let w4 = w3.with_component(e, RIGID_BODY_ID, Component::RigidBody(RigidBody { mass: F32_ONE, restitution: 0x3e99_999au32, angular_damping: 0x3f73_3333u32 }));
    lemma_set_step(w3, e, RIGID_BODY_ID, Component::RigidBody(RigidBody { mass: F32_ONE, restitution: 0x3e99_999au32, angular_damping: 0x3f73_3333u32 }));
    lemma_keeps_others_trans(w, w3, w4, e);
    let w5 = w4.with_component(e, COLLIDER_ID, Component::Collider(default_collider()));
    lemma_set_step(w4, e, COLLIDER_ID, Component::Collider(default_collider()));
    lemma_keeps_others_trans(w, w4, w5, e);
    assert(built(w, e, Recipe::PropPhysics) == w5);
}

/// On a tidy world and a live entity: a sun gets a default transform and default sun light. Its other components and
/// every other entity are left as they were.
pub proof fn lemma_env_sun_components(w: WorldModel<Component>, e: Entity)
    requires
        tidy(w),
        w.is_alive(e),
    ensures
        tidy(built(w, e, Recipe::EnvSun)),
        built(w, e, Recipe::EnvSun).is_alive(e),
        built(w, e, Recipe::EnvSun).component(e, TRANSFORM_ID) == Some(Component::Transform(default_transform())),
        built(w, e, Recipe::EnvSun).component(e, SUN_LIGHT_ID) == Some(Component::SunLight(default_sun_light())),
        forall|k: u32| k != TRANSFORM_ID && k != SUN_LIGHT_ID ==> #[trigger] built(w, e, Recipe::EnvSun).component(e, k) == w.component(e, k),
        keeps_others(w, built(w, e, Recipe::EnvSun), e),
        built(w, e, Recipe::EnvSun).names == w.names,
        built(w, e, Recipe::EnvSun).entity_types == w.entity_types,
{
    let w1 = w.with_component(e, TRANSFORM_ID, Component::Transform(default_transform()));
    lemma_set_step(w, e, TRANSFORM_ID, Component::Transform(default_transform()));
    let w2 = w1.with_component(e, SUN_LIGHT_ID, Component::SunLight(default_sun_light()));
    lemma_set_step(w1, e, SUN_LIGHT_ID, Component::SunLight(default_sun_light()));
    lemma_keeps_others_trans(w, w1, w2, e);
    assert(built(w, e, Recipe::EnvSun) == w2);
}

/// On a tidy world and a live entity: a sky gets a default transform and default sky settings. Its other components and
/// every other entity are left as they were.
pub proof fn lemma_env_sky_components(w: WorldModel<Component>, e: Entity)
    requires
        tidy(w),
        w.is_alive(e),
    ensures
        tidy(built(w, e, Recipe::EnvSky)),
        built(w, e, Recipe::EnvSky).is_alive(e),
        built(w, e, Recipe::EnvSky).component(e, TRANSFORM_ID) == Some(Component::Transform(default_transform())),
        built(w, e, Recipe::EnvSky).component(e, SKY_SETTINGS_ID) == Some(Component::SkySettings(default_sky_settings())),
        forall|k: u32| k != TRANSFORM_ID && k != SKY_SETTINGS_ID ==> #[trigger] built(w, e, Recipe::EnvSky).component(e, k) == w.component(e, k),
        keeps_others(w, built(w, e, Recipe::EnvSky), e),
        built(w, e, Recipe::EnvSky).names == w.names,
        built(w, e, Recipe::EnvSky).entity_types == w.entity_types,
{
    let w1 = w.with_component(e, TRANSFORM_ID, Component::Transform(default_transform()));
    lemma_set_step(w, e, TRANSFORM_ID, Component::Transform(default_transform()));
    let w2 = w1.with_component(e, SKY_SETTINGS_ID, Component::SkySettings(default_sky_settings()));
    lemma_set_step(w1, e, SKY_SETTINGS_ID, Component::SkySettings(default_sky_settings()));
    lemma_keeps_others_trans(w, w1, w2, e);
    assert(built(w, e, Recipe::EnvSky) == w2);
}

/// On a tidy world and a live entity: a fog volume gets a default transform. Its other components and
/// every other entity are left as they were.
pub proof fn lemma_env_fog_components(w: WorldModel<Component>, e: Entity)
    requires
        tidy(w),
        w.is_alive(e),
    ensures
        tidy(built(w, e, Recipe::EnvFog)),
        built(w, e, Recipe::EnvFog).is_alive(e),
        built(w, e, Recipe::EnvFog).component(e, TRANSFORM_ID) == Some(Component::Transform(default_transform())),
        forall|k: u32| k != TRANSFORM_ID ==> #[trigger] built(w, e, Recipe::EnvFog).component(e, k) == w.component(e, k),
        keeps_others(w, built(w, e, Recipe::EnvFog), e),
        built(w, e, Recipe::EnvFog).names == w.names,
        built(w, e, Recipe::EnvFog).entity_types == w.entity_types,
{
    let w1 = w.with_component(e, TRANSFORM_ID, Component::Transform(default_transform()));
    lemma_set_step(w, e, TRANSFORM_ID, Component::Transform(default_transform()));
    assert(built(w, e, Recipe::EnvFog) == w1);
}

/// On a tidy world and a live entity: a spawn point gets a default transform, zero velocity, a rigid body of mass 1, no restitution and angular damping 0.95, a default collider, the player marker, a default camera and the audio listener marker. Its other components and
/// every other entity are left as they were.
pub proof fn lemma_info_spawn_components(w: WorldModel<Component>, e: Entity)
    requires
        tidy(w),
        w.is_alive(e),
    ensures
        tidy(built(w, e, Recipe::InfoSpawn)),
        built(w, e, Recipe::InfoSpawn).is_alive(e),
        built(w, e, Recipe::InfoSpawn).component(e, TRANSFORM_ID) == Some(Component::Transform(default_transform())),
        built(w, e, Recipe::InfoSpawn).component(e, VELOCITY_ID) == Some(Component::Velocity(Velocity3D { linear: zero_vec3() })),
        built(w, e, Recipe::InfoSpawn).component(e, RIGID_BODY_ID) == Some(Component::RigidBody(RigidBody { mass: F32_ONE, restitution: F32_ZERO, angular_damping: 0x3f73_3333u32 })),
        built(w, e, Recipe::InfoSpawn).component(e, COLLIDER_ID) == Some(Component::Collider(default_collider())),
        built(w, e, Recipe::InfoSpawn).component(e, PLAYER_ID) == Some(Component::Player),
        built(w, e, Recipe::InfoSpawn).component(e, CAMERA_ID) == Some(Component::Camera(default_camera())),
        built(w, e, Recipe::InfoSpawn).component(e, AUDIO_LISTENER_ID) == Some(Component::AudioListener),
        forall|k: u32| k != TRANSFORM_ID && k != VELOCITY_ID && k != RIGID_BODY_ID && k != COLLIDER_ID && k != PLAYER_ID && k != CAMERA_ID && k != AUDIO_LISTENER_ID ==> #[trigger] built(w, e, Recipe::InfoSpawn).component(e, k) == w.component(e, k),
        keeps_others(w, built(w, e, Recipe::InfoSpawn), e),
        built(w, e, Recipe::InfoSpawn).names == w.names,
        built(w, e, Recipe::InfoSpawn).entity_types == w.entity_types,
{
    let w1 = w.with_component(e, TRANSFORM_ID, Component::Transform(default_transform()));
    lemma_set_step(w, e, TRANSFORM_ID, Component::Transform(default_transform()));
    let w2 = w1.with_component(e, VELOCITY_ID, Component::Velocity(Velocity3D { linear: zero_vec3() }));
    lemma_set_step(w1, e, VELOCITY_ID, Component::Velocity(Velocity3D { linear: zero_vec3() }));
    lemma_keeps_others_trans(w, w1, w2, e);
    let w3 = w2.with_component(e, RIGID_BODY_ID, Component::RigidBody(RigidBody { mass: F32_ONE, restitution: F32_ZERO, angular_damping: 0x3f73_3333u32 }));
    lemma_set_step(w2, e, RIGID_BODY_ID, Component::RigidBody(RigidBody { mass: F32_ONE, restitution: F32_ZERO, angular_damping: 0x3f73_3333u32 }));
    lemma_keeps_others_trans(w, w2, w3, e);
    let w4 = w3.with_component(e, COLLIDER_ID, Component::Collider(default_collider()));
    lemma_set_step(w3, e, COLLIDER_ID, Component::Collider(default_collider()));
    lemma_keeps_others_trans(w, w3, w4, e);
    let w5 = w4.with_component(e, PLAYER_ID, Component::Player);
    lemma_set_step(w4, e, PLAYER_ID, Component::Player);
    lemma_keeps_others_trans(w, w4, w5, e);
    let w6 = w5.with_component(e, CAMERA_ID, Component::Camera(default_camera()));
    lemma_set_step(w5, e, CAMERA_ID, Component::Camera(default_camera()));
    lemma_keeps_others_trans(w, w5, w6, e);
    let w7 = w6.with_component(e, AUDIO_LISTENER_ID, Component::AudioListener);
    lemma_set_step(w6, e, AUDIO_LISTENER_ID, Component::AudioListener);
    lemma_keeps_others_trans(w, w6, w7, e);
    assert(built(w, e, Recipe::InfoSpawn) == w7);
}

/// On a tidy world and a live entity: a trigger volume gets a default transform, a default collider and the sensor marker. Its other components and
/// every other entity are left as they were.
pub proof fn lemma_trigger_box_components(w: WorldModel<Component>, e: Entity)
    requires
        tidy(w),
        w.is_alive(e),
    ensures
        tidy(built(w, e, Recipe::TriggerBox)),
        built(w, e, Recipe::TriggerBox).is_alive(e),
        built(w, e, Recipe::TriggerBox).component(e, TRANSFORM_ID) == Some(Component::Transform(default_transform())),
        built(w, e, Recipe::TriggerBox).component(e, COLLIDER_ID) == Some(Component::Collider(default_collider())),
        built(w, e, Recipe::TriggerBox).component(e, SENSOR_ID) == Some(Component::Sensor),
        forall|k: u32| k != TRANSFORM_ID && k != COLLIDER_ID && k != SENSOR_ID ==> #[trigger] built(w, e, Recipe::TriggerBox).component(e, k) == w.component(e, k),
        keeps_others(w, built(w, e, Recipe::TriggerBox), e),
        built(w, e, Recipe::TriggerBox).names == w.names,
        built(w, e, Recipe::TriggerBox).entity_types == w.entity_types,
{
    let w1 = w.with_component(e, TRANSFORM_ID, Component::Transform(default_transform()));
    lemma_set_step(w, e, TRANSFORM_ID, Component::Transform(default_transform()));
    let w2 = w1.with_component(e, COLLIDER_ID, Component::Collider(default_collider()));
    lemma_set_step(w1, e, COLLIDER_ID, Component::Collider(default_collider()));
    lemma_keeps_others_trans(w, w1, w2, e);
    let w3 = w2.with_component(e, SENSOR_ID, Component::Sensor);
    lemma_set_step(w2, e, SENSOR_ID, Component::Sensor);
    lemma_keeps_others_trans(w, w2, w3, e);
    assert(built(w, e, Recipe::TriggerBox) == w3);
}

/// On a tidy world and a live entity: a point light gets a default transform. Its other components and
/// every other entity are left as they were.
pub proof fn lemma_light_point_components(w: WorldModel<Component>, e: Entity)
    requires
        tidy(w),
        w.is_alive(e),
    ensures
        tidy(built(w, e, Recipe::LightPoint)),
        built(w, e, Recipe::LightPoint).is_alive(e),
        built(w, e, Recipe::LightPoint).component(e, TRANSFORM_ID) == Some(Component::Transform(default_transform())),
        forall|k: u32| k != TRANSFORM_ID ==> #[trigger] built(w, e, Recipe::LightPoint).component(e, k) == w.component(e, k),
        keeps_others(w, built(w, e, Recipe::LightPoint), e),
        built(w, e, Recipe::LightPoint).names == w.names,
        built(w, e, Recipe::LightPoint).entity_types == w.entity_types,
{
    let w1 = w.with_component(e, TRANSFORM_ID, Component::Transform(default_transform()));
    lemma_set_step(w, e, TRANSFORM_ID, Component::Transform(default_transform()));
    assert(built(w, e, Recipe::LightPoint) == w1);
}


/// Each built-in template name finds the template with its own recipe.
pub proof fn lemma_template_names()
    ensures
        lookup(default_templates(), "prop.mesh"@) matches Some(t) && t.recipe == Recipe::PropMesh,
        lookup(default_templates(), "prop.physics"@) matches Some(t) && t.recipe == Recipe::PropPhysics,
        lookup(default_templates(), "env.sun"@) matches Some(t) && t.recipe == Recipe::EnvSun,
        lookup(default_templates(), "env.sky"@) matches Some(t) && t.recipe == Recipe::EnvSky,
        lookup(default_templates(), "env.fog"@) matches Some(t) && t.recipe == Recipe::EnvFog,
        lookup(default_templates(), "info.spawn"@) matches Some(t) && t.recipe == Recipe::InfoSpawn,
        lookup(default_templates(), "trigger.box"@) matches Some(t) && t.recipe == Recipe::TriggerBox,
        lookup(default_templates(), "light.point"@) matches Some(t) && t.recipe == Recipe::LightPoint,
{
    reveal_strlit("prop.mesh");
    reveal_strlit("prop.physics");
    reveal_strlit("env.sun");
    reveal_strlit("env.sky");
    reveal_strlit("env.fog");
    reveal_strlit("info.spawn");
    reveal_strlit("trigger.box");
    reveal_strlit("light.point");
    assert("prop.mesh"@.len() != "prop.physics"@.len());
    assert("prop.mesh"@ != "prop.physics"@);
    assert("prop.mesh"@.len() != "env.sun"@.len());
    assert("prop.mesh"@ != "env.sun"@);
    assert("prop.mesh"@.len() != "env.sky"@.len());
    assert("prop.mesh"@ != "env.sky"@);
    assert("prop.mesh"@.len() != "env.fog"@.len());
    assert("prop.mesh"@ != "env.fog"@);
    assert("prop.mesh"@.len() != "info.spawn"@.len());
    assert("prop.mesh"@ != "info.spawn"@);
    assert("prop.mesh"@.len() != "trigger.box"@.len());
    assert("prop.mesh"@ != "trigger.box"@);
    assert("prop.mesh"@.len() != "light.point"@.len());
    assert("prop.mesh"@ != "light.point"@);
    assert("prop.physics"@.len() != "env.sun"@.len());
    assert("prop.physics"@ != "env.sun"@);
    assert("prop.physics"@.len() != "env.sky"@.len());
    assert("prop.physics"@ != "env.sky"@);
    assert("prop.physics"@.len() != "env.fog"@.len());
    assert("prop.physics"@ != "env.fog"@);
    assert("prop.physics"@.len() != "info.spawn"@.len());
    assert("prop.physics"@ != "info.spawn"@);
    assert("prop.physics"@.len() != "trigger.box"@.len());
    assert("prop.physics"@ != "trigger.box"@);
    assert("prop.physics"@.len() != "light.point"@.len());
    assert("prop.physics"@ != "light.point"@);
    assert("env.sun"@[5] != "env.sky"@[5]);
    assert("env.sun"@ != "env.sky"@);
    assert("env.sun"@[4] != "env.fog"@[4]);
    assert("env.sun"@ != "env.fog"@);
    assert("env.sun"@.len() != "info.spawn"@.len());
    assert("env.sun"@ != "info.spawn"@);
    assert("env.sun"@.len() != "trigger.box"@.len());
    assert("env.sun"@ != "trigger.box"@);
    assert("env.sun"@.len() != "light.point"@.len());
    assert("env.sun"@ != "light.point"@);
    assert("env.sky"@[4] != "env.fog"@[4]);
    assert("env.sky"@ != "env.fog"@);
    assert("env.sky"@.len() != "info.spawn"@.len());
    assert("env.sky"@ != "info.spawn"@);
    assert("env.sky"@.len() != "trigger.box"@.len());
    assert("env.sky"@ != "trigger.box"@);
    assert("env.sky"@.len() != "light.point"@.len());
    assert("env.sky"@ != "light.point"@);
    assert("env.fog"@.len() != "info.spawn"@.len());
    assert("env.fog"@ != "info.spawn"@);
    assert("env.fog"@.len() != "trigger.box"@.len());
    assert("env.fog"@ != "trigger.box"@);
    assert("env.fog"@.len() != "light.point"@.len());
    assert("env.fog"@ != "light.point"@);
    assert("info.spawn"@.len() != "trigger.box"@.len());
    assert("info.spawn"@ != "trigger.box"@);
    assert("info.spawn"@.len() != "light.point"@.len());
    assert("info.spawn"@ != "light.point"@);
    assert("trigger.box"@[0] != "light.point"@[0]);
    assert("trigger.box"@ != "light.point"@);
    reveal_with_fuel(lookup, 9);
}

/// Spawning on a tidy world and recording the template name leaves a tidy
/// world in which the new entity is alive, ready for its recipe.
pub proof fn lemma_spawned_typed(w: WorldModel<Component>, types: Map<Entity, Seq<char>>)
    requires
        tidy(w),
        w.can_spawn(),
    ensures
        tidy(w.spawned().with_entity_types(types)),
        w.spawned().with_entity_types(types).is_alive(w.next_spawn()),
{
    lemma_spawn_step(w);
    lemma_spawn_fresh(w);
    crate::world_steps::lemma_tables_keep_tidy(w.spawned(), w.spawned().names, types);
}

/// Spawning `prop.physics` on a tidy world gives the new entity a default
/// transform, zero velocity and angular velocity, its rigid body and a
/// default collider.
pub proof fn lemma_spawn_prop_physics(w: WorldModel<Component>)
    requires
        tidy(w),
        w.can_spawn(),
    ensures
        ({
            let e = w.next_spawn();
            let w2 = built(
                w.spawned().with_entity_types(w.spawned().entity_types.insert(e, "prop.physics"@)),
                e,
                Recipe::PropPhysics,
            );
            &&& w2.component(e, TRANSFORM_ID) == Some(Component::Transform(default_transform()))
            &&& w2.component(e, VELOCITY_ID) == Some(Component::Velocity(Velocity3D { linear: zero_vec3() }))
            &&& w2.component(e, ANGULAR_VEL_ID) == Some(
                Component::AngularVelocity(AngularVelocity { radians: zero_vec3() }),
            )
            &&& w2.component(e, RIGID_BODY_ID) == Some(
                Component::RigidBody(
                    RigidBody { mass: F32_ONE, restitution: 0x3e99_999au32, angular_damping: 0x3f73_3333u32 },
                ),
            )
            &&& w2.component(e, COLLIDER_ID) == Some(Component::Collider(default_collider()))
        }),
{
    let e = w.next_spawn();
    let ws = w.spawned().with_entity_types(w.spawned().entity_types.insert(e, "prop.physics"@));
    lemma_spawned_typed(w, w.spawned().entity_types.insert(e, "prop.physics"@));
    lemma_prop_physics_components(ws, e);
}


/// Applying any recipe to a live entity of a tidy world keeps it tidy and
/// the entity alive, and leaves every other entity as it was.
pub proof fn lemma_built_tidy(w: WorldModel<Component>, e: Entity, r: Recipe)
    requires
        tidy(w),
        w.is_alive(e),
    ensures
        tidy(built(w, e, r)),
        built(w, e, r).is_alive(e),
        keeps_others(w, built(w, e, r), e),
        built(w, e, r).names == w.names,
        built(w, e, r).entity_types == w.entity_types,
{
    match r {
        Recipe::PropMesh => lemma_prop_mesh_components(w, e),
        Recipe::PropPhysics => lemma_prop_physics_components(w, e),
        Recipe::EnvSun => lemma_env_sun_components(w, e),
        Recipe::EnvSky => lemma_env_sky_components(w, e),
        Recipe::EnvFog => lemma_env_fog_components(w, e),
        Recipe::InfoSpawn => lemma_info_spawn_components(w, e),
        Recipe::TriggerBox => lemma_trigger_box_components(w, e),
        Recipe::LightPoint => lemma_light_point_components(w, e),
    }
}

fn add_default_transform(world: &mut World<Component>, entity: Entity)
    requires
        old(world).wf(),
    ensures
        final(world).wf(),
        tidy(old(world)@) ==> tidy(final(world)@),
        final(world)@ == with_transform(old(world)@, entity),
{
    world.attach(entity, Component::Transform(Transform3D::default()));
}

fn zero() -> (v: Vec3Bits)
    ensures
        v == zero_vec3(),
{
    Vec3Bits { x: F32_ZERO, y: F32_ZERO, z: F32_ZERO }
}

fn build_prop_mesh(world: &mut World<Component>, entity: Entity)
    requires
        old(world).wf(),
    ensures
        final(world).wf(),
        tidy(old(world)@) ==> tidy(final(world)@),
        final(world)@ == built(old(world)@, entity, Recipe::PropMesh),
{
    add_default_transform(world, entity);
}

fn build_env_fog(world: &mut World<Component>, entity: Entity)
    requires
        old(world).wf(),
    ensures
        final(world).wf(),
        tidy(old(world)@) ==> tidy(final(world)@),
        final(world)@ == built(old(world)@, entity, Recipe::EnvFog),
{
    add_default_transform(world, entity);
}

fn build_light_point(world: &mut World<Component>, entity: Entity)
    requires
        old(world).wf(),
    ensures
        final(world).wf(),
        tidy(old(world)@) ==> tidy(final(world)@),
        final(world)@ == built(old(world)@, entity, Recipe::LightPoint),
{
    add_default_transform(world, entity);
}

fn build_env_sun(world: &mut World<Component>, entity: Entity)
    requires
        old(world).wf(),
    ensures
        final(world).wf(),
        tidy(old(world)@) ==> tidy(final(world)@),
        final(world)@ == built(old(world)@, entity, Recipe::EnvSun),
{
    add_default_transform(world, entity);
    world.attach(entity, Component::SunLight(SunLight::default()));
}

fn build_env_sky(world: &mut World<Component>, entity: Entity)
    requires
        old(world).wf(),
    ensures
        final(world).wf(),
        tidy(old(world)@) ==> tidy(final(world)@),
        final(world)@ == built(old(world)@, entity, Recipe::EnvSky),
{
    add_default_transform(world, entity);
    world.attach(entity, Component::SkySettings(SkySettings::default()));
}

fn build_prop_physics(world: &mut World<Component>, entity: Entity)
    requires
        old(world).wf(),
    ensures
        final(world).wf(),
        tidy(old(world)@) ==> tidy(final(world)@),
        final(world)@ == built(old(world)@, entity, Recipe::PropPhysics),
{
    add_default_transform(world, entity);
    world.attach(entity, Component::Velocity(Velocity3D { linear: zero() }));
    world.attach(entity, Component::AngularVelocity(AngularVelocity { radians: zero() }));
    world.attach(
        entity,
        Component::RigidBody(
            RigidBody { mass: F32_ONE, restitution: 0x3e99_999au32, angular_damping: 0x3f73_3333u32 },
        ),
    );
    world.attach(entity, Component::Collider(Collider::default()));
}

fn build_info_spawn(world: &mut World<Component>, entity: Entity)
    requires
        old(world).wf(),
    ensures
        final(world).wf(),
        tidy(old(world)@) ==> tidy(final(world)@),
        final(world)@ == built(old(world)@, entity, Recipe::InfoSpawn),
{
    add_default_transform(world, entity);
    world.attach(entity, Component::Velocity(Velocity3D { linear: zero() }));
    world.attach(
        entity,
        Component::RigidBody(
            RigidBody { mass: F32_ONE, restitution: F32_ZERO, angular_damping: 0x3f73_3333u32 },
        ),
    );
    world.attach(entity, Component::Collider(Collider::default()));
    world.attach(entity, Component::Player);
    world.attach(entity, Component::Camera(Camera::default()));
    world.attach(entity, Component::AudioListener);
}

fn build_trigger_box(world: &mut World<Component>, entity: Entity)
    requires
        old(world).wf(),
    ensures
        final(world).wf(),
        tidy(old(world)@) ==> tidy(final(world)@),
        final(world)@ == built(old(world)@, entity, Recipe::TriggerBox),
{
    add_default_transform(world, entity);
    world.attach(entity, Component::Collider(Collider::default()));
    world.attach(entity, Component::Sensor);
}

impl EntityTemplate {
    /// Applies the template's component defaults to `entity`.
    pub fn build(&self, world: &mut World<Component>, entity: Entity)
        requires
            old(world).wf(),
        ensures
            final(world).wf(),
            tidy(old(world)@) ==> tidy(final(world)@),
        tidy(old(world)@) ==> tidy(final(world)@),
            final(world)@ == built(old(world)@, entity, self.recipe),
    {
        match self.recipe {
            Recipe::PropMesh => build_prop_mesh(world, entity),
            Recipe::PropPhysics => build_prop_physics(world, entity),
            Recipe::EnvSun => build_env_sun(world, entity),
            Recipe::EnvSky => build_env_sky(world, entity),
            Recipe::EnvFog => build_env_fog(world, entity),
            Recipe::InfoSpawn => build_info_spawn(world, entity),
            Recipe::TriggerBox => build_trigger_box(world, entity),
            Recipe::LightPoint => build_light_point(world, entity),
        }
    }
}

/// The template registered last under `name`.
pub open spec fn lookup(templates: Seq<EntityTemplate>, name: Seq<char>) -> Option<EntityTemplate>
    decreases templates.len(),
{
    if templates.len() == 0 {
        None
    } else if templates.last().name@ == name {
        Some(templates.last())
    } else {
        lookup(templates.drop_last(), name)
    }
}

/// The templates of a category, in registration order.
pub open spec fn in_category(templates: Seq<EntityTemplate>, category: Seq<char>) -> Seq<EntityTemplate>
    decreases templates.len(),
{
    if templates.len() == 0 {
        Seq::empty()
    } else if templates.last().category@ == category {
        in_category(templates.drop_last(), category).push(templates.last())
    } else {
        in_category(templates.drop_last(), category)
    }
}

/// The templates of a category are exactly those registered with that
/// category, each from the registry.
pub proof fn lemma_in_category(ts: Seq<EntityTemplate>, c: Seq<char>)
    ensures
        forall|i: int| 0 <= i < in_category(ts, c).len() ==> (#[trigger] in_category(ts, c)[i]).category@ == c
            && ts.contains(in_category(ts, c)[i]),
        forall|j: int| 0 <= j < ts.len() && (#[trigger] ts[j]).category@ == c ==> in_category(ts, c).contains(ts[j]),
    decreases ts.len(),
{
    if ts.len() > 0 {
        let t = ts.drop_last();
        lemma_in_category(t, c);
        let r = in_category(ts, c);
        let rt = in_category(t, c);
        assert forall|i: int| 0 <= i < r.len() implies (#[trigger] r[i]).category@ == c && ts.contains(r[i]) by {
            if i < rt.len() {
                assert(r[i] == rt[i]);
                let k = choose|k: int| 0 <= k < t.len() && t[k] == rt[i];
                assert(ts[k] == t[k]);
            } else {
                assert(r[i] == ts.last());
                assert(ts[ts.len() - 1] == ts.last());
            }
        }
        assert forall|j: int| 0 <= j < ts.len() && (#[trigger] ts[j]).category@ == c implies r.contains(ts[j]) by {
            if j < ts.len() - 1 {
                assert(t[j] == ts[j]);
                assert(rt.contains(ts[j]));
                let k = choose|k: int| 0 <= k < rt.len() && rt[k] == ts[j];
                assert(r[k] == rt[k]);
            } else {
                assert(r[r.len() - 1] == ts.last());
            }
        }
    }
}

/// The categories of the templates.
pub open spec fn category_set(templates: Seq<EntityTemplate>) -> Set<Seq<char>> {
    Set::new(|c: Seq<char>| exists|i: int| 0 <= i < templates.len() && templates[i].category@ == c)
}

/// Named templates, grouped by category.
pub struct EntityTypeRegistry {
    templates: Vec<EntityTemplate>,
}

impl View for EntityTypeRegistry {
    type V = Seq<EntityTemplate>;

    /// The registered templates, in registration order.
    closed spec fn view(&self) -> Seq<EntityTemplate> {
        self.templates@
    }
}

impl EntityTypeRegistry {
    pub fn new() -> (r: Self)
        ensures
            r@ == Seq::<EntityTemplate>::empty(),
    {
        EntityTypeRegistry { templates: Vec::new() }
    }

    /// Registers a template; a later template with the same name shadows
    /// an earlier one in lookups, and every template stays in its category.
    pub fn register(&mut self, tmpl: EntityTemplate)
        ensures
            final(self)@ == old(self)@.push(tmpl),
    {
        self.templates.push(tmpl);
    }

    /// The template registered last under `name`.
    pub fn get(&self, name: &str) -> (r: Option<EntityTemplate>)
        ensures
            r == lookup(self@, name@),
    {
        let mut i = self.templates.len();
        assert(self@.take(i as int) =~= self@);
        while i > 0
            invariant
                0 <= i <= self@.len(),
                lookup(self@, name@) == lookup(self@.take(i as int), name@),
            decreases i,
        {
            let t = self.templates[i - 1];
            proof {
                assert(self@.take(i as int).drop_last() =~= self@.take(i - 1));
                assert(self@.take(i as int).last() == t);
            }
            if same_str(t.name, name) {
                return Some(t);
            }
            i = i - 1;
        }
        proof {
            assert(self@.take(0) =~= Seq::<EntityTemplate>::empty());
        }
        None
    }

    /// The distinct categories, sorted.
    pub fn categories(&self) -> (r: Vec<&'static str>)
        ensures
            forall|i: int, j: int| 0 <= i < j < r@.len() ==> str_lt(r@[i]@, r@[j]@),
            forall|c: Seq<char>| category_set(self@).contains(c) <==> exists|i: int|
                0 <= i < r@.len() && r@[i]@ == c,
    {
        let mut cats: Vec<&'static str> = Vec::new();
        let mut t: usize = 0;
        while t < self.templates.len()
            invariant
                0 <= t <= self@.len(),
                forall|i: int, j: int| 0 <= i < j < cats@.len() ==> str_lt(cats@[i]@, cats@[j]@),
                forall|c: Seq<char>| category_set(self@.take(t as int)).contains(c) <==> exists|i: int|
                    0 <= i < cats@.len() && cats@[i]@ == c,
            decreases self@.len() - t,
        {
            let c = self.templates[t].category;
            let ghost old_cats = cats@;
            // position of the first category not sorting before `c`
            let mut p: usize = 0;
            while p < cats.len() && str_less(cats[p], c)
                invariant
                    0 <= p <= cats@.len(),
                    cats@ == old_cats,
                    forall|i: int| 0 <= i < p ==> str_lt(cats@[i]@, c@),
                decreases cats@.len() - p,
            {
                p = p + 1;
            }
            let present = p < cats.len() && same_str(cats[p], c);
            if !present {
                cats.insert(p, c);
                proof {
                    assert forall|i: int, j: int| 0 <= i < j < cats@.len() implies str_lt(cats@[i]@, cats@[j]@) by {
                        if j < p {
                            assert(cats@[i] == old_cats[i] && cats@[j] == old_cats[j]);
                        } else if j == p {
                            assert(cats@[i] == old_cats[i]);
                        } else if i == p {
                            assert(cats@[j] == old_cats[j - 1]);
                            lemma_str_lt_order(c@, old_cats[p as int]@, old_cats[j - 1]@);
                            if j - 1 > p {
                                assert(str_lt(old_cats[p as int]@, old_cats[j - 1]@));
                            }
                        } else if i < p {
                            assert(cats@[i] == old_cats[i]);
                            assert(cats@[j] == old_cats[j - 1]);
                            lemma_str_lt_order(old_cats[i]@, c@, old_cats[j - 1]@);
                            lemma_str_lt_order(c@, old_cats[p as int]@, old_cats[j - 1]@);
                            lemma_str_lt_order(old_cats[p as int]@, c@, old_cats[p as int]@);
                            if j - 1 > p {
                                assert(str_lt(old_cats[p as int]@, old_cats[j - 1]@));
                            }
                            lemma_str_lt_order(old_cats[i]@, old_cats[p as int]@, old_cats[j - 1]@);
                            if j - 1 == p {
                            } else {
                                lemma_str_lt_order(old_cats[i]@, old_cats[p as int]@, old_cats[j - 1]@);
                                assert(str_lt(old_cats[i]@, old_cats[p as int]@));
                            }
                        } else {
                            assert(cats@[i] == old_cats[i - 1]);
                            assert(cats@[j] == old_cats[j - 1]);
                        }
                    }
                }
            }
            proof {
                let pre = self@.take(t as int);
                let pre1 = self@.take(t + 1);
                assert(pre1 =~= pre.push(self@[t as int]));
                assert forall|x: Seq<char>| category_set(pre1).contains(x) <==> exists|i: int|
                    0 <= i < cats@.len() && cats@[i]@ == x by {
                    if category_set(pre1).contains(x) {
                        let k = choose|k: int| 0 <= k < pre1.len() && pre1[k].category@ == x;
                        if k < t {
                            assert(pre[k] == pre1[k]);
                            assert(category_set(pre).contains(x));
                            let i = choose|i: int| 0 <= i < old_cats.len() && old_cats[i]@ == x;
                            if present {
                                assert(cats@[i]@ == x);
                            } else if i < p {
                                assert(cats@[i]@ == x);
                            } else {
                                assert(cats@[i + 1]@ == x);
                            }
                        } else {
                            if present {
                                assert(cats@[p as int]@ == x);
                            } else {
                                assert(cats@[p as int]@ == x);
                            }
                        }
                    }
                    if exists|i: int| 0 <= i < cats@.len() && cats@[i]@ == x {
                        let i = choose|i: int| 0 <= i < cats@.len() && cats@[i]@ == x;
                        if x == c@ {
                            assert(pre1[t as int].category@ == x);
                        } else if present {
                            assert(old_cats[i]@ == x);
                            assert(category_set(pre).contains(x));
                            let k = choose|k: int| 0 <= k < pre.len() && pre[k].category@ == x;
                            assert(pre1[k] == pre[k]);
                        } else {
                            if i < p {
                                assert(old_cats[i]@ == x);
                            } else if i > p {
                                assert(old_cats[i - 1]@ == x);
                            }
                            assert(category_set(pre).contains(x));
                            let k = choose|k: int| 0 <= k < pre.len() && pre[k].category@ == x;
                            assert(pre1[k] == pre[k]);
                        }
                    }
                }
            }
            t = t + 1;
        }
        proof {
            assert(self@.take(self@.len() as int) =~= self@);
        }
        cats
    }

    /// The templates of `category`, in registration order.
    pub fn templates_in_category(&self, category: &str) -> (r: Vec<EntityTemplate>)
        ensures
            r@ == in_category(self@, category@),
    {
        let mut out: Vec<EntityTemplate> = Vec::new();
        let mut i: usize = 0;
        while i < self.templates.len()
            invariant
                0 <= i <= self@.len(),
                out@ == in_category(self@.take(i as int), category@),
            decreases self@.len() - i,
        {
            let t = self.templates[i];
            proof {
                assert(self@.take(i + 1).drop_last() =~= self@.take(i as int));
                assert(self@.take(i + 1).last() == t);
            }
            if same_str(t.category, category) {
                out.push(t);
            }
            i = i + 1;
        }
        proof {
            assert(self@.take(self@.len() as int) =~= self@);
        }
        out
    }

    /// Spawns a new entity, records `name` as its template name and applies
    /// the template registered under `name`; nothing happens for an unknown
    /// name.
    pub fn spawn(&self, world: &mut World<Component>, name: &str) -> (r: Option<Entity>)
        requires
            old(world).wf(),
            old(world)@.can_spawn(),
        ensures
            final(world).wf(),
            tidy(old(world)@) ==> tidy(final(world)@),
            tidy(old(world)@) ==> (r matches Some(e) ==> !old(world)@.stored(e) && !old(world)@.is_alive(e)),
        tidy(old(world)@) ==> tidy(final(world)@),
            match lookup(self@, name@) {
                None => r == None::<Entity> && final(world)@ == old(world)@,
                Some(t) => r == Some(old(world)@.next_spawn()) && final(world)@ == built(
                    old(world)@.spawned().with_entity_types(
                        if name@.len() == 0 {
                            old(world)@.spawned().entity_types.remove(old(world)@.next_spawn())
                        } else {
                            old(world)@.spawned().entity_types.insert(old(world)@.next_spawn(), name@)
                        },
                    ),
                    old(world)@.next_spawn(),
                    t.recipe,
                ),
            },
    {
        let tmpl = match self.get(name) {
            Some(t) => t,
            None => {
                return None;
            },
        };
        let entity = world.spawn();
        proof {
            if tidy(old(world)@) {
                lemma_spawn_step(old(world)@);
                lemma_spawn_fresh(old(world)@);
            }
        }
        world.set_entity_type(entity, name);
        tmpl.build(world, entity);
        Some(entity)
    }
}

pub fn prop_mesh_template() -> (t: EntityTemplate)
    ensures
        t == default_templates()[0],
{
    EntityTemplate { name: "prop.mesh", category: "Props", display_name: "Static Mesh", recipe: Recipe::PropMesh }
}

pub fn prop_physics_template() -> (t: EntityTemplate)
    ensures
        t == default_templates()[1],
{
    EntityTemplate {
        name: "prop.physics",
        category: "Props",
        display_name: "Physics Prop",
        recipe: Recipe::PropPhysics,
    }
}

pub fn env_sun_template() -> (t: EntityTemplate)
    ensures
        t == default_templates()[2],
{
    EntityTemplate { name: "env.sun", category: "Environment", display_name: "Sun", recipe: Recipe::EnvSun }
}

pub fn env_sky_template() -> (t: EntityTemplate)
    ensures
        t == default_templates()[3],
{
    EntityTemplate { name: "env.sky", category: "Environment", display_name: "Sky", recipe: Recipe::EnvSky }
}

pub fn env_fog_template() -> (t: EntityTemplate)
    ensures
        t == default_templates()[4],
{
    EntityTemplate { name: "env.fog", category: "Environment", display_name: "Fog", recipe: Recipe::EnvFog }
}

pub fn info_spawn_template() -> (t: EntityTemplate)
    ensures
        t == default_templates()[5],
{
    EntityTemplate {
        name: "info.spawn",
        category: "Gameplay",
        display_name: "Spawn Point",
        recipe: Recipe::InfoSpawn,
    }
}

pub fn trigger_box_template() -> (t: EntityTemplate)
    ensures
        t == default_templates()[6],
{
    EntityTemplate {
        name: "trigger.box",
        category: "Gameplay",
        display_name: "Trigger Volume",
        recipe: Recipe::TriggerBox,
    }
}

pub fn light_point_template() -> (t: EntityTemplate)
    ensures
        t == default_templates()[7],
{
    EntityTemplate {
        name: "light.point",
        category: "Environment",
        display_name: "Point Light",
        recipe: Recipe::LightPoint,
    }
}

/// The built-in templates in the order the default registry registers them.
pub open spec fn default_templates() -> Seq<EntityTemplate> {
    seq![
        EntityTemplate { name: "prop.mesh", category: "Props", display_name: "Static Mesh", recipe: Recipe::PropMesh },
        EntityTemplate {
            name: "prop.physics",
            category: "Props",
            display_name: "Physics Prop",
            recipe: Recipe::PropPhysics,
        },
        EntityTemplate { name: "env.sun", category: "Environment", display_name: "Sun", recipe: Recipe::EnvSun },
        EntityTemplate { name: "env.sky", category: "Environment", display_name: "Sky", recipe: Recipe::EnvSky },
        EntityTemplate { name: "env.fog", category: "Environment", display_name: "Fog", recipe: Recipe::EnvFog },
        EntityTemplate {
            name: "info.spawn",
            category: "Gameplay",
            display_name: "Spawn Point",
            recipe: Recipe::InfoSpawn,
        },
        EntityTemplate {
            name: "trigger.box",
            category: "Gameplay",
            display_name: "Trigger Volume",
            recipe: Recipe::TriggerBox,
        },
        EntityTemplate {
            name: "light.point",
            category: "Environment",
            display_name: "Point Light",
            recipe: Recipe::LightPoint,
        },
    ]
}

/// The registry of the built-in templates.
pub fn default_registry() -> (r: EntityTypeRegistry)
    ensures
        r@ == default_templates(),
{
    let mut reg = EntityTypeRegistry::new();
    reg.register(prop_mesh_template());
    reg.register(prop_physics_template());
    reg.register(env_sun_template());
    reg.register(env_sky_template());
    reg.register(env_fog_template());
    reg.register(info_spawn_template());
    reg.register(trigger_box_template());
    reg.register(light_point_template());
    assert(reg@ =~= default_templates());
    reg
}

/// The built-in template named `name`.
pub fn get_template(name: &str) -> (r: Option<EntityTemplate>)
    ensures
        r == lookup(default_templates(), name@),
{
    default_registry().get(name)
}

/// Spawns an entity from the built-in template named `name`.
pub fn spawn_type(world: &mut World<Component>, name: &str) -> (r: Option<Entity>)
    requires
        old(world).wf(),
        old(world)@.can_spawn(),
    ensures
        final(world).wf(),
        tidy(old(world)@) ==> tidy(final(world)@),
        tidy(old(world)@) ==> (r matches Some(e) ==> !old(world)@.stored(e) && !old(world)@.is_alive(e)),
        match lookup(default_templates(), name@) {
            None => r == None::<Entity> && final(world)@ == old(world)@,
            Some(t) => r == Some(old(world)@.next_spawn()) && final(world)@ == built(
                old(world)@.spawned().with_entity_types(
                    if name@.len() == 0 {
                        old(world)@.spawned().entity_types.remove(old(world)@.next_spawn())
                    } else {
                        old(world)@.spawned().entity_types.insert(old(world)@.next_spawn(), name@)
                    },
                ),
                old(world)@.next_spawn(),
                t.recipe,
            ),
        },
{
    default_registry().spawn(world, name)
}

/// Applies the defaults of the built-in template named `name` to an
/// existing entity (used when loading a world map). Whether the name was
/// known is returned.
pub fn apply_type(world: &mut World<Component>, entity: Entity, name: &str) -> (applied: bool)
    requires
        old(world).wf(),
    ensures
        final(world).wf(),
        tidy(old(world)@) ==> tidy(final(world)@),
        match lookup(default_templates(), name@) {
            None => !applied && final(world)@ == old(world)@,
            Some(t) => applied && final(world)@ == built(old(world)@, entity, t.recipe),
        },
{
    match get_template(name) {
        Some(tmpl) => {
            tmpl.build(world, entity);
            true
        },
        None => false,
    }
}

} // verus!
