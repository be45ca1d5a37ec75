//! The component types of the engine. Floating-point fields are held as
//! their IEEE-754 single-precision bit patterns, which is how the world-map
//! format stores them.

use vstd::prelude::*;

use crate::audio::{BusType, PlayMode};
use crate::ecs::{Entity, World, WorldModel};
use crate::world_frames::tidy;

verus! {

// --- Component kinds: the CRC32 of each component type's name ---------------

pub const TRANSFORM_ID: u32 = 0xc389_7b31u32;
pub const VELOCITY_ID: u32 = 0x9b2b_3f0fu32;
pub const ANGULAR_VEL_ID: u32 = 0xb4ce_b84du32;
pub const RIGID_BODY_ID: u32 = 0x228f_402au32;
pub const COLLIDER_ID: u32 = 0x334b_2781u32;
pub const COLOR_ID: u32 = 0xa797_67edu32;
pub const PLAYER_ID: u32 = 0x9fb5_7f53u32;
pub const GROUND_ID: u32 = 0xa053_865eu32;
pub const STATIC_ID: u32 = 0x876c_2d13u32;
pub const SENSOR_ID: u32 = 0xbb2a_1286u32;
pub const AUDIO_LISTENER_ID: u32 = 0xf133_f733u32;
pub const CAMERA_ID: u32 = 0x3cb0_eb33u32;
pub const MODEL_ID: u32 = 0x1654_5dddu32;
pub const SCRIPT_ID: u32 = 0xfb5e_f843u32;
pub const AUDIO_SOURCE_ID: u32 = 0xa96c_6756u32;
pub const SUN_LIGHT_ID: u32 = 0x5edc_3e04u32;
pub const SKY_SETTINGS_ID: u32 = 0x86cd_9d3au32;

// --- Bit patterns of the constants the defaults use --------------------------

pub const F32_ZERO: u32 = 0x0000_0000u32;
pub const F32_ONE: u32 = 0x3f80_0000u32;
pub const F32_HALF: u32 = 0x3f00_0000u32;

/// Three single-precision values by their bit patterns.
#[derive(Clone, Copy, Debug, PartialEq, Eq, Structural)]
pub struct Vec3Bits {
    pub x: u32,
    pub y: u32,
    pub z: u32,
}

/// A quaternion by the bit patterns of its four single-precision values.
#[derive(Clone, Copy, Debug, PartialEq, Eq, Structural)]
pub struct QuatBits {
    pub x: u32,
    pub y: u32,
    pub z: u32,
    pub w: u32,
}

pub open spec fn vec3_splat(v: u32) -> Vec3Bits {
    Vec3Bits { x: v, y: v, z: v }
}

fn splat(v: u32) -> (r: Vec3Bits)
    ensures
        r == vec3_splat(v),
{
    Vec3Bits { x: v, y: v, z: v }
}

#[derive(Clone, Copy, Debug, PartialEq, Eq, Structural)]
pub struct Transform3D {
    pub position: Vec3Bits,
    pub rotation: QuatBits,
    pub scale: Vec3Bits,
}

/// Origin, identity rotation, unit scale.
pub open spec fn default_transform() -> Transform3D {
    Transform3D {
        position: vec3_splat(F32_ZERO),
        rotation: QuatBits { x: F32_ZERO, y: F32_ZERO, z: F32_ZERO, w: F32_ONE },
        scale: vec3_splat(F32_ONE),
    }
}

impl Default for Transform3D {
    fn default() -> (t: Self)
        ensures
            t == default_transform(),
    {
        Transform3D {
            position: splat(F32_ZERO),
            rotation: QuatBits { x: F32_ZERO, y: F32_ZERO, z: F32_ZERO, w: F32_ONE },
            scale: splat(F32_ONE),
        }
    }
}

#[derive(Clone, Copy, Debug, PartialEq, Eq, Structural)]
pub struct Velocity3D {
    pub linear: Vec3Bits,
}

#[derive(Clone, Copy, Debug, PartialEq, Eq, Structural)]
pub struct AngularVelocity {
    pub radians: Vec3Bits,
}

#[derive(Clone, Copy, Debug)]
pub struct Color {
    pub rgba: [u32; 4],
}

#[derive(Clone, Copy, Debug, PartialEq, Eq, Structural)]
pub struct RigidBody {
    pub mass: u32,
    pub restitution: u32,
    pub angular_damping: u32,
}

/// Mass 1.0, restitution 0.3, angular damping 0.95.
pub open spec fn default_rigid_body() -> RigidBody {
    RigidBody { mass: F32_ONE, restitution: 0x3e99_999au32, angular_damping: 0x3f73_3333u32 }
}

impl Default for RigidBody {
    fn default() -> (r: Self)
        ensures
            r == default_rigid_body(),
    {
        RigidBody { mass: F32_ONE, restitution: 0x3e99_999au32, angular_damping: 0x3f73_3333u32 }
    }
}

#[derive(Clone, Copy, Debug, PartialEq, Eq, Structural)]
pub struct Collider {
    pub half_extents: Vec3Bits,
}

/// Half extents 0.5 on every axis.
pub open spec fn default_collider() -> Collider {
    Collider { half_extents: vec3_splat(F32_HALF) }
}

impl Default for Collider {
    fn default() -> (c: Self)
        ensures
            c == default_collider(),
    {
        Collider { half_extents: splat(F32_HALF) }
    }
}

#[derive(Clone, Copy, Debug, Default, PartialEq, Eq, Structural)]
pub struct Player;

#[derive(Clone, Copy, Debug, Default, PartialEq, Eq, Structural)]
pub struct Ground;

#[derive(Clone, Copy, Debug, Default, PartialEq, Eq, Structural)]
pub struct Static;

#[derive(Clone, Copy, Debug, Default, PartialEq, Eq, Structural)]
pub struct Sensor;

#[derive(Clone, Copy, Debug, Default, PartialEq, Eq, Structural)]
pub struct AudioListenerComponent;

#[derive(Clone, Debug)]
pub struct AudioSourceComponent {
    pub clip: String,
    pub volume: u32,
    pub looping: bool,
    pub bus: BusType,
    pub mode: PlayMode,
}

#[derive(Clone, Debug)]
pub struct Model {
    pub path: String,
}

#[derive(Clone, Debug)]
pub struct ScriptComponent {
    pub script_name: String,
}

#[derive(Clone, Copy, Debug, PartialEq, Eq, Structural)]
pub enum CameraMode {
    ThirdPerson,
    FirstPerson,
    FreeLook,
}

#[derive(Clone, Copy, Debug, PartialEq, Eq, Structural)]
pub struct Camera {
    pub mode: CameraMode,
    pub yaw: u32,
    pub pitch: u32,
    pub distance: u32,
    pub height: u32,
}

/// Third person, yaw 0, pitch -0.3, distance 8, height 4.
pub open spec fn default_camera() -> Camera {
    Camera {
        mode: CameraMode::ThirdPerson,
        yaw: F32_ZERO,
        pitch: 0xbe99_999au32,
        distance: 0x4100_0000u32,
        height: 0x4080_0000u32,
    }
}

impl Default for Camera {
    fn default() -> (c: Self)
        ensures
            c == default_camera(),
    {
        Camera {
            mode: CameraMode::ThirdPerson,
            yaw: F32_ZERO,
            pitch: 0xbe99_999au32,
            distance: 0x4100_0000u32,
            height: 0x4080_0000u32,
        }
    }
}

#[derive(Clone, Copy, Debug)]
pub struct SunLight {
    pub color: [u32; 3],
    pub intensity: u32,
}

/// Color (1.0, 0.95, 0.85), intensity 1.0.
pub open spec fn default_sun_light() -> SunLight {
    SunLight { color: [F32_ONE, 0x3f73_3333u32, 0x3f59_999au32], intensity: F32_ONE }
}

impl Default for SunLight {
    fn default() -> (s: Self)
        ensures
            s == default_sun_light(),
    {
        SunLight { color: [F32_ONE, 0x3f73_3333u32, 0x3f59_999au32], intensity: F32_ONE }
    }
}

#[derive(Clone, Copy, Debug)]
pub struct SkySettings {
    pub color: [u32; 3],
    pub brightness: u32,
    pub indirect_light_multiplier: u32,
    pub sky_color: [u32; 3],
    pub sky_intensity: u32,
    pub sky_ibl_scale: u32,
    pub skybox_bounce_multiplier: u32,
}

/// Color and sky color (0.4, 0.6, 0.9); every multiplier 1.0.
pub open spec fn default_sky_settings() -> SkySettings {
    SkySettings {
        color: [0x3ecc_cccdu32, 0x3f19_999au32, 0x3f66_6666u32],
        brightness: F32_ONE,
        indirect_light_multiplier: F32_ONE,
        sky_color: [0x3ecc_cccdu32, 0x3f19_999au32, 0x3f66_6666u32],
        sky_intensity: F32_ONE,
        sky_ibl_scale: F32_ONE,
        skybox_bounce_multiplier: F32_ONE,
    }
}

impl Default for SkySettings {
    fn default() -> (s: Self)
        ensures
            s == default_sky_settings(),
    {
        SkySettings {
            color: [0x3ecc_cccdu32, 0x3f19_999au32, 0x3f66_6666u32],
            brightness: F32_ONE,
            indirect_light_multiplier: F32_ONE,
            sky_color: [0x3ecc_cccdu32, 0x3f19_999au32, 0x3f66_6666u32],
            sky_intensity: F32_ONE,
            sky_ibl_scale: F32_ONE,
            skybox_bounce_multiplier: F32_ONE,
        }
    }
}

/// A value of any of the engine's component types.
#[derive(Clone, Debug)]
pub enum Component {
    Transform(Transform3D),
    Velocity(Velocity3D),
    AngularVelocity(AngularVelocity),
    RigidBody(RigidBody),
    Collider(Collider),
    Color(Color),
    Player,
    Ground,
    Static,
    Sensor,
    AudioListener,
    Camera(Camera),
    Model(Model),
    Script(ScriptComponent),
    AudioSource(AudioSourceComponent),
    SunLight(SunLight),
    SkySettings(SkySettings),
}

/// The kind under which a component value is stored.
pub open spec fn kind_of(c: Component) -> u32 {
    match c {
        Component::Transform(_) => TRANSFORM_ID,
        Component::Velocity(_) => VELOCITY_ID,
        Component::AngularVelocity(_) => ANGULAR_VEL_ID,
        Component::RigidBody(_) => RIGID_BODY_ID,
        Component::Collider(_) => COLLIDER_ID,
        Component::Color(_) => COLOR_ID,
        Component::Player => PLAYER_ID,
        Component::Ground => GROUND_ID,
        Component::Static => STATIC_ID,
        Component::Sensor => SENSOR_ID,
        Component::AudioListener => AUDIO_LISTENER_ID,
        Component::Camera(_) => CAMERA_ID,
        Component::Model(_) => MODEL_ID,
        Component::Script(_) => SCRIPT_ID,
        Component::AudioSource(_) => AUDIO_SOURCE_ID,
        Component::SunLight(_) => SUN_LIGHT_ID,
        Component::SkySettings(_) => SKY_SETTINGS_ID,
    }
}


/// Each component variant has its own kind: two components share a kind
/// exactly when they are the same variant.
pub proof fn lemma_kinds_distinct(a: Component, b: Component)
    ensures
        kind_of(a) == kind_of(b) <==> ((a is Transform <==> b is Transform) && (a is Velocity <==> b is Velocity) && (a is AngularVelocity <==> b is AngularVelocity) && (a is RigidBody <==> b is RigidBody) && (a is Collider <==> b is Collider) && (a is Color <==> b is Color) && (a is Player <==> b is Player) && (a is Ground <==> b is Ground) && (a is Static <==> b is Static) && (a is Sensor <==> b is Sensor) && (a is AudioListener <==> b is AudioListener) && (a is Camera <==> b is Camera) && (a is Model <==> b is Model) && (a is Script <==> b is Script) && (a is AudioSource <==> b is AudioSource) && (a is SunLight <==> b is SunLight) && (a is SkySettings <==> b is SkySettings)),
{
}

impl Component {
    pub fn kind(&self) -> (k: u32)
        ensures
            k == kind_of(*self),
    {
        match self {
            Component::Transform(_) => TRANSFORM_ID,
            Component::Velocity(_) => VELOCITY_ID,
            Component::AngularVelocity(_) => ANGULAR_VEL_ID,
            Component::RigidBody(_) => RIGID_BODY_ID,
            Component::Collider(_) => COLLIDER_ID,
            Component::Color(_) => COLOR_ID,
            Component::Player => PLAYER_ID,
            Component::Ground => GROUND_ID,
            Component::Static => STATIC_ID,
            Component::Sensor => SENSOR_ID,
            Component::AudioListener => AUDIO_LISTENER_ID,
            Component::Camera(_) => CAMERA_ID,
            Component::Model(_) => MODEL_ID,
            Component::Script(_) => SCRIPT_ID,
            Component::AudioSource(_) => AUDIO_SOURCE_ID,
            Component::SunLight(_) => SUN_LIGHT_ID,
            Component::SkySettings(_) => SKY_SETTINGS_ID,
        }
    }
}

impl World<Component> {
    /// Sets the component of `e` of the kind of `c` to `c`.
    pub fn attach(&mut self, e: Entity, c: Component)
        requires
            old(self).wf(),
        ensures
            final(self).wf(),
            final(self)@ == old(self)@.with_component(e, kind_of(c), c),
            tidy(old(self)@) ==> tidy(final(self)@),
    {
        let k = c.kind();
        self.add_component(e, k, c);
    }
}

} // verus!
