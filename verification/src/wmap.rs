//! WMAP world maps: the component codec.
//!
//! Each component is stored as `type_id | version | data_size | data`, where
//! `type_id` is the CRC32 of the component type's name. Floating-point values
//! are stored as their little-endian bit patterns.

use vstd::prelude::*;
use vstd::utf8::encode_utf8;
use crate::audio::{BusType, PlayMode};
use crate::components::{
    AngularVelocity, AudioSourceComponent, Camera, CameraMode, Collider, Color, Component, Model,
    QuatBits, RigidBody, ScriptComponent, Transform3D, Vec3Bits, Velocity3D, ANGULAR_VEL_ID,
    AUDIO_LISTENER_ID, AUDIO_SOURCE_ID, CAMERA_ID, COLLIDER_ID, COLOR_ID, F32_ONE, GROUND_ID,
    MODEL_ID, PLAYER_ID, RIGID_BODY_ID, SCRIPT_ID, SENSOR_ID, STATIC_ID, TRANSFORM_ID,
    VELOCITY_ID,
};
use crate::wpak::{read_u32, u32_at, utf8_to_string};
use crate::wpak_build::{append_bytes, le32, push_le32};

verus! {

// --- CRC32 of type names -------------------------------------------------------

/// One bit step of the reflected CRC32 (polynomial 0xEDB88320).
pub open spec fn crc32_bit(crc: u32) -> u32 {
    if crc & 1 != 0 {
        (crc >> 1) ^ 0xEDB8_8320u32
    } else {
        crc >> 1
    }
}

/// `j` bit steps.
pub open spec fn crc32_bits(crc: u32, j: nat) -> u32
    decreases j,
{
    if j == 0 {
        crc
    } else {
        crc32_bit(crc32_bits(crc, (j - 1) as nat))
    }
}

/// The CRC register after one more byte.
pub open spec fn crc32_byte(crc: u32, b: u8) -> u32 {
    crc32_bits(crc ^ (b as u32), 8)
}

/// The CRC register after a byte string, starting from all ones.
pub open spec fn crc32_register(bytes: Seq<u8>) -> u32
    decreases bytes.len(),
{
    if bytes.len() == 0 {
        0xFFFF_FFFFu32
    } else {
        crc32_byte(crc32_register(bytes.drop_last()), bytes.last())
    }
}

/// CRC32 of the UTF-8 bytes of a string.
pub open spec fn crc32_of(s: Seq<char>) -> u32 {
    !crc32_register(encode_utf8(s))
}

/// CRC32 (IEEE, reflected) of a string's UTF-8 bytes: the component type id
/// of a type name.
pub fn crc32(s: &str) -> (r: u32)
    ensures
        r == crc32_of(s@),
{
    let bytes = s.as_bytes();
    let mut crc: u32 = 0xFFFF_FFFF;
    let mut i: usize = 0;
    while i < bytes.len()
        invariant
            i <= bytes@.len(),
            bytes@ == encode_utf8(s@),
            crc == crc32_register(bytes@.take(i as int)),
        decreases bytes@.len() - i,
    {
        proof {
            let t = bytes@.take(i + 1);
            assert(t.drop_last() == bytes@.take(i as int));
            assert(t.last() == bytes@[i as int]);
        }
        let mut c = crc ^ (bytes[i] as u32);
        let ghost start = c;
        let mut j: u32 = 0;
        while j < 8
            invariant
                j <= 8,
                c == crc32_bits(start, j as nat),
            decreases 8 - j,
        {
            if c & 1 != 0 {
                c = (c >> 1) ^ 0xEDB8_8320u32;
            } else {
                c = c >> 1;
            }
            j = j + 1;
        }
        crc = c;
        i = i + 1;
    }
    proof {
        assert(bytes@.take(i as int) == bytes@);
    }
    !crc
}

/// The type id of the template-name record: CRC32 of `EntityType`.
pub const ENTITY_TYPE_ID: u32 = 0x5055_829au32;

/// The Transform3D record version this library writes (version 2 adds scale).
pub const TRANSFORM_VERSION: u32 = 2;

// --- Errors ----------------------------------------------------------------------

/// Why a world map could not be read.
#[derive(Clone, Copy, Debug, PartialEq, Eq, Structural)]
pub enum WmapError {
    UnexpectedEnd,
    InvalidUtf8,
    BadMagic,
    UnsupportedVersion(u16, u16),
    NameTableOutOfRange,
    EntityIndexOutOfRange,
}

// --- What a component record holds ------------------------------------------------

/// A component value with its strings as character sequences.
pub ghost enum ComponentView {
    Transform(Transform3D),
    Velocity(Velocity3D),
    AngularVelocity(AngularVelocity),
    RigidBody(RigidBody),
    Collider(Collider),
    Color(Seq<u32>),
    Player,
    Ground,
    Static,
    Sensor,
    AudioListener,
    Camera(Camera),
    Model(Seq<char>),
    Script(Seq<char>),
    AudioSource(Seq<char>, u32, bool, BusType, PlayMode),
    SunLight,
    SkySettings,
}

/// The view of a component value.
pub open spec fn component_view(c: Component) -> ComponentView {
    match c {
        Component::Transform(t) => ComponentView::Transform(t),
        Component::Velocity(v) => ComponentView::Velocity(v),
        Component::AngularVelocity(a) => ComponentView::AngularVelocity(a),
        Component::RigidBody(r) => ComponentView::RigidBody(r),
        Component::Collider(c) => ComponentView::Collider(c),
        Component::Color(c) => ComponentView::Color(c.rgba@),
        Component::Player => ComponentView::Player,
        Component::Ground => ComponentView::Ground,
        Component::Static => ComponentView::Static,
        Component::Sensor => ComponentView::Sensor,
        Component::AudioListener => ComponentView::AudioListener,
        Component::Camera(c) => ComponentView::Camera(c),
        Component::Model(m) => ComponentView::Model(m.path@),
        Component::Script(s) => ComponentView::Script(s.script_name@),
        Component::AudioSource(a) => ComponentView::AudioSource(
            a.clip@,
            a.volume,
            a.looping,
            a.bus,
            a.mode,
        ),
        Component::SunLight(_) => ComponentView::SunLight,
        Component::SkySettings(_) => ComponentView::SkySettings,
    }
}

/// A decoded component record: a component, a template name, or a record of
/// a type this library does not know (skipped).
pub enum MapComponent {
    Value(Component),
    EntityType(String),
    Unknown(u32),
}

/// What a component record decodes to.
pub ghost enum MapComponentView {
    Value(ComponentView),
    EntityType(Seq<char>),
    Unknown(u32),
}

impl View for MapComponent {
    type V = MapComponentView;

    open spec fn view(&self) -> MapComponentView {
        match self {
            MapComponent::Value(c) => MapComponentView::Value(component_view(*c)),
            MapComponent::EntityType(s) => MapComponentView::EntityType(s@),
            MapComponent::Unknown(t) => MapComponentView::Unknown(*t),
        }
    }
}

// --- Encoding -------------------------------------------------------------------------

/// A string: its UTF-8 length as `u32`, then its UTF-8 bytes.
pub open spec fn str_bytes(s: Seq<char>) -> Seq<u8> {
    le32(encode_utf8(s).len() as u32) + encode_utf8(s)
}

pub open spec fn vec3_bytes(v: Vec3Bits) -> Seq<u8> {
    le32(v.x) + le32(v.y) + le32(v.z)
}

pub open spec fn quat_bytes(q: QuatBits) -> Seq<u8> {
    le32(q.x) + le32(q.y) + le32(q.z) + le32(q.w)
}

pub open spec fn camera_mode_code(m: CameraMode) -> u8 {
    match m {
        CameraMode::ThirdPerson => 0,
        CameraMode::FirstPerson => 1,
        CameraMode::FreeLook => 2,
    }
}

pub open spec fn bus_code(b: BusType) -> u8 {
    match b {
        BusType::Sfx => 0,
        BusType::Music => 1,
        BusType::Voice => 2,
    }
}

pub open spec fn play_mode_code(m: PlayMode) -> u8 {
    match m {
        PlayMode::Buffered => 0,
        PlayMode::Streaming => 1,
    }
}

/// The record of a component: type id, version and data. Sun-light and sky
/// settings have no record in the format.
pub open spec fn component_record(c: ComponentView) -> Option<(u32, u32, Seq<u8>)> {
    match c {
        ComponentView::Transform(t) => Some(
            (
                TRANSFORM_ID,
                TRANSFORM_VERSION,
                vec3_bytes(t.position) + quat_bytes(t.rotation) + vec3_bytes(t.scale),
            ),
        ),
        ComponentView::Velocity(v) => Some((VELOCITY_ID, 1u32, vec3_bytes(v.linear))),
        ComponentView::AngularVelocity(a) => Some((ANGULAR_VEL_ID, 1u32, vec3_bytes(a.radians))),
        ComponentView::RigidBody(r) => Some(
            (RIGID_BODY_ID, 1u32, le32(r.mass) + le32(r.restitution) + le32(r.angular_damping)),
        ),
        ComponentView::Collider(c) => Some((COLLIDER_ID, 1u32, vec3_bytes(c.half_extents))),
        ComponentView::Color(rgba) => Some(
            (COLOR_ID, 1u32, le32(rgba[0]) + le32(rgba[1]) + le32(rgba[2]) + le32(rgba[3])),
        ),
        ComponentView::Player => Some((PLAYER_ID, 1u32, Seq::empty())),
        ComponentView::Ground => Some((GROUND_ID, 1u32, Seq::empty())),
        ComponentView::Static => Some((STATIC_ID, 1u32, Seq::empty())),
        ComponentView::Sensor => Some((SENSOR_ID, 1u32, Seq::empty())),
        ComponentView::AudioListener => Some((AUDIO_LISTENER_ID, 1u32, Seq::empty())),
        ComponentView::Camera(c) => Some(
            (
                CAMERA_ID,
                1u32,
                seq![camera_mode_code(c.mode)] + le32(c.yaw) + le32(c.pitch) + le32(c.distance)
                    + le32(c.height),
            ),
        ),
        ComponentView::Model(p) => Some((MODEL_ID, 1u32, str_bytes(p))),
        ComponentView::Script(s) => Some((SCRIPT_ID, 1u32, str_bytes(s))),
        ComponentView::AudioSource(clip, volume, looping, bus, mode) => Some(
            (
                AUDIO_SOURCE_ID,
                1u32,
                str_bytes(clip) + le32(volume) + seq![
                    if looping {
                        1u8
                    } else {
                        0u8
                    },
                ] + seq![bus_code(bus)] + seq![play_mode_code(mode)],
            ),
        ),
        ComponentView::SunLight => None,
        ComponentView::SkySettings => None,
    }
}

/// The record of a template name.
pub open spec fn entity_type_record(name: Seq<char>) -> (u32, u32, Seq<u8>) {
    (ENTITY_TYPE_ID, 1u32, str_bytes(name))
}

pub(crate) fn push_str(out: &mut Vec<u8>, s: &str)
    ensures
        final(out)@ == old(out)@ + str_bytes(s@),
{
    let b = s.as_bytes();
    push_le32(out, b.len() as u32);
    append_bytes(out, b);
}

fn push_vec3(out: &mut Vec<u8>, v: Vec3Bits)
    ensures
        final(out)@ == old(out)@ + vec3_bytes(v),
{
    push_le32(out, v.x);
    push_le32(out, v.y);
    push_le32(out, v.z);
    proof {
        assert(final(out)@ =~= old(out)@ + vec3_bytes(v));
    }
}

/// Every string a component holds fits the format's 32-bit length field.
pub open spec fn strings_fit(c: ComponentView) -> bool {
    match c {
        ComponentView::Model(p) => encode_utf8(p).len() <= u32::MAX,
        ComponentView::Script(s) => encode_utf8(s).len() <= u32::MAX,
        ComponentView::AudioSource(clip, _, _, _, _) => encode_utf8(clip).len() <= u32::MAX,
        _ => true,
    }
}

/// The record of a component, if the format carries its type.
pub fn encode_component(c: &Component) -> (r: Option<(u32, u32, Vec<u8>)>)
    ensures
        match r {
            Some((t, v, d)) => component_record(component_view(*c)) == Some((t, v, d@)),
            None => component_record(component_view(*c)) is None,
        },
{
    let mut d: Vec<u8> = Vec::new();
    match c {
        Component::Transform(t) => {
            push_vec3(&mut d, t.position);
            push_le32(&mut d, t.rotation.x);
            push_le32(&mut d, t.rotation.y);
            push_le32(&mut d, t.rotation.z);
            push_le32(&mut d, t.rotation.w);
            push_vec3(&mut d, t.scale);
            proof {
                assert(d@ =~= vec3_bytes(t.position) + quat_bytes(t.rotation) + vec3_bytes(t.scale));
            }
            Some((TRANSFORM_ID, TRANSFORM_VERSION, d))
        },
        Component::Velocity(v) => {
            push_vec3(&mut d, v.linear);
            proof {
                assert(d@ =~= vec3_bytes(v.linear));
            }
            Some((VELOCITY_ID, 1, d))
        },
        Component::AngularVelocity(a) => {
            push_vec3(&mut d, a.radians);
            proof {
                assert(d@ =~= vec3_bytes(a.radians));
            }
            Some((ANGULAR_VEL_ID, 1, d))
        },
        Component::RigidBody(r) => {
            push_le32(&mut d, r.mass);
            push_le32(&mut d, r.restitution);
            push_le32(&mut d, r.angular_damping);
            proof {
                assert(d@ =~= le32(r.mass) + le32(r.restitution) + le32(r.angular_damping));
            }
            Some((RIGID_BODY_ID, 1, d))
        },
        Component::Collider(col) => {
            push_vec3(&mut d, col.half_extents);
            proof {
                assert(d@ =~= vec3_bytes(col.half_extents));
            }
            Some((COLLIDER_ID, 1, d))
        },
        Component::Color(col) => {
            push_le32(&mut d, col.rgba[0]);
            push_le32(&mut d, col.rgba[1]);
            push_le32(&mut d, col.rgba[2]);
            push_le32(&mut d, col.rgba[3]);
            proof {
                assert(d@ =~= le32(col.rgba@[0]) + le32(col.rgba@[1]) + le32(col.rgba@[2]) + le32(
                    col.rgba@[3],
                ));
            }
            Some((COLOR_ID, 1, d))
        },
        Component::Player => Some((PLAYER_ID, 1, d)),
        Component::Ground => Some((GROUND_ID, 1, d)),
        Component::Static => Some((STATIC_ID, 1, d)),
        Component::Sensor => Some((SENSOR_ID, 1, d)),
        Component::AudioListener => Some((AUDIO_LISTENER_ID, 1, d)),
        Component::Camera(cam) => {
            let code: u8 = match cam.mode {
                CameraMode::ThirdPerson => 0,
                CameraMode::FirstPerson => 1,
                CameraMode::FreeLook => 2,
            };
            d.push(code);
            push_le32(&mut d, cam.yaw);
            push_le32(&mut d, cam.pitch);
            push_le32(&mut d, cam.distance);
            push_le32(&mut d, cam.height);
            proof {
                assert(d@ =~= seq![camera_mode_code(cam.mode)] + le32(cam.yaw) + le32(cam.pitch)
                    + le32(cam.distance) + le32(cam.height));
            }
            Some((CAMERA_ID, 1, d))
        },
        Component::Model(m) => {
            push_str(&mut d, m.path.as_str());
            proof {
                assert(d@ =~= str_bytes(m.path@));
            }
            Some((MODEL_ID, 1, d))
        },
        Component::Script(s) => {
            push_str(&mut d, s.script_name.as_str());
            proof {
                assert(d@ =~= str_bytes(s.script_name@));
            }
            Some((SCRIPT_ID, 1, d))
        },
        Component::AudioSource(a) => {
            push_str(&mut d, a.clip.as_str());
            push_le32(&mut d, a.volume);
            d.push(if a.looping { 1u8 } else { 0u8 });
            let bus: u8 = match a.bus {
                BusType::Sfx => 0,
                BusType::Music => 1,
                BusType::Voice => 2,
            };
            d.push(bus);
            let mode: u8 = match a.mode {
                PlayMode::Buffered => 0,
                PlayMode::Streaming => 1,
            };
            d.push(mode);
            proof {
                assert(d@ =~= str_bytes(a.clip@) + le32(a.volume) + seq![
                    if a.looping {
                        1u8
                    } else {
                        0u8
                    },
                ] + seq![bus_code(a.bus)] + seq![play_mode_code(a.mode)]);
            }
            Some((AUDIO_SOURCE_ID, 1, d))
        },
        Component::SunLight(_) => None,
        Component::SkySettings(_) => None,
    }
}

// --- Decoding ---------------------------------------------------------------------------

/// A string at position `p`: a `u32` length and that many UTF-8 bytes; with
/// the position after it.
pub open spec fn str_at(d: Seq<u8>, p: int) -> Result<(Seq<char>, int), WmapError> {
    if p < 0 || p + 4 > d.len() {
        Err(WmapError::UnexpectedEnd)
    } else {
        let n = u32_at(d, p) as int;
        if p + 4 + n > d.len() {
            Err(WmapError::UnexpectedEnd)
        } else {
            let b = d.subrange(p + 4, p + 4 + n);
            if vstd::utf8::valid_utf8(b) {
                Ok((vstd::utf8::decode_utf8(b), p + 4 + n))
            } else {
                Err(WmapError::InvalidUtf8)
            }
        }
    }
}

pub open spec fn vec3_at(d: Seq<u8>, p: int) -> Vec3Bits {
    Vec3Bits { x: u32_at(d, p), y: u32_at(d, p + 4), z: u32_at(d, p + 8) }
}

pub open spec fn camera_mode_from_code(b: u8) -> CameraMode {
    if b == 1 {
        CameraMode::FirstPerson
    } else if b == 2 {
        CameraMode::FreeLook
    } else {
        CameraMode::ThirdPerson
    }
}

pub open spec fn bus_from_code(b: u8) -> BusType {
    if b == 1 {
        BusType::Music
    } else if b == 2 {
        BusType::Voice
    } else {
        BusType::Sfx
    }
}

pub open spec fn play_mode_from_code(b: u8) -> PlayMode {
    if b == 1 {
        PlayMode::Streaming
    } else {
        PlayMode::Buffered
    }
}

/// What the data of a record of type `type_id` and version `version`
/// decodes to. Version 1 transforms have no scale and read as unit scale;
/// unknown types are skipped.
pub open spec fn decode_record(type_id: u32, version: u32, d: Seq<u8>) -> Result<
    MapComponentView,
    WmapError,
> {
    if type_id == TRANSFORM_ID {
        if d.len() < (if version >= 2 {
            40int
        } else {
            28int
        }) {
            Err(WmapError::UnexpectedEnd)
        } else {
            Ok(
                MapComponentView::Value(
                    ComponentView::Transform(
                        Transform3D {
                            position: vec3_at(d, 0),
                            rotation: QuatBits {
                                x: u32_at(d, 12),
                                y: u32_at(d, 16),
                                z: u32_at(d, 20),
                                w: u32_at(d, 24),
                            },
                            scale: if version >= 2 {
                                vec3_at(d, 28)
                            } else {
                                Vec3Bits { x: F32_ONE, y: F32_ONE, z: F32_ONE }
                            },
                        },
                    ),
                ),
            )
        }
    } else if type_id == VELOCITY_ID || type_id == ANGULAR_VEL_ID || type_id == COLLIDER_ID {
        if d.len() < 12 {
            Err(WmapError::UnexpectedEnd)
        } else if type_id == VELOCITY_ID {
            Ok(MapComponentView::Value(ComponentView::Velocity(Velocity3D { linear: vec3_at(d, 0) })))
        } else if type_id == ANGULAR_VEL_ID {
            Ok(
                MapComponentView::Value(
                    ComponentView::AngularVelocity(AngularVelocity { radians: vec3_at(d, 0) }),
                ),
            )
        } else {
            Ok(
                MapComponentView::Value(
                    ComponentView::Collider(Collider { half_extents: vec3_at(d, 0) }),
                ),
            )
        }
    } else if type_id == RIGID_BODY_ID {
        if d.len() < 12 {
            Err(WmapError::UnexpectedEnd)
        } else {
            Ok(
                MapComponentView::Value(
                    ComponentView::RigidBody(
                        RigidBody {
                            mass: u32_at(d, 0),
                            restitution: u32_at(d, 4),
                            angular_damping: u32_at(d, 8),
                        },
                    ),
                ),
            )
        }
    } else if type_id == COLOR_ID {
        if d.len() < 16 {
            Err(WmapError::UnexpectedEnd)
        } else {
            Ok(
                MapComponentView::Value(
                    ComponentView::Color(
                        seq![u32_at(d, 0), u32_at(d, 4), u32_at(d, 8), u32_at(d, 12)],
                    ),
                ),
            )
        }
    } else if type_id == PLAYER_ID {
        Ok(MapComponentView::Value(ComponentView::Player))
    } else if type_id == GROUND_ID {
        Ok(MapComponentView::Value(ComponentView::Ground))
    } else if type_id == STATIC_ID {
        Ok(MapComponentView::Value(ComponentView::Static))
    } else if type_id == SENSOR_ID {
        Ok(MapComponentView::Value(ComponentView::Sensor))
    } else if type_id == AUDIO_LISTENER_ID {
        Ok(MapComponentView::Value(ComponentView::AudioListener))
    } else if type_id == CAMERA_ID {
        if d.len() < 17 {
            Err(WmapError::UnexpectedEnd)
        } else {
            Ok(
                MapComponentView::Value(
                    ComponentView::Camera(
                        Camera {
                            mode: camera_mode_from_code(d[0]),
                            yaw: u32_at(d, 1),
                            pitch: u32_at(d, 5),
                            distance: u32_at(d, 9),
                            height: u32_at(d, 13),
                        },
                    ),
                ),
            )
        }
    } else if type_id == MODEL_ID || type_id == SCRIPT_ID || type_id == ENTITY_TYPE_ID {
        match str_at(d, 0) {
            Err(e) => Err(e),
            Ok((s, _)) => Ok(
                if type_id == MODEL_ID {
                    MapComponentView::Value(ComponentView::Model(s))
                } else if type_id == SCRIPT_ID {
                    MapComponentView::Value(ComponentView::Script(s))
                } else {
                    MapComponentView::EntityType(s)
                },
            ),
        }
    } else if type_id == AUDIO_SOURCE_ID {
        match str_at(d, 0) {
            Err(e) => Err(e),
            Ok((clip, p)) => if p + 7 > d.len() {
                Err(WmapError::UnexpectedEnd)
            } else {
                Ok(
                    MapComponentView::Value(
                        ComponentView::AudioSource(
                            clip,
                            u32_at(d, p),
                            d[p + 4] != 0,
                            bus_from_code(d[p + 5]),
                            play_mode_from_code(d[p + 6]),
                        ),
                    ),
                )
            },
        }
    } else {
        Ok(MapComponentView::Unknown(type_id))
    }
}

fn read_str(d: &[u8], p: usize) -> (r: Result<(String, usize), WmapError>)
    requires
        p <= d@.len(),
    ensures
        match r {
            Ok((s, q)) => str_at(d@, p as int) == Ok::<(Seq<char>, int), WmapError>((s@, q as int)),
            Err(e) => str_at(d@, p as int) == Err::<(Seq<char>, int), WmapError>(e),
        },
{
    let len = d.len();
    if len - p < 4 {
        return Err(WmapError::UnexpectedEnd);
    }
    let n = read_u32(d, p) as usize;
    if len - p - 4 < n {
        return Err(WmapError::UnexpectedEnd);
    }
    let b = vstd::slice::slice_subrange(d, p + 4, p + 4 + n);
    match utf8_to_string(b) {
        Some(s) => {
            proof {
                vstd::utf8::encode_utf8_decode_utf8(s@);
            }
            Ok((s, p + 4 + n))
        },
        None => Err(WmapError::InvalidUtf8),
    }
}

fn read_vec3(d: &[u8], p: usize) -> (v: Vec3Bits)
    requires
        p + 12 <= d@.len(),
    ensures
        v == vec3_at(d@, p as int),
{
    let _len = d.len();
    Vec3Bits { x: read_u32(d, p), y: read_u32(d, p + 4), z: read_u32(d, p + 8) }
}

/// Decode the data of a component record.
pub fn decode_component(type_id: u32, version: u32, d: &[u8]) -> (r: Result<
    MapComponent,
    WmapError,
>)
    ensures
        match r {
            Ok(m) => decode_record(type_id, version, d@) == Ok::<MapComponentView, WmapError>(m@),
            Err(e) => decode_record(type_id, version, d@) == Err::<MapComponentView, WmapError>(e),
        },
{
    let len = d.len();
    if type_id == TRANSFORM_ID {
        let need: usize = if version >= 2 { 40 } else { 28 };
        if len < need {
            return Err(WmapError::UnexpectedEnd);
        }
        let position = read_vec3(d, 0);
        let rotation = QuatBits {
            x: read_u32(d, 12),
            y: read_u32(d, 16),
            z: read_u32(d, 20),
            w: read_u32(d, 24),
        };
        let scale = if version >= 2 {
            read_vec3(d, 28)
        } else {
            Vec3Bits { x: F32_ONE, y: F32_ONE, z: F32_ONE }
        };
        Ok(MapComponent::Value(Component::Transform(Transform3D { position, rotation, scale })))
    } else if type_id == VELOCITY_ID || type_id == ANGULAR_VEL_ID || type_id == COLLIDER_ID {
        if len < 12 {
            return Err(WmapError::UnexpectedEnd);
        }
        let v = read_vec3(d, 0);
        if type_id == VELOCITY_ID {
            Ok(MapComponent::Value(Component::Velocity(Velocity3D { linear: v })))
        } else if type_id == ANGULAR_VEL_ID {
            Ok(MapComponent::Value(Component::AngularVelocity(AngularVelocity { radians: v })))
        } else {
            Ok(MapComponent::Value(Component::Collider(Collider { half_extents: v })))
        }
    } else if type_id == RIGID_BODY_ID {
        if len < 12 {
            return Err(WmapError::UnexpectedEnd);
        }
        Ok(
            MapComponent::Value(
                Component::RigidBody(
                    RigidBody {
                        mass: read_u32(d, 0),
                        restitution: read_u32(d, 4),
                        angular_damping: read_u32(d, 8),
                    },
                ),
            ),
        )
    } else if type_id == COLOR_ID {
        if len < 16 {
            return Err(WmapError::UnexpectedEnd);
        }
        let rgba: [u32; 4] = [read_u32(d, 0), read_u32(d, 4), read_u32(d, 8), read_u32(d, 12)];
        proof {
            assert(rgba@ =~= seq![u32_at(d@, 0), u32_at(d@, 4), u32_at(d@, 8), u32_at(d@, 12)]);
        }
        Ok(MapComponent::Value(Component::Color(Color { rgba })))
    } else if type_id == PLAYER_ID {
        Ok(MapComponent::Value(Component::Player))
    } else if type_id == GROUND_ID {
        Ok(MapComponent::Value(Component::Ground))
    } else if type_id == STATIC_ID {
        Ok(MapComponent::Value(Component::Static))
    } else if type_id == SENSOR_ID {
        Ok(MapComponent::Value(Component::Sensor))
    } else if type_id == AUDIO_LISTENER_ID {
        Ok(MapComponent::Value(Component::AudioListener))
    } else if type_id == CAMERA_ID {
        if len < 17 {
            return Err(WmapError::UnexpectedEnd);
        }
        let mode = match d[0] {
            1 => CameraMode::FirstPerson,
            2 => CameraMode::FreeLook,
            _ => CameraMode::ThirdPerson,
        };
        Ok(
            MapComponent::Value(
                Component::Camera(
                    Camera {
                        mode,
                        yaw: read_u32(d, 1),
                        pitch: read_u32(d, 5),
                        distance: read_u32(d, 9),
                        height: read_u32(d, 13),
                    },
                ),
            ),
        )
    } else if type_id == MODEL_ID || type_id == SCRIPT_ID || type_id == ENTITY_TYPE_ID {
        let (s, _) = match read_str(d, 0) {
            Ok(x) => x,
            Err(e) => {
                return Err(e);
            },
        };
        if type_id == MODEL_ID {
            Ok(MapComponent::Value(Component::Model(Model { path: s })))
        } else if type_id == SCRIPT_ID {
            Ok(MapComponent::Value(Component::Script(ScriptComponent { script_name: s })))
        } else {
            Ok(MapComponent::EntityType(s))
        }
    } else if type_id == AUDIO_SOURCE_ID {
        let (clip, p) = match read_str(d, 0) {
            Ok(x) => x,
            Err(e) => {
                return Err(e);
            },
        };
        if len - p < 7 {
            return Err(WmapError::UnexpectedEnd);
        }
        let volume = read_u32(d, p);
        let looping = d[p + 4] != 0;
        let bus = match d[p + 5] {
            1 => BusType::Music,
            2 => BusType::Voice,
            _ => BusType::Sfx,
        };
        let mode = match d[p + 6] {
            1 => PlayMode::Streaming,
            _ => PlayMode::Buffered,
        };
        Ok(
            MapComponent::Value(
                Component::AudioSource(AudioSourceComponent { clip, volume, looping, bus, mode }),
            ),
        )
    } else {
        Ok(MapComponent::Unknown(type_id))
    }
}

// --- The codec law ------------------------------------------------------------------------

pub(crate) proof fn lemma_le32_reads()
    ensures
        forall|x: u32| #[trigger] vstd::bytes::spec_u32_from_le_bytes(le32(x)) == x,
        forall|x: u32| #[trigger] le32(x).len() == 4,
{
    vstd::bytes::lemma_auto_spec_u32_to_from_le_bytes();
    assert forall|x: u32| #[trigger] vstd::bytes::spec_u32_from_le_bytes(le32(x)) == x by {
        assert(vstd::bytes::spec_u32_to_le_bytes(x).len() == 4);
    }
}

/// The `u32` at `p` of `a + le32(x) + b`, where `a` has length `p`.
proof fn lemma_u32_in(a: Seq<u8>, x: u32, b: Seq<u8>)
    ensures
        u32_at(a + le32(x) + b, a.len() as int) == x,
{
    lemma_le32_reads();
    assert((a + le32(x) + b).subrange(a.len() as int, (a.len() + 4) as int) =~= le32(x));
}

/// A string reads back from its encoding followed by anything.
proof fn lemma_str_round_trip(s: Seq<char>, rest: Seq<u8>)
    requires
        encode_utf8(s).len() <= u32::MAX,
    ensures
        str_at(str_bytes(s) + rest, 0) == Ok::<(Seq<char>, int), WmapError>(
            (s, (4 + encode_utf8(s).len()) as int),
        ),
{
    let enc = encode_utf8(s);
    let d = str_bytes(s) + rest;
    lemma_le32_reads();
    lemma_u32_in(Seq::empty(), enc.len() as u32, enc + rest);
    assert(Seq::<u8>::empty() + le32(enc.len() as u32) + (enc + rest) =~= d);
    assert(d.subrange(4, (4 + enc.len()) as int) =~= enc);
    vstd::utf8::encode_utf8_valid_utf8(s);
    vstd::utf8::encode_utf8_decode_utf8(s);
}

/// Decoding a template-name record gives the name back.
pub proof fn lemma_entity_type_codec(name: Seq<char>)
    requires
        encode_utf8(name).len() <= u32::MAX,
    ensures
        decode_record(entity_type_record(name).0, entity_type_record(name).1, entity_type_record(name).2)
            == Ok::<MapComponentView, WmapError>(MapComponentView::EntityType(name)),
{
    lemma_str_round_trip(name, Seq::empty());
    assert(str_bytes(name) + Seq::<u8>::empty() =~= str_bytes(name));
}

/// Decoding a component's record gives the component back (sun light and
/// sky settings have no record); strings must fit the 32-bit length field.
pub proof fn lemma_component_codec(c: Component)
    requires
        strings_fit(component_view(c)),
    ensures
        match component_record(component_view(c)) {
            Some((t, v, d)) => decode_record(t, v, d) == Ok::<MapComponentView, WmapError>(
                MapComponentView::Value(component_view(c)),
            ),
            None => c is SunLight || c is SkySettings,
        },
{
    let e = Seq::<u8>::empty();
    match c {
        Component::Transform(t) => {
            lemma_transform_codec(t);
        },
        Component::Velocity(v) => {
            lemma_vec3_reads(v.linear);
        },
        Component::AngularVelocity(a) => {
            lemma_vec3_reads(a.radians);
        },
        Component::Collider(col) => {
            lemma_vec3_reads(col.half_extents);
        },
        Component::RigidBody(r) => {
            lemma_vec3_reads(Vec3Bits { x: r.mass, y: r.restitution, z: r.angular_damping });
        },
        Component::Color(col) => {
            lemma_color_codec(col);
        },
        Component::Camera(cam) => {
            lemma_camera_codec(cam);
        },
        Component::Model(mo) => {
            lemma_str_round_trip(mo.path@, e);
            assert(str_bytes(mo.path@) + e =~= str_bytes(mo.path@));
        },
        Component::Script(sc) => {
            lemma_str_round_trip(sc.script_name@, e);
            assert(str_bytes(sc.script_name@) + e =~= str_bytes(sc.script_name@));
        },
        Component::AudioSource(a) => {
            lemma_audio_source_codec(a);
        },
        _ => {},
    }
}

proof fn lemma_transform_codec(t: Transform3D)
    ensures
        decode_record(TRANSFORM_ID, TRANSFORM_VERSION, vec3_bytes(t.position) + quat_bytes(t.rotation) + vec3_bytes(t.scale))
            == Ok::<MapComponentView, WmapError>(MapComponentView::Value(ComponentView::Transform(t))),
{
    lemma_le32_reads();
    let e = Seq::<u8>::empty();
        let d = vec3_bytes(t.position) + quat_bytes(t.rotation) + vec3_bytes(t.scale);
        let p = t.position;
        let q = t.rotation;
        let sc = t.scale;
        assert(d =~= e + le32(p.x) + (le32(p.y) + le32(p.z) + quat_bytes(q) + vec3_bytes(sc)));
        lemma_u32_in(e, p.x, le32(p.y) + le32(p.z) + quat_bytes(q) + vec3_bytes(sc));
        assert(d =~= le32(p.x) + le32(p.y) + (le32(p.z) + quat_bytes(q) + vec3_bytes(sc)));
        lemma_u32_in(le32(p.x), p.y, le32(p.z) + quat_bytes(q) + vec3_bytes(sc));
        assert(d =~= (le32(p.x) + le32(p.y)) + le32(p.z) + (quat_bytes(q) + vec3_bytes(sc)));
        lemma_u32_in(le32(p.x) + le32(p.y), p.z, quat_bytes(q) + vec3_bytes(sc));
        let a3 = vec3_bytes(p);
        assert(d =~= a3 + le32(q.x) + (le32(q.y) + le32(q.z) + le32(q.w) + vec3_bytes(sc)));
        lemma_u32_in(a3, q.x, le32(q.y) + le32(q.z) + le32(q.w) + vec3_bytes(sc));
        assert(d =~= (a3 + le32(q.x)) + le32(q.y) + (le32(q.z) + le32(q.w) + vec3_bytes(sc)));
        lemma_u32_in(a3 + le32(q.x), q.y, le32(q.z) + le32(q.w) + vec3_bytes(sc));
        assert(d =~= (a3 + le32(q.x) + le32(q.y)) + le32(q.z) + (le32(q.w) + vec3_bytes(sc)));
        lemma_u32_in(a3 + le32(q.x) + le32(q.y), q.z, le32(q.w) + vec3_bytes(sc));
        assert(d =~= (a3 + le32(q.x) + le32(q.y) + le32(q.z)) + le32(q.w) + vec3_bytes(sc));
        lemma_u32_in(a3 + le32(q.x) + le32(q.y) + le32(q.z), q.w, vec3_bytes(sc));
        let a7 = a3 + quat_bytes(q);
        assert(d =~= a7 + le32(sc.x) + (le32(sc.y) + le32(sc.z)));
        lemma_u32_in(a7, sc.x, le32(sc.y) + le32(sc.z));
        assert(d =~= (a7 + le32(sc.x)) + le32(sc.y) + le32(sc.z));
        lemma_u32_in(a7 + le32(sc.x), sc.y, le32(sc.z));
        assert(d =~= (a7 + le32(sc.x) + le32(sc.y)) + le32(sc.z) + e);
        lemma_u32_in(a7 + le32(sc.x) + le32(sc.y), sc.z, e);
}

proof fn lemma_color_codec(col: Color)
    ensures
        decode_record(COLOR_ID, 1, le32(col.rgba@[0]) + le32(col.rgba@[1]) + le32(col.rgba@[2]) + le32(col.rgba@[3]))
            == Ok::<MapComponentView, WmapError>(MapComponentView::Value(ComponentView::Color(col.rgba@))),
{
    lemma_le32_reads();
    let e = Seq::<u8>::empty();
        let g = col.rgba@;
        let d = le32(g[0]) + le32(g[1]) + le32(g[2]) + le32(g[3]);
        lemma_u32_in(e, g[0], le32(g[1]) + le32(g[2]) + le32(g[3]));
        assert(d =~= e + le32(g[0]) + (le32(g[1]) + le32(g[2]) + le32(g[3])));
        lemma_u32_in(le32(g[0]), g[1], le32(g[2]) + le32(g[3]));
        assert(d =~= le32(g[0]) + le32(g[1]) + (le32(g[2]) + le32(g[3])));
        lemma_u32_in(le32(g[0]) + le32(g[1]), g[2], le32(g[3]));
        assert(d =~= (le32(g[0]) + le32(g[1])) + le32(g[2]) + le32(g[3]));
        lemma_u32_in(le32(g[0]) + le32(g[1]) + le32(g[2]), g[3], e);
        assert(d =~= (le32(g[0]) + le32(g[1]) + le32(g[2])) + le32(g[3]) + e);
        assert(seq![u32_at(d, 0), u32_at(d, 4), u32_at(d, 8), u32_at(d, 12)] =~= g);
}

proof fn lemma_camera_codec(cam: Camera)
    ensures
        decode_record(CAMERA_ID, 1, seq![camera_mode_code(cam.mode)] + le32(cam.yaw) + le32(cam.pitch) + le32(cam.distance) + le32(cam.height))
            == Ok::<MapComponentView, WmapError>(MapComponentView::Value(ComponentView::Camera(cam))),
{
    lemma_le32_reads();
    let e = Seq::<u8>::empty();
        let m = seq![camera_mode_code(cam.mode)];
        let d = m + le32(cam.yaw) + le32(cam.pitch) + le32(cam.distance) + le32(cam.height);
        lemma_u32_in(m, cam.yaw, le32(cam.pitch) + le32(cam.distance) + le32(cam.height));
        assert(d =~= m + le32(cam.yaw) + (le32(cam.pitch) + le32(cam.distance) + le32(cam.height)));
        lemma_u32_in(m + le32(cam.yaw), cam.pitch, le32(cam.distance) + le32(cam.height));
        assert(d =~= (m + le32(cam.yaw)) + le32(cam.pitch) + (le32(cam.distance) + le32(cam.height)));
        lemma_u32_in(m + le32(cam.yaw) + le32(cam.pitch), cam.distance, le32(cam.height));
        assert(d =~= (m + le32(cam.yaw) + le32(cam.pitch)) + le32(cam.distance) + le32(cam.height));
        lemma_u32_in(m + le32(cam.yaw) + le32(cam.pitch) + le32(cam.distance), cam.height, e);
        assert(d =~= (m + le32(cam.yaw) + le32(cam.pitch) + le32(cam.distance)) + le32(cam.height) + e);
        assert(d[0] == camera_mode_code(cam.mode));
        assert(camera_mode_from_code(camera_mode_code(cam.mode)) == cam.mode);
}

proof fn lemma_audio_source_codec(a: AudioSourceComponent)
    requires
        encode_utf8(a.clip@).len() <= u32::MAX,
    ensures
        component_record(component_view(Component::AudioSource(a))) matches Some((t, v, d)) && decode_record(t, v, d)
            == Ok::<MapComponentView, WmapError>(MapComponentView::Value(component_view(Component::AudioSource(a)))),
{
    lemma_le32_reads();
        let lb = seq![
            if a.looping {
                1u8
            } else {
                0u8
            },
        ];
        let tail = le32(a.volume) + lb + seq![bus_code(a.bus)] + seq![play_mode_code(a.mode)];
        let d = str_bytes(a.clip@) + le32(a.volume) + lb + seq![bus_code(a.bus)] + seq![
            play_mode_code(a.mode),
        ];
        assert(d =~= str_bytes(a.clip@) + tail);
        lemma_str_round_trip(a.clip@, tail);
        let p: int = (4 + encode_utf8(a.clip@).len()) as int;
        assert(str_bytes(a.clip@).len() == p);
        lemma_u32_in(str_bytes(a.clip@), a.volume, lb + seq![bus_code(a.bus)] + seq![play_mode_code(a.mode)]);
        assert(d =~= str_bytes(a.clip@) + le32(a.volume) + (lb + seq![bus_code(a.bus)] + seq![play_mode_code(a.mode)]));
        assert(d[p + 4] == lb[0]);
        assert(d[p + 5] == bus_code(a.bus));
        assert(d[p + 6] == play_mode_code(a.mode));
        assert(bus_from_code(bus_code(a.bus)) == a.bus);
        assert(play_mode_from_code(play_mode_code(a.mode)) == a.mode);
}

proof fn lemma_vec3_reads(v: Vec3Bits)
    ensures
        vec3_bytes(v).len() == 12,
        vec3_at(vec3_bytes(v), 0) == v,
        u32_at(vec3_bytes(v), 0) == v.x,
        u32_at(vec3_bytes(v), 4) == v.y,
        u32_at(vec3_bytes(v), 8) == v.z,
{
    lemma_le32_reads();
    let e = Seq::<u8>::empty();
    let d = vec3_bytes(v);
    lemma_u32_in(e, v.x, le32(v.y) + le32(v.z));
    assert(d =~= e + le32(v.x) + (le32(v.y) + le32(v.z)));
    lemma_u32_in(le32(v.x), v.y, le32(v.z));
    assert(d =~= le32(v.x) + le32(v.y) + le32(v.z));
    lemma_u32_in(le32(v.x) + le32(v.y), v.z, e);
    assert(d =~= (le32(v.x) + le32(v.y)) + le32(v.z) + e);
}

} // verus!
