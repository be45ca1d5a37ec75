use waraner_client::components::{
    Camera, Collider, Color, Component, QuatBits, RigidBody, ScriptComponent, Transform3D, Vec3Bits,
    Velocity3D, ANGULAR_VEL_ID, AUDIO_LISTENER_ID, AUDIO_SOURCE_ID, CAMERA_ID, COLLIDER_ID,
    COLOR_ID, GROUND_ID, MODEL_ID, PLAYER_ID, RIGID_BODY_ID, SCRIPT_ID, SENSOR_ID, STATIC_ID,
    TRANSFORM_ID, VELOCITY_ID,
};
use waraner_client::ecs::{Entity, World};
use waraner_client::wmap::{
    crc32, decode_component, encode_component, MapComponent, WmapError, ENTITY_TYPE_ID,
    TRANSFORM_VERSION,
};
use waraner_client::wmap_file::{decode_wmap, encode_wmap, EntityRecord};
use waraner_client::wmap_world::{read_world_bytes, write_world_bytes};

fn v3(x: f32, y: f32, z: f32) -> Vec3Bits {
    Vec3Bits { x: x.to_bits(), y: y.to_bits(), z: z.to_bits() }
}

fn rgba(r: f32, g: f32, b: f32, a: f32) -> [u32; 4] {
    [r.to_bits(), g.to_bits(), b.to_bits(), a.to_bits()]
}

fn sample_world() -> World<Component> {
    let mut w: World<Component> = World::new();
    let p = w.spawn();
    w.set_name(p, "player");
    w.attach(
        p,
        Component::Transform(Transform3D {
            position: v3(1.0, 2.0, 3.0),
            rotation: QuatBits {
                x: 0.0f32.to_bits(),
                y: 0.0f32.to_bits(),
                z: 0.0f32.to_bits(),
                w: 1.0f32.to_bits(),
            },
            scale: v3(2.0, 2.0, 2.0),
        }),
    );
    w.attach(p, Component::Velocity(Velocity3D { linear: v3(0.5, 0.0, -0.5) }));
    w.attach(
        p,
        Component::RigidBody(RigidBody {
            mass: 75.0f32.to_bits(),
            restitution: 0.1f32.to_bits(),
            angular_damping: 0.9f32.to_bits(),
        }),
    );
    w.attach(p, Component::Collider(Collider { half_extents: v3(0.5, 0.5, 0.5) }));
    w.attach(p, Component::Color(Color { rgba: rgba(1.0, 0.2, 0.3, 1.0) }));
    w.attach(p, Component::Player);
    w.attach(p, Component::Camera(Camera::default()));
    w.attach(p, Component::AudioListener);

    let g = w.spawn();
    w.set_name(g, "ground");
    w.attach(g, Component::Transform(Transform3D::default()));
    w.attach(g, Component::Ground);
    w.attach(g, Component::Static);
    w.attach(g, Component::Collider(Collider { half_extents: v3(5.0, 0.5, 5.0) }));
    w.attach(g, Component::Color(Color { rgba: rgba(0.5, 0.45, 0.35, 1.0) }));

    let s = w.spawn();
    w.attach(s, Component::Transform(Transform3D::default()));
    w.attach(s, Component::Script(ScriptComponent { script_name: "enemy".to_string() }));
    w
}

fn find_named(w: &World<Component>, name: &str) -> Option<Entity> {
    w.entities().into_iter().find(|e| w.get_name_or(e, "") == name)
}

#[test]
fn round_trip_preserves_world() {
    let w = sample_world();
    let bytes = write_world_bytes(&w, 0xDEAD_BEEF);

    let (w2, seed, names) = read_world_bytes(&bytes).expect("read");
    assert_eq!(seed, 0xDEAD_BEEF);
    assert_eq!(w2.entities().len(), 3);

    let p = find_named(&w2, "player").unwrap();
    match w2.get_component(p, TRANSFORM_ID) {
        Some(Component::Transform(t)) => {
            assert_eq!(t.position, v3(1.0, 2.0, 3.0));
            assert_eq!(t.scale, v3(2.0, 2.0, 2.0));
        },
        _ => panic!("no transform"),
    }
    match w2.get_component(p, VELOCITY_ID) {
        Some(Component::Velocity(v)) => assert_eq!(v.linear, v3(0.5, 0.0, -0.5)),
        _ => panic!("no velocity"),
    }
    match w2.get_component(p, RIGID_BODY_ID) {
        Some(Component::RigidBody(rb)) => assert_eq!(rb.mass, 75.0f32.to_bits()),
        _ => panic!("no rigid body"),
    }
    assert!(w2.has_component(p, PLAYER_ID));
    assert!(w2.get_component(p, CAMERA_ID).is_some());
    assert!(w2.has_component(p, AUDIO_LISTENER_ID));
    let _ = names;

    let g = find_named(&w2, "ground").unwrap();
    assert!(w2.has_component(g, GROUND_ID));
    assert!(w2.has_component(g, STATIC_ID));
    match w2.get_component(g, COLLIDER_ID) {
        Some(Component::Collider(c)) => assert_eq!(c.half_extents, v3(5.0, 0.5, 5.0)),
        _ => panic!("no collider"),
    }

    let script_of = |e: &Entity| match w2.get_component(*e, SCRIPT_ID) {
        Some(Component::Script(s)) => Some(s.script_name.clone()),
        _ => None,
    };
    let s = w2
        .entities()
        .into_iter()
        .find(|e| script_of(e).map(|x| x == "enemy").unwrap_or(false))
        .unwrap();
    assert_eq!(script_of(&s).unwrap(), "enemy");
}

#[test]
fn stable_ids_across_load() {
    let w = sample_world();
    let p = find_named(&w, "player").unwrap();
    let saved_id = ((p.generation as u64) << 32) | p.index as u64;

    let bytes = write_world_bytes(&w, 0);
    let (w2, _, _) = read_world_bytes(&bytes).expect("read");
    let p2 = find_named(&w2, "player").unwrap();
    let loaded_id = ((p2.generation as u64) << 32) | p2.index as u64;
    assert_eq!(saved_id, loaded_id);
}

fn put_f32(out: &mut Vec<u8>, v: f32) {
    out.extend_from_slice(&v.to_le_bytes());
}

#[test]
fn v1_transform_migrates_scale() {
    let mut comp = Vec::new();
    put_f32(&mut comp, 9.0);
    put_f32(&mut comp, 8.0);
    put_f32(&mut comp, 7.0);
    put_f32(&mut comp, 0.0);
    put_f32(&mut comp, 0.0);
    put_f32(&mut comp, 0.0);
    put_f32(&mut comp, 1.0);

    let mut w: World<Component> = World::new();
    let e = w.spawn();
    w.create_entity_at(e);
    match decode_component(TRANSFORM_ID, 1, &comp).unwrap() {
        MapComponent::Value(c) => w.attach(e, c),
        _ => panic!("not a component"),
    }

    match w.get_component(e, TRANSFORM_ID) {
        Some(Component::Transform(t)) => {
            assert_eq!(t.position, v3(9.0, 8.0, 7.0));
            assert_eq!(t.scale, v3(1.0, 1.0, 1.0));
        },
        _ => panic!("no transform"),
    }
}

#[test]
fn component_ids_are_crc32_of_type_names() {
    assert_eq!(crc32("Transform3D"), TRANSFORM_ID);
    assert_eq!(crc32("Velocity3D"), VELOCITY_ID);
    assert_eq!(crc32("AngularVelocity"), ANGULAR_VEL_ID);
    assert_eq!(crc32("RigidBody"), RIGID_BODY_ID);
    assert_eq!(crc32("Collider"), COLLIDER_ID);
    assert_eq!(crc32("Color"), COLOR_ID);
    assert_eq!(crc32("Player"), PLAYER_ID);
    assert_eq!(crc32("Ground"), GROUND_ID);
    assert_eq!(crc32("Static"), STATIC_ID);
    assert_eq!(crc32("Sensor"), SENSOR_ID);
    assert_eq!(crc32("AudioListenerComponent"), AUDIO_LISTENER_ID);
    assert_eq!(crc32("Camera"), CAMERA_ID);
    assert_eq!(crc32("Model"), MODEL_ID);
    assert_eq!(crc32("ScriptComponent"), SCRIPT_ID);
    assert_eq!(crc32("AudioSourceComponent"), AUDIO_SOURCE_ID);
    assert_eq!(crc32("EntityType"), ENTITY_TYPE_ID);
    // The standard check value of CRC-32.
    assert_eq!(crc32("123456789"), 0xCBF4_3926);
}

#[test]
fn component_codec_round_trips() {
    let c = Component::Script(ScriptComponent { script_name: "door".to_string() });
    let (id, version, data) = encode_component(&c).unwrap();
    assert_eq!(id, SCRIPT_ID);
    assert_eq!(version, 1);
    assert_eq!(data, vec![4, 0, 0, 0, b'd', b'o', b'o', b'r']);
    match decode_component(id, version, &data).unwrap() {
        MapComponent::Value(Component::Script(s)) => assert_eq!(s.script_name, "door"),
        _ => panic!("wrong component"),
    }
    let t = Component::Transform(Transform3D::default());
    let (id, version, data) = encode_component(&t).unwrap();
    assert_eq!((id, version, data.len()), (TRANSFORM_ID, TRANSFORM_VERSION, 40));
}

#[test]
fn unknown_components_are_kept_as_unknown() {
    match decode_component(0x1234_5678, 1, &[1, 2, 3]).unwrap() {
        MapComponent::Unknown(id) => assert_eq!(id, 0x1234_5678),
        _ => panic!("expected unknown"),
    }
}

#[test]
fn truncated_component_is_an_error() {
    assert_eq!(decode_component(TRANSFORM_ID, 2, &[0u8; 12]).err(), Some(WmapError::UnexpectedEnd));
}

#[test]
fn wmap_file_round_trip_and_errors() {
    let recs = vec![EntityRecord {
        id: 0x0000_0001_0000_0002,
        name: "crate".to_string(),
        components: vec![(COLOR_ID, 1, vec![0u8; 16])],
    }];
    let bytes = encode_wmap(42, &recs);
    let f = decode_wmap(&bytes).unwrap();
    assert_eq!(f.seed, 42);
    assert_eq!(f.entities.len(), 1);
    assert_eq!(f.entities[0].id, 0x0000_0001_0000_0002);
    assert_eq!(f.entities[0].name, "crate");
    assert_eq!(decode_wmap(&bytes[..10]).err(), Some(WmapError::UnexpectedEnd));
    let mut bad = bytes.clone();
    bad[0] = b'X';
    assert_eq!(decode_wmap(&bad).err(), Some(WmapError::BadMagic));
    let mut newer = bytes.clone();
    newer[4] = 2;
    assert_eq!(decode_wmap(&newer).err(), Some(WmapError::UnsupportedVersion(2, 0)));
}

#[test]
fn entity_type_is_saved_and_loaded() {
    let mut w: World<Component> = World::new();
    let e = w.spawn();
    w.set_entity_type(e, "info_spawn");
    let bytes = write_world_bytes(&w, 1);
    let (w2, _, _) = read_world_bytes(&bytes).unwrap();
    assert_eq!(w2.get_entity_type(e).map(|s| s.as_str()), Some("info_spawn"));
}
