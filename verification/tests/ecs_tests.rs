use waraner_client::components::{
    Color, Component, QuatBits, RigidBody, Transform3D, Vec3Bits, Velocity3D, COLOR_ID, GROUND_ID,
    RIGID_BODY_ID, TRANSFORM_ID, VELOCITY_ID,
};
use waraner_client::ecs::{Entity, World};

fn v3(x: f32, y: f32, z: f32) -> Vec3Bits {
    Vec3Bits { x: x.to_bits(), y: y.to_bits(), z: z.to_bits() }
}

fn identity() -> QuatBits {
    QuatBits { x: 0.0f32.to_bits(), y: 0.0f32.to_bits(), z: 0.0f32.to_bits(), w: 1.0f32.to_bits() }
}

fn transform_of(w: &World<Component>, e: Entity) -> Option<Transform3D> {
    match w.get_component(e, TRANSFORM_ID) {
        Some(Component::Transform(t)) => Some(*t),
        _ => None,
    }
}

#[test]
fn test_spawn_and_get_transform() {
    let mut world: World<Component> = World::new();
    let e = world.spawn();
    world.attach(
        e,
        Component::Transform(Transform3D {
            position: v3(1.0, 2.0, 3.0),
            rotation: identity(),
            scale: v3(1.0, 1.0, 1.0),
        }),
    );
    let t = transform_of(&world, e).unwrap();
    assert_eq!(t.position, v3(1.0, 2.0, 3.0));
}

#[test]
fn test_spawn_and_get_velocity() {
    let mut world: World<Component> = World::new();
    let e = world.spawn();
    world.attach(e, Component::Velocity(Velocity3D { linear: v3(5.0, -3.0, 2.0) }));
    let v = match world.get_component(e, VELOCITY_ID) {
        Some(Component::Velocity(v)) => *v,
        _ => panic!("no velocity"),
    };
    assert_eq!(v.linear, v3(5.0, -3.0, 2.0));
}

#[test]
fn test_migrate_builds_archetype() {
    let mut world: World<Component> = World::new();
    let e = world.spawn();
    world.attach(e, Component::Player);
    world.attach(e, Component::Transform(Transform3D::default()));
    world.attach(e, Component::RigidBody(RigidBody::default()));
    world.attach(e, Component::Collider(Default::default()));
    world.attach(e, Component::Color(Color { rgba: [1.0f32.to_bits(); 4] }));

    assert!(world.get_component(e, TRANSFORM_ID).is_some());
    assert!(world.get_component(e, RIGID_BODY_ID).is_some());
}

#[test]
fn test_query_with() {
    let mut world: World<Component> = World::new();
    let e = world.spawn();
    world.attach(e, Component::Ground);
    world.attach(e, Component::Transform(Transform3D::default()));

    let grounds = world.query().with(GROUND_ID).iter_entities();
    assert_eq!(grounds.len(), 1);
    assert_eq!(grounds[0], e);
}

#[test]
fn test_query_multi_component() {
    let mut world: World<Component> = World::new();
    let e = world.spawn();
    world.attach(e, Component::Ground);
    world.attach(
        e,
        Component::Transform(Transform3D {
            position: v3(0.0, -1.0, 0.0),
            rotation: identity(),
            scale: v3(1.0, 1.0, 1.0),
        }),
    );
    let grey = [0.5f32.to_bits(), 0.5f32.to_bits(), 0.5f32.to_bits(), 1.0f32.to_bits()];
    world.attach(e, Component::Color(Color { rgba: grey }));

    let entities = world.query().with(GROUND_ID).with(TRANSFORM_ID).with(COLOR_ID).iter_entities();
    assert_eq!(entities.len(), 1);
    assert_eq!(entities[0], e);

    let t = transform_of(&world, e).unwrap();
    assert_eq!(t.position, v3(0.0, -1.0, 0.0));
    let c = match world.get_component(e, COLOR_ID) {
        Some(Component::Color(c)) => *c,
        _ => panic!("no color"),
    };
    assert_eq!(c.rgba, grey);
}

#[test]
fn test_multiple_entities_distinct_archetypes() {
    let mut world: World<Component> = World::new();
    let a = world.spawn();
    let b = world.spawn();

    world.attach(a, Component::Transform(Transform3D::default()));
    world.attach(a, Component::Velocity(Velocity3D { linear: v3(0.0, 0.0, 0.0) }));

    world.attach(b, Component::Transform(Transform3D::default()));
    world.attach(b, Component::RigidBody(RigidBody::default()));

    assert!(world.get_component(a, TRANSFORM_ID).is_some());
    assert!(world.get_component(a, VELOCITY_ID).is_some());
    assert!(world.get_component(a, RIGID_BODY_ID).is_none());

    assert!(world.get_component(b, TRANSFORM_ID).is_some());
    assert!(world.get_component(b, RIGID_BODY_ID).is_some());
    assert!(world.get_component(b, VELOCITY_ID).is_none());
}

#[test]
fn test_create_entity_at_stable_id() {
    let mut world: World<Component> = World::new();
    let entity = Entity::new(42, 1);
    world.create_entity_at(entity);
    assert!(world.is_alive(entity));

    world.attach(entity, Component::Transform(Transform3D::default()));
    assert!(world.get_component(entity, TRANSFORM_ID).is_some());
    assert_eq!(world.entities().len(), 1);
}

#[test]
fn test_despawn() {
    let mut world: World<Component> = World::new();
    let e = world.spawn();
    world.attach(e, Component::Transform(Transform3D::default()));
    assert!(world.get_component(e, TRANSFORM_ID).is_some());

    world.despawn(e);
    assert!(world.get_component(e, TRANSFORM_ID).is_none());
    assert_eq!(world.entities().len(), 0);
}

#[test]
fn test_entity_generation() {
    let mut world: World<Component> = World::new();
    let e = world.spawn();
    let gen1 = e.generation;

    world.despawn(e);
    let e2 = world.spawn();
    assert!(e2.generation > gen1 || e2.index != e.index);
}

#[derive(Copy, Clone, Debug, Default, PartialEq)]
struct Health(f32);

const HEALTH_KIND: u32 = 7;

#[test]
fn test_generic_component_api() {
    let mut world: World<Health> = World::new();
    let e = world.spawn();

    world.add_component(e, HEALTH_KIND, Health(100.0));
    assert_eq!(world.get_component(e, HEALTH_KIND), Some(&Health(100.0)));

    if let Some(h) = world.get_component_mut(e, HEALTH_KIND) {
        h.0 = 75.0;
    }
    assert_eq!(world.get_component(e, HEALTH_KIND), Some(&Health(75.0)));

    assert!(world.has_component(e, HEALTH_KIND));
    world.remove_component(e, HEALTH_KIND);
    assert!(!world.has_component(e, HEALTH_KIND));
}

#[test]
fn test_entity_to_u64_roundtrip() {
    let e = Entity::new(12345, 3);
    let raw = e.to_u64();
    let e2 = Entity::from_u64(raw);
    assert_eq!(e, e2);
}

#[test]
fn test_remove_component_migration() {
    let mut world: World<Component> = World::new();
    let e = world.spawn();
    world.attach(e, Component::Transform(Transform3D::default()));
    world.attach(e, Component::RigidBody(RigidBody::default()));

    assert!(world.has_component(e, TRANSFORM_ID));
    assert!(world.has_component(e, RIGID_BODY_ID));

    world.remove_component(e, RIGID_BODY_ID);

    assert!(world.has_component(e, TRANSFORM_ID));
    assert!(!world.has_component(e, RIGID_BODY_ID));
}

#[test]
fn entity_packs_generation_above_index() {
    let e = Entity::new(7, 2);
    assert_eq!(e.to_u64(), (2u64 << 48) | 7);
    assert_eq!(Entity::from_u64((5u64 << 48) | 9), Entity::new(9, 5));
}

#[test]
fn despawned_slot_is_reused_with_bumped_generation() {
    let mut world: World<Component> = World::new();
    let e = world.spawn();
    world.despawn(e);
    assert!(!world.is_alive(e));
    let e2 = world.spawn();
    assert_eq!(e2.index, e.index);
    assert_eq!(e2.generation, e.generation + 1);
    assert!(world.is_alive(e2));
}

#[test]
fn names_and_entity_types() {
    let mut world: World<Component> = World::new();
    let e = world.spawn();
    assert_eq!(world.get_name_or(&e, "none"), "none");
    world.set_name(e, "player");
    assert_eq!(world.get_name(&e).map(|s| s.as_str()), Some("player"));
    world.set_entity_type(e, "info_spawn");
    assert_eq!(world.get_entity_type(e).map(|s| s.as_str()), Some("info_spawn"));
}

#[test]
fn replacing_a_component_keeps_one_value() {
    let mut world: World<Component> = World::new();
    let e = world.spawn();
    world.attach(e, Component::Velocity(Velocity3D { linear: v3(1.0, 1.0, 1.0) }));
    world.attach(e, Component::Velocity(Velocity3D { linear: v3(2.0, 2.0, 2.0) }));
    match world.get_component(e, VELOCITY_ID) {
        Some(Component::Velocity(v)) => assert_eq!(v.linear, v3(2.0, 2.0, 2.0)),
        _ => panic!("no velocity"),
    }
    // The empty archetype the entity was spawned into, and the velocity one.
    assert_eq!(world.archetype_count(), 2);
}
