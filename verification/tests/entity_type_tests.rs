use waraner_client::components::{
    Component, AUDIO_LISTENER_ID, CAMERA_ID, COLLIDER_ID, PLAYER_ID, RIGID_BODY_ID, SENSOR_ID,
    SUN_LIGHT_ID, TRANSFORM_ID, VELOCITY_ID,
};
use waraner_client::ecs::World;
use waraner_client::entity_types::{apply_type, default_registry, get_template, spawn_type, Recipe};

#[test]
fn default_registry_lookup() {
    let t = get_template("prop.physics").unwrap();
    assert_eq!(t.display_name, "Physics Prop");
    assert_eq!(t.recipe, Recipe::PropPhysics);
    assert!(get_template("prop.unknown").is_none());
}

#[test]
fn categories_are_sorted_and_distinct() {
    let reg = default_registry();
    assert_eq!(reg.categories(), vec!["Environment", "Gameplay", "Props"]);
    let env: Vec<&str> = reg.templates_in_category("Environment").iter().map(|t| t.name).collect();
    assert_eq!(env, vec!["env.sun", "env.sky", "env.fog", "light.point"]);
}

#[test]
fn spawn_type_builds_components() {
    let mut w: World<Component> = World::new();
    let e = spawn_type(&mut w, "info.spawn").unwrap();
    assert_eq!(w.get_entity_type(e).map(|s| s.as_str()), Some("info.spawn"));
    for kind in [TRANSFORM_ID, VELOCITY_ID, RIGID_BODY_ID, COLLIDER_ID, PLAYER_ID, CAMERA_ID, AUDIO_LISTENER_ID] {
        assert!(w.has_component(e, kind));
    }
    assert!(spawn_type(&mut w, "nothing").is_none());
    assert_eq!(w.entities().len(), 1);
}

#[test]
fn apply_type_on_existing_entity() {
    let mut w: World<Component> = World::new();
    let e = w.spawn();
    assert!(apply_type(&mut w, e, "trigger.box"));
    assert!(w.has_component(e, SENSOR_ID));
    assert!(w.has_component(e, COLLIDER_ID));
    assert!(!apply_type(&mut w, e, "bogus"));
    let s = w.spawn();
    assert!(apply_type(&mut w, s, "env.sun"));
    assert!(w.has_component(s, SUN_LIGHT_ID));
}
