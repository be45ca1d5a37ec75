use waraner_client::components::{
    Component, CAMERA_ID, COLLIDER_ID, COLOR_ID, MODEL_ID, PLAYER_ID, RIGID_BODY_ID, SCRIPT_ID,
    SENSOR_ID, TRANSFORM_ID,
};
use waraner_client::config::game_config_text;
use waraner_client::scene::{build_world, SceneColor, SceneEntity, SceneTransform};

fn blank() -> SceneEntity {
    SceneEntity {
        name: None,
        entity_type: None,
        transform: None,
        color: None,
        collider: None,
        script: None,
        model: None,
        tags: None,
    }
}

#[test]
fn scene_entities_are_built_in_order() {
    let player = SceneEntity {
        name: Some("player".to_string()),
        transform: Some(SceneTransform {
            position: Some([1.0f32.to_bits(), 2.0f32.to_bits(), 3.0f32.to_bits()]),
            rotation: None,
            scale: None,
        }),
        color: Some(SceneColor { r: 0.5f32.to_bits(), g: 0.0f32.to_bits(), b: 0.0f32.to_bits(), a: None }),
        tags: Some(vec!["Player".to_string(), "Camera".to_string(), "Bogus".to_string()]),
        ..blank()
    };
    let prop = SceneEntity {
        entity_type: Some("prop.physics".to_string()),
        collider: Some([2.0f32.to_bits(); 3]),
        model: Some("crate".to_string()),
        script: Some("door".to_string()),
        ..blank()
    };
    let trigger = SceneEntity { entity_type: Some("trigger.box".to_string()), ..blank() };
    let w = build_world(vec![player, prop, trigger]);
    let es = w.entities();
    assert_eq!(es.len(), 3);
    let p = es.iter().copied().find(|e| w.get_name_or(e, "") == "player").unwrap();
    match w.get_component(p, TRANSFORM_ID) {
        Some(Component::Transform(t)) => {
            assert_eq!(t.position.y, 2.0f32.to_bits());
            assert_eq!(t.scale.x, 1.0f32.to_bits());
            assert_eq!(t.rotation.w, 1.0f32.to_bits());
        },
        _ => panic!("no transform"),
    }
    match w.get_component(p, COLOR_ID) {
        Some(Component::Color(c)) => assert_eq!(c.rgba[3], 1.0f32.to_bits()),
        _ => panic!("no color"),
    }
    assert!(w.has_component(p, PLAYER_ID));
    assert!(w.has_component(p, CAMERA_ID));
    let crate_e = es.iter().copied().find(|e| w.has_component(*e, MODEL_ID)).unwrap();
    assert_eq!(w.get_entity_type(crate_e).map(|s| s.as_str()), Some("prop.physics"));
    assert!(w.has_component(crate_e, RIGID_BODY_ID));
    assert!(w.has_component(crate_e, SCRIPT_ID));
    match w.get_component(crate_e, COLLIDER_ID) {
        Some(Component::Collider(c)) => assert_eq!(c.half_extents.x, 2.0f32.to_bits()),
        _ => panic!("no collider"),
    }
    let t = es.iter().copied().find(|e| w.has_component(*e, SENSOR_ID)).unwrap();
    assert_eq!(w.get_entity_type(t).map(|s| s.as_str()), Some("trigger.box"));
}

#[test]
fn game_config_text_lists_archives() {
    let text = game_config_text("My Game", &["pak_0000.wpak".to_string(), "pak_0001.wpak".to_string()]);
    assert_eq!(
        text,
        "window_title = \"My Game\"\nlog_level = \"info\"\nmain_script = \"main\"\nasset_archives = [\"pak_0000.wpak\", \"pak_0001.wpak\"]\ndata_path = \".\"\n"
    );
    let empty = game_config_text("a\"b", &[]);
    assert_eq!(empty, "window_title = \"a\\\"b\"\nlog_level = \"info\"\nmain_script = \"main\"\nasset_archives = []\ndata_path = \".\"\n");
}
