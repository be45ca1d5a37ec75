use waraner_client::components::CameraMode;
use waraner_client::input::{click_grabs, key_step, next_camera_mode, CursorAction, GameKey, KeyState};

fn idle() -> KeyState {
    KeyState { forward: false, backward: false, left: false, right: false, jump: false }
}

#[test]
fn movement_keys_set_and_clear_flags() {
    let o = key_step(idle(), false, true, GameKey::W, true);
    assert!(o.keys.forward);
    assert_eq!(o.cursor, CursorAction::Keep);
    let o = key_step(o.keys, false, true, GameKey::D, true);
    assert!(o.keys.forward && o.keys.right);
    let o = key_step(o.keys, false, true, GameKey::W, false);
    assert!(!o.keys.forward && o.keys.right);
    let o = key_step(idle(), false, false, GameKey::Space, true);
    assert!(o.keys.jump);
    let o = key_step(idle(), false, false, GameKey::A, true);
    assert!(o.keys.left);
    let o = key_step(o.keys, false, false, GameKey::S, true);
    assert!(o.keys.left && o.keys.backward);
}

#[test]
fn movement_keys_are_ignored_with_console_open() {
    let o = key_step(idle(), true, false, GameKey::W, true);
    assert_eq!(o.keys, idle());
    assert!(o.console_open);
}

#[test]
fn escape_releases_a_locked_pointer() {
    assert_eq!(key_step(idle(), false, true, GameKey::Escape, true).cursor, CursorAction::Release);
    assert_eq!(key_step(idle(), false, false, GameKey::Escape, true).cursor, CursorAction::Keep);
    assert_eq!(key_step(idle(), true, true, GameKey::Escape, true).cursor, CursorAction::Release);
}

#[test]
fn backquote_toggles_the_console() {
    let o = key_step(idle(), false, true, GameKey::Backquote, true);
    assert!(o.console_open);
    assert_eq!(o.cursor, CursorAction::Release);
    let o = key_step(idle(), true, false, GameKey::Backquote, true);
    assert!(!o.console_open);
    assert_eq!(o.cursor, CursorAction::Grab);
    let o = key_step(idle(), true, true, GameKey::Backquote, true);
    assert_eq!(o.cursor, CursorAction::Keep);
    assert!(key_step(idle(), true, true, GameKey::Backquote, false).console_open);
}

#[test]
fn v_and_tab_cycle_the_camera() {
    assert!(key_step(idle(), false, false, GameKey::V, true).cycle_camera);
    assert!(key_step(idle(), false, false, GameKey::Tab, true).cycle_camera);
    assert!(!key_step(idle(), true, false, GameKey::Tab, true).cycle_camera);
    assert!(!key_step(idle(), false, false, GameKey::V, false).cycle_camera);
    assert_eq!(next_camera_mode(CameraMode::ThirdPerson), CameraMode::FirstPerson);
    assert_eq!(next_camera_mode(CameraMode::FirstPerson), CameraMode::FreeLook);
    assert_eq!(next_camera_mode(CameraMode::FreeLook), CameraMode::ThirdPerson);
}

#[test]
fn left_click_grabs_only_when_free() {
    assert!(click_grabs(true, false, false));
    assert!(!click_grabs(true, true, false));
    assert!(!click_grabs(true, false, true));
    assert!(!click_grabs(false, false, false));
}
