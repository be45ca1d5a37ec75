//! What a key press or release does to the movement flags, the console and
//! the pointer. The window layer maps its key codes to `GameKey`, performs
//! the cursor action and reports whether a grab succeeded.

use vstd::prelude::*;

use crate::components::CameraMode;

verus! {

/// The keys the engine reacts to; every other key is `Other`.
#[derive(Clone, Copy, Debug, PartialEq, Eq, Structural)]
pub enum GameKey {
    W,
    A,
    S,
    D,
    Space,
    Escape,
    V,
    Tab,
    Backquote,
    Other,
}

/// The movement flags that held keys set.
#[derive(Clone, Copy, Debug, PartialEq, Eq, Structural)]
pub struct KeyState {
    pub forward: bool,
    pub backward: bool,
    pub left: bool,
    pub right: bool,
    pub jump: bool,
}

/// What to do with the pointer.
#[derive(Clone, Copy, Debug, PartialEq, Eq, Structural)]
pub enum CursorAction {
    Keep,
    Grab,
    Release,
}

/// What one key event decides.
#[derive(Clone, Copy, Debug, PartialEq, Eq, Structural)]
pub struct KeyOutcome {
    pub keys: KeyState,
    pub console_open: bool,
    pub cursor: CursorAction,
    pub cycle_camera: bool,
}

/// The movement flags with the flag of `key` set to `held`; keys without a
/// flag leave them as they are.
pub open spec fn with_flag(s: KeyState, key: GameKey, held: bool) -> KeyState {
    match key {
        GameKey::W => KeyState { forward: held, ..s },
        GameKey::A => KeyState { left: held, ..s },
        GameKey::S => KeyState { backward: held, ..s },
        GameKey::D => KeyState { right: held, ..s },
        GameKey::Space => KeyState { jump: held, ..s },
        _ => s,
    }
}

/// The outcome that changes nothing.
pub open spec fn unchanged(s: KeyState, console_open: bool) -> KeyOutcome {
    KeyOutcome { keys: s, console_open, cursor: CursorAction::Keep, cycle_camera: false }
}

/// Release the pointer when it is locked.
pub open spec fn release_if_locked(pointer_locked: bool) -> CursorAction {
    if pointer_locked {
        CursorAction::Release
    } else {
        CursorAction::Keep
    }
}

/// What a key event does.
/// - With the console closed, a press of W/A/S/D/Space sets its movement
///   flag and a release clears it; Escape releases a locked pointer; V or Tab
///   cycles the camera; the backquote opens the console, releasing a locked
///   pointer.
/// - With the console open, movement keys do nothing; Escape releases a
///   locked pointer; the backquote closes the console and grabs the pointer
///   when it is not locked.
pub open spec fn key_outcome(
    s: KeyState,
    console_open: bool,
    pointer_locked: bool,
    key: GameKey,
    pressed: bool,
) -> KeyOutcome {
    if !console_open {
        if !pressed {
            KeyOutcome { keys: with_flag(s, key, false), ..unchanged(s, console_open) }
        } else {
            match key {
                GameKey::Escape => KeyOutcome {
                    cursor: release_if_locked(pointer_locked),
                    ..unchanged(s, console_open)
                },
                GameKey::V | GameKey::Tab => KeyOutcome { cycle_camera: true, ..unchanged(s, console_open) },
                GameKey::Backquote => KeyOutcome {
                    keys: s,
                    console_open: true,
                    cursor: release_if_locked(pointer_locked),
                    cycle_camera: false,
                },
                _ => KeyOutcome { keys: with_flag(s, key, true), ..unchanged(s, console_open) },
            }
        }
    } else if !pressed {
        unchanged(s, console_open)
    } else {
        match key {
            GameKey::Escape => KeyOutcome {
                cursor: release_if_locked(pointer_locked),
                ..unchanged(s, console_open)
            },
            GameKey::Backquote => KeyOutcome {
                keys: s,
                console_open: false,
                cursor: if pointer_locked {
                    CursorAction::Keep
                } else {
                    CursorAction::Grab
                },
                cycle_camera: false,
            },
            _ => unchanged(s, console_open),
        }
    }
}

fn set_flag(s: KeyState, key: GameKey, held: bool) -> (r: KeyState)
    ensures
        r == with_flag(s, key, held),
{
    match key {
        GameKey::W => KeyState { forward: held, ..s },
        GameKey::A => KeyState { left: held, ..s },
        GameKey::S => KeyState { backward: held, ..s },
        GameKey::D => KeyState { right: held, ..s },
        GameKey::Space => KeyState { jump: held, ..s },
        _ => s,
    }
}

fn release_cursor_if(pointer_locked: bool) -> (c: CursorAction)
    ensures
        c == release_if_locked(pointer_locked),
{
    if pointer_locked {
        CursorAction::Release
    } else {
        CursorAction::Keep
    }
}

/// Decide what a key press or release does, from the movement flags, the
/// console state and whether the pointer is locked.
pub fn key_step(
    s: KeyState,
    console_open: bool,
    pointer_locked: bool,
    key: GameKey,
    pressed: bool,
) -> (r: KeyOutcome)
    ensures
        r == key_outcome(s, console_open, pointer_locked, key, pressed),
{
    let keep = KeyOutcome { keys: s, console_open, cursor: CursorAction::Keep, cycle_camera: false };
    if !console_open {
        if !pressed {
            KeyOutcome { keys: set_flag(s, key, false), ..keep }
        } else {
            match key {
                GameKey::Escape => KeyOutcome { cursor: release_cursor_if(pointer_locked), ..keep },
                GameKey::V | GameKey::Tab => KeyOutcome { cycle_camera: true, ..keep },
                GameKey::Backquote => KeyOutcome {
                    keys: s,
                    console_open: true,
                    cursor: release_cursor_if(pointer_locked),
                    cycle_camera: false,
                },
                _ => KeyOutcome { keys: set_flag(s, key, true), ..keep },
            }
        }
    } else if !pressed {
        keep
    } else {
        match key {
            GameKey::Escape => KeyOutcome { cursor: release_cursor_if(pointer_locked), ..keep },
            GameKey::Backquote => KeyOutcome {
                keys: s,
                console_open: false,
                cursor: if pointer_locked {
                    CursorAction::Keep
                } else {
                    CursorAction::Grab
                },
                cycle_camera: false,
            },
            _ => keep,
        }
    }
}

/// A left click grabs the pointer when it is not locked and the console is
/// closed.
pub fn click_grabs(left_button: bool, pointer_locked: bool, console_open: bool) -> (b: bool)
    ensures
        b == (left_button && !pointer_locked && !console_open),
{
    left_button && !pointer_locked && !console_open
}

/// The next camera mode in the V/Tab cycle.
pub fn next_camera_mode(m: CameraMode) -> (r: CameraMode)
    ensures
        r == match m {
            CameraMode::ThirdPerson => CameraMode::FirstPerson,
            CameraMode::FirstPerson => CameraMode::FreeLook,
            CameraMode::FreeLook => CameraMode::ThirdPerson,
        },
{
    match m {
        CameraMode::ThirdPerson => CameraMode::FirstPerson,
        CameraMode::FirstPerson => CameraMode::FreeLook,
        CameraMode::FreeLook => CameraMode::ThirdPerson,
    }
}

/// Releasing a key never opens or closes the console, moves the pointer or
/// changes the camera, and pressing then releasing a movement key with the
/// console closed leaves its flag cleared.
pub proof fn lemma_press_then_release(s: KeyState, pointer_locked: bool, key: GameKey)
    ensures
        ({
            let o = key_outcome(s, false, pointer_locked, key, false);
            o.console_open == false && o.cursor == CursorAction::Keep && !o.cycle_camera
        }),
        ({
            let o = key_outcome(s, true, pointer_locked, key, false);
            o == unchanged(s, true)
        }),
        key == GameKey::W ==> !key_outcome(
            key_outcome(s, false, pointer_locked, key, true).keys,
            false,
            pointer_locked,
            key,
            false,
        ).keys.forward,
{
}

/// The backquote toggles the console: opening then closing it returns to a
/// closed console, and the pointer is grabbed again when opening released it.
pub proof fn lemma_console_toggle(s: KeyState, pointer_locked: bool)
    ensures
        ({
            let o1 = key_outcome(s, false, pointer_locked, GameKey::Backquote, true);
            let locked_after = pointer_locked && o1.cursor != CursorAction::Release;
            let o2 = key_outcome(o1.keys, o1.console_open, locked_after, GameKey::Backquote, true);
            &&& o1.console_open
            &&& !locked_after
            &&& !o2.console_open
            &&& o2.cursor == CursorAction::Grab
            &&& o2.keys == s
        }),
{
}

/// Movement keys with the console closed: pressing W, S, A, D or Space sets
/// exactly that key's flag (forward, backward, left, right, jump) and
/// releasing it clears exactly that flag; nothing else changes. With the
/// console open, no key changes a movement flag.
pub proof fn lemma_movement_keys(s: KeyState, p: bool, pressed: bool, key: GameKey, console_open: bool)
    ensures
        key_outcome(s, false, p, GameKey::W, pressed) == (KeyOutcome {
            keys: KeyState { forward: pressed, ..s },
            console_open: false,
            cursor: CursorAction::Keep,
            cycle_camera: false,
        }),
        key_outcome(s, false, p, GameKey::S, pressed) == (KeyOutcome {
            keys: KeyState { backward: pressed, ..s },
            console_open: false,
            cursor: CursorAction::Keep,
            cycle_camera: false,
        }),
        key_outcome(s, false, p, GameKey::A, pressed) == (KeyOutcome {
            keys: KeyState { left: pressed, ..s },
            console_open: false,
            cursor: CursorAction::Keep,
            cycle_camera: false,
        }),
        key_outcome(s, false, p, GameKey::D, pressed) == (KeyOutcome {
            keys: KeyState { right: pressed, ..s },
            console_open: false,
            cursor: CursorAction::Keep,
            cycle_camera: false,
        }),
        key_outcome(s, false, p, GameKey::Space, pressed) == (KeyOutcome {
            keys: KeyState { jump: pressed, ..s },
            console_open: false,
            cursor: CursorAction::Keep,
            cycle_camera: false,
        }),
        key_outcome(s, true, p, key, pressed).keys == s,
{
}

/// The other keys with the console closed: Escape releases a locked pointer
/// and nothing else; V and Tab cycle the camera when pressed; the backquote
/// opens the console, releasing a locked pointer. No release of these keys
/// does anything, and none of them touches a movement flag.
pub proof fn lemma_other_keys_console_closed(s: KeyState, p: bool)
    ensures
        key_outcome(s, false, p, GameKey::Escape, true) == (KeyOutcome {
            keys: s,
            console_open: false,
            cursor: if p { CursorAction::Release } else { CursorAction::Keep },
            cycle_camera: false,
        }),
        key_outcome(s, false, p, GameKey::V, true) == (KeyOutcome {
            keys: s,
            console_open: false,
            cursor: CursorAction::Keep,
            cycle_camera: true,
        }),
        key_outcome(s, false, p, GameKey::Tab, true) == (KeyOutcome {
            keys: s,
            console_open: false,
            cursor: CursorAction::Keep,
            cycle_camera: true,
        }),
        key_outcome(s, false, p, GameKey::Backquote, true) == (KeyOutcome {
            keys: s,
            console_open: true,
            cursor: if p { CursorAction::Release } else { CursorAction::Keep },
            cycle_camera: false,
        }),
        key_outcome(s, false, p, GameKey::Other, true) == (KeyOutcome {
            keys: s,
            console_open: false,
            cursor: CursorAction::Keep,
            cycle_camera: false,
        }),
        forall|k: GameKey|
            k != GameKey::W && k != GameKey::A && k != GameKey::S && k != GameKey::D && k != GameKey::Space
                ==> #[trigger] key_outcome(s, false, p, k, false) == (KeyOutcome {
                keys: s,
                console_open: false,
                cursor: CursorAction::Keep,
                cycle_camera: false,
            }),
{
}

/// The keys with the console open: Escape releases a locked pointer; the
/// backquote closes the console and grabs the pointer unless it is locked;
/// every other key, and every release, changes nothing.
pub proof fn lemma_keys_console_open(s: KeyState, p: bool)
    ensures
        key_outcome(s, true, p, GameKey::Escape, true) == (KeyOutcome {
            keys: s,
            console_open: true,
            cursor: if p { CursorAction::Release } else { CursorAction::Keep },
            cycle_camera: false,
        }),
        key_outcome(s, true, p, GameKey::Backquote, true) == (KeyOutcome {
            keys: s,
            console_open: false,
            cursor: if p { CursorAction::Keep } else { CursorAction::Grab },
            cycle_camera: false,
        }),
        forall|k: GameKey, pressed: bool|
            !(pressed && (k == GameKey::Escape || k == GameKey::Backquote)) ==> #[trigger] key_outcome(
                s,
                true,
                p,
                k,
                pressed,
            ) == (KeyOutcome { keys: s, console_open: true, cursor: CursorAction::Keep, cycle_camera: false }),
{
}

} // verus!
