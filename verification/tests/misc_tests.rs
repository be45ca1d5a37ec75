use waraner_client::audio::{AudioError, AudioHandle, NullAudioBackend};
use waraner_client::text::{same_str, str_less};

#[test]
fn audio_error_messages() {
    assert_eq!(AudioError::FileNotFound("a.ogg".to_string()).message(), "audio file not found: a.ogg");
    assert_eq!(AudioError::DecodeFailed("bad".to_string()).message(), "audio decode failed: bad");
    assert_eq!(AudioError::DeviceUnavailable("x".to_string()).message(), "audio device unavailable: x");
    assert_eq!(AudioError::StreamError("y".to_string()).message(), "audio stream error: y");
}

#[test]
fn audio_handles() {
    let h = AudioHandle::invalid();
    assert_eq!((h.index, h.generation), (u32::MAX, 0));
    let mut b = NullAudioBackend::new();
    assert_eq!(b.play("music.ogg", true), AudioHandle { index: 0, generation: 0 });
}

#[test]
fn string_comparisons() {
    assert!(same_str("abc", "abc"));
    assert!(!same_str("abc", "abd"));
    assert!(str_less("Environment", "Gameplay"));
    assert!(str_less("ab", "abc"));
    assert!(!str_less("abc", "abc"));
    assert!(!str_less("b", "a"));
}
