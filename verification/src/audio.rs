//! Audio handles, buses and play modes, and the backend that plays nothing.

use vstd::prelude::*;

verus! {

/// Why an audio request failed.
#[derive(Debug)]
pub enum AudioError {
    FileNotFound(String),
    DecodeFailed(String),
    DeviceUnavailable(String),
    StreamError(String),
}

impl AudioError {
    /// The human-readable message for the error.
    pub fn message(&self) -> (s: String)
        ensures
            s@ == match self {
                AudioError::FileNotFound(p) => "audio file not found: "@ + p@,
                AudioError::DecodeFailed(e) => "audio decode failed: "@ + e@,
                AudioError::DeviceUnavailable(e) => "audio device unavailable: "@ + e@,
                AudioError::StreamError(e) => "audio stream error: "@ + e@,
            },
    {
        match self {
            AudioError::FileNotFound(p) => {
                let mut s = String::from_str("audio file not found: ");
                s.append(p.as_str());
                s
            },
            AudioError::DecodeFailed(e) => {
                let mut s = String::from_str("audio decode failed: ");
                s.append(e.as_str());
                s
            },
            AudioError::DeviceUnavailable(e) => {
                let mut s = String::from_str("audio device unavailable: ");
                s.append(e.as_str());
                s
            },
            AudioError::StreamError(e) => {
                let mut s = String::from_str("audio stream error: ");
                s.append(e.as_str());
                s
            },
        }
    }
}

/// A generational handle to a playing sound.
#[derive(Clone, Copy, Debug, PartialEq, Eq, Structural, Hash)]
pub struct AudioHandle {
    pub index: u32,
    pub generation: u32,
}

impl AudioHandle {
    /// The handle that names no sound.
    pub fn invalid() -> (h: Self)
        ensures
            h.index == u32::MAX,
            h.generation == 0,
    {
        AudioHandle { index: u32::MAX, generation: 0 }
    }
}

/// The mixer bus a sound plays on.
#[derive(Clone, Copy, Debug, PartialEq, Eq, Structural, Hash)]
pub enum BusType {
    Sfx,
    Music,
    Voice,
}

/// Whether a sound is decoded up front or streamed.
#[derive(Clone, Copy, Debug, PartialEq, Eq, Structural)]
pub enum PlayMode {
    Buffered,
    Streaming,
}

/// The audio backend that plays nothing and hands out the zero handle.
pub struct NullAudioBackend;

impl NullAudioBackend {
    pub fn new() -> (b: Self) {
        NullAudioBackend
    }

    /// Starting a sound does nothing; the handle is always the zero handle.
    pub fn play(&mut self, path: &str, looping: bool) -> (h: AudioHandle)
        ensures
            h.index == 0 && h.generation == 0,
    {
        AudioHandle { index: 0, generation: 0 }
    }
}

} // verus!
