//! Chord grammar, rhythm, arrangement and MIDI file logic.

pub mod arrangement;
pub mod chime;
pub mod document;
pub mod double;
pub mod export;
pub mod grammar;
pub mod keyboard;
pub mod midi;
pub mod music;
pub mod order;
pub mod presets;
pub mod progression;
pub mod project;
pub mod rhythm;
pub mod rhythm_store;
pub mod single;
pub mod smf;
pub mod synth;
pub mod text;
pub mod transport;
pub mod wire;
