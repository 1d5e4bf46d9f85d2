//! A verified MIDI arpeggiator engine.
//!
//! The crate consumes an interleaved stream of MIDI messages and clock ticks
//! and turns held or recorded note material into rhythmic note sequences.
//! All musical logic lives here and is verified; reading bytes from devices,
//! thread plumbing and settings-file parsing are left to the embedding
//! application, which hands the engine plain values.

pub mod arpeggio;
pub mod arpeggiator;
pub mod midi;
pub mod presets;
pub mod settings;
pub mod status;

pub use midi::MidiMessage;
