//! A music-theory and chord-progression engine.
//!
//! Roman-numeral chord notation is turned into concrete pitches for any key,
//! and multi-bar chord progressions are generated from example patterns.

pub mod chord;
pub mod clock;
pub mod degree;
pub mod interval;
pub mod key;
pub mod midi;
pub mod notation;
pub mod note;
pub mod playback;
pub mod progression;
pub mod random;
pub mod round_trip;
pub mod select;
pub mod template;
pub mod text;
pub mod timing;
pub mod voicing;

pub use chord::{Chord, ChordSpec, Triad, MAX_ADJ, MAX_DEGREE, MAX_EXTENSIONS};
pub use clock::{ClockEvent, ClockState};
pub use degree::{Degree, DegreeParseError};
pub use interval::{Interval, IntervalParseError};
pub use key::{Key, Mode};
pub use midi::{bpm_to_ms_per_beat, midi_note, midi_notes, track_events, MidiEvent};
pub use notation::{numeral_to_index, numeral_to_mode, ChordParseError};
pub use note::{Note, NoteParseError};
pub use playback::PlaybackState;
pub use progression::{index_chords, Progression};
pub use random::{RandomSource, Scripted, ThreadRandom};
pub use select::{
    chord_options, next_candidate, prev_candidate, ChordSelect, Cursor, Select, TextInput,
};
pub use template::{gen_timing, parse_pattern, ModeTemplate, ProgressionTemplate, Transition};
pub use timing::Duration;
pub use voicing::voice_lead;
