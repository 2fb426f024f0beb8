use vstd::prelude::*;
use crate::chord::Chord;
use crate::note::Note;

verus! {

/// The MIDI key number of A0, the pitch of semitone 0.
pub const MIDI_A0: isize = 21;

/// The MIDI key of a pitch: its semitones above A0 plus the key of A0, in
/// the eight bits of a data byte.
pub open spec fn midi_key(semitones: int) -> u8 {
    ((semitones + 21) % 256) as u8
}

/// The MIDI key of a note.
pub fn midi_note(note: &Note) -> (key: u8)
    ensures
        key == midi_key(note.semitones as int),
{
    let wide: i128 = note.semitones as i128 + MIDI_A0 as i128;
    let rest: i128 = wide % 256;
    if rest < 0 {
        (rest + 256) as u8
    } else {
        rest as u8
    }
}

/// The MIDI keys of a list of notes.
pub open spec fn midi_keys(notes: Seq<Note>) -> Seq<u8> {
    Seq::new(notes.len(), |i: int| midi_key(notes[i].semitones as int))
}

/// The MIDI keys of a chord's notes, lowest note first.
pub fn midi_notes(chord: &Chord) -> (keys: Vec<u8>)
    requires
        chord.playable(),
    ensures
        keys@ == midi_keys(chord.sorted_notes()),
{
    let notes = chord.notes();
    let mut keys: Vec<u8> = Vec::new();
    let mut i: usize = 0;
    while i < notes.len()
        invariant
            i <= notes.len(),
            keys.len() == i,
            forall|j: int| 0 <= j < i ==> keys@[j] == midi_key(notes@[j].semitones as int),
        decreases notes.len() - i,
    {
        keys.push(midi_note(&notes[i]));
        i += 1;
    }
    assert(keys@ =~= midi_keys(chord.sorted_notes()));
    keys
}

/// Convert beats per minute to the milliseconds that a beat lasts: at 60
/// beats per minute a beat lasts 1000 ms.
pub fn bpm_to_ms_per_beat(bpm: usize) -> (ms: u32)
    requires
        0 < bpm <= u32::MAX,
    ensures
        ms == 60000int / (bpm as int),
{
    60000 / (bpm as u32)
}

/// An event of a MIDI track: a key goes down or up, `delta` ticks after the
/// event before it.
#[derive(Debug, Clone, Copy, PartialEq, Eq, Structural)]
pub enum MidiEvent {
    NoteOn { delta: u32, key: u8 },
    NoteOff { delta: u32, key: u8 },
}

/// The events of one chord that starts `pause` ticks after the chord before
/// it ended: all its keys go down together, and up together one tick later.
pub open spec fn chord_events(keys: Seq<u8>, pause: int) -> Seq<MidiEvent> {
    Seq::new(
        keys.len(),
        |i: int|
            MidiEvent::NoteOn {
                delta: if i == 0 {
                    pause as u32
                } else {
                    0
                },
                key: keys[i],
            },
    ) + Seq::new(
        keys.len(),
        |i: int|
            MidiEvent::NoteOff {
                delta: if i == 0 {
                    1
                } else {
                    0
                },
                key: keys[i],
            },
    )
}

/// The number of rests at the end of a grid.
pub open spec fn trailing_rests<T>(slots: Seq<Option<T>>) -> int
    decreases slots.len(),
{
    if slots.len() == 0 || slots.last() is Some {
        0
    } else {
        1 + trailing_rests(slots.drop_last())
    }
}

/// The MIDI keys in the slots of a grid of chords.
pub open spec fn slot_keys(progression: Seq<Option<Chord>>) -> Seq<Option<Seq<u8>>> {
    Seq::new(
        progression.len(),
        |i: int|
            match progression[i] {
                Some(chord) => Some(midi_keys(chord.sorted_notes())),
                None => None,
            },
    )
}

/// The events of a track that plays a grid: each chord for one tick, with
/// the rests before it as the pause.
pub open spec fn track(slots: Seq<Option<Seq<u8>>>) -> Seq<MidiEvent>
    decreases slots.len(),
{
    if slots.len() == 0 {
        Seq::empty()
    } else {
        match slots.last() {
            Some(keys) => track(slots.drop_last()) + chord_events(
                keys,
                trailing_rests(slots.drop_last()),
            ),
            None => track(slots.drop_last()),
        }
    }
}

/// Appends the events of one chord.
fn push_chord_events(events: &mut Vec<MidiEvent>, keys: &Vec<u8>, pause: u32)
    ensures
        final(events)@ == old(events)@ + chord_events(keys@, pause as int),
{
    let ghost ons = Seq::new(
        keys@.len(),
        |i: int|
            MidiEvent::NoteOn {
                delta: if i == 0 {
                    pause
                } else {
                    0
                },
                key: keys@[i],
            },
    );
    let ghost offs = Seq::new(
        keys@.len(),
        |i: int|
            MidiEvent::NoteOff {
                delta: if i == 0 {
                    1
                } else {
                    0
                },
                key: keys@[i],
            },
    );
    let mut i: usize = 0;
    while i < keys.len()
        invariant
            i <= keys.len(),
            events@ == old(events)@ + ons.take(i as int),
            ons.len() == keys@.len(),
            forall|j: int|
                0 <= j < keys@.len() ==> #[trigger] ons[j] == (MidiEvent::NoteOn {
                    delta: if j == 0 {
                        pause
                    } else {
                        0
                    },
                    key: keys@[j],
                }),
        decreases keys.len() - i,
    {
        let delta: u32 = if i == 0 {
            pause
        } else {
            0
        };
        events.push(MidiEvent::NoteOn { delta, key: keys[i] });
        i += 1;
        assert(events@ =~= old(events)@ + ons.take(i as int));
    }
    assert(ons.take(keys.len() as int) =~= ons);
    let mut k: usize = 0;
    while k < keys.len()
        invariant
            k <= keys.len(),
            events@ == old(events)@ + ons + offs.take(k as int),
            offs.len() == keys@.len(),
            forall|j: int|
                0 <= j < keys@.len() ==> #[trigger] offs[j] == (MidiEvent::NoteOff {
                    delta: if j == 0 {
                        1
                    } else {
                        0
                    },
                    key: keys@[j],
                }),
        decreases keys.len() - k,
    {
        let delta: u32 = if k == 0 {
            1
        } else {
            0
        };
        events.push(MidiEvent::NoteOff { delta, key: keys[k] });
        k += 1;
        assert(events@ =~= old(events)@ + ons + offs.take(k as int));
    }
    assert(offs.take(keys.len() as int) =~= offs);
    assert(old(events)@ + ons + offs =~= old(events)@ + chord_events(keys@, pause as int));
}

/// The events of the MIDI track that plays a grid of chords.
pub fn track_events(progression: &Vec<Option<Chord>>) -> (events: Vec<MidiEvent>)
    requires
        progression@.len() <= u32::MAX,
        forall|i: int|
            0 <= i < progression@.len() && (#[trigger] progression@[i]) is Some
                ==> progression@[i]->Some_0.playable(),
    ensures
        events@ == track(slot_keys(progression@)),
{
    let ghost slots = slot_keys(progression@);
    let mut events: Vec<MidiEvent> = Vec::new();
    let mut pause: u32 = 0;
    let mut i: usize = 0;
    assert(slots.take(0) =~= Seq::<Option<Seq<u8>>>::empty());
    while i < progression.len()
        invariant
            i <= progression.len(),
            progression@.len() <= u32::MAX,
            slots == slot_keys(progression@),
            forall|j: int|
                0 <= j < progression@.len() && (#[trigger] progression@[j]) is Some
                    ==> progression@[j]->Some_0.playable(),
            events@ == track(slots.take(i as int)),
            pause == trailing_rests(slots.take(i as int)),
            pause <= i,
        decreases progression.len() - i,
    {
        proof {
            let grown = slots.take(i + 1);
            assert(grown.drop_last() =~= slots.take(i as int));
            assert(grown.last() == slots[i as int]);
        }
        match &progression[i] {
            Some(chord) => {
                assert(progression@[i as int] is Some);
                let keys = midi_notes(chord);
                push_chord_events(&mut events, &keys, pause);
                pause = 0;
            },
            None => {
                pause = pause + 1;
            },
        }
        i += 1;
    }
    assert(slots.take(progression.len() as int) =~= slots);
    events
}

} // verus!
