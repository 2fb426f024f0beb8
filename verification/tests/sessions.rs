use dust::{
    bpm_to_ms_per_beat, chord_options, midi_note, midi_notes, next_candidate, prev_candidate,
    track_events, Chord, ChordSelect, ChordSpec, ClockEvent, ClockState, Cursor, Duration, Key,
    MidiEvent, Mode, ModeTemplate, Note, PlaybackState, Progression, ProgressionTemplate,
    Scripted, Select, TextInput,
};

fn chord(text: &str) -> ChordSpec {
    ChordSpec::from_str(text).unwrap()
}

fn template() -> ProgressionTemplate {
    let lines = |texts: &[&str]| texts.iter().map(|t| t.to_string()).collect::<Vec<String>>();
    ProgressionTemplate::new(
        ModeTemplate::from_patterns(&lines(&["I V vi IV"])).unwrap(),
        ModeTemplate::from_patterns(&lines(&["i VI III v"])).unwrap(),
    )
}

#[test]
fn test_bpm_to_ms_per_beat() {
    let ms_per_beat = bpm_to_ms_per_beat(60);
    assert_eq!(ms_per_beat, 1000);

    let ms_per_beat = bpm_to_ms_per_beat(120);
    assert_eq!(ms_per_beat, 500);

    let ms_per_beat = bpm_to_ms_per_beat(150);
    assert_eq!(ms_per_beat, 400);
}

#[test]
fn midi_keys_count_from_a0_at_21() {
    assert_eq!(midi_note(&Note { semitones: 0 }), 21);
    assert_eq!(midi_note(&Note { semitones: 39 }), 60);
    assert_eq!(midi_note(&Note { semitones: -21 }), 0);
    assert_eq!(midi_note(&Note { semitones: -22 }), 255);
    assert_eq!(midi_note(&Note { semitones: 235 }), 0);
    assert_eq!(midi_notes(&Chord::new(Note { semitones: 27 }, vec![7, 0, 4])), vec![48, 52, 55]);
}

#[test]
fn a_track_plays_each_chord_for_a_tick_after_its_rests() {
    let c = Chord::new(Note { semitones: 27 }, vec![0, 4, 7]);
    let g = Chord::new(Note { semitones: 34 }, vec![0, 7]);
    let events = track_events(&vec![None, None, Some(c), Some(g.clone()), None, Some(g), None]);
    assert_eq!(
        events,
        vec![
            MidiEvent::NoteOn { delta: 2, key: 48 },
            MidiEvent::NoteOn { delta: 0, key: 52 },
            MidiEvent::NoteOn { delta: 0, key: 55 },
            MidiEvent::NoteOff { delta: 1, key: 48 },
            MidiEvent::NoteOff { delta: 0, key: 52 },
            MidiEvent::NoteOff { delta: 0, key: 55 },
            MidiEvent::NoteOn { delta: 0, key: 55 },
            MidiEvent::NoteOn { delta: 0, key: 62 },
            MidiEvent::NoteOff { delta: 1, key: 55 },
            MidiEvent::NoteOff { delta: 0, key: 62 },
            MidiEvent::NoteOn { delta: 1, key: 55 },
            MidiEvent::NoteOn { delta: 0, key: 62 },
            MidiEvent::NoteOff { delta: 1, key: 55 },
            MidiEvent::NoteOff { delta: 0, key: 62 },
        ]
    );
    assert_eq!(track_events(&vec![]), vec![]);
    assert_eq!(track_events(&vec![None, None]), vec![]);
    let silent = Chord::new(Note { semitones: 0 }, vec![]);
    assert_eq!(
        track_events(&vec![None, Some(silent), None, Some(Chord::new(Note { semitones: 0 }, vec![0]))]),
        vec![MidiEvent::NoteOn { delta: 1, key: 21 }, MidiEvent::NoteOff { delta: 1, key: 21 }]
    );
}

#[test]
fn the_clock_counts_ticks_while_it_runs() {
    let mut clock = ClockState::new();
    assert_eq!(clock.on_message(&[248]), None);
    assert_eq!(clock.on_message(&[250]), Some(ClockEvent::Start));
    assert_eq!(clock.on_message(&[248]), Some(ClockEvent::Tick(1)));
    assert_eq!(clock.on_message(&[248]), Some(ClockEvent::Tick(2)));
    assert_eq!(clock.on_message(&[248, 0]), None);
    assert_eq!(clock.on_message(&[]), None);
    assert_eq!(clock.on_message(&[251]), None);
    for tick in 3..96 {
        assert_eq!(clock.on_message(&[248]), Some(ClockEvent::Tick(tick)));
    }
    assert_eq!(clock.on_message(&[248]), Some(ClockEvent::Tick(0)));
    assert_eq!(clock.on_message(&[252]), Some(ClockEvent::Stop));
    assert_eq!(clock.on_message(&[248]), None);
    assert_eq!(clock, ClockState { tick: 0, playing: false });
}

#[test]
fn grid_ticks_begin_on_clock_ticks() {
    for (duration, ticks) in [
        (Duration::Quarter, 24),
        (Duration::Eighth, 12),
        (Duration::Sixteenth, 6),
        (Duration::ThirtySecond, 3),
    ] {
        assert_eq!(duration.clock_ticks(), ticks);
        assert_eq!(duration.clock_ticks() * duration.ticks_per_bar(), 96);
        for clock_tick in 0..96 {
            assert_eq!(duration.begins_at(clock_tick), clock_tick % ticks == 0);
        }
    }
}

fn state() -> PlaybackState {
    let sequence = vec![
        Some(chord("I")), None, Some(chord("V")), None, None, Some(chord("vi")), None, None,
    ];
    PlaybackState {
        tick: 0,
        clip: (0, 8),
        bars: 1,
        key: Key { root: Note { semitones: 27 }, mode: Mode::Major },
        note_duration: 3,
        resolution: Duration::Eighth,
        progression: Progression::new(sequence, Duration::Eighth),
    }
}

#[test]
fn playing_starts_with_two_bars_of_eighths() {
    let mut source = Scripted::new(vec![1, 2, 3]);
    let state = PlaybackState::new_with(&template(), &mut source);
    assert_eq!(state.tick, 0);
    assert_eq!(state.clip, (0, 16));
    assert_eq!(state.bars, 2);
    assert_eq!(state.key, Key::default());
    assert_eq!(state.note_duration, 5);
    assert_eq!(state.resolution, Duration::Eighth);
    assert_eq!(state.progression.sequence.len(), 16);
    assert!(!state.has_loop());
    let state = PlaybackState::new(&template());
    assert_eq!(state.progression.sequence.len(), 16);
    assert!(state.is_ready(&template()));
}

#[test]
fn the_tick_runs_round_the_clip() {
    let mut state = state();
    for expected in [1, 2, 3, 4, 5, 6, 7, 0, 1] {
        state.tick();
        assert_eq!(state.tick, expected);
    }
    state.set_clip_start(2);
    state.set_clip_end(5);
    assert_eq!(state.clip, (2, 6));
    assert_eq!(state.clip_len(), 4);
    assert_eq!(state.clip_start(), 2);
    assert!(state.has_loop());
    for expected in [2, 3, 0, 1] {
        state.tick();
        assert_eq!(state.tick, expected);
    }
    state.reset_tick();
    assert_eq!(state.tick, 0);
    state.reset_clip();
    assert_eq!(state.clip, (0, 8));
    assert!(!state.has_loop());
}

#[test]
fn clip_ends_are_set_only_where_a_clip_remains() {
    let mut state = state();
    state.set_clip_start(8);
    assert_eq!(state.clip, (0, 8));
    state.set_clip_end(0);
    assert_eq!(state.clip, (0, 8));
    state.set_clip_end(8);
    assert_eq!(state.clip, (0, 8));
    state.tick = 6;
    state.set_clip_end(3);
    assert_eq!(state.clip, (0, 4));
    assert_eq!(state.tick, 0);
    state.tick = 3;
    state.set_clip_start(2);
    assert_eq!(state.clip, (2, 4));
    assert_eq!(state.tick, 0);
}

#[test]
fn the_current_chord_is_the_one_at_the_tick_in_the_clip() {
    let mut state = state();
    let pitches = |sounding: Option<(Chord, u64)>| {
        sounding.map(|(c, d)| (c.notes().iter().map(|n| n.semitones).collect::<Vec<isize>>(), d))
    };
    assert_eq!(pitches(state.current_chord()), Some((vec![27, 31, 34], 3)));
    state.tick();
    assert_eq!(pitches(state.current_chord()), None);
    state.tick();
    assert_eq!(pitches(state.current_chord()), Some((vec![34, 38, 41], 3)));
    state.set_clip_start(5);
    assert_eq!(state.tick, 2);
    assert_eq!(pitches(state.current_chord()), None);
    state.reset_tick();
    assert_eq!(pitches(state.current_chord()), Some((vec![36, 39, 43], 3)));
    let mut empty = state;
    empty.set_progression(Progression::new(vec![], Duration::Eighth));
    assert_eq!(empty.clip, (0, 0));
    assert_eq!(pitches(empty.current_chord()), None);
}

#[test]
fn the_player_steps_on_the_clock() {
    let mut state = state();
    assert!(state.on_clock(&ClockEvent::Start).is_none());
    assert_eq!(state.tick, 0);
    assert!(state.on_clock(&ClockEvent::Tick(5)).is_none());
    assert_eq!(state.tick, 0);
    assert!(state.on_clock(&ClockEvent::Tick(12)).is_some());
    assert_eq!(state.tick, 1);
    assert!(state.on_clock(&ClockEvent::Tick(24)).is_none());
    assert_eq!(state.tick, 2);
    assert!(state.on_clock(&ClockEvent::Tick(0)).is_some());
    assert_eq!(state.tick, 3);
    assert!(state.on_clock(&ClockEvent::Stop).is_none());
    assert_eq!(state.tick, 0);
}

#[test]
fn a_new_progression_becomes_the_clip() {
    let mut state = state();
    state.tick = 7;
    state.clip = (3, 8);
    state.bars = 3;
    state.key.mode = Mode::Minor;
    let mut source = Scripted::new(vec![0, 1]);
    state.gen_progression_with(&template(), &mut source);
    assert_eq!(state.progression.sequence.len(), 24);
    assert_eq!(state.clip, (0, 24));
    assert_eq!(state.tick, 7);
    state.bars = 0;
    state.gen_progression(&template());
    assert_eq!(state.clip, (0, 0));
    assert_eq!(state.tick, 0);
    state.bars = 1;
    state.gen_progression_from_seed(&chord("v:7"), &template());
    assert_eq!(state.progression.chord(0), Some(&chord("v:7")));
    assert_eq!(state.clip, (0, 8));
    let mut source = Scripted::new(vec![3]);
    state.gen_progression_from_seed_with(&chord("VI"), &template(), &mut source);
    assert_eq!(state.progression.chord(0), Some(&chord("VI")));
    assert_eq!(state.progression.resolution, Duration::Eighth);
}

#[test]
fn chords_offered_on_a_root_are_chords() {
    let expected_first = [
        "I", "I:6", "I:6,9", "I:7", "I:7,9", "I:b7", "I:b7,9", "I:b9", "I:9", "I+", "I+:b7",
        "I+:9", "I_", "I^", "I^:b7,9", "I5", "i", "i:#6", "i:7", "i:7,#9", "i:#7", "i:#7,#9",
        "i-", "i-:b7", "i-:7",
    ];
    assert_eq!(chord_options(0), expected_first.iter().map(|s| s.to_string()).collect::<Vec<String>>());
    assert_eq!(chord_options(7), chord_options(0));
    assert_eq!(chord_options(4)[14], "V^:b7,9".to_string());
    assert_eq!(chord_options(6)[24], "vii-:7".to_string());
    for root in 0..7 {
        let options = chord_options(root);
        assert_eq!(options.len(), 25);
        for option in options {
            let spec = ChordSpec::from_str(&option).unwrap();
            assert_eq!(spec.root.degree, root + 1);
            assert_eq!(spec.to_string(), option);
        }
    }
}

#[test]
fn a_selection_runs_round_its_choices() {
    let mut select = Select { idx: 0, choices: vec!["a".to_string(), "b".to_string(), "c".to_string()] };
    select.next();
    assert_eq!(select.idx, 1);
    assert_eq!(select.selected(), Some(&"b".to_string()));
    select.next();
    select.next();
    assert_eq!(select.idx, 0);
    select.prev();
    assert_eq!(select.idx, 2);
    select.prev();
    assert_eq!(select.idx, 1);
    assert_eq!(select.position(&"c".to_string()), Some(2));
    assert_eq!(select.position(&"d".to_string()), None);
    let mut empty = Select { idx: 0, choices: vec![] };
    empty.next();
    empty.prev();
    assert_eq!(empty.idx, 0);
    assert_eq!(empty.selected(), None);
}

#[test]
fn a_line_of_text_keeps_its_label() {
    let mut line = TextInput::new("Bars: ");
    assert_eq!(line.input, "".to_string());
    assert_eq!(line.label, "Bars: ".to_string());
    line.set_input("12".to_string());
    assert_eq!(line.input, "12".to_string());
    assert_eq!(line.label, "Bars: ".to_string());
}

#[test]
fn a_chord_choice_selects_the_chord_given() {
    let choice = ChordSelect::new();
    assert_eq!(choice.numeral, 0);
    assert_eq!(choice.select.idx, 0);
    assert_eq!(choice.text_input.input, "I".to_string());
    assert_eq!(choice.text_input.label, "Chord: ".to_string());
    assert_eq!(choice.select.choices, chord_options(0));

    let choice = ChordSelect::with_chord(&chord("V^:b7,9"));
    assert_eq!(choice.numeral, 4);
    assert_eq!(choice.select.idx, 14);
    assert_eq!(choice.text_input.input, "V^:b7,9".to_string());
    assert_eq!(choice.select.choices, chord_options(4));

    let choice = ChordSelect::with_chord(&chord("iii:7"));
    assert_eq!(choice.numeral, 2);
    assert_eq!(choice.select.idx, 18);

    let choice = ChordSelect::with_chord(&chord("ii:11/5"));
    assert_eq!(choice.numeral, 1);
    assert_eq!(choice.select.idx, 0);
    assert_eq!(choice.text_input.input, "ii:11/5".to_string());
}

#[test]
fn the_root_of_a_chord_choice_runs_round_the_numerals() {
    let mut choice = ChordSelect::new();
    choice.prev_numeral();
    assert_eq!(choice.numeral, 6);
    assert_eq!(choice.text_input.input, "VII".to_string());
    assert_eq!(choice.select.choices, chord_options(6));
    choice.next_numeral();
    assert_eq!(choice.numeral, 0);
    assert_eq!(choice.text_input.input, "I".to_string());
    choice.next_numeral();
    assert_eq!(choice.numeral, 1);
    assert_eq!(choice.select.choices[16], "ii".to_string());
    choice.set_numeral(3);
    assert_eq!(choice.numeral, 3);
    assert_eq!(choice.select.choices, chord_options(3));
    assert_eq!(choice.text_input.input, "II".to_string());
}

#[test]
fn candidates_are_cycled_through_from_the_current_chord() {
    let candidates = vec![chord("I"), chord("IV"), chord("V"), chord("IV")];
    assert_eq!(next_candidate(&candidates, &chord("I")), 1);
    assert_eq!(next_candidate(&candidates, &chord("IV")), 2);
    assert_eq!(next_candidate(&candidates, &chord("V")), 3);
    assert_eq!(next_candidate(&candidates, &chord("vi")), 0);
    assert_eq!(prev_candidate(&candidates, &chord("I")), 3);
    assert_eq!(prev_candidate(&candidates, &chord("IV")), 0);
    assert_eq!(prev_candidate(&candidates, &chord("V")), 1);
    assert_eq!(prev_candidate(&candidates, &chord("vi")), 0);
    let last = vec![chord("I"), chord("V")];
    assert_eq!(next_candidate(&last, &chord("V")), 0);
    assert_eq!(next_candidate(&vec![], &chord("V")), 0);
    assert_eq!(prev_candidate(&vec![], &chord("V")), 0);
    assert!(chord("I:7/3").same(&chord("I:7/3")));
    assert!(!chord("I:7/3").same(&chord("I:7/5")));
    assert!(!chord("I:7").same(&chord("I:7,9")));
    assert!(!chord("I").same(&chord("i")));
}

#[test]
fn the_cursor_runs_round_the_grid() {
    let mut cursor = Cursor { column: 0, row: 0 };
    cursor.left(8);
    assert_eq!(cursor, Cursor { column: 7, row: 0 });
    cursor.right(8);
    assert_eq!(cursor, Cursor { column: 0, row: 0 });
    cursor.right(8);
    cursor.up(3);
    assert_eq!(cursor, Cursor { column: 1, row: 2 });
    assert_eq!(cursor.index(8), 17);
    cursor.down(3);
    assert_eq!(cursor, Cursor { column: 1, row: 0 });
    cursor.down(3);
    assert_eq!(cursor, Cursor { column: 1, row: 1 });
    assert_eq!(Cursor::at(17, 8), Cursor { column: 1, row: 2 });
    assert_eq!(Cursor::at(7, 8), Cursor { column: 7, row: 0 });
    for seq_idx in 0..40 {
        assert_eq!(Cursor::at(seq_idx, 16).index(16), seq_idx);
    }
}
