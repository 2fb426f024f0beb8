use dust::{
    Degree, Duration, Interval, IntervalParseError, Key, Mode, Note, NoteParseError,
};

const MAJOR: [isize; 7] = [0, 2, 4, 5, 7, 9, 11];
const MINOR: [isize; 7] = [0, 1, 3, 5, 7, 8, 10];

#[test]
fn key_intervals_follow_the_scale_tables_and_wrap() {
    let root = Note { semitones: 27 };
    for degree in 1..=14usize {
        let step = (degree - 1) % 7;
        let major = Key { root, mode: Mode::Major };
        let minor = Key { root, mode: Mode::Minor };
        assert_eq!(major.interval(&Degree { degree, adj: 0 }).semitones, MAJOR[step]);
        assert_eq!(minor.interval(&Degree { degree, adj: 0 }).semitones, MINOR[step]);
        assert_eq!(major.interval(&Degree { degree, adj: -1 }).semitones, MAJOR[step] - 1);
        assert_eq!(minor.interval(&Degree { degree, adj: 2 }).semitones, MINOR[step] + 2);
    }
}

#[test]
fn key_notes_rise_an_octave_every_seven_degrees() {
    let key = Key { root: Note { semitones: 27 }, mode: Mode::Major };
    assert_eq!(key.note(&Degree { degree: 1, adj: 0 }), key.root);
    assert_eq!(key.note(&Degree { degree: 5, adj: 0 }).semitones, 34);
    assert_eq!(key.note(&Degree { degree: 8, adj: 0 }).semitones, 39);
    assert_eq!(key.note(&Degree { degree: 9, adj: -1 }).semitones, 40);
    assert_eq!(key.note(&Degree { degree: 15, adj: 0 }).semitones, 51);
    let minor = Key { root: Note { semitones: 36 }, mode: Mode::Minor };
    assert_eq!(minor.note(&Degree { degree: 3, adj: 0 }).semitones, 39);
    assert_eq!(minor.note(&Degree { degree: 10, adj: 0 }).semitones, 51);
}

#[test]
fn degrees_resolve_with_octaves() {
    for degree in 1..=21usize {
        let step = (degree - 1) % 7;
        let octaves = ((degree - 1) / 7) as isize;
        assert_eq!(Degree { degree, adj: 0 }.to_interval(&Mode::Major), MAJOR[step] + 12 * octaves);
        assert_eq!(Degree { degree, adj: -3 }.to_interval(&Mode::Minor), MINOR[step] + 12 * octaves - 3);
    }
    assert_eq!(Degree { degree: 8, adj: 0 }.to_interval(&Mode::Major), 12);
    assert_eq!(Degree { degree: 9, adj: 0 }.to_interval(&Mode::Major), 14);
    assert_eq!(Degree { degree: 7, adj: -1 }.to_interval(&Mode::Major), 10);
}

#[test]
fn a_degree_found_for_an_interval_resolves_to_its_pitch_class() {
    for semitones in -30..30isize {
        for mode in [Mode::Major, Mode::Minor] {
            let degree = Interval { semitones }.to_degree(&mode);
            assert!(1 <= degree.degree && degree.degree <= 7);
            assert_eq!(degree.to_interval(&mode), semitones.rem_euclid(12));
        }
    }
}

#[test]
fn the_default_key_is_major_on_semitone_39() {
    let key = Key::default();
    assert_eq!(key.mode, Mode::Major);
    assert_eq!(key.root, Note { semitones: 39 });
}

#[test]
fn note_names_count_octaves_from_c() {
    assert_eq!(Note { semitones: 2 }.to_string(), "B0".to_string());
    assert_eq!(Note { semitones: 3 }.to_string(), "C1".to_string());
    assert_eq!(Note { semitones: 14 }.to_string(), "B1".to_string());
    assert_eq!(Note { semitones: 15 }.to_string(), "C2".to_string());
    assert_eq!(Note { semitones: -9 }.to_string(), "C0".to_string());
    assert_eq!(Note { semitones: -10 }.to_string(), "B-1".to_string());
    assert_eq!(Note { semitones: -21 }.to_string(), "C-1".to_string());
    assert_eq!(Note { semitones: 123 }.to_string(), "C11".to_string());
}

#[test]
fn note_names_read_back() {
    for semitones in -40..140isize {
        let note = Note { semitones };
        assert_eq!(Note::from_str(&note.to_string()), Ok(note));
    }
    assert_eq!(Note::from_str("C+3"), Ok(Note { semitones: 27 }));
    assert_eq!(Note::from_str("B-1"), Ok(Note { semitones: -10 }));
}

#[test]
fn a_bad_note_name_is_named() {
    assert_eq!(Note::from_str("H3"), Err(NoteParseError::InvalidName("H".to_string())));
    assert_eq!(Note::from_str("Cb3"), Err(NoteParseError::InvalidName("Cb".to_string())));
    assert_eq!(Note::from_str("c3"), Err(NoteParseError::InvalidName("c".to_string())));
    assert_eq!(Note::from_str("3"), Err(NoteParseError::InvalidName("".to_string())));
    assert_eq!(Note::from_str(""), Err(NoteParseError::InvalidName("".to_string())));
}

#[test]
fn a_bad_octave_is_a_parse_int_error() {
    assert_eq!(Note::from_str("C"), Err(NoteParseError::ParseIntError));
    assert_eq!(Note::from_str("C3x"), Err(NoteParseError::ParseIntError));
    assert_eq!(Note::from_str("C-"), Err(NoteParseError::ParseIntError));
    assert_eq!(Note::from_str("C 3"), Err(NoteParseError::ParseIntError));
    assert_eq!(Note::from_str("C99999999999999999999999999"), Err(NoteParseError::ParseIntError));
}

#[test]
fn interval_names_cover_the_octave() {
    let names = ["P1", "m2", "M2", "m3", "M3", "P4", "d5", "P5", "m6", "M6", "m7", "M7"];
    for (semitones, name) in names.iter().enumerate() {
        assert_eq!(Interval { semitones: semitones as isize }.to_string(), name.to_string());
        assert_eq!(Interval { semitones: semitones as isize + 24 }.to_string(), name.to_string());
        assert_eq!(Interval { semitones: semitones as isize - 12 }.to_string(), name.to_string());
        assert_eq!(Interval::from_str(name), Ok(Interval { semitones: semitones as isize }));
    }
}

#[test]
fn augmented_and_diminished_intervals_are_read() {
    let named = [
        ("d2", 0), ("A1", 1), ("d3", 2), ("A2", 3), ("d4", 4), ("A3", 5), ("A4", 6), ("d6", 7),
        ("A5", 8), ("d7", 9), ("A6", 10), ("d8", 11), ("P8", 12), ("A7", 12),
    ];
    for (name, semitones) in named {
        assert_eq!(Interval::from_str(name), Ok(Interval { semitones }));
    }
}

#[test]
fn a_bad_interval_name_is_named() {
    for text in ["", "P", "P9", "X1", "M1", "P55", "m5"] {
        assert_eq!(
            Interval::from_str(text),
            Err(IntervalParseError::InvalidInterval(text.to_string()))
        );
    }
}

#[test]
fn an_interval_is_made_from_semitones() {
    assert_eq!(Interval::from(-7), Interval { semitones: -7 });
    let interval: Interval = 5.into();
    assert_eq!(interval.semitones, 5);
}

#[test]
fn durations_count_ticks_in_four_four() {
    let all = [
        (Duration::Quarter, 4, 1, "1/4"),
        (Duration::Eighth, 8, 2, "1/8"),
        (Duration::Sixteenth, 16, 4, "1/16"),
        (Duration::ThirtySecond, 32, 8, "1/32"),
    ];
    for (duration, per_bar, per_beat, name) in all {
        assert_eq!(duration.ticks_per_bar(), per_bar);
        assert_eq!(duration.ticks_per_beat(), per_beat);
        assert_eq!(duration.ticks_per_bar(), 4 * duration.ticks_per_beat());
        assert_eq!(duration.to_string(), name.to_string());
    }
}

#[test]
fn modes_have_names() {
    assert_eq!(Mode::Major.to_string(), "Major".to_string());
    assert_eq!(Mode::Minor.to_string(), "Minor".to_string());
}

#[test]
fn notes_are_ordered_by_pitch() {
    let mut notes = vec![Note { semitones: 5 }, Note { semitones: -3 }, Note { semitones: 4 }];
    notes.sort();
    assert_eq!(notes, vec![Note { semitones: -3 }, Note { semitones: 4 }, Note { semitones: 5 }]);
    assert!(Note { semitones: 1 } < Note { semitones: 2 });
    assert!(Note { semitones: 2 } >= Note { semitones: 2 });
    assert_eq!(Note { semitones: 7 }.max(Note { semitones: 3 }), Note { semitones: 7 });
}
