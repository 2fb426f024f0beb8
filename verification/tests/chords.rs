use dust::{voice_lead, Chord, ChordSpec, Key, Mode, Note, Triad};
#[test]
fn chord_test_chord_notes() {
    let chord = Chord::new(
        Note::from_str("C3").unwrap(),
        vec![0, 4, 7]);
    let notes = chord.notes();
    let expected = vec![Note {
        semitones: 27
    }, Note {
        semitones: 31
    }, Note {
        semitones: 34
    }];
    assert_eq!(notes.len(), expected.len());
    for (a, b) in notes.iter().zip(expected) {
        assert_eq!(*a, b);
    }
}

#[test]
fn test_chord_notes() {
    let chord = Chord::new(
        Note::from_str("C3").unwrap(),
        vec![0, 4, 7]);
    let notes = chord.notes();
    let expected = vec![Note {
        semitones: 27
    }, Note {
        semitones: 31
    }, Note {
        semitones: 34
    }];
    assert_eq!(notes.len(), expected.len());
    for (a, b) in notes.iter().zip(expected) {
        assert_eq!(*a, b);
    }
}

#[test]
fn test_chord_spec_names() {
    let spec = ChordSpec::new(1, Mode::Major);
    assert_eq!(spec.to_string(), "I".to_string());

    let spec = ChordSpec::new(3, Mode::Minor);
    assert_eq!(spec.to_string(), "iii".to_string());

    let spec = ChordSpec::new(3, Mode::Minor).triad(Triad::Diminished);
    assert_eq!(spec.to_string(), "iii-".to_string());

    let spec = ChordSpec::new(3, Mode::Major).triad(Triad::Augmented);
    assert_eq!(spec.to_string(), "III+".to_string());

    let spec = ChordSpec::new(3, Mode::Minor).triad(Triad::Diminished)
        .add(7, 0);
    assert_eq!(spec.to_string(), "iii-:7".to_string());

    let spec = ChordSpec::new(3, Mode::Minor).triad(Triad::Diminished)
        .add(7, 0).bass(5, 0);
    assert_eq!(spec.to_string(), "iii-:7/5".to_string());

    let spec = ChordSpec::new(3, Mode::Minor).triad(Triad::Diminished)
        .add(7, 0).bass(5, 0).key_of(2, Mode::Minor);
    assert_eq!(spec.to_string(), "iii-:7/5~ii".to_string());

    let spec = ChordSpec::new(3, Mode::Minor).triad(Triad::Diminished)
        .add(7, 0).add(9, 0).bass(5, 0).key_of(2, Mode::Minor);
    assert_eq!(spec.to_string(), "iii-:7,9/5~ii".to_string());

    let spec = ChordSpec::new(1, Mode::Major).triad(Triad::Power);
    assert_eq!(spec.to_string(), "I5".to_string());

    let spec = ChordSpec::new(7, Mode::Major).adj(-1);
    assert_eq!(spec.to_string(), "VIIb".to_string());

    let spec = ChordSpec::new(1, Mode::Major).shift(1);
    assert_eq!(spec.to_string(), "I>1".to_string());

    let spec = ChordSpec::new(1, Mode::Major).shift(-1);
    assert_eq!(spec.to_string(), "I<1".to_string());

    let spec = ChordSpec::new(1, Mode::Major).inversion(1);
    assert_eq!(spec.to_string(), "I%1".to_string());
}

#[test]
fn test_chord_intervals() {
    // Reference: <https://en.wikipedia.org/wiki/List_of_chords>
    let examples = vec![
        ("I", vec![0, 4, 7]),              // Major triad, e.g. C
        ("I:6", vec![0, 4, 7, 9]),         // Major 6th, e.g. C6
        ("I:6,9", vec![0, 4, 7, 9, 14]),   // Major 6th/9th, e.g. C6/9
        ("I:7", vec![0, 4, 7, 11]),        // Major 7th, e.g. Cmaj7
        ("I:7,9", vec![0, 4, 7, 11, 14]),  // Major 9th, e.g. Cmaj7/9

        ("I:b7", vec![0, 4, 7, 10]),       // Dominant 7th, e.g. C7
        ("I:b7,9", vec![0, 4, 7, 10, 14]), // Dominant 9th, e.g. C7/9

        ("I:b9", vec![0, 4, 7, 13]),       // Flat 9th, e.g. Cb9
        ("I:9", vec![0, 4, 7, 14]),        // Added 9th, e.g. Cadd9

        ("I+", vec![0, 4, 8]),             // Augmented triad, e.g. Caug
        ("I+:b7", vec![0, 4, 8, 10]),      // Augmented 7th, e.g. Caug7
        ("I+:9", vec![0, 4, 8, 14]),       // Augmented 9th, e.g. Caug9

        ("I_", vec![0, 2, 7]),             // Sus 2, e.g. Csus2
        ("I^", vec![0, 5, 7]),             // Sus 4, e.g. Csus4
        ("I^:b7,9", vec![0, 5, 7, 10, 14]),// 9th Sus 4, e.g. C9sus4

        ("I5", vec![0, 7]),                // Power, e.g. C5

        ("i", vec![0, 3, 7]),              // Minor triad, e.g. Cm
        ("i:#6", vec![0, 3, 7, 9]),        // Minor 6th, e.g. Cm6
        ("i:7", vec![0, 3, 7, 10]),        // Minor 7th, e.g. Cm7
        ("i:7,#9", vec![0, 3, 7, 10, 14]), // Minor 9th, e.g. Cm7/9
        ("i:#7", vec![0, 3, 7, 11]),       // Minor 9th, e.g. Cm7+
        ("i:#7,#9", vec![0, 3, 7, 11, 14]),// Minor 9th, e.g. Cm7+/9

        ("i-", vec![0, 3, 6]),             // Diminished triad, e.g. Cdim
        ("i-:b7", vec![0, 3, 6, 9]),       // Diminished 7th, e.g. Cdim7
        ("i-:7", vec![0, 3, 6, 10]),       // Half-Diminished 7th, e.g. C half-diminished 7 or Cm7b5
    ];
    for (name, expected) in examples {
        println!("Name: {:?}", name);
        let chord: ChordSpec = ChordSpec::from_str(name).unwrap();
        let intervals = chord.intervals();
        println!(" Intervals: {:?}", intervals);
        println!(" Expected: {:?}", expected);
        assert_eq!(intervals.len(), expected.len());
        for (a, b) in intervals.iter().zip(expected) {
            assert_eq!(*a, b);
        }
    }
}

#[test]
fn test_chord_for_keys() {
    let key = Key {
        root: Note::from_str("C3").unwrap(),
        mode: Mode::Major,
    };

    let spec = ChordSpec::new(1, Mode::Major).add(7, 0);
    let chord = spec.chord_for_key(&key);
    let notes = chord.notes();
    let expected = vec![Note {
        semitones: 27
    }, Note {
        semitones: 31
    }, Note {
        semitones: 34
    }, Note {
        semitones: 38
    }];
    assert_eq!(notes.len(), expected.len());
    for (a, b) in notes.iter().zip(expected) {
        assert_eq!(*a, b);
    }
}

#[test]
fn test_chord_for_keys_inversion() {
    let key = Key {
        root: Note::from_str("C3").unwrap(),
        mode: Mode::Major,
    };

    let spec = ChordSpec::new(1, Mode::Major).bass(3, 0);
    let chord = spec.chord_for_key(&key);
    let notes = chord.notes();
    let expected = vec![Note {
        semitones: 31
    }, Note {
        semitones: 34
    }, Note {
        semitones: 39
    }];
    assert_eq!(notes.len(), expected.len());
    for (a, b) in notes.iter().zip(expected) {
        assert_eq!(*a, b);
    }
}

#[test]
fn test_chord_for_keys_rel_key() {
    let key = Key {
        root: Note::from_str("C3").unwrap(),
        mode: Mode::Major,
    };

    // Secondary dominant, this is V7/V in conventional notation
    let spec: ChordSpec = ChordSpec::from_str("V:b7~V").unwrap();
    let chord = spec.chord_for_key(&key);
    let notes = chord.notes();
    let expected = vec![Note {
        semitones: 41
    }, Note {
        semitones: 45
    }, Note {
        semitones: 48
    }, Note {
        semitones: 51
    }];
    assert_eq!(notes.len(), expected.len());
    for (a, b) in notes.iter().zip(expected) {
        assert_eq!(*a, b);
    }
}

#[test]
fn test_chord_for_keys_adj() {
    let key = Key {
        root: Note::from_str("C3").unwrap(),
        mode: Mode::Major,
    };

    let spec: ChordSpec = ChordSpec::from_str("VIIb").unwrap();
    let chord = spec.chord_for_key(&key);
    let notes = chord.notes();
    let expected = vec![Note {
        semitones: 37
    }, Note {
        semitones: 41
    }, Note {
        semitones: 44
    }];
    assert_eq!(notes.len(), expected.len());
    for (a, b) in notes.iter().zip(expected) {
        assert_eq!(*a, b);
    }
}

#[test]
fn test_parse_chord_spec() {
    let name = "III";
    let spec: ChordSpec = ChordSpec::from_str(name).unwrap();
    let expected = ChordSpec::new(3, Mode::Major);
    assert_eq!(spec, expected);

    let name = "III:7,9";
    let spec: ChordSpec = ChordSpec::from_str(name).unwrap();
    let expected = ChordSpec::new(3, Mode::Major).add(7, 0).add(9, 0);
    assert_eq!(spec, expected);

    let name = "iii:7,9";
    let spec: ChordSpec = ChordSpec::from_str(name).unwrap();
    let expected = ChordSpec::new(3, Mode::Minor).add(7, 0).add(9, 0);
    assert_eq!(spec, expected);

    let name = "iii-:7,9";
    let spec: ChordSpec = ChordSpec::from_str(name).unwrap();
    let expected = ChordSpec::new(3, Mode::Minor).triad(Triad::Diminished).add(7, 0).add(9, 0);
    assert_eq!(spec, expected);

    let name = "III+:7,9";
    let spec: ChordSpec = ChordSpec::from_str(name).unwrap();
    let expected = ChordSpec::new(3, Mode::Major).triad(Triad::Augmented).add(7, 0).add(9, 0);
    assert_eq!(spec, expected);

    let name = "III+:7,9/3";
    let spec: ChordSpec = ChordSpec::from_str(name).unwrap();
    let expected = ChordSpec::new(3, Mode::Major).triad(Triad::Augmented).add(7, 0).add(9, 0).bass(3, 0);
    assert_eq!(spec, expected);

    let name = "V_:7,9~ii";
    let spec: ChordSpec = ChordSpec::from_str(name).unwrap();
    let expected = ChordSpec::new(5, Mode::Major).triad(Triad::Sus2).add(7, 0).add(9, 0).key_of(2, Mode::Minor);
    assert_eq!(spec, expected);

    let name = "V^:7,9/5~ii";
    let spec: ChordSpec = ChordSpec::from_str(name).unwrap();
    let expected = ChordSpec::new(5, Mode::Major).triad(Triad::Sus4).add(7, 0).add(9, 0).key_of(2, Mode::Minor).bass(5, 0);
    assert_eq!(spec, expected);

    let name = "VIIb";
    let spec: ChordSpec = ChordSpec::from_str(name).unwrap();
    let expected = ChordSpec::new(7, Mode::Major).adj(-1);
    assert_eq!(spec, expected);

    let name = "I5";
    let spec: ChordSpec = ChordSpec::from_str(name).unwrap();
    let expected = ChordSpec::new(1, Mode::Major).triad(Triad::Power);
    assert_eq!(spec, expected);

    let name = "I>1";
    let spec: ChordSpec = ChordSpec::from_str(name).unwrap();
    let expected = ChordSpec::new(1, Mode::Major).shift(1);
    assert_eq!(spec, expected);

    let name = "I<1";
    let spec: ChordSpec = ChordSpec::from_str(name).unwrap();
    let expected = ChordSpec::new(1, Mode::Major).shift(-1);
    assert_eq!(spec, expected);
}

#[test]
fn test_chord_inversions() {
    let key = Key {
        root: Note::from_str("C3").unwrap(),
        mode: Mode::Major,
    };

    let cs: ChordSpec = ChordSpec::from_str("I").unwrap();
    let chord = cs.chord_for_key(&key);
    let notes: Vec<String> = chord.notes()
        .iter().map(|n| n.to_string()).collect();
    assert_eq!(notes, vec!["C3", "E3", "G3"]);

    // First inversion
    let cs: ChordSpec = ChordSpec::from_str("I/3").unwrap();
    let chord = cs.chord_for_key(&key);
    let notes: Vec<String> = chord.notes()
        .iter().map(|n| n.to_string()).collect();
    assert_eq!(notes, vec!["E3", "G3", "C4"]);

    // Second inversion
    let cs: ChordSpec = ChordSpec::from_str("I/5").unwrap();
    let chord = cs.chord_for_key(&key);
    let notes: Vec<String> = chord.notes()
        .iter().map(|n| n.to_string()).collect();
    assert_eq!(notes, vec!["G3", "C4", "E4"]);

    // First inversion
    let cs: ChordSpec = ChordSpec::from_str("I%1").unwrap();
    let chord = cs.chord_for_key(&key);
    let notes: Vec<String> = chord.notes()
        .iter().map(|n| n.to_string()).collect();
    assert_eq!(notes, vec!["E3", "G3", "C4"]);

    // Second inversion
    let cs: ChordSpec = ChordSpec::from_str("I%2").unwrap();
    let chord = cs.chord_for_key(&key);
    let notes: Vec<String> = chord.notes()
        .iter().map(|n| n.to_string()).collect();
    assert_eq!(notes, vec!["G3", "C4", "E4"]);

    // Iterate over inversions
    let expected = vec![
        vec!["C3", "E3", "G3"],
        vec!["E3", "G3", "C4"],
        vec!["G3", "C4", "E4"],
    ];
    let cs: ChordSpec = ChordSpec::from_str("I").unwrap();
    for (inv, exp) in cs.inversions().iter().zip(expected) {
        let chord = inv.chord_for_key(&key);
        let notes: Vec<String> = chord.notes()
            .iter().map(|n| n.to_string()).collect();
        assert_eq!(notes, exp);
    }
}

#[test]
fn test_cluster_chords() {
    let key = Key {
        root: Note::from_str("C3").unwrap(),
        mode: Mode::Major,
    };

    let cs: ChordSpec = ChordSpec::from_str("I:2").unwrap();
    let chord = cs.chord_for_key(&key);
    let notes: Vec<String> = chord.notes()
        .iter().map(|n| n.to_string()).collect();
    assert_eq!(notes, vec!["C3", "D3", "E3", "G3"]);
}

#[test]
fn test_chord_octaves() {
    let key = Key {
        root: Note::from_str("C3").unwrap(),
        mode: Mode::Major,
    };

    let cs: ChordSpec = ChordSpec::from_str("I>1").unwrap();
    let chord = cs.chord_for_key(&key);
    let notes: Vec<String> = chord.notes()
        .iter().map(|n| n.to_string()).collect();
    assert_eq!(notes, vec!["C4", "E4", "G4"]);

    let cs: ChordSpec = ChordSpec::from_str("I:2>1").unwrap();
    let chord = cs.chord_for_key(&key);
    let notes: Vec<String> = chord.notes()
        .iter().map(|n| n.to_string()).collect();
    assert_eq!(notes, vec!["C4", "D4", "E4", "G4"]);

    let cs: ChordSpec = ChordSpec::from_str("I<1").unwrap();
    let chord = cs.chord_for_key(&key);
    let notes: Vec<String> = chord.notes()
        .iter().map(|n| n.to_string()).collect();
    assert_eq!(notes, vec!["C2", "E2", "G2"]);

    let cs: ChordSpec = ChordSpec::from_str("I:2<1").unwrap();
    let chord = cs.chord_for_key(&key);
    let notes: Vec<String> = chord.notes()
        .iter().map(|n| n.to_string()).collect();
    assert_eq!(notes, vec!["C2", "D2", "E2", "G2"]);
}

#[test]
fn test_chord_distances() {
    let key = Key {
        root: Note::from_str("C3").unwrap(),
        mode: Mode::Major,
    };

    let cs: ChordSpec = ChordSpec::from_str("I").unwrap();

    // Dist to same chord should be 0.
    let other: ChordSpec = ChordSpec::from_str("I").unwrap();
    let dist = cs.distance(&other);
    assert_eq!(dist, 0);

    // For reference
    let chord = other.chord_for_key(&key);
    let notes: Vec<String> = chord.notes()
        .iter().map(|n| n.to_string()).collect();
    assert_eq!(notes, vec!["C3", "E3", "G3"]);

    // Inversions
    let other: ChordSpec = ChordSpec::from_str("IV").unwrap();
    let dist_0 = cs.distance(&other);
    let chord = other.chord_for_key(&key);
    let notes: Vec<String> = chord.notes()
        .iter().map(|n| n.to_string()).collect();
    assert_eq!(notes, vec!["F3", "A3", "C4"]);

    let other: ChordSpec = ChordSpec::from_str("IV%1<1").unwrap();
    let dist_1 = cs.distance(&other);
    let chord = other.chord_for_key(&key);
    let notes: Vec<String> = chord.notes()
        .iter().map(|n| n.to_string()).collect();
    assert_eq!(notes, vec!["A2", "C3", "F3"]);

    let other: ChordSpec = ChordSpec::from_str("IV%2<1").unwrap();
    let dist_2 = cs.distance(&other);
    let chord = other.chord_for_key(&key);
    let notes: Vec<String> = chord.notes()
        .iter().map(|n| n.to_string()).collect();
    assert_eq!(notes, vec!["C3", "F3", "A3"]);

    assert!(dist_0 > dist_1);
    assert!(dist_0 > dist_2);
    assert!(dist_1 > dist_2);
}

#[test]
fn chord_test_voice_leading() {
    let prog = vec![
        ChordSpec::from_str("i").unwrap(),
        ChordSpec::from_str("VI").unwrap(),
        ChordSpec::from_str("III").unwrap(),
        ChordSpec::from_str("v").unwrap(),
    ];
    let vl_prog = voice_lead(&prog);
    let key = Key {
        root: Note::from_str("A3").unwrap(),
        mode: Mode::Minor,
    };
    let expected = vec![
        "A3-C4-E4",
        "A3-C4-F4",
        "G3-C4-E4",
        "G3-B3-E4"
    ];
    for (cs, ex) in vl_prog.iter().zip(expected) {
        let chord = cs.chord_for_key(&key).to_string();
        assert_eq!(ex, chord);
    }
}
