use dust::{voice_lead, Chord, ChordSpec, Key, Mode, Note, Triad};

fn chord(text: &str) -> ChordSpec {
    ChordSpec::from_str(text).unwrap()
}

#[test]
fn intervals_stack_raise_rotate_and_move() {
    let spec = chord("iibb:7,#9/5%1<1~V");
    assert_eq!(spec.intervals(), vec![22, 14, 18, 22, 31]);
    assert_eq!(spec.intervals_from_key_root(), vec![9, 1, 5, 9, 18]);
}

#[test]
fn extension_degrees_above_seven_lie_octaves_up() {
    assert_eq!(chord("I:8,15").intervals(), vec![0, 4, 7, 12, 24]);
    assert_eq!(chord("i:8,b9").intervals(), vec![0, 3, 7, 12, 12]);
}

#[test]
fn an_inversion_beyond_the_chord_raises_every_note() {
    assert_eq!(chord("I%3").intervals(), vec![12, 16, 19]);
    assert_eq!(chord("I%7").intervals(), vec![12, 16, 19]);
    assert_eq!(chord("I5%1").intervals(), vec![7, 12]);
}

#[test]
fn explicit_triads_do_not_depend_on_the_mode() {
    for (triad, intervals) in [
        (Triad::Diminished, vec![0, 3, 6]),
        (Triad::Augmented, vec![0, 4, 8]),
        (Triad::Sus2, vec![0, 2, 7]),
        (Triad::Sus4, vec![0, 5, 7]),
        (Triad::Power, vec![0, 7]),
    ] {
        assert_eq!(ChordSpec::new(1, Mode::Major).triad(triad).intervals(), intervals);
        assert_eq!(ChordSpec::new(1, Mode::Minor).triad(triad).intervals(), intervals);
    }
    assert_eq!(ChordSpec::new(1, Mode::Major).intervals(), vec![0, 4, 7]);
    assert_eq!(ChordSpec::new(1, Mode::Minor).intervals(), vec![0, 3, 7]);
}

#[test]
fn extensions_resolve_in_the_mode_of_the_relative_key() {
    // The 7 of a minor chord is 10 semitones; under a major relative key it is 11.
    assert_eq!(chord("i:7").intervals(), vec![0, 3, 7, 10]);
    assert_eq!(chord("i:7~I").intervals(), vec![0, 3, 7, 11]);
    // The relative key moves the chord by its degree in the chord's own mode.
    assert_eq!(chord("i~III").intervals(), vec![3, 6, 10]);
    assert_eq!(chord("I~III").intervals(), vec![4, 8, 11]);
}

#[test]
fn the_distance_to_the_same_chord_is_zero() {
    for text in ["I", "vi:7,9", "IV/5", "iibb:7,#9/5%1<1~V"] {
        assert_eq!(chord(text).distance(&chord(text)), 0);
    }
}

#[test]
fn distance_claims_the_nearest_free_note_in_order() {
    assert_eq!(chord("I").distance(&chord("IV")), 15);
    assert_eq!(chord("I").distance(&chord("IV%1<1")), 11);
    assert_eq!(chord("I").distance(&chord("IV%2<1")), 3);
    assert_eq!(chord("I").distance(&chord("V")), 21);
}

#[test]
fn notes_for_which_none_is_left_do_not_move() {
    assert_eq!(chord("I:7").distance(&chord("I5")), 3);
    assert_eq!(chord("I5").distance(&chord("I:7")), 0);
}

#[test]
fn inversions_put_the_bass_on_each_interval() {
    let inversions = chord("I").inversions();
    assert_eq!(inversions, vec![chord("I/1"), chord("I/3"), chord("I/5")]);
    let inversions = chord("i:7").inversions();
    assert_eq!(inversions, vec![chord("i:7/1"), chord("i:7/3"), chord("i:7/5"), chord("i:7/7")]);
}

#[test]
fn an_inversion_on_a_chromatic_tone_raises_the_degree_below() {
    // The minor third above a major root lies a semitone above degree 2.
    let inversions = ChordSpec::new(1, Mode::Major).triad(Triad::Diminished).inversions();
    assert_eq!(
        inversions.iter().map(|spec| spec.bass_degree).collect::<Vec<_>>(),
        vec![
            Some(dust::Degree { degree: 1, adj: 0 }),
            Some(dust::Degree { degree: 2, adj: 1 }),
            Some(dust::Degree { degree: 4, adj: 1 }),
        ]
    );
    assert_eq!(inversions[1].to_string(), "i-/#2".to_string());
    assert_eq!(inversions[1].intervals(), vec![12, 3, 6]);
}

#[test]
fn voice_leading_keeps_the_first_chord_and_the_length() {
    assert_eq!(voice_lead(&vec![]), vec![]);
    assert_eq!(voice_lead(&vec![chord("ii:7")]), vec![chord("ii:7")]);
    let led = voice_lead(&vec![chord("I"), chord("V"), chord("IV")]);
    assert_eq!(led, vec![chord("I"), chord("V/3<1"), chord("IV/3<1")]);
    let key = Key { root: Note { semitones: 27 }, mode: Mode::Major };
    let pitches: Vec<Vec<isize>> = led
        .iter()
        .map(|spec| spec.chord_for_key(&key).notes().iter().map(|n| n.semitones).collect())
        .collect();
    assert_eq!(pitches, vec![vec![27, 31, 34], vec![26, 29, 34], vec![24, 27, 32]]);
}

#[test]
fn chord_notes_are_sorted_and_keep_duplicates() {
    let chord = Chord::new(Note { semitones: 10 }, vec![7, 0, 4, 0, -3]);
    let pitches: Vec<isize> = chord.notes().iter().map(|n| n.semitones).collect();
    assert_eq!(pitches, vec![7, 10, 10, 14, 17]);
    assert_eq!(chord.describe_notes(), vec!["E1", "G1", "G1", "B1", "D2"].iter().map(|s| s.to_string()).collect::<Vec<String>>());
    assert_eq!(chord.to_string(), "E1-G1-G1-B1-D2".to_string());
    assert_eq!(Chord::new(Note { semitones: 0 }, vec![]).to_string(), "".to_string());
    assert_eq!(Chord::new(Note { semitones: 0 }, vec![]).notes(), vec![]);
}

#[test]
fn chords_within_the_bounds_are_in_range() {
    assert!(chord("I").is_in_range());
    assert!(chord("iibb:7,#9/5%1<1~V").is_in_range());
    assert!(chord("I:65536").is_in_range());
    assert!(!chord("I:65537").is_in_range());
    assert!(chord("I>5461").is_in_range());
    assert!(!chord("I>5462").is_in_range());
    assert!(!chord("I/70000").is_in_range());
}

#[test]
fn intervals_beyond_the_machine_are_told() {
    assert!(chord("iibb:7,#9/5%1<1~V").intervals_fit());
    assert!(chord("I:65537").intervals_fit());
    assert!(!ChordSpec::new(1, Mode::Major).add(7, isize::MAX).intervals_fit());
    assert!(ChordSpec::new(1, Mode::Major).add(1, isize::MAX).intervals_fit());
    assert!(!ChordSpec::new(1, Mode::Major).add(1, isize::MAX).inversion(4).intervals_fit());
    assert!(ChordSpec::new(1, Mode::Major).adj(isize::MAX).intervals_fit());
    assert!(!ChordSpec::new(1, Mode::Major).adj(isize::MAX).intervals_from_key_root_fit());
    assert!(ChordSpec::new(1, Mode::Major).adj(isize::MAX - 7).intervals_from_key_root_fit());
    assert!(!ChordSpec::new(1, Mode::Major).add(usize::MAX, 0).intervals_fit());
}

#[test]
fn a_distance_beyond_the_machine_is_told() {
    assert_eq!(chord("I").checked_distance(&chord("IV")), Some(15));
    assert_eq!(chord("I:7").checked_distance(&chord("I5")), Some(3));
    let far = ChordSpec::new(1, Mode::Major).adj(isize::MAX - 7);
    let near = ChordSpec::new(1, Mode::Major).adj(isize::MIN);
    assert_eq!(far.checked_distance(&far), Some(0));
    assert_eq!(far.checked_distance(&near), None);
    assert_eq!(chord("I").checked_distance(&ChordSpec::new(1, Mode::Major).adj(isize::MAX)), None);
    let high = ChordSpec::new(1, Mode::Major).triad(Triad::Power).adj(isize::MAX - 7);
    let low = ChordSpec::new(1, Mode::Major).triad(Triad::Power).adj(isize::MIN);
    assert_eq!(high.checked_distance(&low), None);
    assert_eq!(low.checked_distance(&low), Some(0));
}

#[test]
fn inversions_need_no_bounds() {
    let wide = ChordSpec::new(1, Mode::Major).add(usize::MAX, isize::MIN);
    let inversions = wide.inversions();
    assert_eq!(inversions.len(), 4);
    assert_eq!(inversions[0].bass_degree, Some(dust::Degree { degree: 1, adj: 0 }));
    assert!(chord("I:7").is_voiceable());
    assert!(!chord("I>5461").is_voiceable());
}
