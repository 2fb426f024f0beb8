use dust::{
    ChordSpec, Duration, Key, Mode, ModeTemplate, Note, Progression, ProgressionTemplate,
};

#[test]
fn mod_test_voice_leading() {
    let prog = Progression::new(
        vec![
            None,
            Some(ChordSpec::from_str("i").unwrap()),
            Some(ChordSpec::from_str("VI").unwrap()),
            Some(ChordSpec::from_str("III").unwrap()),
            Some(ChordSpec::from_str("v").unwrap()),
        ],
        Duration::Eighth,
    );
    let vl_prog = prog.voice_lead();
    let key = Key { root: Note::from_str("A3").unwrap(), mode: Mode::Minor };
    let expected = vec!["A3-C4-E4", "A3-C4-F4", "G3-C4-E4", "G3-B3-E4"];
    for (cs, ex) in vl_prog.chords().iter().zip(expected) {
        let chord = cs.chord_for_key(&key).to_string();
        assert_eq!(ex, chord);
    }
}

#[test]
fn template_test_chord_progression() {
    let bars = 4;
    let mode = Mode::Major;
    let template = ProgressionTemplate {
        major: ModeTemplate {
            patterns: vec![vec![
                ChordSpec::from_str("I").unwrap(),
                ChordSpec::from_str("V").unwrap(),
                ChordSpec::from_str("vi").unwrap(),
                ChordSpec::from_str("IV").unwrap(),
            ]],
            transitions: Vec::new(),
        },
        minor: ModeTemplate { patterns: vec![], transitions: Vec::new() },
    };
    let progression = template.gen_progression(&mode, bars, &Duration::Eighth);
    assert_eq!(progression.sequence.len(), bars * Duration::Eighth.ticks_per_bar());
}

#[test]
fn progression_test_chord_progression() {
    let bars = 4;
    let mode = Mode::Major;
    let resolution = 8;
    let template = ProgressionTemplate {
        major: ModeTemplate {
            patterns: vec![vec![
                ChordSpec::from_str("I").unwrap(),
                ChordSpec::from_str("V").unwrap(),
                ChordSpec::from_str("vi").unwrap(),
                ChordSpec::from_str("IV").unwrap(),
            ]],
            transitions: Vec::new(),
        },
        minor: ModeTemplate { patterns: vec![], transitions: Vec::new() },
    };
    let progression = template.gen_progression(&mode, bars, &Duration::Eighth);
    assert_eq!(progression.sequence.len(), bars * resolution);
}
