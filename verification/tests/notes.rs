use dust::{Interval, Note};

#[test]
fn test_note_names() {
    let note = Note { semitones: 0 };
    assert_eq!(note.to_string(), "A0".to_string());

    let note = Note { semitones: 1 };
    assert_eq!(note.to_string(), "Bb0".to_string());

    let note = Note { semitones: 2 };
    assert_eq!(note.to_string(), "B0".to_string());

    let note = Note { semitones: 3 };
    assert_eq!(note.to_string(), "C1".to_string());

    let note = Note { semitones: 27 };
    assert_eq!(note.to_string(), "C3".to_string());

    let note = Note { semitones: -1 };
    assert_eq!(note.to_string(), "Ab0".to_string());
}

#[test]
fn test_parse_note() {
    let name = "A0";
    let note: Note = Note::from_str(name).unwrap();
    assert_eq!(note.semitones, 0);

    let name = "Bb0";
    let note: Note = Note::from_str(name).unwrap();
    assert_eq!(note.semitones, 1);

    let name = "B0";
    let note: Note = Note::from_str(name).unwrap();
    assert_eq!(note.semitones, 2);

    let name = "C1";
    let note: Note = Note::from_str(name).unwrap();
    assert_eq!(note.semitones, 3);

    let name = "C3";
    let note: Note = Note::from_str(name).unwrap();
    assert_eq!(note.semitones, 27);

    let name = "Ab0";
    let note: Note = Note::from_str(name).unwrap();
    assert_eq!(note.semitones, -1);
}

#[test]
fn test_interval_math() {
    let note = Note { semitones: 10 };
    let intv = Interval { semitones: 2 };

    let new_note = note + intv;
    assert_eq!(new_note.semitones, 12);

    let new_note = note - intv;
    assert_eq!(new_note.semitones, 8);
}
