use dust::{Degree, Interval, Key, Mode, Note};

#[test]
fn test_interval_major() {
    let key = Key { root: Note::from_str("C3").unwrap(), mode: Mode::Major };

    let interval = key.interval(&Degree { degree: 1, adj: 0 });
    assert_eq!(interval, Interval { semitones: 0 });

    let interval = key.interval(&Degree { degree: 2, adj: 0 });
    assert_eq!(interval, Interval { semitones: 2 });

    let interval = key.interval(&Degree { degree: 8, adj: 0 });
    assert_eq!(interval, Interval { semitones: 0 });

    let interval = key.interval(&Degree { degree: 9, adj: 0 });
    assert_eq!(interval, Interval { semitones: 2 });
}

#[test]
fn test_interval_minor() {
    let key = Key { root: Note::from_str("C3").unwrap(), mode: Mode::Minor };

    let interval = key.interval(&Degree { degree: 1, adj: 0 });
    assert_eq!(interval, Interval { semitones: 0 });

    let interval = key.interval(&Degree { degree: 2, adj: 0 });
    assert_eq!(interval, Interval { semitones: 1 });

    let interval = key.interval(&Degree { degree: 8, adj: 0 });
    assert_eq!(interval, Interval { semitones: 0 });

    let interval = key.interval(&Degree { degree: 9, adj: 0 });
    assert_eq!(interval, Interval { semitones: 1 });
}
