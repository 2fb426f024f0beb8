use dust::{Degree, Interval, Mode};

#[test]
fn interval_test_interval_names() {
    let intv = Interval { semitones: 0 };
    assert_eq!(intv.to_string(), "P1".to_string());

    let intv = Interval { semitones: 7 };
    assert_eq!(intv.to_string(), "P5".to_string());

    let intv = Interval { semitones: 12 };
    assert_eq!(intv.to_string(), "P1".to_string());

    let intv = Interval { semitones: -1 };
    assert_eq!(intv.to_string(), "M7".to_string());
}

#[test]
fn interval_test_parse_interval() {
    let intv: Interval = Interval::from_str("P1").unwrap();
    assert_eq!(intv, Interval { semitones: 0 });

    let intv: Interval = Interval::from_str("P5").unwrap();
    assert_eq!(intv, Interval { semitones: 7 });

    let intv: Interval = Interval::from_str("P8").unwrap();
    assert_eq!(intv, Interval { semitones: 12 });

    let intv: Interval = Interval::from_str("M3").unwrap();
    assert_eq!(intv, Interval { semitones: 4 });
}

#[test]
fn test_interval_names() {
    let intv = Interval { semitones: 0 };
    assert_eq!(intv.to_string(), "P1".to_string());

    let intv = Interval { semitones: 7 };
    assert_eq!(intv.to_string(), "P5".to_string());

    let intv = Interval { semitones: 12 };
    assert_eq!(intv.to_string(), "P1".to_string());

    let intv = Interval { semitones: -1 };
    assert_eq!(intv.to_string(), "M7".to_string());
}

#[test]
fn test_parse_interval() {
    let intv: Interval = Interval::from_str("P1").unwrap();
    assert_eq!(intv, Interval { semitones: 0 });

    let intv: Interval = Interval::from_str("P5").unwrap();
    assert_eq!(intv, Interval { semitones: 7 });

    let intv: Interval = Interval::from_str("P8").unwrap();
    assert_eq!(intv, Interval { semitones: 12 });

    let intv: Interval = Interval::from_str("M3").unwrap();
    assert_eq!(intv, Interval { semitones: 4 });
}

#[test]
fn test_to_degree_major() {
    let mode = Mode::Major;
    let intv = Interval { semitones: 0 };
    assert_eq!(intv.to_degree(&mode), Degree { degree: 1, adj: 0 });

    let intv = Interval { semitones: 1 };
    assert_eq!(intv.to_degree(&mode), Degree { degree: 1, adj: 1 });

    let intv = Interval { semitones: 2 };
    assert_eq!(intv.to_degree(&mode), Degree { degree: 2, adj: 0 });

    let intv = Interval { semitones: 3 };
    assert_eq!(intv.to_degree(&mode), Degree { degree: 2, adj: 1 });

    let intv = Interval { semitones: 4 };
    assert_eq!(intv.to_degree(&mode), Degree { degree: 3, adj: 0 });

    let intv = Interval { semitones: 5 };
    assert_eq!(intv.to_degree(&mode), Degree { degree: 4, adj: 0 });

    let intv = Interval { semitones: 6 };
    assert_eq!(intv.to_degree(&mode), Degree { degree: 4, adj: 1 });

    let intv = Interval { semitones: 7 };
    assert_eq!(intv.to_degree(&mode), Degree { degree: 5, adj: 0 });

    let intv = Interval { semitones: 8 };
    assert_eq!(intv.to_degree(&mode), Degree { degree: 5, adj: 1 });

    let intv = Interval { semitones: 9 };
    assert_eq!(intv.to_degree(&mode), Degree { degree: 6, adj: 0 });

    let intv = Interval { semitones: 10 };
    assert_eq!(intv.to_degree(&mode), Degree { degree: 6, adj: 1 });

    let intv = Interval { semitones: 11 };
    assert_eq!(intv.to_degree(&mode), Degree { degree: 7, adj: 0 });

    let intv = Interval { semitones: 12 };
    assert_eq!(intv.to_degree(&mode), Degree { degree: 1, adj: 0 });

    let intv = Interval { semitones: -12 };
    assert_eq!(intv.to_degree(&mode), Degree { degree: 1, adj: 0 });
}

#[test]
fn test_to_degree_minor() {
    let mode = Mode::Minor;
    let intv = Interval { semitones: 0 };
    assert_eq!(intv.to_degree(&mode), Degree { degree: 1, adj: 0 });

    let intv = Interval { semitones: 1 };
    assert_eq!(intv.to_degree(&mode), Degree { degree: 2, adj: 0 });

    let intv = Interval { semitones: 2 };
    assert_eq!(intv.to_degree(&mode), Degree { degree: 2, adj: 1 });

    let intv = Interval { semitones: 3 };
    assert_eq!(intv.to_degree(&mode), Degree { degree: 3, adj: 0 });

    let intv = Interval { semitones: 4 };
    assert_eq!(intv.to_degree(&mode), Degree { degree: 3, adj: 1 });

    let intv = Interval { semitones: 5 };
    assert_eq!(intv.to_degree(&mode), Degree { degree: 4, adj: 0 });

    let intv = Interval { semitones: 6 };
    assert_eq!(intv.to_degree(&mode), Degree { degree: 4, adj: 1 });

    let intv = Interval { semitones: 7 };
    assert_eq!(intv.to_degree(&mode), Degree { degree: 5, adj: 0 });

    let intv = Interval { semitones: 8 };
    assert_eq!(intv.to_degree(&mode), Degree { degree: 6, adj: 0 });

    let intv = Interval { semitones: 9 };
    assert_eq!(intv.to_degree(&mode), Degree { degree: 6, adj: 1 });

    let intv = Interval { semitones: 10 };
    assert_eq!(intv.to_degree(&mode), Degree { degree: 7, adj: 0 });

    let intv = Interval { semitones: 11 };
    assert_eq!(intv.to_degree(&mode), Degree { degree: 7, adj: 1 });

    let intv = Interval { semitones: 12 };
    assert_eq!(intv.to_degree(&mode), Degree { degree: 1, adj: 0 });

    let intv = Interval { semitones: -12 };
    assert_eq!(intv.to_degree(&mode), Degree { degree: 1, adj: 0 });
}
