use dust::{
    numeral_to_index, numeral_to_mode, ChordParseError, ChordSpec, Degree, DegreeParseError,
    Mode, Triad,
};

fn round_trip(spec: ChordSpec, text: &str) {
    assert_eq!(spec.to_string(), text.to_string());
    assert_eq!(ChordSpec::from_str(text).unwrap(), spec);
}

#[test]
fn rendering_then_parsing_gives_the_chord_back() {
    round_trip(ChordSpec::new(1, Mode::Major), "I");
    round_trip(ChordSpec::new(7, Mode::Minor), "vii");
    round_trip(ChordSpec::new(4, Mode::Major).adj(-2), "IVbb");
    round_trip(ChordSpec::new(4, Mode::Major).adj(3), "IV###");
    round_trip(ChordSpec::new(2, Mode::Major).triad(Triad::Sus4).add(7, -2).add(11, 1), "II^:bb7,#11");
    round_trip(ChordSpec::new(6, Mode::Minor).bass(3, -1).inversion(2), "vi/b3%2");
    round_trip(ChordSpec::new(5, Mode::Major).shift(2).adj(25), "V#>2");
    round_trip(ChordSpec::new(5, Mode::Major).adj(-25), "Vb<2");
    round_trip(ChordSpec::new(5, Mode::Major).adj(-24), "V<2");
    round_trip(ChordSpec::new(3, Mode::Minor).triad(Triad::Diminished).key_of(7, Mode::Major), "iii-~VII");
    round_trip(
        ChordSpec::new(2, Mode::Minor)
            .adj(-14)
            .add(7, 0)
            .add(9, 1)
            .bass(5, 0)
            .inversion(1)
            .key_of(5, Mode::Major),
        "iibb:7,#9/5%1<1~V",
    );
}

#[test]
fn a_diminished_major_chord_reads_back_as_minor() {
    let spec = ChordSpec::new(1, Mode::Major).triad(Triad::Diminished);
    assert_eq!(spec.to_string(), "i-".to_string());
    let read = ChordSpec::from_str("i-").unwrap();
    assert_eq!(read, ChordSpec::new(1, Mode::Minor).triad(Triad::Diminished));
}

#[test]
fn a_root_above_seven_is_written_with_the_numeral_seven_below() {
    assert_eq!(ChordSpec::new(8, Mode::Major).to_string(), "I".to_string());
    assert_eq!(ChordSpec::new(10, Mode::Minor).to_string(), "iii".to_string());
    assert_eq!(ChordSpec::new(1, Mode::Major).key_of(9, Mode::Minor).to_string(), "I~ii".to_string());
}

#[test]
fn accidentals_of_the_root_add_up() {
    assert_eq!(ChordSpec::from_str("Ibb").unwrap(), ChordSpec::new(1, Mode::Major).adj(-2));
    assert_eq!(ChordSpec::from_str("I#b#").unwrap(), ChordSpec::new(1, Mode::Major).adj(1));
    assert_eq!(ChordSpec::from_str("I:bb7").unwrap(), ChordSpec::new(1, Mode::Major).add(7, -2));
}

#[test]
fn bass_and_inversion_may_both_be_given() {
    assert_eq!(
        ChordSpec::from_str("I/3%1").unwrap(),
        ChordSpec::new(1, Mode::Major).bass(3, 0).inversion(1)
    );
    assert_eq!(ChordSpec::from_str("I%0").unwrap(), ChordSpec::new(1, Mode::Major));
}

#[test]
fn a_text_of_another_shape_is_no_chord() {
    for text in ["", "x", ":7", "I>1<1", "I~V:7", "I/3:7", "I%1/3", "I~V~V", "I<1>1"] {
        assert_eq!(
            ChordSpec::from_str(text),
            Err(ChordParseError::InvalidChord(text.to_string())),
            "{}",
            text
        );
    }
}

#[test]
fn a_bad_numeral_is_named() {
    assert_eq!(ChordSpec::from_str("Iv"), Err(ChordParseError::InvalidNumeral("Iv".to_string())));
    assert_eq!(ChordSpec::from_str("IIII"), Err(ChordParseError::InvalidNumeral("IIII".to_string())));
    assert_eq!(ChordSpec::from_str("vv:7"), Err(ChordParseError::InvalidNumeral("vv".to_string())));
}

#[test]
fn a_bad_triad_symbol_is_named() {
    assert_eq!(ChordSpec::from_str("I7"), Err(ChordParseError::InvalidTriadSymbol("7".to_string())));
    assert_eq!(ChordSpec::from_str("I+7"), Err(ChordParseError::InvalidTriadSymbol("+7".to_string())));
    assert_eq!(ChordSpec::from_str("Ibx:7"), Err(ChordParseError::InvalidTriadSymbol("x".to_string())));
    assert_eq!(ChordSpec::from_str("I 7"), Err(ChordParseError::InvalidTriadSymbol(" 7".to_string())));
}

#[test]
fn a_bad_relative_key_is_named() {
    assert_eq!(ChordSpec::from_str("I~IIII"), Err(ChordParseError::InvalidRelKey("IIII".to_string())));
    assert_eq!(ChordSpec::from_str("I~x"), Err(ChordParseError::InvalidRelKey("x".to_string())));
    assert_eq!(ChordSpec::from_str("I~"), Err(ChordParseError::InvalidRelKey("".to_string())));
    assert_eq!(ChordSpec::from_str("I~Iv"), Err(ChordParseError::InvalidRelKey("Iv".to_string())));
}

#[test]
fn a_bad_extension_or_bass_is_named() {
    assert_eq!(
        ChordSpec::from_str("I:x"),
        Err(ChordParseError::InvalidExtension(DegreeParseError::InvalidDegree("x".to_string())))
    );
    assert_eq!(
        ChordSpec::from_str("I:"),
        Err(ChordParseError::InvalidExtension(DegreeParseError::InvalidDegree("".to_string())))
    );
    assert_eq!(
        ChordSpec::from_str("I:7,"),
        Err(ChordParseError::InvalidExtension(DegreeParseError::InvalidDegree("".to_string())))
    );
    assert_eq!(
        ChordSpec::from_str("I:7,,9"),
        Err(ChordParseError::InvalidExtension(DegreeParseError::InvalidDegree("".to_string())))
    );
    assert_eq!(
        ChordSpec::from_str("I/x"),
        Err(ChordParseError::InvalidExtension(DegreeParseError::InvalidDegree("x".to_string())))
    );
    assert_eq!(
        ChordSpec::from_str("I:99999999999999999999999999"),
        Err(ChordParseError::InvalidExtension(DegreeParseError::ParseIntError))
    );
}

#[test]
fn a_bad_count_is_a_parse_int_error() {
    assert_eq!(ChordSpec::from_str("I>x"), Err(ChordParseError::ParseIntError));
    assert_eq!(ChordSpec::from_str("I<"), Err(ChordParseError::ParseIntError));
    assert_eq!(ChordSpec::from_str("I%b2"), Err(ChordParseError::ParseIntError));
    assert_eq!(ChordSpec::from_str("I%99999999999999999999999999"), Err(ChordParseError::ParseIntError));
    assert_eq!(ChordSpec::from_str("I>99999999999999999999999999"), Err(ChordParseError::ParseIntError));
}

#[test]
fn errors_come_in_the_order_of_reading() {
    // The numeral's case is judged before anything else, the numeral
    // itself only after the extensions.
    assert_eq!(ChordSpec::from_str("Iv7:x"), Err(ChordParseError::InvalidNumeral("Iv".to_string())));
    assert_eq!(
        ChordSpec::from_str("IIII:x"),
        Err(ChordParseError::InvalidExtension(DegreeParseError::InvalidDegree("x".to_string())))
    );
    assert_eq!(ChordSpec::from_str("IIII7>x"), Err(ChordParseError::ParseIntError));
    assert_eq!(ChordSpec::from_str("IIII7"), Err(ChordParseError::InvalidTriadSymbol("7".to_string())));
    assert_eq!(ChordSpec::from_str("I/x~x%x"),
        Err(ChordParseError::InvalidChord("I/x~x%x".to_string())));
    assert_eq!(ChordSpec::from_str("I/3%x~x"), Err(ChordParseError::InvalidRelKey("x".to_string())));
}

#[test]
fn degrees_render_and_parse() {
    assert_eq!(Degree { degree: 7, adj: 0 }.to_string(), "7".to_string());
    assert_eq!(Degree { degree: 7, adj: -2 }.to_string(), "bb7".to_string());
    assert_eq!(Degree { degree: 11, adj: 1 }.to_string(), "#11".to_string());
    assert_eq!(Degree::from_str("#11"), Ok(Degree { degree: 11, adj: 1 }));
    assert_eq!(Degree::from_str("007"), Ok(Degree { degree: 7, adj: 0 }));
}

#[test]
fn a_text_of_another_shape_is_no_degree() {
    for text in ["", "b", "x", "7b", "b 7", "-7", "0", "b0", "00"] {
        assert_eq!(
            Degree::from_str(text),
            Err(DegreeParseError::InvalidDegree(text.to_string())),
            "{}",
            text
        );
    }
    assert_eq!(Degree::from_str("99999999999999999999999999"), Err(DegreeParseError::ParseIntError));
}

#[test]
fn numerals_are_looked_up_in_either_case() {
    let upper = ["I", "II", "III", "IV", "V", "VI", "VII"];
    let lower = ["i", "ii", "iii", "iv", "v", "vi", "vii"];
    for index in 0..7 {
        assert_eq!(numeral_to_index(upper[index]), Some(index));
        assert_eq!(numeral_to_index(lower[index]), Some(index));
    }
    assert_eq!(numeral_to_index("iV"), Some(3));
    assert_eq!(numeral_to_index(""), None);
    assert_eq!(numeral_to_index("IIII"), None);
    assert_eq!(numeral_to_index("VIII"), None);
    assert_eq!(numeral_to_index("X"), None);
}

#[test]
fn the_case_of_a_numeral_gives_the_mode() {
    assert_eq!(numeral_to_mode("IV"), Ok(Mode::Major));
    assert_eq!(numeral_to_mode("iv"), Ok(Mode::Minor));
    assert_eq!(numeral_to_mode(""), Ok(Mode::Minor));
    assert_eq!(numeral_to_mode("iV"), Err(ChordParseError::InvalidNumeral("iV".to_string())));
    assert_eq!(numeral_to_mode("I7"), Err(ChordParseError::InvalidNumeral("I7".to_string())));
}

#[test]
fn texts_are_parsed_with_str_parse() {
    assert_eq!("III:7,9".parse::<ChordSpec>(), ChordSpec::from_str("III:7,9"));
    assert_eq!("x".parse::<ChordSpec>(), Err(ChordParseError::InvalidChord("x".to_string())));
    assert_eq!("b7".parse::<Degree>(), Ok(Degree { degree: 7, adj: -1 }));
    assert_eq!("C3".parse::<dust::Note>(), Ok(dust::Note { semitones: 27 }));
    assert_eq!("M3".parse::<dust::Interval>(), Ok(dust::Interval { semitones: 4 }));
}
