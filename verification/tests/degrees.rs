use dust::Degree;

#[test]
fn test_parse_degree() {
    let deg: Degree = Degree::from_str("7").unwrap();
    assert_eq!(deg, Degree { degree: 7, adj: 0 });

    let deg: Degree = Degree::from_str("b7").unwrap();
    assert_eq!(deg, Degree { degree: 7, adj: -1 });

    let deg: Degree = Degree::from_str("bb7").unwrap();
    assert_eq!(deg, Degree { degree: 7, adj: -2 });

    let deg: Degree = Degree::from_str("#7").unwrap();
    assert_eq!(deg, Degree { degree: 7, adj: 1 });

    let deg: Degree = Degree::from_str("b#7").unwrap();
    assert_eq!(deg, Degree { degree: 7, adj: 0 });
}
