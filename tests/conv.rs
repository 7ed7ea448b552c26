use romancalc::conv::{character_value, numeral, numeral_signed, numeral_value};

#[test]
fn test_character_values() {
    for character in b'A'..=b'Z' {
        let character = character as char;
        let expected = match character {
            'I' => Some(1),
            'V' => Some(5),
            'X' => Some(10),
            'L' => Some(50),
            'C' => Some(100),
            'D' => Some(500),
            'M' => Some(1000),
            _ => None,
        };

        assert_eq!(character_value(character).ok(), expected);
    }
}

#[test]
fn test_sample_numerals() {
    let samples = vec![
        ("I", 1),
        ("II", 2),
        ("III", 3),
        ("IV", 4),
        ("V", 5),
        ("VI", 6),
        ("VII", 7),
        ("VIII", 8),
        ("IX", 9),
        ("X", 10),
        ("XXI", 21),
        ("XXVI", 26),
        ("XC", 90),
        ("MCML", 1950),
        ("IV", 4),
        ("IX", 9),
        ("XL", 40),
        ("XC", 90),
        ("CD", 400),
        ("CM", 900),
    ];

    for (literal, expected) in samples {
        assert_eq!(numeral_value(literal).unwrap(), expected);
        assert_eq!(literal, numeral(expected).unwrap());
    }
}

#[test]
fn test_invalid_numerals() {
    let samples = vec![
        ("", "Empty numeral"),
        ("R", "Unexpected character 'R'"),
        ("IIII", "Repetition of 'I' more than three times"),
        ("VVVV", "Repetition of 'V' more than three times"),
        ("IVI", "Character 'I' is not decreasing"),
        ("MMCMCM", "Character 'C' is not decreasing"),
    ];

    for (literal, expected) in samples {
        assert_eq!(numeral_value(literal).err().unwrap(), expected);
    }
}

#[test]
fn test_roundrips() {
    for i in 1..4000 {
        assert_eq!(numeral_value(&numeral(i).unwrap()).unwrap(), i);
    }
}

#[test]
fn test_signed_numerals() {
    assert_eq!(numeral(0), None);
    assert_eq!(numeral_signed(0), None);

    for i in 0..4000 {
        assert_eq!(
            numeral_signed(-i),
            numeral(i as u64).map(|n| format!("-{}", n))
        )
    }
}

#[test]
fn numeral_absent_from_four_thousand_up() {
    assert_eq!(numeral(4000), None);
    assert_eq!(numeral(4001), None);
    assert_eq!(numeral(u64::MAX), None);
    assert_eq!(numeral(3999).unwrap(), "MMMCMXCIX");
}

#[test]
fn numeral_of_2091() {
    assert_eq!(numeral(2091).unwrap(), "MMXCI");
    assert_eq!(numeral(1994).unwrap(), "MCMXCIV");
}

#[test]
fn signed_numerals_at_the_edges() {
    assert_eq!(numeral_signed(-4).unwrap(), "-IV");
    assert_eq!(numeral_signed(14).unwrap(), "XIV");
    assert_eq!(numeral_signed(-3999).unwrap(), "-MMMCMXCIX");
    assert_eq!(numeral_signed(4000), None);
    assert_eq!(numeral_signed(-4000), None);
    assert_eq!(numeral_signed(i64::MIN), None);
    assert_eq!(numeral_signed(i64::MAX), None);
}

#[test]
fn unknown_character_in_the_middle() {
    assert_eq!(numeral_value("XIZ").err().unwrap(), "Unexpected character 'Z'");
    assert_eq!(numeral_value("x").err().unwrap(), "Unexpected character 'x'");
}

#[test]
fn non_canonical_groups_are_read() {
    assert_eq!(numeral_value("VV").unwrap(), 10);
    assert_eq!(numeral_value("VIV").unwrap(), 9);
    assert_eq!(numeral_value("MMMCMXCIX").unwrap(), 3999);
}

#[test]
fn pair_then_larger_letter_is_not_decreasing() {
    assert_eq!(
        numeral_value("IXV").err().unwrap(),
        "Character 'V' is not decreasing"
    );
    assert_eq!(
        numeral_value("IIV").err().unwrap(),
        "Character 'V' is not decreasing"
    );
    assert_eq!(
        numeral_value("IM").err().unwrap(),
        "Character 'M' is not decreasing"
    );
}

#[test]
fn subtractive_pairs() {
    assert!(romancalc::is_subtractive_pair('I', 'V'));
    assert!(romancalc::is_subtractive_pair('C', 'M'));
    assert!(!romancalc::is_subtractive_pair('V', 'X'));
    assert!(!romancalc::is_subtractive_pair('I', 'L'));
}
