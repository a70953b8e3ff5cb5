use scala_tune::Note;
use scala_tune::Scale;

#[test]
fn ratio_scale_with_comment() {
    let text = "! Example\n5-limit just\n4\n  81/64\n 4/3\n 3/2\n 2/1\n";
    let scale = Scale::from_str(text).unwrap();
    assert_eq!(scale.description, "5-limit just");
    assert_eq!(scale.notes.len(), 4);
    assert_eq!(scale.notes[0], Note::Ratio { numerator: 81, denominator: 64 });
    assert_eq!(scale.notes[1], Note::Ratio { numerator: 4, denominator: 3 });
    assert_eq!(scale.notes[2], Note::Ratio { numerator: 3, denominator: 2 });
    assert_eq!(scale.notes[3], Note::Ratio { numerator: 2, denominator: 1 });
}

#[test]
fn cents_scale_mixed_final_ratio() {
    let text = "12-tone equal\n!comment ignored\n12\n100.0\n200.0\n300.0\n400.0\n500.0\n600.0\n700.0\n800.0\n900.0\n1000.0\n1100.0\n2/1\n";
    let scale = Scale::from_str(text).unwrap();
    assert_eq!(scale.description, "12-tone equal");
    assert_eq!(scale.notes.len(), 12);
    for (i, expected) in (1..=11).map(|i| (i, (i * 100) as f32)) {
        match &scale.notes[i - 1] {
            Note::Cents(text) => {
                let value: f32 = text.parse().unwrap();
                assert_eq!(value, expected);
            },
            other => panic!("note {} should be cents, got {:?}", i, other),
        }
    }
    assert_eq!(scale.notes[0], Note::Cents("100.0".to_string()));
    assert_eq!(scale.notes[11], Note::Ratio { numerator: 2, denominator: 1 });
}

#[test]
fn missing_interval_fails() {
    let text = "a scale\n3\n1/1\n2/1\n";
    assert!(Scale::from_str(text).is_err());
}

#[test]
fn non_numeric_count_fails() {
    let text = "a scale\nabc\n1/1\n";
    assert!(Scale::from_str(text).is_err());
}

#[test]
fn negative_numerator_fails() {
    let text = "a scale\n1\n-3/2\n";
    assert!(Scale::from_str(text).is_err());
}

#[test]
fn negative_count_fails() {
    let text = "a scale\n-1\n";
    assert!(Scale::from_str(text).is_err());
}

#[test]
fn zero_note_count() {
    let text = "empty scale\n0\n";
    let scale = Scale::from_str(text).unwrap();
    assert_eq!(scale.description, "empty scale");
    assert_eq!(scale.notes.len(), 0);
}

#[test]
fn comments_are_transparent() {
    let plain = "desc\n2\n3/2\n2/1\n";
    let commented = "!a\n!b\ndesc\n! before count\n2\n! before first\n3/2\n!x\n!y\n2/1\n";
    let a = Scale::from_str(plain).unwrap();
    let b = Scale::from_str(commented).unwrap();
    assert_eq!(a, b);
}

#[test]
fn disambiguation_int_slash_int_is_ratio() {
    let text = "d\n1\n3/2\n";
    let scale = Scale::from_str(text).unwrap();
    assert_eq!(scale.notes[0], Note::Ratio { numerator: 3, denominator: 2 });
}

#[test]
fn bare_integer_is_cents() {
    let text = "d\n1\n150\n";
    let scale = Scale::from_str(text).unwrap();
    assert_eq!(scale.notes[0], Note::Cents("150".to_string()));
}

#[test]
fn signed_decimal_is_cents() {
    let text = "d\n2\n-5.25\n+700.0\n";
    let scale = Scale::from_str(text).unwrap();
    assert_eq!(scale.notes[0], Note::Cents("-5.25".to_string()));
    match &scale.notes[0] {
        Note::Cents(text) => assert_eq!(text.parse::<f32>().unwrap(), -5.25f32),
        other => panic!("expected cents, got {:?}", other),
    }
    assert_eq!(scale.notes[1], Note::Cents("+700.0".to_string()));
}

#[test]
fn exponent_cents_kept_verbatim() {
    let text = "d\n1\n1.2e3\n";
    let scale = Scale::from_str(text).unwrap();
    assert_eq!(scale.notes[0], Note::Cents("1.2e3".to_string()));
    match &scale.notes[0] {
        Note::Cents(text) => assert_eq!(text.parse::<f32>().unwrap(), 1200.0f32),
        other => panic!("expected cents, got {:?}", other),
    }
}

#[test]
fn numeric_boundary_u64_max() {
    let text = "d\n1\n18446744073709551615/18446744073709551615\n";
    let scale = Scale::from_str(text).unwrap();
    assert_eq!(
        scale.notes[0],
        Note::Ratio { numerator: u64::MAX, denominator: u64::MAX },
    );
}

#[test]
fn numerator_overflow_fails() {
    let text = "d\n1\n18446744073709551616/2\n";
    assert!(Scale::from_str(text).is_err());
}

#[test]
fn whitespace_tolerance() {
    let padded = "   padded description  \n\t1\n\t 3/2 \t\n";
    let scale = Scale::from_str(padded).unwrap();
    assert_eq!(scale.description, "padded description");
    assert_eq!(scale.notes[0], Note::Ratio { numerator: 3, denominator: 2 });
}

#[test]
fn trailing_content_ignored() {
    let text = "d\n1\n3/2\n! a footer comment\nand some stray bytes with no newline";
    let scale = Scale::from_str(text).unwrap();
    assert_eq!(scale.notes.len(), 1);
    assert_eq!(scale.notes[0], Note::Ratio { numerator: 3, denominator: 2 });
    let bare = Scale::from_str("d\n1\n3/2\n").unwrap();
    assert_eq!(scale, bare);
}

#[test]
fn crlf_lines_tolerated() {
    let text = "desc\r\n2\r\n3/2\r\n100.0\r\n";
    let scale = Scale::from_str(text).unwrap();
    assert_eq!(scale.description, "desc");
    assert_eq!(scale.notes[0], Note::Ratio { numerator: 3, denominator: 2 });
    assert_eq!(scale.notes[1], Note::Cents("100.0".to_string()));
}

#[test]
fn empty_description() {
    let text = "\n1\n2/1\n";
    let scale = Scale::from_str(text).unwrap();
    assert_eq!(scale.description, "");
    assert_eq!(scale.notes.len(), 1);
}

#[test]
fn unterminated_last_interval_fails() {
    let text = "d\n1\n3/2";
    assert!(Scale::from_str(text).is_err());
}

#[test]
fn ratio_trailing_text_discarded() {
    let text = "d\n1\n3/2 perfect fifth\n";
    let scale = Scale::from_str(text).unwrap();
    assert_eq!(scale.notes[0], Note::Ratio { numerator: 3, denominator: 2 });
}

#[test]
fn error_message_is_readable() {
    let text = "d\nabc\n";
    let err = Scale::from_str(text).unwrap_err();
    assert!(!err.message().is_empty());
}
