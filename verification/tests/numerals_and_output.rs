use yaml_filter::numerals::{decimal_string, push_decimal, right_aligned_decimal, signed_decimal_string};
use yaml_filter::output::{highlight_lines, highlighted_output, join_documents, label_lines, line_number_label, numbered_line};

#[test]
fn decimal_numerals() {
    assert_eq!(decimal_string(0), "0");
    assert_eq!(decimal_string(7), "7");
    assert_eq!(decimal_string(10), "10");
    assert_eq!(decimal_string(1234567890), "1234567890");
    assert_eq!(decimal_string(u64::MAX), "18446744073709551615");
    let mut s = String::from("x=");
    push_decimal(&mut s, 905);
    assert_eq!(s, "x=905");
}

#[test]
fn signed_decimal_numerals() {
    assert_eq!(signed_decimal_string(0), "0");
    assert_eq!(signed_decimal_string(42), "42");
    assert_eq!(signed_decimal_string(-42), "-42");
    assert_eq!(signed_decimal_string(i64::MAX), "9223372036854775807");
    assert_eq!(signed_decimal_string(i64::MIN), "-9223372036854775808");
}

#[test]
fn right_aligned_numbers() {
    assert_eq!(right_aligned_decimal(7, 3), "  7");
    assert_eq!(right_aligned_decimal(42, 3), " 42");
    assert_eq!(right_aligned_decimal(123, 3), "123");
    assert_eq!(right_aligned_decimal(12345, 3), "12345");
    assert_eq!(right_aligned_decimal(5, 0), "5");
    assert_eq!(right_aligned_decimal(5, 5), format!("{:>5}", 5));
}

#[test]
fn numbered_lines_match_the_echo_format() {
    assert_eq!(numbered_line(0, "key: 1"), "  1 |key: 1");
    assert_eq!(numbered_line(9, ""), " 10 |");
    assert_eq!(numbered_line(1233, "x"), "1234 |x");
    for (i, line) in ["a", "bb", "", "- item"].iter().enumerate() {
        assert_eq!(numbered_line(i, line), format!("{:>3} |{}", i + 1, line));
    }
}

#[test]
fn line_number_labels_match_the_highlight_format() {
    assert_eq!(line_number_label(1), "    1 ");
    assert_eq!(line_number_label(123456), "123456 ");
    for n in [0usize, 9, 10, 99999, 100000] {
        assert_eq!(line_number_label(n), format!("{:>5} ", n));
    }
}

#[test]
fn documents_are_joined_with_newlines() {
    assert_eq!(join_documents(&Vec::new()), "");
    assert_eq!(join_documents(&vec!["---\na: 1".to_string()]), "---\na: 1\n");
    assert_eq!(
        join_documents(&vec!["---\na: 1".to_string(), "---\n- x".to_string()]),
        "---\na: 1\n---\n- x\n"
    );
}

#[test]
fn escaped_lines_are_labelled_by_number() {
    let labelled = label_lines(&vec!["x".to_string(), "y".to_string()]);
    assert_eq!(
        labelled,
        vec![
            ("    1 ".to_string(), "x".to_string()),
            ("    2 ".to_string(), "y".to_string()),
        ]
    );
    assert!(label_lines(&Vec::new()).is_empty());
}

#[test]
fn yaml_lines_are_highlighted_with_escapes() {
    let lines = vec!["key: value".to_string(), "- item".to_string()];
    let escaped = highlight_lines(&lines, "yml", "Solarized (dark)", true).unwrap();
    assert_eq!(escaped.len(), 2);
    assert_ne!(escaped[0], lines[0]);
    assert!(escaped[0].contains("\x1b[") || escaped[0].contains('\u{1b}'));
    assert!(escaped[0].contains("key"));
    assert!(escaped[1].contains("item"));
    let labelled = highlighted_output(&lines).unwrap();
    assert_eq!(labelled.len(), 2);
    assert_eq!(labelled[0], ("    1 ".to_string(), escaped[0].clone()));
    assert_eq!(labelled[1], ("    2 ".to_string(), escaped[1].clone()));
}

#[test]
fn unknown_syntax_or_theme_does_not_highlight() {
    let lines = vec!["key: value".to_string()];
    assert_eq!(highlight_lines(&lines, "no-such-extension", "Solarized (dark)", true), None);
    assert_eq!(highlight_lines(&lines, "yml", "No Such Theme", true), None);
    let plain = highlight_lines(&lines, "yml", "Solarized (dark)", false).unwrap();
    let with_bg = highlight_lines(&lines, "yml", "Solarized (dark)", true).unwrap();
    assert_ne!(plain, with_bg);
}
