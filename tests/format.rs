use calculator::{format_text, tokenize, Calculator};

#[test]
fn lib_test_format_expression() {
    let calc = Calculator::new(true);

    assert_eq!(calc.format_expression("5+3"), "5 + 3");
    assert_eq!(calc.format_expression("10*5"), "10 * 5");
    assert_eq!(calc.format_expression("8-2"), "8 - 2");
}

#[test]
fn tests_test_format_expression() {
    let calc = Calculator::new(true);

    assert_eq!(calc.format_expression("5+3"), "5 + 3");
    assert_eq!(calc.format_expression("10*5"), "10 * 5");
    assert_eq!(calc.format_expression("8-2"), "8 - 2");
}

#[test]
fn format_separates_function_names() {
    let calc = Calculator::new(false);
    assert_eq!(calc.format_expression("sin90-1"), "sin 90 - 1");
    assert_eq!(calc.format_expression("2*3+4*5"), "2 * 3 + 4 * 5");
    assert_eq!(calc.format_expression("cos0+1"), "cos 0 + 1");
}

#[test]
fn format_drops_other_characters() {
    assert_eq!(format_text("1 2"), "12");
    assert_eq!(format_text("(5)+[3]"), "5 + 3");
    assert_eq!(format_text("π"), "");
    assert_eq!(format_text("  7  "), "7");
}

#[test]
fn format_edge_cases() {
    assert_eq!(format_text(""), "");
    assert_eq!(format_text("+"), "+");
    assert_eq!(format_text("-5"), "- 5");
    assert_eq!(format_text("5sin"), "5sin");
    assert_eq!(format_text("1e5"), "1e 5");
    assert_eq!(format_text("1.5*.5"), "1.5 * .5");
    assert_eq!(format_text("abc"), "abc");
}

#[test]
fn format_is_idempotent_on_samples() {
    for s in ["sin90-1", "5+3", "1e5", "a b", "+-", "5 sin", "1.2.3/x", "", "log10*ln2", "acos-2"] {
        let once = format_text(s);
        let twice = format_text(&once);
        assert_eq!(once, twice);
    }
}

#[test]
fn tokenize_splits_on_whitespace_runs() {
    assert_eq!(tokenize("5 + 3"), vec!["5", "+", "3"]);
    assert_eq!(tokenize("  sin\t90 \n- 1  "), vec!["sin", "90", "-", "1"]);
    assert!(tokenize("").is_empty());
    assert!(tokenize(" \u{3000} ").is_empty());
    assert_eq!(tokenize("a\u{a0}b"), vec!["a", "b"]);
}
