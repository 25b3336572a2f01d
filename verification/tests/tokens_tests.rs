use shark::numparse::{is_float_text, parse_i32};
use shark::steps::{constants, int_to_text, neg_fixer, operation_one_operand, try_neg_fixer, try_operation_one_operand};
use shark::tokens::{
    complex_parts, create_2dvec_from_1dvecs, create_vecs_from_str, factorial, is_string_numeric, is_string_operator,
    split_pieces,
};

fn toks(v: &[&str]) -> Vec<String> {
    v.iter().map(|s| s.to_string()).collect()
}

#[test]
fn factorial_values() {
    assert_eq!(factorial(0), 1);
    assert_eq!(factorial(1), 1);
    assert_eq!(factorial(5), 120);
    assert_eq!(factorial(12), 479001600);
    assert_eq!(factorial(-4), 1);
}

#[test]
fn factorial_recurrence_on_examples() {
    for n in 1..=12 {
        assert_eq!(factorial(n), n * factorial(n - 1));
    }
}

#[test]
fn split_string_drops_empty_pieces() {
    assert_eq!(create_vecs_from_str(" 2  + 3 ".to_string(), " "), toks(&["2", "+", "3"]));
    assert_eq!(create_vecs_from_str("a--b-".to_string(), "--"), toks(&["a", "b-"]));
    assert_eq!(create_vecs_from_str("".to_string(), " "), toks(&[]));
    assert_eq!(create_vecs_from_str("ab".to_string(), ""), toks(&["a", "b"]));
}

#[test]
fn split_keeps_every_piece() {
    assert_eq!(split_pieces("3+4i", "+"), toks(&["3", "4i"]));
    assert_eq!(split_pieces("+a++", "+"), toks(&["", "a", "", ""]));
    assert_eq!(split_pieces("x=y", "="), toks(&["x", "y"]));
}

#[test]
fn split_token_runs() {
    let v = toks(&["2", "+", "3", "+", "+", "4"]);
    let runs = create_2dvec_from_1dvecs(v, "+");
    assert_eq!(runs, vec![toks(&["2"]), toks(&["3"]), toks(&[]), toks(&["4"])]);
    assert_eq!(create_2dvec_from_1dvecs(toks(&[]), "+"), vec![toks(&[])]);
    assert_eq!(create_2dvec_from_1dvecs(toks(&["+"]), "+"), vec![toks(&[]), toks(&[])]);
}

#[test]
fn numbers_recognised() {
    for t in ["3", "3.5", "-2", "+7", ".5", "5.", "1e5", "2E-3", "inf", "-Infinity", "NaN", "3+4i", "2i"] {
        assert!(is_string_numeric(t.to_string()), "{}", t);
    }
    for t in ["x", "2x", "(", "+", "", "e", "1e", ".", "i", "sin", "--3"] {
        assert!(!is_string_numeric(t.to_string()), "{}", t);
    }
}

#[test]
fn float_texts() {
    assert!(is_float_text("0.25"));
    assert!(is_float_text("-1.5e10"));
    assert!(!is_float_text(" 1"));
    assert!(!is_float_text("1.2.3"));
    assert!(!is_float_text("e5"));
}

#[test]
fn operators_recognised() {
    for t in ["P", "C", "%", "!", "^", "/", "*", "-", "+"] {
        assert!(is_string_operator(t.to_string()));
    }
    for t in ["p", "x", "++", "", "="] {
        assert!(!is_string_operator(t.to_string()));
    }
}

#[test]
fn integers_parsed() {
    assert_eq!(parse_i32("42"), Some(42));
    assert_eq!(parse_i32("-7"), Some(-7));
    assert_eq!(parse_i32("+3"), Some(3));
    assert_eq!(parse_i32("2147483647"), Some(i32::MAX));
    assert_eq!(parse_i32("-2147483648"), Some(i32::MIN));
    assert_eq!(parse_i32("2147483648"), None);
    assert_eq!(parse_i32(""), None);
    assert_eq!(parse_i32("-"), None);
    assert_eq!(parse_i32("1.5"), None);
    assert_eq!(parse_i32("99999999999999999999"), None);
}

#[test]
fn integers_written() {
    assert_eq!(int_to_text(0), "0");
    assert_eq!(int_to_text(120), "120");
    assert_eq!(int_to_text(-45), "-45");
    assert_eq!(int_to_text(i32::MIN), "-2147483648");
}

#[test]
fn complex_number_parts() {
    assert_eq!(complex_parts("3+4i".to_string()), ("3".to_string(), "4".to_string()));
    assert_eq!(complex_parts("3-4i".to_string()), ("3".to_string(), "-4".to_string()));
    assert_eq!(complex_parts("4i".to_string()), ("0".to_string(), "4".to_string()));
    assert_eq!(complex_parts("-4i".to_string()), ("0".to_string(), "-4".to_string()));
    assert_eq!(complex_parts("-5".to_string()), ("-5".to_string(), "0".to_string()));
    assert_eq!(complex_parts("-3+4i".to_string()), ("-3".to_string(), "4".to_string()));
    assert_eq!(complex_parts("-3-4i".to_string()), ("-3".to_string(), "-4".to_string()));
}

#[test]
fn constants_replaced() {
    let out = constants(toks(&["2", "*", "pi", "+", "e", "ee"]));
    assert_eq!(out, toks(&["2", "*", "3.141592653589793", "+", "2.718281828459045", "ee"]));
}

#[test]
fn minus_signs_fixed() {
    assert_eq!(neg_fixer(toks(&["3", "-", "2"])), toks(&["3", "+", "-2"]));
    assert_eq!(neg_fixer(toks(&["3", "*", "-", "2"])), toks(&["3", "*", "-2"]));
    assert_eq!(neg_fixer(toks(&["-", "2"])), toks(&["+", "-2"]));
    assert_eq!(neg_fixer(toks(&["-"])), toks(&["-"]));
    assert_eq!(neg_fixer(toks(&["2", "-", "3", "-", "1"])), toks(&["2", "+", "-3", "+", "-1"]));
    assert_eq!(neg_fixer(toks(&["4", "/", "-", "2", "-", "1"])), toks(&["4", "/", "-2", "+", "-1"]));
}

#[test]
fn minus_signs_folded_after_each_removal() {
    assert_eq!(neg_fixer(toks(&["2", "*", "-", "3", "/", "-", "4"])), toks(&["2", "*", "-3", "/", "-4"]));
    assert_eq!(try_neg_fixer(toks(&["2", "*", "-", "3", "/", "-", "4"])), Some(toks(&["2", "*", "-3", "/", "-4"])));
    assert_eq!(neg_fixer(toks(&["3", "-", "-", "2"])), toks(&["3", "+", "+", "-2"]));
}

#[test]
fn trailing_minus_fails() {
    assert_eq!(try_neg_fixer(toks(&["3", "-"])), None);
    assert_eq!(try_neg_fixer(toks(&["4", "/", "-", "2", "-"])), None);
}

#[test]
fn factorials_applied() {
    assert_eq!(operation_one_operand(toks(&["5", "!", "+", "1"])), (toks(&["120", "+", "1"]), 0));
    assert_eq!(operation_one_operand(toks(&["x", "!"])), (toks(&["x"]), 1));
    assert_eq!(operation_one_operand(toks(&["0", "!"])), (toks(&["1"]), 0));
    assert_eq!(operation_one_operand(toks(&["2", "+", "3"])), (toks(&["2", "+", "3"]), 0));
}

#[test]
fn every_factorial_takes_the_integer_before_it() {
    assert_eq!(operation_one_operand(toks(&["3", "!", "+", "4", "!"])), (toks(&["6", "+", "24"]), 0));
    assert_eq!(operation_one_operand(toks(&["3", "!", "!"])), (toks(&["720"]), 0));
    assert_eq!(operation_one_operand(toks(&["x", "!", "+", "2", "!"])), (toks(&["x", "+", "2"]), 1));
}

#[test]
fn factorial_failures() {
    assert_eq!(try_operation_one_operand(toks(&["!", "3"])), None);
    assert_eq!(try_operation_one_operand(toks(&["13", "!"])), None);
}

#[test]
fn runs_join_back_to_the_tokens() {
    let v = toks(&["1", "+", "2", "+", "+", "3"]);
    let runs = create_2dvec_from_1dvecs(v.clone(), "+");
    let mut joined: Vec<String> = vec![];
    for (k, run) in runs.iter().enumerate() {
        if k > 0 {
            joined.push("+".to_string());
        }
        assert!(!run.contains(&"+".to_string()));
        joined.extend(run.iter().cloned());
    }
    assert_eq!(joined, v);
}

#[test]
fn pieces_join_back_to_the_text() {
    for (s, sep) in [("a--b----c", "--"), ("", "-"), ("abc", ""), ("x=y", "=")] {
        let pieces = split_pieces_any(s, sep);
        assert_eq!(pieces.join(sep), s);
        if !sep.is_empty() {
            for t in create_vecs_from_str(s.to_string(), sep) {
                assert!(!t.contains(sep));
            }
        }
    }
}

fn split_pieces_any(s: &str, sep: &str) -> Vec<String> {
    if sep.is_empty() {
        let mut v = vec![String::new()];
        v.extend(s.chars().map(|c| c.to_string()));
        v.push(String::new());
        v
    } else {
        split_pieces(s, sep)
    }
}
