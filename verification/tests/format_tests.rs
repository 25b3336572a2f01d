use shark::display::{format_steps, token_color, try_format_steps, TokenColor};
use shark::format::{format_inp, pad_names_exec};
use shark::tokens::create_vecs_from_str;
use shark::text::{contains, is_whitespace, replace_all, trim};

fn toks(v: &[&str]) -> Vec<String> {
    v.iter().map(|s| s.to_string()).collect()
}

#[test]
fn input_is_spaced_into_tokens() {
    assert_eq!(format_inp("2+3".to_string()), "2 + 3");
    assert_eq!(format_inp("2sin(30)+pi".to_string()), "2 * sin ( 30 ) + pi");
    assert_eq!(format_inp("2(3)4".to_string()), "2 * ( 3 ) * 4");
    assert_eq!(format_inp("x = 5".to_string()), "x = 5");
    assert_eq!(format_inp("3+-2".to_string()), "3 - 2");
    assert_eq!(format_inp("(2)pi".to_string()), " ( 2 ) * pi");
}

#[test]
fn formatted_input_has_no_double_space() {
    for s in ["2   +  3", "((1))", "sin cos tan", "2pi(e)", "  "] {
        assert!(!contains(&format_inp(s.to_string()), "  "));
    }
}

#[test]
fn replace_like_std() {
    for (s, f, t) in [("aaa", "aa", "b"), ("abc", "", "-"), ("", "", "x"), ("x2x2", "x2", "y"), ("hello", "z", "q")] {
        assert_eq!(replace_all(s, f, t), s.replace(f, t));
    }
}

#[test]
fn trim_like_std() {
    for s in ["  a b  ", "\t\nx\n", "", "   ", "q"] {
        assert_eq!(trim(s), s.trim());
    }
}

#[test]
fn steps_written_out() {
    let mut op_vec = vec![toks(&["2", "+", "3"]), toks(&["2", "+", "3"]), toks(&["5"])];
    let lines = format_steps(&mut op_vec);
    assert_eq!(lines, toks(&["2  +  3", "5"]));
    assert_eq!(op_vec, vec![toks(&["2", "+", "3"]), toks(&["5"])]);
}

#[test]
fn polynomial_elements_bracketed() {
    let mut op_vec = vec![toks(&["2x+1", "*", "3"])];
    assert_eq!(format_steps(&mut op_vec), toks(&[" (  2x + 1  )   *  3"]));
    let mut op_vec = vec![toks(&["(", "x2+1", ")"])];
    assert_eq!(format_steps(&mut op_vec), toks(&[" (  x² + 1  ) "]));
}

#[test]
fn steps_equal_but_for_brackets_shown_once() {
    let mut op_vec = vec![toks(&["(", "5", ")"]), toks(&["5"])];
    assert_eq!(format_steps(&mut op_vec), toks(&[" (  5  ) "]));
}

#[test]
fn polynomial_element_at_the_end_after_bracket_fails() {
    let mut op_vec = vec![toks(&["(", "x+1"])];
    assert_eq!(try_format_steps(&mut op_vec), None);
}

#[test]
fn colours_of_pieces() {
    assert_eq!(token_color("3".to_string()), TokenColor::Number);
    assert_eq!(token_color("(".to_string()), TokenColor::Bracket);
    assert_eq!(token_color("]".to_string()), TokenColor::Bracket);
    assert_eq!(token_color("+".to_string()), TokenColor::Operator);
    assert_eq!(token_color("=".to_string()), TokenColor::Equals);
    assert_eq!(token_color("x".to_string()), TokenColor::Other);
    assert_eq!(token_color("".to_string()), TokenColor::Other);
}

#[test]
fn hyperbolic_names_stay_whole() {
    let inp = "sinh(0)".to_string();
    assert_eq!(create_vecs_from_str(format_inp(inp), " "), toks(&["sinh", "(", "0", ")"]));
    assert_eq!(create_vecs_from_str(format_inp("cosh(1)+tanh(2)".to_string()), " "), toks(&["cosh", "(", "1", ")", "+", "tanh", "(", "2", ")"]));
    assert_eq!(create_vecs_from_str(format_inp("2cosech(1)".to_string()), " "), toks(&["2", "*", "cosech", "(", "1", ")"]));
    assert_eq!(create_vecs_from_str(format_inp("cosec(1)*sech(2)".to_string()), " "), toks(&["cosec", "(", "1", ")", "*", "sech", "(", "2", ")"]));
    assert_eq!(create_vecs_from_str(format_inp("coth(1)-cot(2)".to_string()), " "), toks(&["coth", "(", "1", ")", "-", "cot", "(", "2", ")"]));
}

#[test]
fn longest_name_set_apart_first() {
    let names = toks(&["cos", "cosh", "sec"]);
    assert_eq!(pad_names_exec("coshx", &names), " cosh x");
    assert_eq!(pad_names_exec("xcossec", &names), "x cos  sec ");
    assert_eq!(pad_names_exec("", &names), "");
}

#[test]
fn whitespace_like_std() {
    for n in 0..=0x10FFFFu32 {
        if let Some(c) = char::from_u32(n) {
            assert_eq!(is_whitespace(c), c.is_whitespace(), "{:x}", n);
        }
    }
    assert_eq!(trim("\u{3000} a b\u{2029}"), "a b");
}
