use shark::equation::{merge_sides, operations_heirarchy, pad_sides, peel, sum_constant, Peel};

fn toks(v: &[&str]) -> Vec<String> {
    v.iter().map(|s| s.to_string()).collect()
}

#[test]
fn operators_outside_brackets_sums_first() {
    let ops = operations_heirarchy("(x+1)/2+3/x".to_string());
    let seen: Vec<(usize, &str)> = ops.iter().map(|(p, o)| (*p, o.as_str())).collect();
    assert_eq!(seen, vec![(7, "+"), (5, "/"), (9, "/")]);
}

#[test]
fn no_operators_inside_brackets() {
    assert!(operations_heirarchy("[x+{1/2}]".to_string()).is_empty());
    assert!(operations_heirarchy("".to_string()).is_empty());
}

#[test]
fn constant_term_of_a_sum() {
    assert_eq!(sum_constant("2x+3+4"), Some("3".to_string()));
    assert_eq!(sum_constant("x2+x"), None);
    assert_eq!(sum_constant(""), Some("".to_string()));
}

#[test]
fn quotient_peeled() {
    match peel("x/(2)", "/", false).unwrap() {
        Peel::Divide { numerator, denominator } => {
            assert_eq!(numerator, "x");
            assert_eq!(denominator, "2");
        }
        _ => panic!("expected a division"),
    }
    assert!(peel("x+1", "/", true).is_none());
}

#[test]
fn first_term_peeled() {
    match peel("3+x+1", "+", true).unwrap() {
        Peel::Subtract { first, rest } => {
            assert_eq!(first, "3");
            assert_eq!(rest, "x+1");
        }
        _ => panic!("expected a subtraction"),
    }
    assert!(matches!(peel("3+x", "+", false).unwrap(), Peel::Stay));
    assert!(matches!(peel("3+x", "*", true).unwrap(), Peel::Stay));
}

#[test]
fn sides_padded_to_the_longest() {
    let mut h = vec![vec![toks(&["1"])], vec![toks(&["2"]), toks(&["3"]), toks(&["4"])], vec![toks(&["5"]), toks(&["6"])]];
    let main = pad_sides(&mut h);
    assert_eq!(main, 1);
    for side in &h {
        assert_eq!(side.len(), 3);
    }
    assert_eq!(h[0], vec![toks(&["1"]), toks(&["1"]), toks(&["1"])]);
    assert_eq!(h[2], vec![toks(&["5"]), toks(&["6"]), toks(&["6"])]);
}

#[test]
fn first_longest_side_chosen() {
    let mut h = vec![vec![toks(&["1"]), toks(&["2"])], vec![toks(&["3"]), toks(&["4"])]];
    assert_eq!(pad_sides(&mut h), 0);
    let mut none: Vec<Vec<Vec<String>>> = vec![];
    assert_eq!(pad_sides(&mut none), 0);
}

#[test]
fn sides_merged_around_equals() {
    let h = vec![vec![toks(&["x", "+", "1"]), toks(&["x"])], vec![toks(&["3"]), toks(&["2"])]];
    let merged = merge_sides(&h, 0);
    assert_eq!(merged, vec![toks(&["x", "+", "1", " = ", "3"]), toks(&["x", " = ", "2"])]);
    let merged = merge_sides(&h, 1);
    assert_eq!(merged, vec![toks(&["3", " = ", "x", "+", "1"]), toks(&["2", " = ", "x"])]);
}
