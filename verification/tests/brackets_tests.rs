use shark::brackets::{complete_brackets, is_balanced, 
    compare_brac, give_lbrac_from_rbrac, give_rbrac_from_lbrac, is_string_lbrac, is_string_rbrac, unequal_brac,
    unequal_brac_checked,
};
use shark::steps::{drop_group_brackets, innermost_group, remove_surr_bracs, splice_group, try_remove_surr_bracs};

fn toks(v: &[&str]) -> Vec<String> {
    v.iter().map(|s| s.to_string()).collect()
}

#[test]
fn lbrac_and_rbrac_recognised() {
    for b in ["(", "{", "["] {
        assert!(is_string_lbrac(b.to_string()));
        assert!(!is_string_rbrac(b.to_string()));
    }
    for b in [")", "}", "]"] {
        assert!(is_string_rbrac(b.to_string()));
        assert!(!is_string_lbrac(b.to_string()));
    }
    assert!(!is_string_lbrac("((".to_string()));
    assert!(!is_string_rbrac("x".to_string()));
    assert!(!is_string_lbrac("".to_string()));
}

#[test]
fn partner_brackets() {
    assert_eq!(give_rbrac_from_lbrac("(".to_string()), ")");
    assert_eq!(give_rbrac_from_lbrac("{".to_string()), "}");
    assert_eq!(give_rbrac_from_lbrac("[".to_string()), "]");
    assert_eq!(give_lbrac_from_rbrac(")".to_string()), "(");
    assert_eq!(give_lbrac_from_rbrac("}".to_string()), "{");
    assert_eq!(give_lbrac_from_rbrac("]".to_string()), "[");
    assert_eq!(give_rbrac_from_lbrac("5".to_string()), "5");
    assert_eq!(give_lbrac_from_rbrac("(".to_string()), "(");
}

#[test]
fn partner_of_partner_is_the_bracket() {
    for b in ["(", "{", "["] {
        assert_eq!(give_lbrac_from_rbrac(give_rbrac_from_lbrac(b.to_string())), b);
    }
    for b in [")", "}", "]"] {
        assert_eq!(give_rbrac_from_lbrac(give_lbrac_from_rbrac(b.to_string())), b);
    }
}

#[test]
fn compare_brackets_by_kind() {
    assert_eq!(compare_brac("(".to_string(), ")".to_string()), 0);
    assert_eq!(compare_brac("[".to_string(), ")".to_string()), 1);
    assert_eq!(compare_brac("(".to_string(), "]".to_string()), -1);
    assert_eq!(compare_brac("{".to_string(), "{".to_string()), 0);
    assert_eq!(compare_brac("x".to_string(), "(".to_string()), -1);
    assert_eq!(compare_brac("x".to_string(), "y".to_string()), 0);
    assert_eq!(compare_brac("}".to_string(), "(".to_string()), 1);
}

#[test]
fn compare_is_antisymmetric_on_examples() {
    let all = ["(", "{", "[", ")", "}", "]", "7"];
    for a in all {
        for b in all {
            assert_eq!(compare_brac(a.to_string(), b.to_string()), -compare_brac(b.to_string(), a.to_string()));
        }
    }
}

#[test]
fn balanced_input_is_left_alone() {
    let v = toks(&["(", "2", "+", "[", "3", "]", ")"]);
    assert_eq!(unequal_brac(v.clone(), 0), (v.clone(), 0));
    assert_eq!(unequal_brac(v.clone(), 4), (v, 4));
}

#[test]
fn open_bracket_is_closed_at_the_end() {
    let (out, n) = unequal_brac(toks(&["(", "2", "+", "3"]), 0);
    assert_eq!(out, toks(&["(", "2", "+", "3", ")"]));
    assert_eq!(n, 1);
}

#[test]
fn lone_closing_bracket_gets_opening_at_front() {
    let (out, n) = unequal_brac(toks(&["2", ")"]), 0);
    assert_eq!(out, toks(&["(", "2", ")"]));
    assert_eq!(n, 1);
}

#[test]
fn closing_of_later_kind_closes_the_open_one_first() {
    let (out, n) = unequal_brac(toks(&["(", "2", "]"]), 3);
    assert_eq!(out, toks(&["(", "2", ")", "]"]));
    assert_eq!(n, 4);
}

#[test]
fn closing_of_earlier_kind_gets_its_opening_after_the_open_one() {
    let (out, n) = unequal_brac(toks(&["[", "2", ")"]), 0);
    assert_eq!(out, toks(&["[", "(", "2", ")", "]"]));
    assert_eq!(n, 2);
}

#[test]
fn repeated_passes_reach_balance() {
    let mut v = toks(&["(", "2", "]"]);
    let mut missed = 0;
    let mut prev: Vec<String> = vec![];
    while prev != v {
        prev = v.clone();
        let r = unequal_brac(v, missed);
        v = r.0;
        missed = r.1;
    }
    assert_eq!(v, toks(&["[", "(", "2", ")", "]"]));
    assert_eq!(missed, 2);
    assert_eq!(unequal_brac(v.clone(), 0), (v, 0));
}

#[test]
fn checked_pass_reports_overflow() {
    assert_eq!(unequal_brac_checked(toks(&["("]), i32::MAX), None);
    assert_eq!(unequal_brac_checked(toks(&["("]), i32::MAX - 1), Some((toks(&["(", ")"]), i32::MAX)));
}

#[test]
fn remove_surrounding_brackets() {
    assert_eq!(remove_surr_bracs("(2+3)".to_string()), "2+3");
    assert_eq!(remove_surr_bracs("[ x + 1 ]".to_string()), "x+1");
    assert_eq!(remove_surr_bracs("(2+3".to_string()), "(2+3");
    assert_eq!(remove_surr_bracs("2 + 3".to_string()), "2+3");
    assert_eq!(remove_surr_bracs("(2)+(3)".to_string()), "(2)+(3)");
    assert_eq!(remove_surr_bracs("(x+1)/(x+2)".to_string()), "(x+1)/(x+2)");
    assert_eq!(remove_surr_bracs("((x+1)/(x+2))".to_string()), "(x+1)/(x+2)");
    assert_eq!(remove_surr_bracs("{ [1] }".to_string()), "[1]");
    assert_eq!(remove_surr_bracs("(2]".to_string()), "(2]");
}

#[test]
fn remove_surrounding_brackets_of_blank_fails() {
    assert_eq!(try_remove_surr_bracs("   ".to_string()), None);
    assert_eq!(try_remove_surr_bracs("".to_string()), None);
}

#[test]
fn innermost_group_found() {
    assert_eq!(innermost_group(&toks(&["(", "2", "+", "(", "3", ")", ")"])), (3, 5, true));
    assert_eq!(innermost_group(&toks(&["2", "+", "3"])), (0, 2, false));
    assert_eq!(innermost_group(&toks(&["2", "+", "(", "3"])), (2, 3, false));
    assert_eq!(innermost_group(&toks(&["2", ")"])), (0, 1, true));
}

#[test]
fn group_brackets_dropped() {
    let v = toks(&["2", "*", "(", "5", ")", "+", "1"]);
    assert_eq!(drop_group_brackets(&v, 2), toks(&["2", "*", "5", "+", "1"]));
}

#[test]
fn group_spliced() {
    let v = toks(&["(", "2", "+", "3", ")"]);
    let (out, r) = splice_group(&v, 1, 3, &toks(&["5"]));
    assert_eq!(out, toks(&["(", "5", ")"]));
    assert_eq!(r, 1);
    let (out, r) = splice_group(&v, 1, 3, &toks(&["a", "b", "c", "d"]));
    assert_eq!(out, toks(&["(", "a", "b", "c", "d", ")"]));
    assert_eq!(r, 3);
}

#[test]
fn nested_open_brackets_closed_innermost_first() {
    let (out, n) = unequal_brac(toks(&["(", "1", "+", "[", "2", "{", "3", "}"]), 1);
    assert_eq!(out, toks(&["(", "1", "+", "[", "2", "{", "3", "}", "]", ")"]));
    assert_eq!(n, 3);
}

#[test]
fn completion_repeats_until_settled() {
    let (out, n, settled) = complete_brackets(toks(&["(", "2", "]"]), 0, 10).unwrap();
    assert!(settled);
    assert_eq!(out, toks(&["[", "(", "2", ")", "]"]));
    assert_eq!(n, 2);
    assert!(is_balanced(&out));
}

#[test]
fn completion_that_never_settles_stops_at_the_bound() {
    let (out, n, settled) = complete_brackets(toks(&["(", "(", "}"]), 0, 3).unwrap();
    assert!(!settled);
    assert!(out.len() > 3);
    assert!(n >= 3);
    assert!(complete_brackets(toks(&["(", "2"]), i32::MAX, 5).is_none());
}

#[test]
fn balance_checked() {
    assert!(is_balanced(&toks(&["(", "[", "1", "]", ")"])));
    assert!(!is_balanced(&toks(&["(", "]"])));
    assert!(!is_balanced(&toks(&["("])));
    assert!(is_balanced(&toks(&[])));
}
