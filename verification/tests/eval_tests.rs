use shark::equation::{solved_directly, unknown_on_right};
use shark::alias::{alias_table, aliases_by_value, apply_aliases, Alias};
use shark::evaluate::{complex_second_operand, is_complex_pair, PairAction, PairReduction};
use shark::functions::{FunctionKind, FunctionScan, FunctionStep};

fn toks(v: &[&str]) -> Vec<String> {
    v.iter().map(|s| s.to_string()).collect()
}

fn leaf(value: &str, alias: &str) -> Alias {
    Alias { value: value.to_string(), alias: alias.to_string(), nodes: vec![] }
}

#[test]
fn numbers_are_combined() {
    let mut r = PairReduction::start(vec![toks(&["2"]), toks(&["3"])]);
    assert!(!r.finished());
    assert_eq!(r.action('+'), PairAction::Numeric);
    assert_eq!(r.pair(), ("2".to_string(), "3".to_string()));
    r.combine("5".to_string());
    assert!(r.finished());
    assert_eq!(r.into_tokens(), toks(&["5"]));
}

#[test]
fn pairs_skipped_until_a_polynomial() {
    let mut r = PairReduction::start(vec![toks(&["2", "*", "x"]), toks(&["3"])]);
    assert_eq!(r.action('+'), PairAction::Skip);
    r.skip();
    assert_eq!(r.action('+'), PairAction::Skip);
    r.skip();
    assert_eq!(r.pair(), ("x".to_string(), "3".to_string()));
    assert_eq!(r.action('+'), PairAction::Polynomial);
    assert_eq!(r.action('-'), PairAction::Skip);
    r.skip();
    assert!(r.finished());
}

#[test]
fn single_token_is_finished() {
    let r = PairReduction::start(vec![toks(&["7"])]);
    assert!(r.finished());
    let r = PairReduction::start(vec![]);
    assert!(r.finished());
}

#[test]
fn complex_pairs() {
    assert!(is_complex_pair("3+4i", "2"));
    assert!(is_complex_pair("1", "5.i"));
    assert!(!is_complex_pair("3", "4"));
    assert_eq!(complex_second_operand("2i", '-'), "-2i");
    assert_eq!(complex_second_operand("2i", '+'), "2i");
}

#[test]
fn trig_call_then_next() {
    let mut s = FunctionScan::start(toks(&["sin", "30", "+", "1"]));
    match s.step() {
        FunctionStep::Call(c) => {
            assert_eq!(c.kind, FunctionKind::Trig);
            assert_eq!(c.name, "sin");
            assert!(!c.negated);
            assert_eq!(c.operands, toks(&["30"]));
        }
        _ => panic!("expected a call"),
    }
    s.resolve_trig("0.5".to_string());
    assert!(matches!(s.step(), FunctionStep::Next));
    s.next();
    assert!(matches!(s.step(), FunctionStep::Next));
    s.next();
    assert!(matches!(s.step(), FunctionStep::Next));
    s.next();
    assert!(matches!(s.step(), FunctionStep::Done));
    assert_eq!(s.into_tokens(), toks(&["0.5", "+", "1"]));
}

#[test]
fn negated_log_with_base() {
    let mut s = FunctionScan::start(toks(&["-LOG", "2", "8"]));
    match s.step() {
        FunctionStep::Call(c) => {
            assert_eq!(c.kind, FunctionKind::Log);
            assert_eq!(c.name, "log");
            assert!(c.negated);
            assert_eq!(c.operands, toks(&["2", "8"]));
        }
        _ => panic!("expected a call"),
    }
    s.resolve_log("-3".to_string());
    assert!(matches!(s.step(), FunctionStep::Done));
    assert_eq!(s.into_tokens(), toks(&["-3"]));
}

#[test]
fn function_without_operand() {
    let s = FunctionScan::start(toks(&["2", "cos"]));
    assert!(matches!(s.step(), FunctionStep::Next));
    let mut s = s;
    s.next();
    assert!(matches!(s.step(), FunctionStep::MissingOperand));
}

#[test]
fn operands_stop_at_first_non_number() {
    let s = FunctionScan::start(toks(&["tanh", "1", "2", "x", "3"]));
    match s.step() {
        FunctionStep::Call(c) => assert_eq!(c.operands, toks(&["1", "2"])),
        _ => panic!("expected a call"),
    }
}

#[test]
fn alias_tree_unwrapped() {
    let root = Alias {
        value: "".to_string(),
        alias: "".to_string(),
        nodes: vec![Alias { value: "6".to_string(), alias: "s".to_string(), nodes: vec![leaf("7", "e")] }, leaf("0", "z")],
    };
    let pairs = root.unwrap(&root, vec![]);
    let expect = vec![("se", "7"), ("s", "6"), ("z", "0")];
    assert_eq!(pairs, expect.iter().map(|(a, b)| (a.to_string(), b.to_string())).collect::<Vec<_>>());
}

#[test]
fn alias_table_sorted_without_repeats() {
    let root = Alias {
        value: "".to_string(),
        alias: "".to_string(),
        nodes: vec![
            leaf("0", "z"),
            Alias { value: "6".to_string(), alias: "s".to_string(), nodes: vec![leaf("7", "e"), leaf("9", "f")] },
        ],
    };
    let table = alias_table(&root);
    let expect = vec![("s", "6"), ("se", "7"), ("sf", "9"), ("z", "0")];
    assert_eq!(table, expect.iter().map(|(a, b)| (a.to_string(), b.to_string())).collect::<Vec<_>>());
}

#[test]
fn aliases_replaced_longest_first() {
    let table: Vec<(String, String)> = vec![("p", "+"), ("s", "6"), ("se", "7"), ("z", "0")]
        .into_iter()
        .map(|(a, b)| (a.to_string(), b.to_string()))
        .collect();
    assert_eq!(apply_aliases("se p z".to_string(), &table), "7 + 0");
    assert_eq!(apply_aliases("s p 3".to_string(), &table), "6 + 3");
}

#[test]
fn side_of_the_unknown() {
    assert!(unknown_on_right("5", "2x+3"));
    assert!(!unknown_on_right("2x", "4"));
    assert!(unknown_on_right("x/2", "x+1"));
    assert!(!unknown_on_right("x", "x/2"));
    assert!(!unknown_on_right("x", "x"));
    assert!(!unknown_on_right("3", "4"));
}

#[test]
fn linear_sides_solved_directly() {
    assert!(solved_directly("2x+3"));
    assert!(solved_directly("x"));
    assert!(!solved_directly("x2+1"));
    assert!(!solved_directly("x/2"));
}

#[test]
fn alias_table_puts_prefixes_first() {
    let root = Alias {
        value: "".to_string(),
        alias: "".to_string(),
        nodes: vec![
            Alias { value: "6".to_string(), alias: "s".to_string(), nodes: vec![leaf("7", "e")] },
            leaf("8", "e"),
            leaf("+", "p"),
        ],
    };
    let table = alias_table(&root);
    let pos = |a: &str| table.iter().position(|p| p.0 == a).unwrap();
    assert!(pos("s") < pos("se"));
    for w in table.windows(2) {
        assert!(w[0].0 <= w[1].0);
    }
    assert_eq!(apply_aliases("se p e".to_string(), &table), "7 + 8");
}

#[test]
fn aliases_listed_by_value_stably() {
    let table: Vec<(String, String)> = vec![("z", "0"), ("e", "8"), ("o", "1"), ("se", "7"), ("p", "+"), ("q", "1")]
        .into_iter()
        .map(|(a, b)| (a.to_string(), b.to_string()))
        .collect();
    let listed = aliases_by_value(&table);
    let expect = vec![("p", "+"), ("z", "0"), ("o", "1"), ("q", "1"), ("se", "7"), ("e", "8")];
    assert_eq!(listed, expect.iter().map(|(a, b)| (a.to_string(), b.to_string())).collect::<Vec<_>>());
}

fn default_tree() -> Alias {
    Alias {
        value: "".to_string(),
        alias: "".to_string(),
        nodes: vec![
            Alias { value: "6".to_string(), alias: "s".to_string(), nodes: vec![leaf("7", "e")] },
            Alias { value: "2".to_string(), alias: "t".to_string(), nodes: vec![leaf("3", "h")] },
            leaf("0", "z"),
            leaf("1", "o"),
            Alias { value: "4".to_string(), alias: "f".to_string(), nodes: vec![leaf("5", "i")] },
            leaf("8", "e"),
            leaf("9", "n"),
            leaf("+", "p"),
            leaf("*", "x"),
            leaf("/", "b"),
            leaf("-", "m"),
        ],
    }
}

#[test]
fn default_aliases_as_documented() {
    let table = alias_table(&default_tree());
    assert!(table.contains(&("s".to_string(), "6".to_string())));
    assert!(table.contains(&("se".to_string(), "7".to_string())));
    assert!(table.contains(&("p".to_string(), "+".to_string())));
    assert_eq!(apply_aliases("s + 3".to_string(), &table), "6 + 3");
    assert_eq!(apply_aliases("se p th".to_string(), &table), "7 + 3");
}

#[test]
fn hyperbolic_and_based_log_names_recognised() {
    let s = FunctionScan::start(toks(&["-SINH", "1"]));
    match s.step() {
        FunctionStep::Call(c) => {
            assert_eq!(c.kind, FunctionKind::Trig);
            assert_eq!(c.name, "sinh");
            assert!(c.negated);
        }
        _ => panic!("expected a call"),
    }
    let s = FunctionScan::start(toks(&["sinx", "1"]));
    assert!(matches!(s.step(), FunctionStep::Next));
    assert!(is_string_numeric_pub("12i"));
    assert!(!is_string_numeric_pub("i2"));
}

fn is_string_numeric_pub(t: &str) -> bool {
    shark::tokens::is_string_numeric(t.to_string())
}
