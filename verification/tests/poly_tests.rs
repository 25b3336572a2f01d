use shark::numparse::parse_usize;
use shark::poly::{monomial_text, poly_term, poly_terms, poly_text, quotient_text, sum_terms};
use shark::steps::nat_to_text;

fn texts(v: &[&str]) -> Vec<String> {
    v.iter().map(|s| s.to_string()).collect()
}

#[test]
fn term_in_x_read() {
    let t = poly_term("3x2").unwrap();
    assert!(t.in_x);
    assert_eq!(t.coef, "3");
    assert_eq!(t.power, "2");
    assert_eq!(t.rank(), 2);
    assert_eq!(t.slot(), 2);
}

#[test]
fn bare_x_has_power_one() {
    let t = poly_term("x").unwrap();
    assert!(t.in_x);
    assert_eq!(t.coef, "");
    assert_eq!(t.power, "");
    assert_eq!(t.rank(), 1);
    assert_eq!(t.slot(), 1);
}

#[test]
fn negative_power_read_as_rank_only() {
    let t = poly_term("2x-1").unwrap();
    assert_eq!(t.coef, "2");
    assert_eq!(t.power, "-1");
    assert_eq!(t.rank(), -1);
    assert_eq!(t.slot(), 1);
}

#[test]
fn constant_term_read() {
    let t = poly_term("5").unwrap();
    assert!(!t.in_x);
    assert_eq!(t.coef, "5");
    assert_eq!(t.power, "");
}

#[test]
fn terms_of_a_polynomial() {
    let ts = poly_terms("x2+3x+1").unwrap();
    assert_eq!(ts.len(), 3);
    assert_eq!((ts[0].in_x, ts[0].coef.as_str(), ts[0].power.as_str()), (true, "", "2"));
    assert_eq!((ts[1].in_x, ts[1].coef.as_str(), ts[1].power.as_str()), (true, "3", ""));
    assert_eq!((ts[2].in_x, ts[2].coef.as_str(), ts[2].power.as_str()), (false, "1", ""));
}

#[test]
fn sum_leaves_out_unmatched_brackets() {
    let ts = sum_terms("x2+(1", "4").unwrap();
    assert_eq!(ts.len(), 2);
    assert_eq!(ts[0].power, "2");
    assert_eq!(ts[1].coef, "4");
}

#[test]
fn monomials_written() {
    assert_eq!(monomial_text("3", false, 2), "3x2");
    assert_eq!(monomial_text("1", true, 1), "x");
    assert_eq!(monomial_text("1", true, 0), "1");
    assert_eq!(monomial_text("2.5", false, 12), "2.5x12");
}

#[test]
fn polynomials_written() {
    assert_eq!(poly_text(&texts(&[])), "0");
    assert_eq!(poly_text(&texts(&["x2", "1"])), "x2+1");
}

#[test]
fn quotients_written() {
    assert_eq!(quotient_text(&texts(&["x", "1"]), Some(texts(&[])), "x+1").unwrap(), "x+1+)/(x+1)");
    assert_eq!(quotient_text(&texts(&["x"]), Some(texts(&["2", "x"])), "x2+1").unwrap(), "x+(2+x)/(x2+1)");
    assert_eq!(quotient_text(&texts(&["x", "1"]), None, "x+1").unwrap(), "x+1");
    assert!(quotient_text(&texts(&[]), None, "x+1").is_none());
}

#[test]
fn unsigned_integers_parsed() {
    assert_eq!(parse_usize("+5"), Some(5));
    assert_eq!(parse_usize("120"), Some(120));
    assert_eq!(parse_usize("-0"), None);
    assert_eq!(parse_usize(""), None);
    assert_eq!(parse_usize("+"), None);
    assert_eq!(parse_usize("12a"), None);
    assert_eq!(parse_usize("99999999999999999999999"), None);
}

#[test]
fn naturals_written() {
    assert_eq!(nat_to_text(0), "0");
    assert_eq!(nat_to_text(120), "120");
}
