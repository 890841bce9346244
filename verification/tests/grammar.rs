use opg::augment;
use opg::gen_firstvt;
use opg::gen_lastvt;
use opg::gen_productions;
use opg::get_non_terminals;
use opg::get_terminal_set;
use opg::get_terminals;
use opg::parse::is_whitespace;
use opg::GrammarError;
use opg::Production;

fn syms(names: &[&str]) -> Vec<String> {
    names.iter().map(|s| s.to_string()).collect()
}

fn sym(s: &str) -> String {
    s.to_string()
}

fn production(left: &str, right: &[&str]) -> Production {
    Production { left: left.to_string(), right: syms(right) }
}

fn sorted(mut v: Vec<String>) -> Vec<String> {
    v.sort();
    v
}

fn shape(productions: &[Production]) -> Vec<(String, Vec<String>)> {
    productions.iter().map(|p| (p.left.clone(), p.right.clone())).collect()
}

fn expect(rules: &[(&str, &[&str])]) -> Vec<(String, Vec<String>)> {
    rules.iter().map(|(l, r)| (l.to_string(), syms(r))).collect()
}

#[test]
fn reads_one_production_per_alternative() {
    let g = gen_productions("E -> E + T | T\nT -> T * F | F\nF -> ( E ) | id\n").unwrap();
    assert_eq!(
        shape(&g),
        expect(&[
            ("E", &["E", "+", "T"]),
            ("E", &["T"]),
            ("T", &["T", "*", "F"]),
            ("T", &["F"]),
            ("F", &["(", "E", ")"]),
            ("F", &["id"]),
        ])
    );
}

#[test]
fn reads_a_text_without_final_line_feed() {
    let g = gen_productions("S -> a").unwrap();
    assert_eq!(shape(&g), expect(&[("S", &["a"])]));
}

#[test]
fn reads_lines_that_end_in_carriage_return() {
    let g = gen_productions("S -> a b\r\nT->c\r\n").unwrap();
    assert_eq!(shape(&g), expect(&[("S", &["a", "b"]), ("T", &["c"])]));
}

#[test]
fn trims_the_left_side_and_splits_on_any_white_space() {
    let g = gen_productions(" \tS  ->\ta\u{a0}b \u{3000} c  ").unwrap();
    assert_eq!(shape(&g), expect(&[("S", &["a", "b", "c"])]));
}

#[test]
fn keeps_inner_white_space_of_the_left_side() {
    let g = gen_productions("A B -> c").unwrap();
    assert_eq!(shape(&g), expect(&[("A B", &["c"])]));
}

#[test]
fn accepts_an_empty_left_side() {
    let g = gen_productions("-> a").unwrap();
    assert_eq!(shape(&g), expect(&[("", &["a"])]));
}

#[test]
fn reads_up_to_the_second_arrow() {
    let g = gen_productions("A -> b | c -> d | e").unwrap();
    assert_eq!(shape(&g), expect(&[("A", &["b"]), ("A", &["c"])]));
}

#[test]
fn takes_the_first_arrow_of_overlapping_ones() {
    let g = gen_productions("A -->> b").unwrap();
    assert_eq!(shape(&g), expect(&[("A -", &[">", "b"])]));
}

#[test]
fn a_lone_dash_or_angle_is_a_symbol() {
    let g = gen_productions("A -> - > | >-").unwrap();
    assert_eq!(shape(&g), expect(&[("A", &["-", ">"]), ("A", &[">-"])]));
}

#[test]
fn empty_text_has_no_production() {
    assert_eq!(gen_productions("").err(), Some(GrammarError::Empty));
}

#[test]
fn blank_line_has_no_arrow() {
    assert_eq!(
        gen_productions("S -> a\n\nT -> b\n").err(),
        Some(GrammarError::MissingArrow { line: 1 })
    );
    assert_eq!(gen_productions("\n").err(), Some(GrammarError::MissingArrow { line: 0 }));
}

#[test]
fn line_without_arrow_is_reported() {
    assert_eq!(
        gen_productions("S -> a\nT = b").err(),
        Some(GrammarError::MissingArrow { line: 1 })
    );
    assert_eq!(gen_productions("S -").err(), Some(GrammarError::MissingArrow { line: 0 }));
}

#[test]
fn empty_alternative_is_reported() {
    assert_eq!(gen_productions("S ->").err(), Some(GrammarError::EmptyRight { line: 0 }));
    assert_eq!(gen_productions("S -> a |").err(), Some(GrammarError::EmptyRight { line: 0 }));
    assert_eq!(
        gen_productions("S -> a\nT -> | b").err(),
        Some(GrammarError::EmptyRight { line: 1 })
    );
    assert_eq!(
        gen_productions("S -> a\nT -> b |  | c").err(),
        Some(GrammarError::EmptyRight { line: 1 })
    );
    assert_eq!(gen_productions("S -> -> a").err(), Some(GrammarError::EmptyRight { line: 0 }));
}

#[test]
fn first_error_in_text_order_is_reported() {
    assert_eq!(
        gen_productions("S -> a\nT -> \nU\n").err(),
        Some(GrammarError::EmptyRight { line: 1 })
    );
    assert_eq!(
        gen_productions("S -> a\nU\nT -> \n").err(),
        Some(GrammarError::MissingArrow { line: 1 })
    );
}

#[test]
fn white_space_is_what_the_standard_library_calls_white_space() {
    let mut c = 0u32;
    while c <= 0x10FFFF {
        if let Some(ch) = char::from_u32(c) {
            assert_eq!(is_whitespace(ch), ch.is_whitespace());
        }
        c += 1;
    }
}

#[test]
fn non_terminals_in_order_of_first_appearance() {
    let g = gen_productions("E -> E + T | T\nT -> T * F | F\nF -> ( E ) | id\nE -> x").unwrap();
    assert_eq!(get_non_terminals(&g), syms(&["E", "T", "F"]));
    assert_eq!(get_non_terminals(&Vec::new()), Vec::<String>::new());
}

#[test]
fn terminals_in_order_of_first_appearance() {
    let g = gen_productions("E -> E + T | T\nT -> T * F | F\nF -> ( E ) | id | + id").unwrap();
    let nts = get_non_terminals(&g);
    assert_eq!(get_terminals(&g, &nts), syms(&["+", "*", "(", ")", "id"]));
}

#[test]
fn augment_appends_the_end_marker_production() {
    let mut g = gen_productions("E -> E + T | T\nT -> id").unwrap();
    assert_eq!(augment(&mut g), Ok(()));
    assert_eq!(g.len(), 4);
    assert_eq!(g[3].left, "E'");
    assert_eq!(g[3].right, syms(&["$", "E", "$"]));
}

#[test]
fn augment_picks_a_left_side_longer_than_every_other() {
    let mut g = vec![
        production("S", &["a"]),
        production("S'", &["b"]),
        production("Expr", &["c"]),
    ];
    assert_eq!(augment(&mut g), Ok(()));
    assert_eq!(g[3].left, "S''''");
    assert_eq!(g[3].right, syms(&["$", "S", "$"]));
    let mut h = vec![production("Start", &["a"]), production("T", &["b"])];
    assert_eq!(augment(&mut h), Ok(()));
    assert_eq!(h[2].left, "Start'");
}

#[test]
fn augment_of_nothing_fails() {
    let mut g: Vec<Production> = Vec::new();
    assert_eq!(augment(&mut g), Err(GrammarError::Empty));
    assert!(g.is_empty());
}

#[test]
fn end_marker_occurs_once_in_the_terminal_set() {
    for text in ["S -> a", "S -> a | b\nT -> S c | $ a", "A -> B $ $\nB -> $"] {
        let mut g = gen_productions(text).unwrap();
        let nts = get_non_terminals(&g);
        augment(&mut g).unwrap();
        let ts = get_terminal_set(&g, &nts);
        assert_eq!(ts.iter().filter(|t| t.as_str() == "$").count(), 1);
    }
}

#[test]
fn end_marker_joins_the_terminal_set_of_a_grammar_that_lacks_it() {
    let g = gen_productions("S -> a b").unwrap();
    let nts = get_non_terminals(&g);
    assert_eq!(get_terminal_set(&g, &nts), syms(&["a", "b", "$"]));
    let mut grown = gen_productions("S -> a b").unwrap();
    augment(&mut grown).unwrap();
    assert_eq!(get_terminal_set(&grown, &nts), syms(&["a", "b", "$"]));
}

#[test]
fn firstvt_and_lastvt_of_the_arithmetic_grammar() {
    let g = gen_productions("E -> E + T | T\nT -> T * F | F\nF -> ( E ) | id").unwrap();
    let nts = get_non_terminals(&g);
    let first = gen_firstvt(&g, &nts);
    let last = gen_lastvt(&g, &nts);
    assert_eq!(sorted(first.image(&sym("E"))), syms(&["(", "*", "+", "id"]));
    assert_eq!(sorted(first.image(&sym("T"))), syms(&["(", "*", "id"]));
    assert_eq!(sorted(first.image(&sym("F"))), syms(&["(", "id"]));
    assert_eq!(sorted(last.image(&sym("E"))), syms(&[")", "*", "+", "id"]));
    assert_eq!(sorted(last.image(&sym("T"))), syms(&[")", "*", "id"]));
    assert_eq!(sorted(last.image(&sym("F"))), syms(&[")", "id"]));
}

#[test]
fn firstvt_of_a_cycle_is_shared() {
    let g = gen_productions("A -> B a\nB -> A b").unwrap();
    let nts = get_non_terminals(&g);
    let first = gen_firstvt(&g, &nts);
    assert_eq!(sorted(first.image(&sym("A"))), syms(&["a", "b"]));
    assert_eq!(sorted(first.image(&sym("B"))), syms(&["a", "b"]));
    let last = gen_lastvt(&g, &nts);
    assert_eq!(sorted(last.image(&sym("A"))), syms(&["a"]));
    assert_eq!(sorted(last.image(&sym("B"))), syms(&["b"]));
}

#[test]
fn firstvt_sees_one_terminal_behind_a_leading_non_terminal() {
    let g = vec![production("U", &["V", "x", "y"]), production("V", &["V", "W"]), production("W", &[])];
    let nts = get_non_terminals(&g);
    let first = gen_firstvt(&g, &nts);
    assert_eq!(first.image(&sym("U")), syms(&["x"]));
    assert!(first.image(&sym("V")).is_empty());
    assert!(first.image(&sym("W")).is_empty());
    let last = gen_lastvt(&g, &nts);
    assert_eq!(last.image(&sym("U")), syms(&["y"]));
    assert!(last.image(&sym("V")).is_empty());
}

#[test]
fn production_clone_copies_both_sides() {
    let p = production("E", &["E", "+", "T"]);
    let q = p.clone();
    assert_eq!(q.left, "E");
    assert_eq!(q.right, syms(&["E", "+", "T"]));
}
