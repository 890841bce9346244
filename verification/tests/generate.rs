use opg::build_table;
use opg::find_eq;
use opg::find_greater;
use opg::find_less;
use opg::gen_firstvt;
use opg::gen_lastvt;
use opg::generate_table;
use opg::get_non_terminals;
use opg::opg_generate;
use opg::AmbiguousGrammar;
use opg::GrammarError;
use opg::OpTable;
use opg::Opg;
use opg::OpgError;
use opg::Precedence;
use opg::Production;

fn syms(names: &[&str]) -> Vec<String> {
    names.iter().map(|s| s.to_string()).collect()
}

fn sym(s: &str) -> String {
    s.to_string()
}

fn production(left: &str, right: &[&str]) -> Production {
    Production { left: left.to_string(), right: syms(right) }
}

fn rel(t: &OpTable, a: &str, b: &str) -> Option<Precedence> {
    t.get(&sym(a), &sym(b))
}

fn count(t: &OpTable) -> usize {
    let ts = t.terminal_list();
    let mut n = 0;
    for a in ts {
        for b in ts {
            if t.get(a, b).is_some() {
                n += 1;
            }
        }
    }
    n
}

const ARITHMETIC: &str = "E -> E + T | T\nT -> T * F | F\nF -> ( E ) | id\n";

#[test]
fn arithmetic_grammar_has_the_usual_precedences() {
    let t = opg_generate(ARITHMETIC).unwrap();
    assert_eq!(t.terminal_list(), &syms(&["+", "*", "(", ")", "id", "$"]));
    assert_ne!(rel(&t, "+", "+"), Some(Precedence::Equal));
    assert_eq!(rel(&t, "+", "+"), Some(Precedence::Greater));
    assert_eq!(rel(&t, "+", "*"), Some(Precedence::Less));
    assert_eq!(rel(&t, "*", "+"), Some(Precedence::Greater));
    assert_eq!(rel(&t, "*", "*"), Some(Precedence::Greater));
    assert_eq!(rel(&t, "+", "("), Some(Precedence::Less));
    assert_eq!(rel(&t, ")", "+"), Some(Precedence::Greater));
    assert_eq!(rel(&t, "id", "$"), Some(Precedence::Greater));
    assert_eq!(rel(&t, "$", "id"), Some(Precedence::Less));
    assert_eq!(rel(&t, "(", ")"), Some(Precedence::Equal));
    assert_eq!(rel(&t, ")", "("), None);
    assert_eq!(rel(&t, "id", "id"), None);
    assert_eq!(rel(&t, "id", "("), None);
    assert_eq!(rel(&t, "$", "$"), Some(Precedence::Equal));
}

#[test]
fn arithmetic_grammar_draws_its_table() {
    let t = opg_generate(ARITHMETIC).unwrap();
    let expected = concat_lines(&[
        " \t+\t*\t(\t)\tid\t$\t",
        "+\t>\t<\t<\t>\t<\t>\t",
        "*\t>\t>\t<\t>\t<\t>\t",
        "(\t<\t<\t<\t=\t<\t \t",
        ")\t>\t>\t \t>\t \t>\t",
        "id\t>\t>\t \t>\t \t>\t",
        "$\t<\t<\t<\t \t<\t=\t",
    ]);
    assert_eq!(t.to_string(), expected);
}

fn concat_lines(lines: &[&str]) -> String {
    let mut s = String::new();
    for l in lines {
        s.push_str(l);
        s.push('\n');
    }
    s
}

#[test]
fn ambiguous_expression_grammar_is_rejected() {
    let res = opg_generate("E -> E + E | E * E | ( E ) | id");
    assert_eq!(
        res.err(),
        Some(OpgError::Ambiguous(AmbiguousGrammar {
            left: sym("+"),
            right: sym("+"),
            existing: Precedence::Less,
            attempted: Precedence::Greater,
        }))
    );
}

#[test]
fn single_production_grammar() {
    let t = opg_generate("S -> a").unwrap();
    assert_eq!(t.terminal_list(), &syms(&["a", "$"]));
    assert_eq!(rel(&t, "a", "$"), Some(Precedence::Greater));
    assert_eq!(rel(&t, "$", "a"), Some(Precedence::Less));
    assert_eq!(rel(&t, "a", "a"), None);
    assert_eq!(rel(&t, "$", "$"), Some(Precedence::Equal));
    assert_eq!(count(&t), 3);
    assert_eq!(t.to_string(), " \ta\t$\t\na\t \t>\t\n$\t<\t=\t\n");
}

#[test]
fn equal_relates_every_two_terminals_of_a_right_side() {
    let t = opg_generate("S -> a b c").unwrap();
    assert_eq!(rel(&t, "a", "b"), Some(Precedence::Equal));
    assert_eq!(rel(&t, "a", "c"), Some(Precedence::Equal));
    assert_eq!(rel(&t, "b", "c"), Some(Precedence::Equal));
    assert_eq!(rel(&t, "b", "a"), None);
    assert_eq!(rel(&t, "c", "a"), None);
}

#[test]
fn malformed_text_is_reported() {
    assert_eq!(opg_generate("").err(), Some(OpgError::Malformed(GrammarError::Empty)));
    assert_eq!(
        opg_generate("S -> a\nnothing").err(),
        Some(OpgError::Malformed(GrammarError::MissingArrow { line: 1 }))
    );
    assert_eq!(
        opg_generate("S -> a |").err(),
        Some(OpgError::Malformed(GrammarError::EmptyRight { line: 0 }))
    );
}

#[test]
fn malformed_productions_are_reported() {
    assert_eq!(
        generate_table(&Vec::new()).err(),
        Some(OpgError::Malformed(GrammarError::Empty))
    );
    let g = vec![production("S", &["a"]), production("T", &[]), production("U", &[])];
    assert_eq!(
        generate_table(&g).err(),
        Some(OpgError::Malformed(GrammarError::EmptyRight { line: 1 }))
    );
}

#[test]
fn non_terminal_without_direct_terminal_is_no_obstacle() {
    let t = opg_generate("S -> A\nA -> a").unwrap();
    assert_eq!(rel(&t, "$", "a"), Some(Precedence::Less));
    assert_eq!(rel(&t, "a", "$"), Some(Precedence::Greater));
    assert_eq!(rel(&t, "$", "$"), Some(Precedence::Equal));
    assert_eq!(count(&t), 3);
}

#[test]
fn generate_table_agrees_with_the_text_reader() {
    let g = vec![
        production("E", &["E", "+", "T"]),
        production("E", &["T"]),
        production("T", &["T", "*", "F"]),
        production("T", &["F"]),
        production("F", &["(", "E", ")"]),
        production("F", &["id"]),
    ];
    let from_productions = generate_table(&g).unwrap();
    let from_text = opg_generate(ARITHMETIC).unwrap();
    assert_eq!(from_productions.to_string(), from_text.to_string());
}

#[test]
fn find_functions_fill_the_table_in_turn() {
    let g = vec![production("S", &["a", "S", "b"]), production("S", &["c"])];
    let nts = get_non_terminals(&g);
    let first = gen_firstvt(&g, &nts);
    let last = gen_lastvt(&g, &nts);
    let mut t = OpTable::new(syms(&["a", "b", "c"]));
    assert_eq!(find_eq(&mut t, &g, &nts), Ok(()));
    assert_eq!(rel(&t, "a", "b"), Some(Precedence::Equal));
    assert_eq!(count(&t), 1);
    assert_eq!(find_less(&mut t, &g, &nts, &first), Ok(()));
    assert_eq!(rel(&t, "a", "a"), Some(Precedence::Less));
    assert_eq!(rel(&t, "a", "c"), Some(Precedence::Less));
    assert_eq!(count(&t), 3);
    assert_eq!(find_greater(&mut t, &g, &nts, &last), Ok(()));
    assert_eq!(rel(&t, "b", "b"), Some(Precedence::Greater));
    assert_eq!(rel(&t, "c", "b"), Some(Precedence::Greater));
    assert_eq!(count(&t), 5);
    assert_eq!(find_eq(&mut t, &g, &nts), Ok(()));
    assert_eq!(count(&t), 5);
}

#[test]
fn find_less_reports_a_conflict_with_an_equal_pair() {
    // a = b from the first production, a < b from the second.
    let g = vec![production("S", &["a", "b"]), production("S", &["a", "T"]), production("T", &["b"])];
    let nts = get_non_terminals(&g);
    let first = gen_firstvt(&g, &nts);
    let mut t = OpTable::new(syms(&["a", "b"]));
    assert_eq!(find_eq(&mut t, &g, &nts), Ok(()));
    assert_eq!(
        find_less(&mut t, &g, &nts, &first),
        Err(AmbiguousGrammar {
            left: sym("a"),
            right: sym("b"),
            existing: Precedence::Equal,
            attempted: Precedence::Less,
        })
    );
}

#[test]
fn build_table_reports_a_conflict_between_equal_and_greater() {
    // a = b from the first production, a > b from the second.
    let g = vec![production("S", &["a", "b"]), production("S", &["T", "b"]), production("T", &["a"])];
    let nts = get_non_terminals(&g);
    let first = gen_firstvt(&g, &nts);
    let last = gen_lastvt(&g, &nts);
    let res = build_table(&g, &nts, &first, &last, syms(&["a", "b"]));
    assert_eq!(
        res.err(),
        Some(AmbiguousGrammar {
            left: sym("a"),
            right: sym("b"),
            existing: Precedence::Equal,
            attempted: Precedence::Greater,
        })
    );
}

#[test]
fn build_table_of_a_consistent_grammar() {
    let g = vec![production("S", &["a", "S", "b"]), production("S", &["c"])];
    let nts = get_non_terminals(&g);
    let first = gen_firstvt(&g, &nts);
    let last = gen_lastvt(&g, &nts);
    let t = build_table(&g, &nts, &first, &last, syms(&["a", "b", "c", "a"])).unwrap();
    assert_eq!(t.terminal_list(), &syms(&["a", "b", "c"]));
    assert_eq!(t.to_string(), " \ta\tb\tc\t\na\t<\t=\t<\t\nb\t \t>\t \t\nc\t \t>\t \t\n");
}

#[test]
fn opg_reads_and_generates() {
    let opg = Opg::new("S -> a".to_string()).unwrap();
    assert_eq!(opg.contents(), "S -> a");
    assert_eq!(opg.productions().len(), 1);
    assert_eq!(opg.productions()[0].left, "S");
    assert_eq!(opg.productions()[0].right, syms(&["a"]));
    assert_eq!(opg.generate(), Ok(" \ta\t$\t\na\t \t>\t\n$\t<\t=\t\n".to_string()));
}

#[test]
fn opg_reports_errors() {
    assert_eq!(Opg::new("S a".to_string()).err(), Some(GrammarError::MissingArrow { line: 0 }));
    assert_eq!(Opg::new(String::new()).err(), Some(GrammarError::Empty));
    let opg = Opg::new("E -> E + E | id".to_string()).unwrap();
    assert_eq!(
        opg.generate(),
        Err(OpgError::Ambiguous(AmbiguousGrammar {
            left: sym("+"),
            right: sym("+"),
            existing: Precedence::Less,
            attempted: Precedence::Greater,
        }))
    );
}
