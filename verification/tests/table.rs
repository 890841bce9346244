use opg::AmbiguousGrammar;
use opg::OpTable;
use opg::Precedence;
use opg::Relation;

fn sym(s: &str) -> String {
    s.to_string()
}

fn syms(names: &[&str]) -> Vec<String> {
    names.iter().map(|s| s.to_string()).collect()
}

fn pair(a: &str, b: &str) -> (String, String) {
    (a.to_string(), b.to_string())
}

#[test]
fn new_table_is_empty() {
    let t = OpTable::new(syms(&["a", "b"]));
    assert_eq!(t.terminal_list(), &syms(&["a", "b"]));
    assert_eq!(t.get(&sym("a"), &sym("b")), None);
    assert_eq!(t.to_string(), " \ta\tb\t\na\t \t \t\nb\t \t \t\n");
}

#[test]
fn new_table_keeps_each_terminal_once() {
    let t = OpTable::new(syms(&["a", "$", "a", "b", "$"]));
    assert_eq!(t.terminal_list(), &syms(&["a", "$", "b"]));
}

#[test]
fn table_without_terminals_draws_the_title_line() {
    let t = OpTable::new(Vec::new());
    assert_eq!(t.to_string(), " \t\n");
}

#[test]
fn insert_same_relation_twice_is_idempotent() {
    let mut t = OpTable::new(syms(&["a", "b"]));
    assert_eq!(t.insert(&pair("a", "b"), Precedence::Less), Ok(()));
    let once = t.to_string();
    assert_eq!(t.insert(&pair("a", "b"), Precedence::Less), Ok(()));
    assert_eq!(t.to_string(), once);
    assert_eq!(t.get(&sym("a"), &sym("b")), Some(Precedence::Less));
    assert_eq!(t.get(&sym("b"), &sym("a")), None);
}

#[test]
fn insert_conflict_names_the_pair() {
    let mut t = OpTable::new(syms(&["a", "b"]));
    assert_eq!(t.insert(&pair("a", "b"), Precedence::Less), Ok(()));
    let res = t.insert(&pair("a", "b"), Precedence::Greater);
    assert_eq!(
        res,
        Err(AmbiguousGrammar {
            left: sym("a"),
            right: sym("b"),
            existing: Precedence::Less,
            attempted: Precedence::Greater,
        })
    );
    assert_eq!(t.get(&sym("a"), &sym("b")), Some(Precedence::Less));
}

#[test]
fn insert_is_directional() {
    let mut t = OpTable::new(syms(&["a", "b"]));
    assert_eq!(t.insert(&pair("a", "b"), Precedence::Equal), Ok(()));
    assert_eq!(t.insert(&pair("b", "a"), Precedence::Greater), Ok(()));
    assert_eq!(t.get(&sym("a"), &sym("b")), Some(Precedence::Equal));
    assert_eq!(t.get(&sym("b"), &sym("a")), Some(Precedence::Greater));
}

#[test]
fn insert_accepts_pairs_outside_the_terminal_set() {
    let mut t = OpTable::new(syms(&["a"]));
    assert_eq!(t.insert(&pair("x", "y"), Precedence::Equal), Ok(()));
    assert_eq!(t.get(&sym("x"), &sym("y")), Some(Precedence::Equal));
    assert_eq!(t.to_string(), " \ta\t\na\t \t\n");
}

#[test]
fn to_string_draws_every_relation() {
    let mut t = OpTable::new(syms(&["+", "id", "$"]));
    t.insert(&pair("+", "id"), Precedence::Less).unwrap();
    t.insert(&pair("id", "+"), Precedence::Greater).unwrap();
    t.insert(&pair("$", "$"), Precedence::Equal).unwrap();
    assert_eq!(
        t.to_string(),
        " \t+\tid\t$\t\n+\t \t<\t \t\nid\t>\t \t \t\n$\t \t \t=\t\n"
    );
}

#[test]
fn render_follows_the_given_order() {
    let mut t = OpTable::new(syms(&["b", "a"]));
    t.insert(&pair("a", "b"), Precedence::Less).unwrap();
    assert_eq!(t.to_string(), " \tb\ta\t\nb\t \t \t\na\t<\t \t\n");
    assert_eq!(t.render(&syms(&["a", "b"])), " \ta\tb\t\na\t \t<\t\nb\t \t \t\n");
    assert_eq!(t.render(&syms(&["a"])), " \ta\t\na\t \t\n");
}

#[test]
fn precedence_symbols() {
    assert_eq!(Precedence::Equal.symbol(), '=');
    assert_eq!(Precedence::Less.symbol(), '<');
    assert_eq!(Precedence::Greater.symbol(), '>');
}

fn relation(pairs: &[(&str, &str)]) -> Relation {
    let mut r = Relation::new();
    for (a, b) in pairs {
        r.insert(&sym(a), &sym(b));
    }
    r
}

#[test]
fn insert_relation_records_every_pair() {
    let mut t = OpTable::new(syms(&["a", "b"]));
    t.insert(&pair("a", "a"), Precedence::Less).unwrap();
    let pairs = relation(&[("a", "b"), ("a", "a"), ("b", "b")]);
    assert_eq!(t.insert_relation(&pairs, Precedence::Less), Ok(()));
    assert_eq!(t.get(&sym("a"), &sym("b")), Some(Precedence::Less));
    assert_eq!(t.get(&sym("a"), &sym("a")), Some(Precedence::Less));
    assert_eq!(t.get(&sym("b"), &sym("b")), Some(Precedence::Less));
    assert_eq!(t.get(&sym("b"), &sym("a")), None);
}

#[test]
fn insert_relation_stops_at_the_first_conflict() {
    let mut t = OpTable::new(syms(&["a", "b"]));
    t.insert(&pair("a", "a"), Precedence::Equal).unwrap();
    let pairs = relation(&[("a", "b"), ("a", "a"), ("b", "b")]);
    let res = t.insert_relation(&pairs, Precedence::Greater);
    assert_eq!(
        res,
        Err(AmbiguousGrammar {
            left: sym("a"),
            right: sym("a"),
            existing: Precedence::Equal,
            attempted: Precedence::Greater,
        })
    );
    assert_eq!(t.get(&sym("a"), &sym("b")), Some(Precedence::Greater));
    assert_eq!(t.get(&sym("a"), &sym("a")), Some(Precedence::Equal));
    assert_eq!(t.get(&sym("b"), &sym("b")), None);
}
