use opg::compose_elements;
use opg::Dfs;
use opg::Relation;

fn sym(s: &str) -> String {
    s.to_string()
}

fn relation(pairs: &[(&str, &str)]) -> Relation {
    let mut r = Relation::new();
    for (a, b) in pairs {
        r.insert(&sym(a), &sym(b));
    }
    r
}

fn sorted(mut v: Vec<String>) -> Vec<String> {
    v.sort();
    v
}

fn syms(names: &[&str]) -> Vec<String> {
    names.iter().map(|s| s.to_string()).collect()
}

#[test]
fn closure_of_a_two_cycle_is_shared() {
    let mono = relation(&[("A", "a"), ("B", "b")]);
    let con = relation(&[("A", "B"), ("B", "A")]);
    let vt = compose_elements(&mono, &con);
    assert_eq!(sorted(vt.image(&sym("A"))), syms(&["a", "b"]));
    assert_eq!(sorted(vt.image(&sym("B"))), syms(&["a", "b"]));
}

#[test]
fn closure_follows_a_chain() {
    let mono = relation(&[("C", "c"), ("A", "a")]);
    let con = relation(&[("A", "B"), ("B", "C")]);
    let vt = compose_elements(&mono, &con);
    assert_eq!(sorted(vt.image(&sym("A"))), syms(&["a", "c"]));
    assert_eq!(sorted(vt.image(&sym("B"))), syms(&["c"]));
    assert_eq!(sorted(vt.image(&sym("C"))), syms(&["c"]));
    assert!(vt.image(&sym("D")).is_empty());
}

#[test]
fn closure_without_containment_is_the_direct_relation() {
    let mono = relation(&[("A", "a"), ("A", "b"), ("B", "c")]);
    let con = Relation::new();
    let vt = compose_elements(&mono, &con);
    assert_eq!(vt.len(), 3);
    assert!(vt.contains(&sym("A"), &sym("a")));
    assert!(vt.contains(&sym("A"), &sym("b")));
    assert!(vt.contains(&sym("B"), &sym("c")));
    assert!(!vt.contains(&sym("B"), &sym("a")));
}

#[test]
fn closure_of_a_self_loop_ends() {
    let mono = relation(&[("E", "+")]);
    let con = relation(&[("E", "E")]);
    let vt = compose_elements(&mono, &con);
    assert_eq!(vt.image(&sym("E")), syms(&["+"]));
}

#[test]
fn closure_of_a_node_without_terminals_or_edges_is_empty() {
    let mono = relation(&[("A", "a")]);
    let con = relation(&[("B", "C")]);
    let vt = compose_elements(&mono, &con);
    assert!(vt.image(&sym("B")).is_empty());
    assert!(vt.image(&sym("C")).is_empty());
    assert_eq!(vt.image(&sym("A")), syms(&["a"]));
}

#[test]
fn closure_reaches_through_a_node_without_direct_terminals() {
    let mono = relation(&[("A", "a")]);
    let con = relation(&[("S", "A")]);
    let vt = compose_elements(&mono, &con);
    assert_eq!(vt.image(&sym("S")), syms(&["a"]));
    assert_eq!(vt.image(&sym("A")), syms(&["a"]));
}

#[test]
fn closure_of_a_cycle_with_a_tail() {
    // A -> B -> C -> A, D -> C, C -> T
    let mono = relation(&[("A", "a"), ("T", "t"), ("D", "d")]);
    let con = relation(&[("A", "B"), ("B", "C"), ("C", "A"), ("D", "C"), ("C", "T")]);
    let vt = compose_elements(&mono, &con);
    for member in ["A", "B", "C"] {
        assert_eq!(sorted(vt.image(&sym(member))), syms(&["a", "t"]));
    }
    assert_eq!(sorted(vt.image(&sym("D"))), syms(&["a", "d", "t"]));
    assert_eq!(sorted(vt.image(&sym("T"))), syms(&["t"]));
}

#[test]
fn closure_of_a_diamond_matches_the_recursive_definition() {
    // No cycle: VT(X) = mono(X) + VT of every contained non-terminal.
    let mono = relation(&[("L", "l"), ("R", "r"), ("B", "b")]);
    let con = relation(&[("T", "L"), ("T", "R"), ("L", "B"), ("R", "B")]);
    let vt = compose_elements(&mono, &con);
    assert_eq!(sorted(vt.image(&sym("B"))), syms(&["b"]));
    assert_eq!(sorted(vt.image(&sym("L"))), syms(&["b", "l"]));
    assert_eq!(sorted(vt.image(&sym("R"))), syms(&["b", "r"]));
    assert_eq!(sorted(vt.image(&sym("T"))), syms(&["b", "l", "r"]));
    assert_eq!(vt.len(), 8);
}

#[test]
fn dfs_may_run_twice() {
    let mono = relation(&[("A", "a"), ("B", "b")]);
    let con = relation(&[("A", "B")]);
    let mut dfs = Dfs::new(mono, con);
    let first = dfs.dfs();
    let second = dfs.dfs();
    assert_eq!(sorted(first.image(&sym("A"))), syms(&["a", "b"]));
    assert_eq!(sorted(second.image(&sym("A"))), syms(&["a", "b"]));
    assert_eq!(first.len(), second.len());
}

#[test]
fn relation_insert_is_idempotent() {
    let mut r = Relation::new();
    r.insert(&sym("A"), &sym("a"));
    r.insert(&sym("A"), &sym("a"));
    r.insert(&sym("A"), &sym("b"));
    assert_eq!(r.len(), 2);
    assert_eq!(r.left(1), "A");
    assert_eq!(r.right(1), "b");
    assert_eq!(r.image(&sym("A")), syms(&["a", "b"]));
    let copy = r.clone();
    assert_eq!(copy.len(), 2);
    assert!(copy.contains(&sym("A"), &sym("b")));
    assert!(!copy.contains(&sym("a"), &sym("A")));
}

#[test]
fn relation_bulk_inserts() {
    let mut r = Relation::new();
    r.insert_all(&sym("+"), &syms(&["a", "b"]));
    r.insert_all_to(&syms(&["x", "y"]), &sym("+"));
    assert_eq!(r.len(), 4);
    assert!(r.contains(&sym("+"), &sym("a")));
    assert!(r.contains(&sym("x"), &sym("+")));
    assert!(!r.contains(&sym("+"), &sym("x")));
    let mut sources = Vec::new();
    r.add_sources(&mut sources);
    assert_eq!(sources, syms(&["+", "x", "y"]));
}
