//! FIRSTVT and LASTVT: the direct relations read off the productions, and
//! their closure.
//!
//! For a production `U -> s1 s2 ...`, taken from its first end: a terminal
//! `s1` is a direct terminal of `U`; a non-terminal `s1` is contained in `U`,
//! and a terminal `s2` right behind it is a direct terminal of `U` as well.
//! LASTVT is the same on the reversed right sides.

use crate::dfs::{
    acyclic, compose_elements, lemma_acyclic_closure_is_recursive, lemma_closure_elim,
    lemma_cycle_members_share_vt, reaches, vt_closure, vt_within,
};
use crate::grammar::{occurs_right, Production, Rule};
use crate::relation::Relation;
use crate::symbol::{contains_symbol, Symbol};
use vstd::prelude::*;

verus! {

/// `t` is a terminal that a right side shows directly at its first end.
pub open spec fn direct_first(right: Seq<Symbol>, nts: Set<Symbol>, t: Symbol) -> bool {
    &&& right.len() > 0
    &&& !nts.contains(t)
    &&& (right[0] == t || (nts.contains(right[0]) && right.len() > 1 && right[1] == t))
}

/// `x` is a non-terminal with which a right side begins.
pub open spec fn contained_first(right: Seq<Symbol>, nts: Set<Symbol>, x: Symbol) -> bool {
    right.len() > 0 && right[0] == x && nts.contains(x)
}

/// The direct-contribution relation of the first direction.
pub open spec fn first_mono(g: Seq<Rule>, nts: Set<Symbol>) -> Set<(Symbol, Symbol)> {
    Set::new(
        |p: (Symbol, Symbol)|
            exists|i: int|
                0 <= i < g.len() && (#[trigger] g[i]).left == p.0 && direct_first(
                    g[i].right,
                    nts,
                    p.1,
                ),
    )
}

/// The containment relation of the first direction.
pub open spec fn first_con(g: Seq<Rule>, nts: Set<Symbol>) -> Set<(Symbol, Symbol)> {
    Set::new(
        |p: (Symbol, Symbol)|
            exists|i: int|
                0 <= i < g.len() && (#[trigger] g[i]).left == p.0 && contained_first(
                    g[i].right,
                    nts,
                    p.1,
                ),
    )
}

/// The grammar with every right side reversed.
pub open spec fn reversed(g: Seq<Rule>) -> Seq<Rule> {
    Seq::new(g.len(), |i: int| Rule { left: g[i].left, right: g[i].right.reverse() })
}

/// FIRSTVT: a non-terminal is related to every terminal that can stand first
/// among the terminals of a string it derives.
pub open spec fn firstvt(g: Seq<Rule>, nts: Set<Symbol>) -> Set<(Symbol, Symbol)> {
    vt_closure(first_mono(g, nts), first_con(g, nts))
}

/// LASTVT: FIRSTVT of the grammar with reversed right sides.
pub open spec fn lastvt(g: Seq<Rule>, nts: Set<Symbol>) -> Set<(Symbol, Symbol)> {
    firstvt(reversed(g), nts)
}

/// The containment relation of a grammar is finite.
pub proof fn lemma_first_con_finite(g: Seq<Rule>, nts: Set<Symbol>)
    ensures
        first_con(g, nts).finite(),
{
    let heads = Seq::new(
        g.len(),
        |i: int|
            (
                g[i].left,
                if g[i].right.len() > 0 {
                    g[i].right[0]
                } else {
                    g[i].left
                },
            ),
    );
    vstd::seq_lib::seq_to_set_is_finite(heads);
    assert forall|p: (Symbol, Symbol)| first_con(g, nts).contains(p) implies heads.to_set().contains(
        p,
    ) by {
        let i = choose|i: int|
            0 <= i < g.len() && (#[trigger] g[i]).left == p.0 && contained_first(
                g[i].right,
                nts,
                p.1,
            );
        assert(heads[i] == p);
    }
    vstd::set_lib::lemma_len_subset(first_con(g, nts), heads.to_set());
}

/// In a grammar whose containment relation has no cycle, FIRSTVT is what the
/// direct recursive definition derives: the direct terminals of a
/// non-terminal, and the FIRSTVT of every non-terminal it begins with.
pub proof fn lemma_firstvt_without_cycles(g: Seq<Rule>, nts: Set<Symbol>, x: Symbol, t: Symbol)
    requires
        acyclic(first_con(g, nts)),
    ensures
        firstvt(g, nts).contains((x, t)) <==> vt_within(
            first_mono(g, nts),
            first_con(g, nts),
            x,
            t,
            first_con(g, nts).len(),
        ),
{
    lemma_first_con_finite(g, nts);
    lemma_acyclic_closure_is_recursive(first_mono(g, nts), first_con(g, nts), x, t);
}

/// In a grammar whose containment relation from the last end has no cycle,
/// LASTVT is what the direct recursive definition derives.
pub proof fn lemma_lastvt_without_cycles(g: Seq<Rule>, nts: Set<Symbol>, x: Symbol, t: Symbol)
    requires
        acyclic(first_con(reversed(g), nts)),
    ensures
        lastvt(g, nts).contains((x, t)) <==> vt_within(
            first_mono(reversed(g), nts),
            first_con(reversed(g), nts),
            x,
            t,
            first_con(reversed(g), nts).len(),
        ),
{
    lemma_firstvt_without_cycles(reversed(g), nts, x, t);
}

/// Two non-terminals on one containment cycle have the same FIRSTVT.
pub proof fn lemma_firstvt_on_cycle(g: Seq<Rule>, nts: Set<Symbol>, x: Symbol, y: Symbol)
    requires
        reaches(first_con(g, nts), x, y),
        reaches(first_con(g, nts), y, x),
    ensures
        forall|t: Symbol|
            #![trigger firstvt(g, nts).contains((x, t))]
            #![trigger firstvt(g, nts).contains((y, t))]
            firstvt(g, nts).contains((x, t)) <==> firstvt(g, nts).contains((y, t)),
{
    lemma_cycle_members_share_vt(first_mono(g, nts), first_con(g, nts), x, y);
}

/// Two non-terminals on one containment cycle from the last end have the
/// same LASTVT.
pub proof fn lemma_lastvt_on_cycle(g: Seq<Rule>, nts: Set<Symbol>, x: Symbol, y: Symbol)
    requires
        reaches(first_con(reversed(g), nts), x, y),
        reaches(first_con(reversed(g), nts), y, x),
    ensures
        forall|t: Symbol|
            #![trigger lastvt(g, nts).contains((x, t))]
            #![trigger lastvt(g, nts).contains((y, t))]
            lastvt(g, nts).contains((x, t)) <==> lastvt(g, nts).contains((y, t)),
{
    lemma_firstvt_on_cycle(reversed(g), nts, x, y);
}

/// What FIRSTVT relates a non-terminal to is a symbol outside `nts` that
/// stands on a right side of the grammar.
pub proof fn lemma_firstvt_gives_terminals(g: Seq<Rule>, nts: Set<Symbol>, x: Symbol, t: Symbol)
    requires
        firstvt(g, nts).contains((x, t)),
    ensures
        occurs_right(g, t),
        !nts.contains(t),
{
    lemma_closure_elim(first_mono(g, nts), first_con(g, nts), x, t);
    let y = choose|y: Symbol| #[trigger]
        reaches(first_con(g, nts), x, y) && first_mono(g, nts).contains((y, t));
    let p = (y, t);
    let i = choose|i: int|
        0 <= i < g.len() && (#[trigger] g[i]).left == p.0 && direct_first(g[i].right, nts, p.1);
    if g[i].right[0] == t {
        assert(g[i].right[0] == t);
    } else {
        assert(g[i].right[1] == t);
    }
}

/// What LASTVT relates a non-terminal to is a symbol outside `nts` that
/// stands on a right side of the grammar.
pub proof fn lemma_lastvt_gives_terminals(g: Seq<Rule>, nts: Set<Symbol>, x: Symbol, t: Symbol)
    requires
        lastvt(g, nts).contains((x, t)),
    ensures
        occurs_right(g, t),
        !nts.contains(t),
{
    let r = reversed(g);
    lemma_firstvt_gives_terminals(r, nts, x, t);
    let (i, j) = choose|i: int, j: int|
        0 <= i < r.len() && 0 <= j < r[i].right.len() && #[trigger] r[i].right[j] == t;
    assert(g[i].right[g[i].right.len() - 1 - j] == t);
}

/// The grammar as one direction reads it.
pub open spec fn oriented(g: Seq<Rule>, from_end: bool) -> Seq<Rule> {
    if from_end {
        reversed(g)
    } else {
        g
    }
}

/// Reads the direct-contribution and the containment relation off the
/// productions, from the first end of each right side or, with `from_end`,
/// from its last end. A production with an empty right side gives nothing.
pub fn direct_relations(productions: &Vec<Production>, nts: &Vec<String>, from_end: bool) -> (out:
    (Relation, Relation))
    ensures
        out.0@ == first_mono(
            oriented(productions.deep_view(), from_end),
            nts.deep_view().to_set(),
        ),
        out.1@ == first_con(oriented(productions.deep_view(), from_end), nts.deep_view().to_set()),
{
    let ghost g = oriented(productions.deep_view(), from_end);
    let ghost nt = nts.deep_view().to_set();
    let mut mono = Relation::new();
    let mut con = Relation::new();
    let n: usize = productions.len();
    let mut i: usize = 0;
    while i < n
        invariant
            n == productions.len(),
            n == g.len(),
            g == oriented(productions.deep_view(), from_end),
            nt == nts.deep_view().to_set(),
            i <= n,
            forall|p: (Symbol, Symbol)|
                #![trigger mono@.contains(p)]
                mono@.contains(p) <==> exists|k: int|
                    0 <= k < i && (#[trigger] g[k]).left == p.0 && direct_first(
                        g[k].right,
                        nt,
                        p.1,
                    ),
            forall|p: (Symbol, Symbol)|
                #![trigger con@.contains(p)]
                con@.contains(p) <==> exists|k: int|
                    0 <= k < i && (#[trigger] g[k]).left == p.0 && contained_first(
                        g[k].right,
                        nt,
                        p.1,
                    ),
        decreases n - i,
    {
        let p = &productions[i];
        let len: usize = p.right.len();
        let ghost mono0 = mono@;
        let ghost con0 = con@;
        let ghost rule = g[i as int];
        proof {
            let plain = productions.deep_view()[i as int];
            assert(plain.left == p.left@);
            assert(plain.right == p.right.deep_view());
            assert(rule.left == p.left@);
            assert(rule.right.len() == len);
            if len > 0 {
                assert(rule.right[0] == (if from_end {
                    p.right.deep_view()[len - 1]
                } else {
                    p.right.deep_view()[0]
                }));
            }
            if len > 1 {
                assert(rule.right[1] == (if from_end {
                    p.right.deep_view()[len - 2]
                } else {
                    p.right.deep_view()[1]
                }));
            }
        }
        if len > 0 {
            let head: &String = if from_end {
                &p.right[len - 1]
            } else {
                &p.right[0]
            };
            assert(head@ == rule.right[0]);
            if contains_symbol(nts, head) {
                con.insert(&p.left, head);
                if len > 1 {
                    let next: &String = if from_end {
                        &p.right[len - 2]
                    } else {
                        &p.right[1]
                    };
                    assert(next@ == rule.right[1]);
                    if !contains_symbol(nts, next) {
                        mono.insert(&p.left, next);
                    }
                }
            } else {
                mono.insert(&p.left, head);
            }
        }
        proof {
            assert forall|q: (Symbol, Symbol)|
                #![trigger mono@.contains(q)]
                mono@.contains(q) <==> exists|k: int|
                    0 <= k < i + 1 && (#[trigger] g[k]).left == q.0 && direct_first(
                        g[k].right,
                        nt,
                        q.1,
                    ) by {
                assert(q == (q.0, q.1));
                assert(mono@.contains(q) <==> mono0.contains(q) || (rule.left == q.0
                    && direct_first(rule.right, nt, q.1)));
                if rule.left == q.0 && direct_first(rule.right, nt, q.1) {
                    assert(g[i as int].left == q.0);
                }
            }
            assert forall|q: (Symbol, Symbol)|
                #![trigger con@.contains(q)]
                con@.contains(q) <==> exists|k: int|
                    0 <= k < i + 1 && (#[trigger] g[k]).left == q.0 && contained_first(
                        g[k].right,
                        nt,
                        q.1,
                    ) by {
                assert(q == (q.0, q.1));
                assert(con@.contains(q) <==> con0.contains(q) || (rule.left == q.0
                    && contained_first(rule.right, nt, q.1)));
                if rule.left == q.0 && contained_first(rule.right, nt, q.1) {
                    assert(g[i as int].left == q.0);
                }
            }
        }
        i = i + 1;
    }
    assert(mono@ =~= first_mono(g, nt));
    assert(con@ =~= first_con(g, nt));
    (mono, con)
}

/// Computes FIRSTVT for every non-terminal of the grammar.
pub fn gen_firstvt(productions: &Vec<Production>, nts: &Vec<String>) -> (vt: Relation)
    ensures
        vt@ == firstvt(productions.deep_view(), nts.deep_view().to_set()),
{
    let (firstvtmono, firstvtcon) = direct_relations(productions, nts, false);
    compose_elements(&firstvtmono, &firstvtcon)
}

/// Computes LASTVT for every non-terminal of the grammar.
pub fn gen_lastvt(productions: &Vec<Production>, nts: &Vec<String>) -> (vt: Relation)
    ensures
        vt@ == lastvt(productions.deep_view(), nts.deep_view().to_set()),
{
    let (lastvtmono, lastvtcon) = direct_relations(productions, nts, true);
    compose_elements(&lastvtmono, &lastvtcon)
}

} // verus!
