//! The precedence relation builder.
//!
//! Three rules read the relations off the productions of the augmented
//! grammar. For two terminals `a` and `b` on one right side, `a` before `b`:
//! `a = b`. For a terminal `a` right before a non-terminal `U`: `a < t` for
//! every `t` in FIRSTVT(`U`). For a non-terminal `U` right before a terminal
//! `b`: `t > b` for every `t` in LASTVT(`U`). Every relation goes into the
//! table through its conflict check.

use crate::grammar::{Production, Rule};
use crate::relation::Relation;
use crate::symbol::{contains_symbol, distinct, Symbol};
use crate::table::{
    compatible, is_conflict, merged, AmbiguousGrammar, OpTable, Precedence,
};
use vstd::prelude::*;

verus! {

/// On the right side `right`, `p.0` stands at position `i` and `p.1` at the
/// later position `j`, and both are terminals.
pub open spec fn equal_at(
    right: Seq<Symbol>,
    nts: Set<Symbol>,
    i: int,
    j: int,
    p: (Symbol, Symbol),
) -> bool {
    &&& 0 <= i < j < right.len()
    &&& right[i] == p.0
    &&& right[j] == p.1
    &&& !nts.contains(p.0)
    &&& !nts.contains(p.1)
}

/// On the right side `right`, the terminal `p.0` stands at position `i` right
/// before a non-terminal that has `p.1` in its FIRSTVT.
pub open spec fn less_at(
    right: Seq<Symbol>,
    nts: Set<Symbol>,
    firstvt: Set<(Symbol, Symbol)>,
    i: int,
    p: (Symbol, Symbol),
) -> bool {
    &&& 0 <= i < right.len() - 1
    &&& right[i] == p.0
    &&& !nts.contains(right[i])
    &&& nts.contains(right[i + 1])
    &&& firstvt.contains((right[i + 1], p.1))
}

/// On the right side `right`, a non-terminal that has `p.0` in its LASTVT
/// stands at position `i` right before the terminal `p.1`.
pub open spec fn greater_at(
    right: Seq<Symbol>,
    nts: Set<Symbol>,
    lastvt: Set<(Symbol, Symbol)>,
    i: int,
    p: (Symbol, Symbol),
) -> bool {
    &&& 0 <= i < right.len() - 1
    &&& right[i + 1] == p.1
    &&& nts.contains(right[i])
    &&& !nts.contains(right[i + 1])
    &&& lastvt.contains((right[i], p.0))
}

/// The ordered pairs that one right side relates by `=`.
pub open spec fn equal_in(right: Seq<Symbol>, nts: Set<Symbol>, p: (Symbol, Symbol)) -> bool {
    exists|i: int, j: int| #[trigger] equal_at(right, nts, i, j, p)
}

/// The ordered pairs that one right side relates by `<`.
pub open spec fn less_in(
    right: Seq<Symbol>,
    nts: Set<Symbol>,
    firstvt: Set<(Symbol, Symbol)>,
    p: (Symbol, Symbol),
) -> bool {
    exists|i: int| #[trigger] less_at(right, nts, firstvt, i, p)
}

/// The ordered pairs that one right side relates by `>`.
pub open spec fn greater_in(
    right: Seq<Symbol>,
    nts: Set<Symbol>,
    lastvt: Set<(Symbol, Symbol)>,
    p: (Symbol, Symbol),
) -> bool {
    exists|i: int| #[trigger] greater_at(right, nts, lastvt, i, p)
}

/// The ordered pairs of terminals that the grammar relates by `=`.
pub open spec fn equal_pairs(g: Seq<Rule>, nts: Set<Symbol>) -> Set<(Symbol, Symbol)> {
    Set::new(
        |p: (Symbol, Symbol)|
            exists|k: int| 0 <= k < g.len() && equal_in((#[trigger] g[k]).right, nts, p),
    )
}

/// The ordered pairs of terminals that the grammar relates by `<`.
pub open spec fn less_pairs(g: Seq<Rule>, nts: Set<Symbol>, firstvt: Set<(Symbol, Symbol)>) -> Set<
    (Symbol, Symbol),
> {
    Set::new(
        |p: (Symbol, Symbol)|
            exists|k: int| 0 <= k < g.len() && less_in((#[trigger] g[k]).right, nts, firstvt, p),
    )
}

/// The ordered pairs of terminals that the grammar relates by `>`.
pub open spec fn greater_pairs(
    g: Seq<Rule>,
    nts: Set<Symbol>,
    lastvt: Set<(Symbol, Symbol)>,
) -> Set<(Symbol, Symbol)> {
    Set::new(
        |p: (Symbol, Symbol)|
            exists|k: int| 0 <= k < g.len() && greater_in((#[trigger] g[k]).right, nts, lastvt, p),
    )
}

/// The pair `p` is related by `=` at a position pair that comes before
/// `(bound_i, bound_j)` in row order.
spec fn equal_before(
    right: Seq<Symbol>,
    nts: Set<Symbol>,
    bound_i: int,
    bound_j: int,
    p: (Symbol, Symbol),
) -> bool {
    exists|i: int, j: int|
        #[trigger] equal_at(right, nts, i, j, p) && (i < bound_i || (i == bound_i && j < bound_j))
}

/// The pair `p` is related by `<` at a position before `bound`.
spec fn less_before(
    right: Seq<Symbol>,
    nts: Set<Symbol>,
    firstvt: Set<(Symbol, Symbol)>,
    bound: int,
    p: (Symbol, Symbol),
) -> bool {
    exists|i: int| #[trigger] less_at(right, nts, firstvt, i, p) && i < bound
}

/// The pair `p` is related by `>` at a position before `bound`.
spec fn greater_before(
    right: Seq<Symbol>,
    nts: Set<Symbol>,
    lastvt: Set<(Symbol, Symbol)>,
    bound: int,
    p: (Symbol, Symbol),
) -> bool {
    exists|i: int| #[trigger] greater_at(right, nts, lastvt, i, p) && i < bound
}

/// Adds to `out` the pairs that the right side `right` relates by `=`.
fn equal_pairs_of_right(right: &Vec<String>, nts: &Vec<String>, out: &mut Relation)
    ensures
        forall|p: (Symbol, Symbol)|
            #![trigger final(out)@.contains(p)]
            final(out)@.contains(p) <==> old(out)@.contains(p) || equal_in(
                right.deep_view(),
                nts.deep_view().to_set(),
                p,
            ),
{
    let ghost r = right.deep_view();
    let ghost nt = nts.deep_view().to_set();
    let n: usize = right.len();
    let mut i: usize = 0;
    while i < n
        invariant
            n == right.len(),
            r == right.deep_view(),
            nt == nts.deep_view().to_set(),
            i <= n,
            forall|p: (Symbol, Symbol)|
                #![trigger out@.contains(p)]
                out@.contains(p) <==> old(out)@.contains(p) || equal_before(r, nt, i as int, 0, p),
        decreases n - i,
    {
        assert(right[i as int]@ == r[i as int]);
        if !contains_symbol(nts, &right[i]) {
            let mut j: usize = i + 1;
            proof {
                assert forall|p: (Symbol, Symbol)|
                    #![trigger out@.contains(p)]
                    out@.contains(p) <==> old(out)@.contains(p) || equal_before(
                        r,
                        nt,
                        i as int,
                        j as int,
                        p,
                    ) by {
                    lemma_equal_before_widen(r, nt, i as int, 0, i + 1, p);
                }
            }
            while j < n
                invariant
                    n == right.len(),
                    r == right.deep_view(),
                    nt == nts.deep_view().to_set(),
                    i < j <= n,
                    !nt.contains(r[i as int]),
                    forall|p: (Symbol, Symbol)|
                        #![trigger out@.contains(p)]
                        out@.contains(p) <==> old(out)@.contains(p) || equal_before(
                            r,
                            nt,
                            i as int,
                            j as int,
                            p,
                        ),
                decreases n - j,
            {
                let ghost before = out@;
                assert(right[j as int]@ == r[j as int]);
                if !contains_symbol(nts, &right[j]) {
                    out.insert(&right[i], &right[j]);
                }
                proof {
                    assert forall|p: (Symbol, Symbol)|
                        #![trigger out@.contains(p)]
                        out@.contains(p) <==> old(out)@.contains(p) || equal_before(
                            r,
                            nt,
                            i as int,
                            j + 1,
                            p,
                        ) by {
                        lemma_equal_before_step(r, nt, i as int, j as int, p);
                        assert(p == (p.0, p.1));
                        assert(equal_at(r, nt, i as int, j as int, p) <==> !nt.contains(r[j as int])
                            && p == (r[i as int], r[j as int]));
                    }
                }
                j = j + 1;
            }
        }
        proof {
            assert forall|p: (Symbol, Symbol)|
                #![trigger out@.contains(p)]
                out@.contains(p) <==> old(out)@.contains(p) || equal_before(r, nt, i + 1, 0, p) by {
                lemma_equal_before_row(r, nt, i as int, p);
                if nt.contains(r[i as int]) {
                    lemma_equal_before_widen(r, nt, i as int, 0, n as int, p);
                }
            }
        }
        i = i + 1;
    }
    proof {
        assert forall|p: (Symbol, Symbol)|
            #![trigger out@.contains(p)]
            out@.contains(p) <==> old(out)@.contains(p) || equal_in(r, nt, p) by {
            lemma_equal_before_all(r, nt, p);
        }
    }
}

/// Passing one more position `j` beside `i` adds the pair found there.
proof fn lemma_equal_before_step(
    right: Seq<Symbol>,
    nts: Set<Symbol>,
    i: int,
    j: int,
    p: (Symbol, Symbol),
)
    ensures
        equal_before(right, nts, i, j + 1, p) <==> equal_before(right, nts, i, j, p) || equal_at(
            right,
            nts,
            i,
            j,
            p,
        ),
{
    if equal_before(right, nts, i, j + 1, p) {
        let (a, b) = choose|a: int, b: int|
            #[trigger] equal_at(right, nts, a, b, p) && (a < i || (a == i && b < j + 1));
        if !(a == i && b == j) {
            assert(equal_at(right, nts, a, b, p) && (a < i || (a == i && b < j)));
        }
    }
    if equal_before(right, nts, i, j, p) {
        let (a, b) = choose|a: int, b: int|
            #[trigger] equal_at(right, nts, a, b, p) && (a < i || (a == i && b < j));
        assert(equal_at(right, nts, a, b, p) && (a < i || (a == i && b < j + 1)));
    }
    if equal_at(right, nts, i, j, p) {
        assert(equal_at(right, nts, i, j, p) && (i < i || (i == i && j < j + 1)));
    }
}

/// Beside position `i`, moving the second bound from `from` to `to` adds
/// nothing where no pair is found between them: none is found at or before
/// `i` itself, and none at all where the symbol at `i` is a non-terminal.
proof fn lemma_equal_before_widen(
    right: Seq<Symbol>,
    nts: Set<Symbol>,
    i: int,
    from: int,
    to: int,
    p: (Symbol, Symbol),
)
    requires
        0 <= i < right.len(),
        from <= to,
        to <= i + 1 || nts.contains(right[i]),
    ensures
        equal_before(right, nts, i, to, p) <==> equal_before(right, nts, i, from, p),
{
    if equal_before(right, nts, i, to, p) {
        let (a, b) = choose|a: int, b: int|
            #[trigger] equal_at(right, nts, a, b, p) && (a < i || (a == i && b < to));
        assert(equal_at(right, nts, a, b, p) && (a < i || (a == i && b < from)));
    }
    if equal_before(right, nts, i, from, p) {
        let (a, b) = choose|a: int, b: int|
            #[trigger] equal_at(right, nts, a, b, p) && (a < i || (a == i && b < from));
        assert(equal_at(right, nts, a, b, p) && (a < i || (a == i && b < to)));
    }
}

/// All of row `i` has been passed when row `i + 1` begins.
proof fn lemma_equal_before_row(right: Seq<Symbol>, nts: Set<Symbol>, i: int, p: (Symbol, Symbol))
    ensures
        equal_before(right, nts, i + 1, 0, p) <==> equal_before(
            right,
            nts,
            i,
            right.len() as int,
            p,
        ),
{
    if equal_before(right, nts, i + 1, 0, p) {
        let (a, b) = choose|a: int, b: int|
            #[trigger] equal_at(right, nts, a, b, p) && (a < i + 1 || (a == i + 1 && b < 0));
        assert(equal_at(right, nts, a, b, p) && (a < i || (a == i && b < right.len())));
    }
    if equal_before(right, nts, i, right.len() as int, p) {
        let (a, b) = choose|a: int, b: int|
            #[trigger] equal_at(right, nts, a, b, p) && (a < i || (a == i && b < right.len()));
        assert(equal_at(right, nts, a, b, p) && (a < i + 1 || (a == i + 1 && b < 0)));
    }
}

/// Once every row has been passed, every pair of the right side was found.
proof fn lemma_equal_before_all(right: Seq<Symbol>, nts: Set<Symbol>, p: (Symbol, Symbol))
    ensures
        equal_before(right, nts, right.len() as int, 0, p) <==> equal_in(right, nts, p),
{
    if equal_in(right, nts, p) {
        let (a, b) = choose|a: int, b: int| #[trigger] equal_at(right, nts, a, b, p);
        assert(equal_at(right, nts, a, b, p) && (a < right.len() || (a == right.len() && b < 0)));
    }
}

/// Adds to `out` the pairs that the right side `right` relates by `<`.
fn less_pairs_of_right(
    right: &Vec<String>,
    nts: &Vec<String>,
    firstvt: &Relation,
    out: &mut Relation,
)
    ensures
        forall|p: (Symbol, Symbol)|
            #![trigger final(out)@.contains(p)]
            final(out)@.contains(p) <==> old(out)@.contains(p) || less_in(
                right.deep_view(),
                nts.deep_view().to_set(),
                firstvt@,
                p,
            ),
{
    let ghost r = right.deep_view();
    let ghost nt = nts.deep_view().to_set();
    let n: usize = right.len();
    let last: usize = if n == 0 {
        0
    } else {
        n - 1
    };
    let mut i: usize = 0;
    while i < last
        invariant
            n == right.len(),
            r == right.deep_view(),
            nt == nts.deep_view().to_set(),
            last == n - 1 || (n == 0 && last == 0),
            i <= last,
            forall|p: (Symbol, Symbol)|
                #![trigger out@.contains(p)]
                out@.contains(p) <==> old(out)@.contains(p) || less_before(
                    r,
                    nt,
                    firstvt@,
                    i as int,
                    p,
                ),
        decreases last - i,
    {
        let ghost before = out@;
        assert(right[i as int]@ == r[i as int]);
        assert(right[i + 1]@ == r[i + 1]);
        if !contains_symbol(nts, &right[i]) && contains_symbol(nts, &right[i + 1]) {
            let firsts = firstvt.image(&right[i + 1]);
            out.insert_all(&right[i], &firsts);
        }
        proof {
            assert forall|p: (Symbol, Symbol)|
                #![trigger out@.contains(p)]
                out@.contains(p) <==> old(out)@.contains(p) || less_before(
                    r,
                    nt,
                    firstvt@,
                    i + 1,
                    p,
                ) by {
                lemma_less_before_step(r, nt, firstvt@, i as int, p);
            }
        }
        i = i + 1;
    }
    proof {
        assert forall|p: (Symbol, Symbol)|
            #![trigger out@.contains(p)]
            out@.contains(p) <==> old(out)@.contains(p) || less_in(r, nt, firstvt@, p) by {
            if less_in(r, nt, firstvt@, p) {
                let a = choose|a: int| #[trigger] less_at(r, nt, firstvt@, a, p);
                assert(less_at(r, nt, firstvt@, a, p) && a < i);
            }
        }
    }
}

/// Passing one more position adds the pairs found there.
proof fn lemma_less_before_step(
    right: Seq<Symbol>,
    nts: Set<Symbol>,
    firstvt: Set<(Symbol, Symbol)>,
    i: int,
    p: (Symbol, Symbol),
)
    ensures
        less_before(right, nts, firstvt, i + 1, p) <==> less_before(right, nts, firstvt, i, p)
            || less_at(right, nts, firstvt, i, p),
{
    if less_before(right, nts, firstvt, i + 1, p) {
        let a = choose|a: int| #[trigger] less_at(right, nts, firstvt, a, p) && a < i + 1;
        if a != i {
            assert(less_at(right, nts, firstvt, a, p) && a < i);
        }
    }
    if less_before(right, nts, firstvt, i, p) {
        let a = choose|a: int| #[trigger] less_at(right, nts, firstvt, a, p) && a < i;
        assert(less_at(right, nts, firstvt, a, p) && a < i + 1);
    }
    if less_at(right, nts, firstvt, i, p) {
        assert(less_at(right, nts, firstvt, i, p) && i < i + 1);
    }
}

/// Adds to `out` the pairs that the right side `right` relates by `>`.
fn greater_pairs_of_right(
    right: &Vec<String>,
    nts: &Vec<String>,
    lastvt: &Relation,
    out: &mut Relation,
)
    ensures
        forall|p: (Symbol, Symbol)|
            #![trigger final(out)@.contains(p)]
            final(out)@.contains(p) <==> old(out)@.contains(p) || greater_in(
                right.deep_view(),
                nts.deep_view().to_set(),
                lastvt@,
                p,
            ),
{
    let ghost r = right.deep_view();
    let ghost nt = nts.deep_view().to_set();
    let n: usize = right.len();
    let last: usize = if n == 0 {
        0
    } else {
        n - 1
    };
    let mut i: usize = 0;
    while i < last
        invariant
            n == right.len(),
            r == right.deep_view(),
            nt == nts.deep_view().to_set(),
            last == n - 1 || (n == 0 && last == 0),
            i <= last,
            forall|p: (Symbol, Symbol)|
                #![trigger out@.contains(p)]
                out@.contains(p) <==> old(out)@.contains(p) || greater_before(
                    r,
                    nt,
                    lastvt@,
                    i as int,
                    p,
                ),
        decreases last - i,
    {
        let ghost before = out@;
        assert(right[i as int]@ == r[i as int]);
        assert(right[i + 1]@ == r[i + 1]);
        if contains_symbol(nts, &right[i]) && !contains_symbol(nts, &right[i + 1]) {
            let lasts = lastvt.image(&right[i]);
            out.insert_all_to(&lasts, &right[i + 1]);
        }
        proof {
            assert forall|p: (Symbol, Symbol)|
                #![trigger out@.contains(p)]
                out@.contains(p) <==> old(out)@.contains(p) || greater_before(
                    r,
                    nt,
                    lastvt@,
                    i + 1,
                    p,
                ) by {
                lemma_greater_before_step(r, nt, lastvt@, i as int, p);
            }
        }
        i = i + 1;
    }
    proof {
        assert forall|p: (Symbol, Symbol)|
            #![trigger out@.contains(p)]
            out@.contains(p) <==> old(out)@.contains(p) || greater_in(r, nt, lastvt@, p) by {
            if greater_in(r, nt, lastvt@, p) {
                let a = choose|a: int| #[trigger] greater_at(r, nt, lastvt@, a, p);
                assert(greater_at(r, nt, lastvt@, a, p) && a < i);
            }
        }
    }
}

/// Passing one more position adds the pairs found there.
proof fn lemma_greater_before_step(
    right: Seq<Symbol>,
    nts: Set<Symbol>,
    lastvt: Set<(Symbol, Symbol)>,
    i: int,
    p: (Symbol, Symbol),
)
    ensures
        greater_before(right, nts, lastvt, i + 1, p) <==> greater_before(right, nts, lastvt, i, p)
            || greater_at(right, nts, lastvt, i, p),
{
    if greater_before(right, nts, lastvt, i + 1, p) {
        let a = choose|a: int| #[trigger] greater_at(right, nts, lastvt, a, p) && a < i + 1;
        if a != i {
            assert(greater_at(right, nts, lastvt, a, p) && a < i);
        }
    }
    if greater_before(right, nts, lastvt, i, p) {
        let a = choose|a: int| #[trigger] greater_at(right, nts, lastvt, a, p) && a < i;
        assert(greater_at(right, nts, lastvt, a, p) && a < i + 1);
    }
    if greater_at(right, nts, lastvt, i, p) {
        assert(greater_at(right, nts, lastvt, i, p) && i < i + 1);
    }
}

/// Collects the ordered pairs of terminals that the grammar relates by `=`.
pub fn collect_equal_pairs(productions: &Vec<Production>, nts: &Vec<String>) -> (out: Relation)
    ensures
        out@ == equal_pairs(productions.deep_view(), nts.deep_view().to_set()),
{
    let ghost g = productions.deep_view();
    let ghost nt = nts.deep_view().to_set();
    let mut out = Relation::new();
    let n: usize = productions.len();
    let mut k: usize = 0;
    while k < n
        invariant
            n == productions.len(),
            g == productions.deep_view(),
            nt == nts.deep_view().to_set(),
            k <= n,
            forall|p: (Symbol, Symbol)|
                #![trigger out@.contains(p)]
                out@.contains(p) <==> exists|a: int|
                    0 <= a < k && equal_in((#[trigger] g[a]).right, nt, p),
        decreases n - k,
    {
        let ghost before = out@;
        assert(g[k as int].right == productions[k as int].right.deep_view());
        equal_pairs_of_right(&productions[k].right, nts, &mut out);
        proof {
            assert forall|p: (Symbol, Symbol)|
                #![trigger out@.contains(p)]
                out@.contains(p) <==> exists|a: int|
                    0 <= a < k + 1 && equal_in((#[trigger] g[a]).right, nt, p) by {
                assert(out@.contains(p) <==> before.contains(p) || equal_in(g[k as int].right, nt, p));
                if before.contains(p) {
                    let a = choose|a: int| 0 <= a < k && equal_in((#[trigger] g[a]).right, nt, p);
                    assert(0 <= a < k + 1 && equal_in(g[a].right, nt, p));
                }
            }
        }
        k = k + 1;
    }
    assert(out@ =~= equal_pairs(g, nt));
    out
}

/// Collects the ordered pairs of terminals that the grammar relates by `<`.
pub fn collect_less_pairs(
    productions: &Vec<Production>,
    nts: &Vec<String>,
    firstvt: &Relation,
) -> (out: Relation)
    ensures
        out@ == less_pairs(productions.deep_view(), nts.deep_view().to_set(), firstvt@),
{
    let ghost g = productions.deep_view();
    let ghost nt = nts.deep_view().to_set();
    let mut out = Relation::new();
    let n: usize = productions.len();
    let mut k: usize = 0;
    while k < n
        invariant
            n == productions.len(),
            g == productions.deep_view(),
            nt == nts.deep_view().to_set(),
            k <= n,
            forall|p: (Symbol, Symbol)|
                #![trigger out@.contains(p)]
                out@.contains(p) <==> exists|a: int|
                    0 <= a < k && less_in((#[trigger] g[a]).right, nt, firstvt@, p),
        decreases n - k,
    {
        let ghost before = out@;
        assert(g[k as int].right == productions[k as int].right.deep_view());
        less_pairs_of_right(&productions[k].right, nts, firstvt, &mut out);
        proof {
            assert forall|p: (Symbol, Symbol)|
                #![trigger out@.contains(p)]
                out@.contains(p) <==> exists|a: int|
                    0 <= a < k + 1 && less_in((#[trigger] g[a]).right, nt, firstvt@, p) by {
                assert(out@.contains(p) <==> before.contains(p) || less_in(
                    g[k as int].right,
                    nt,
                    firstvt@,
                    p,
                ));
                if before.contains(p) {
                    let a = choose|a: int|
                        0 <= a < k && less_in((#[trigger] g[a]).right, nt, firstvt@, p);
                    assert(0 <= a < k + 1 && less_in(g[a].right, nt, firstvt@, p));
                }
            }
        }
        k = k + 1;
    }
    assert(out@ =~= less_pairs(g, nt, firstvt@));
    out
}

/// Collects the ordered pairs of terminals that the grammar relates by `>`.
pub fn collect_greater_pairs(
    productions: &Vec<Production>,
    nts: &Vec<String>,
    lastvt: &Relation,
) -> (out: Relation)
    ensures
        out@ == greater_pairs(productions.deep_view(), nts.deep_view().to_set(), lastvt@),
{
    let ghost g = productions.deep_view();
    let ghost nt = nts.deep_view().to_set();
    let mut out = Relation::new();
    let n: usize = productions.len();
    let mut k: usize = 0;
    while k < n
        invariant
            n == productions.len(),
            g == productions.deep_view(),
            nt == nts.deep_view().to_set(),
            k <= n,
            forall|p: (Symbol, Symbol)|
                #![trigger out@.contains(p)]
                out@.contains(p) <==> exists|a: int|
                    0 <= a < k && greater_in((#[trigger] g[a]).right, nt, lastvt@, p),
        decreases n - k,
    {
        let ghost before = out@;
        assert(g[k as int].right == productions[k as int].right.deep_view());
        greater_pairs_of_right(&productions[k].right, nts, lastvt, &mut out);
        proof {
            assert forall|p: (Symbol, Symbol)|
                #![trigger out@.contains(p)]
                out@.contains(p) <==> exists|a: int|
                    0 <= a < k + 1 && greater_in((#[trigger] g[a]).right, nt, lastvt@, p) by {
                assert(out@.contains(p) <==> before.contains(p) || greater_in(
                    g[k as int].right,
                    nt,
                    lastvt@,
                    p,
                ));
                if before.contains(p) {
                    let a = choose|a: int|
                        0 <= a < k && greater_in((#[trigger] g[a]).right, nt, lastvt@, p);
                    assert(0 <= a < k + 1 && greater_in(g[a].right, nt, lastvt@, p));
                }
            }
        }
        k = k + 1;
    }
    assert(out@ =~= greater_pairs(g, nt, lastvt@));
    out
}

/// Records `=` for every two terminals that stand on one right side, the
/// first before the second. The first pair that has another relation in the
/// table stops the work and is returned as a conflict.
pub fn find_eq(table: &mut OpTable, productions: &Vec<Production>, nts: &Vec<String>) -> (res:
    Result<(), AmbiguousGrammar>)
    ensures
        final(table).terminals() == old(table).terminals(),
        res is Ok <==> compatible(
            old(table)@,
            equal_pairs(productions.deep_view(), nts.deep_view().to_set()),
            Precedence::Equal,
        ),
        res is Ok ==> final(table)@ == merged(
            old(table)@,
            equal_pairs(productions.deep_view(), nts.deep_view().to_set()),
            Precedence::Equal,
        ),
        res matches Err(e) ==> is_conflict(
            old(table)@,
            final(table)@,
            equal_pairs(productions.deep_view(), nts.deep_view().to_set()),
            Precedence::Equal,
            e,
        ),
{
    let pairs = collect_equal_pairs(productions, nts);
    table.insert_relation(&pairs, Precedence::Equal)
}

/// Records `a < t` for every terminal `a` that stands right before a
/// non-terminal `U`, and every `t` in FIRSTVT(`U`). The first pair that has
/// another relation in the table stops the work and is returned as a
/// conflict.
pub fn find_less(
    table: &mut OpTable,
    productions: &Vec<Production>,
    nts: &Vec<String>,
    firstvt: &Relation,
) -> (res: Result<(), AmbiguousGrammar>)
    ensures
        final(table).terminals() == old(table).terminals(),
        res is Ok <==> compatible(
            old(table)@,
            less_pairs(productions.deep_view(), nts.deep_view().to_set(), firstvt@),
            Precedence::Less,
        ),
        res is Ok ==> final(table)@ == merged(
            old(table)@,
            less_pairs(productions.deep_view(), nts.deep_view().to_set(), firstvt@),
            Precedence::Less,
        ),
        res matches Err(e) ==> is_conflict(
            old(table)@,
            final(table)@,
            less_pairs(productions.deep_view(), nts.deep_view().to_set(), firstvt@),
            Precedence::Less,
            e,
        ),
{
    let pairs = collect_less_pairs(productions, nts, firstvt);
    table.insert_relation(&pairs, Precedence::Less)
}

/// Records `t > b` for every terminal `b` that stands right behind a
/// non-terminal `U`, and every `t` in LASTVT(`U`). The first pair that has
/// another relation in the table stops the work and is returned as a
/// conflict.
pub fn find_greater(
    table: &mut OpTable,
    productions: &Vec<Production>,
    nts: &Vec<String>,
    lastvt: &Relation,
) -> (res: Result<(), AmbiguousGrammar>)
    ensures
        final(table).terminals() == old(table).terminals(),
        res is Ok <==> compatible(
            old(table)@,
            greater_pairs(productions.deep_view(), nts.deep_view().to_set(), lastvt@),
            Precedence::Greater,
        ),
        res is Ok ==> final(table)@ == merged(
            old(table)@,
            greater_pairs(productions.deep_view(), nts.deep_view().to_set(), lastvt@),
            Precedence::Greater,
        ),
        res matches Err(e) ==> is_conflict(
            old(table)@,
            final(table)@,
            greater_pairs(productions.deep_view(), nts.deep_view().to_set(), lastvt@),
            Precedence::Greater,
            e,
        ),
{
    let pairs = collect_greater_pairs(productions, nts, lastvt);
    table.insert_relation(&pairs, Precedence::Greater)
}

/// The three rules ask for the relation `rel` between the terminals of `k`.
pub open spec fn required(
    g: Seq<Rule>,
    nts: Set<Symbol>,
    firstvt: Set<(Symbol, Symbol)>,
    lastvt: Set<(Symbol, Symbol)>,
    k: (Symbol, Symbol),
    rel: Precedence,
) -> bool {
    match rel {
        Precedence::Equal => equal_pairs(g, nts).contains(k),
        Precedence::Less => less_pairs(g, nts, firstvt).contains(k),
        Precedence::Greater => greater_pairs(g, nts, lastvt).contains(k),
    }
}

/// The rules ask for at most one relation for each ordered pair: the grammar
/// is an operator-precedence grammar.
pub open spec fn consistent(
    g: Seq<Rule>,
    nts: Set<Symbol>,
    firstvt: Set<(Symbol, Symbol)>,
    lastvt: Set<(Symbol, Symbol)>,
) -> bool {
    forall|k: (Symbol, Symbol), r1: Precedence, r2: Precedence|
        #![trigger required(g, nts, firstvt, lastvt, k, r1), required(g, nts, firstvt, lastvt, k, r2)]
        required(g, nts, firstvt, lastvt, k, r1) && required(g, nts, firstvt, lastvt, k, r2) ==> r1
            == r2
}

/// The table of an operator-precedence grammar: every ordered pair that a
/// rule asks a relation for, with that relation.
pub open spec fn precedence_map(
    g: Seq<Rule>,
    nts: Set<Symbol>,
    firstvt: Set<(Symbol, Symbol)>,
    lastvt: Set<(Symbol, Symbol)>,
) -> Map<(Symbol, Symbol), Precedence> {
    Map::new(
        |k: (Symbol, Symbol)|
            equal_pairs(g, nts).contains(k) || less_pairs(g, nts, firstvt).contains(k)
                || greater_pairs(g, nts, lastvt).contains(k),
        |k: (Symbol, Symbol)|
            if equal_pairs(g, nts).contains(k) {
                Precedence::Equal
            } else if less_pairs(g, nts, firstvt).contains(k) {
                Precedence::Less
            } else {
                Precedence::Greater
            },
    )
}

/// Some ordered pair is asked to have both `=` and `<`.
pub open spec fn equal_meets_less(
    g: Seq<Rule>,
    nts: Set<Symbol>,
    firstvt: Set<(Symbol, Symbol)>,
) -> bool {
    exists|k: (Symbol, Symbol)|
        equal_pairs(g, nts).contains(k) && #[trigger] less_pairs(g, nts, firstvt).contains(k)
}

/// `e` is a conflict of the first kind that the grammar has: between `=` and
/// `<` where some pair is asked to have both, and else between `>` and one of
/// the other two.
pub open spec fn first_clash(
    g: Seq<Rule>,
    nts: Set<Symbol>,
    firstvt: Set<(Symbol, Symbol)>,
    lastvt: Set<(Symbol, Symbol)>,
    e: AmbiguousGrammar,
) -> bool {
    if equal_meets_less(g, nts, firstvt) {
        &&& e.existing == Precedence::Equal
        &&& e.attempted == Precedence::Less
    } else {
        &&& e.existing != Precedence::Greater
        &&& e.attempted == Precedence::Greater
    }
}

/// Builds the precedence table of the productions over the terminals `ts`:
/// the `=` relations first, the `<` relations next, the `>` relations last.
/// The table comes back exactly when the rules ask for no two different
/// relations for one pair; otherwise the first conflict met comes back.
pub fn build_table(
    productions: &Vec<Production>,
    nts: &Vec<String>,
    firstvt: &Relation,
    lastvt: &Relation,
    ts: Vec<String>,
) -> (res: Result<OpTable, AmbiguousGrammar>)
    ensures
        res is Ok <==> consistent(
            productions.deep_view(),
            nts.deep_view().to_set(),
            firstvt@,
            lastvt@,
        ),
        res matches Ok(table) ==> {
            &&& table.terminals() == distinct(ts.deep_view())
            &&& table@ == precedence_map(
                productions.deep_view(),
                nts.deep_view().to_set(),
                firstvt@,
                lastvt@,
            )
        },
        res matches Err(e) ==> {
            &&& e.existing != e.attempted
            &&& required(
                productions.deep_view(),
                nts.deep_view().to_set(),
                firstvt@,
                lastvt@,
                (e.left@, e.right@),
                e.existing,
            )
            &&& required(
                productions.deep_view(),
                nts.deep_view().to_set(),
                firstvt@,
                lastvt@,
                (e.left@, e.right@),
                e.attempted,
            )
            &&& first_clash(
                productions.deep_view(),
                nts.deep_view().to_set(),
                firstvt@,
                lastvt@,
                e,
            )
        },
{
    let ghost g = productions.deep_view();
    let ghost nt = nts.deep_view().to_set();
    let ghost eq = equal_pairs(g, nt);
    let ghost lt = less_pairs(g, nt, firstvt@);
    let ghost gt = greater_pairs(g, nt, lastvt@);
    let ghost empty = Map::<(Symbol, Symbol), Precedence>::empty();
    let mut table = OpTable::new(ts);
    match find_eq(&mut table, productions, nts) {
        Ok(()) => {},
        Err(e) => {
            return Err(e);
        },
    }
    let ghost m1 = table@;
    assert(m1 == merged(empty, eq, Precedence::Equal));
    match find_less(&mut table, productions, nts, firstvt) {
        Ok(()) => {},
        Err(e) => {
            proof {
                let k = (e.left@, e.right@);
                assert(required(g, nt, firstvt@, lastvt@, k, Precedence::Equal));
                assert(required(g, nt, firstvt@, lastvt@, k, Precedence::Less));
            }
            return Err(e);
        },
    }
    let ghost m2 = table@;
    assert(m2 == merged(m1, lt, Precedence::Less));
    match find_greater(&mut table, productions, nts, lastvt) {
        Ok(()) => {},
        Err(e) => {
            proof {
                let k = (e.left@, e.right@);
                assert(required(g, nt, firstvt@, lastvt@, k, Precedence::Greater));
                assert(!equal_meets_less(g, nt, firstvt@)) by {
                    assert forall|q: (Symbol, Symbol)|
                        !(eq.contains(q) && #[trigger] lt.contains(q)) by {
                        if eq.contains(q) && lt.contains(q) {
                            assert(m1.contains_key(q));
                        }
                    }
                }
                if lt.contains(k) {
                    assert(required(g, nt, firstvt@, lastvt@, k, Precedence::Less));
                } else {
                    assert(required(g, nt, firstvt@, lastvt@, k, Precedence::Equal));
                }
            }
            return Err(e);
        },
    }
    proof {
        assert forall|k: (Symbol, Symbol), r1: Precedence, r2: Precedence|
            #![trigger required(g, nt, firstvt@, lastvt@, k, r1), required(g, nt, firstvt@, lastvt@, k, r2)]
            required(g, nt, firstvt@, lastvt@, k, r1) && required(
                g,
                nt,
                firstvt@,
                lastvt@,
                k,
                r2,
            ) implies r1 == r2 by {
            if lt.contains(k) && eq.contains(k) {
                assert(m1.contains_key(k));
            }
            if gt.contains(k) && (eq.contains(k) || lt.contains(k)) {
                assert(m2.contains_key(k));
            }
        }
        assert(table@ =~= precedence_map(g, nt, firstvt@, lastvt@));
    }
    Ok(table)
}

} // verus!
