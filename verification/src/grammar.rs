//! The grammar model: productions, the symbol sets derived from them, and
//! augmentation with the end marker.

use crate::symbol::{
    contains_symbol, distinct, end_marker, end_marker_symbol, insert_symbol, lemma_distinct,
    lemma_push_contains, Symbol,
};
use vstd::prelude::*;
use vstd::string::*;

verus! {

/// A production `left -> right`, one alternative per production.
#[derive(Debug, PartialEq, Eq)]
pub struct Production {
    /// The non-terminal that the production rewrites.
    pub left: String,
    /// The symbols it is rewritten to, in order.
    pub right: Vec<String>,
}

/// The mathematical model of a production.
pub struct Rule {
    /// The non-terminal on the left side.
    pub left: Symbol,
    /// The symbols on the right side, in order.
    pub right: Seq<Symbol>,
}

impl DeepView for Production {
    type V = Rule;

    open spec fn deep_view(&self) -> Rule {
        Rule { left: self.left@, right: self.right.deep_view() }
    }
}

impl View for Production {
    type V = Rule;

    open spec fn view(&self) -> Rule {
        self.deep_view()
    }
}

impl Clone for Production {
    /// Copies the production symbol by symbol.
    fn clone(&self) -> (p: Production)
        ensures
            p@ == self@,
    {
        let mut right: Vec<String> = Vec::new();
        let n: usize = self.right.len();
        let mut i: usize = 0;
        while i < n
            invariant
                n == self.right.len(),
                i <= n,
                right.len() == i,
                forall|j: int|
                    0 <= j < i ==> #[trigger] right.deep_view()[j] == self.right.deep_view()[j],
            decreases n - i,
        {
            let ghost before = right.deep_view();
            let s = self.right[i].clone();
            assert(s@ == self.right.deep_view()[i as int]);
            right.push(s);
            assert(right.deep_view() =~= before.push(s@));
            i = i + 1;
        }
        assert(right.deep_view() =~= self.right.deep_view());
        Production { left: self.left.clone(), right }
    }
}

/// Why a list of productions is not a grammar.
#[derive(Clone, Copy, PartialEq, Eq, Structural, Debug)]
pub enum GrammarError {
    /// There is no production, and so no start symbol.
    Empty,
    /// The line with this number, counted from 0, has no `->`.
    MissingArrow { line: usize },
    /// An alternative on the line with this number, counted from 0, has no
    /// symbol. Of a grammar that was given as a list of productions, the
    /// number is that of the production whose right side is empty.
    EmptyRight { line: usize },
}

/// `s` is the left side of some production of `g`.
pub open spec fn is_left(g: Seq<Rule>, s: Symbol) -> bool {
    exists|i: int| 0 <= i < g.len() && (#[trigger] g[i]).left == s
}

/// `s` stands on the right side of some production of `g`.
pub open spec fn occurs_right(g: Seq<Rule>, s: Symbol) -> bool {
    exists|i: int, j: int|
        0 <= i < g.len() && 0 <= j < g[i].right.len() && #[trigger] g[i].right[j] == s
}

/// The non-terminals of `g`: the left sides of its productions.
pub open spec fn non_terminals(g: Seq<Rule>) -> Set<Symbol> {
    Set::new(|s: Symbol| is_left(g, s))
}

/// The symbols on the right sides of `g` that are not in `nts`.
pub open spec fn terminals(g: Seq<Rule>, nts: Set<Symbol>) -> Set<Symbol> {
    Set::new(|s: Symbol| occurs_right(g, s) && !nts.contains(s))
}

/// The grammar has a start symbol and no production with an empty right side.
pub open spec fn well_formed(g: Seq<Rule>) -> bool {
    &&& g.len() > 0
    &&& forall|i: int| 0 <= i < g.len() ==> (#[trigger] g[i]).right.len() > 0
}

/// The length of the longest left side of `g`.
pub open spec fn longest_left(g: Seq<Rule>) -> nat
    decreases g.len(),
{
    if g.len() == 0 {
        0
    } else {
        let rest = longest_left(g.drop_last());
        if g.last().left.len() > rest {
            g.last().left.len()
        } else {
            rest
        }
    }
}

/// A run of `n` apostrophes.
pub open spec fn primes(n: nat) -> Seq<char> {
    Seq::new(n, |i: int| '\'')
}

/// The left side of the production that augmentation adds: the start symbol
/// followed by just enough apostrophes to be longer than every left side.
pub open spec fn fresh_start(g: Seq<Rule>) -> Symbol {
    g[0].left + primes((longest_left(g) + 1 - g[0].left.len()) as nat)
}

/// The production that augmentation adds: `S' -> $ S $`, with `S` the left
/// side of the first production.
pub open spec fn augmenting_rule(g: Seq<Rule>) -> Rule {
    Rule {
        left: fresh_start(g),
        right: seq![end_marker_symbol(), g[0].left, end_marker_symbol()],
    }
}

/// The augmented grammar: `g` with `S' -> $ S $` appended.
pub open spec fn augmented(g: Seq<Rule>) -> Seq<Rule> {
    g.push(augmenting_rule(g))
}

/// The terminal set of the augmented grammar: its right-side symbols outside
/// `nts`, and the end marker.
pub open spec fn terminal_set(g: Seq<Rule>, nts: Set<Symbol>) -> Set<Symbol> {
    terminals(augmented(g), nts).insert(end_marker_symbol())
}

/// No left side is longer than the longest.
pub proof fn lemma_longest_left(g: Seq<Rule>, i: int)
    requires
        0 <= i < g.len(),
    ensures
        g[i].left.len() <= longest_left(g),
    decreases g.len(),
{
    if i < g.len() - 1 {
        lemma_longest_left(g.drop_last(), i);
    }
}

/// The left side that augmentation adds is not a non-terminal of the grammar
/// it is added to.
pub proof fn lemma_fresh_start_is_fresh(g: Seq<Rule>)
    requires
        g.len() > 0,
    ensures
        !non_terminals(g).contains(fresh_start(g)),
{
    lemma_longest_left(g, 0);
    assert(fresh_start(g).len() == longest_left(g) + 1);
    if is_left(g, fresh_start(g)) {
        let i = choose|i: int| 0 <= i < g.len() && (#[trigger] g[i]).left == fresh_start(g);
        lemma_longest_left(g, i);
    }
}

/// The left sides of `g`, in order.
pub open spec fn lefts(g: Seq<Rule>) -> Seq<Symbol> {
    Seq::new(g.len(), |i: int| g[i].left)
}

/// The non-terminals of `g` in the order of first appearance, each once.
pub open spec fn non_terminal_list(g: Seq<Rule>) -> Seq<Symbol> {
    distinct(lefts(g))
}

/// The symbols on the right sides of `g`, in order.
pub open spec fn right_symbols(g: Seq<Rule>) -> Seq<Symbol>
    decreases g.len(),
{
    if g.len() == 0 {
        Seq::empty()
    } else {
        right_symbols(g.drop_last()) + g.last().right
    }
}

/// The members of `list` that are not in `nts`, in the order of first
/// appearance, each once.
pub open spec fn distinct_outside(list: Seq<Symbol>, nts: Set<Symbol>) -> Seq<Symbol>
    decreases list.len(),
{
    if list.len() == 0 {
        Seq::empty()
    } else {
        let rest = distinct_outside(list.drop_last(), nts);
        if nts.contains(list.last()) || rest.contains(list.last()) {
            rest
        } else {
            rest.push(list.last())
        }
    }
}

/// The right-side symbols of `g` that are not in `nts`, in the order of first
/// appearance, each once.
pub open spec fn terminal_list(g: Seq<Rule>, nts: Set<Symbol>) -> Seq<Symbol> {
    distinct_outside(right_symbols(g), nts)
}

/// `list` with the end marker behind it, unless it is a member already.
pub open spec fn with_end_marker(list: Seq<Symbol>) -> Seq<Symbol> {
    if list.contains(end_marker_symbol()) {
        list
    } else {
        list.push(end_marker_symbol())
    }
}

/// `distinct_outside` keeps the members outside `nts` and no repetition.
pub proof fn lemma_distinct_outside(list: Seq<Symbol>, nts: Set<Symbol>)
    ensures
        distinct_outside(list, nts).no_duplicates(),
        forall|s: Symbol|
            #[trigger] distinct_outside(list, nts).contains(s) <==> list.contains(s)
                && !nts.contains(s),
    decreases list.len(),
{
    if list.len() > 0 {
        let rest = list.drop_last();
        lemma_distinct_outside(rest, nts);
        assert forall|s: Symbol|
            #[trigger] distinct_outside(list, nts).contains(s) <==> list.contains(s)
                && !nts.contains(s) by {
            lemma_push_contains(distinct_outside(rest, nts), list.last(), s);
            assert(list =~= rest.push(list.last()));
            lemma_push_contains(rest, list.last(), s);
        }
    }
}

/// The right-side symbols are the symbols that occur on a right side.
pub proof fn lemma_right_symbols(g: Seq<Rule>, s: Symbol)
    ensures
        right_symbols(g).contains(s) <==> occurs_right(g, s),
    decreases g.len(),
{
    if g.len() > 0 {
        let rest = g.drop_last();
        let last = g.last().right;
        lemma_right_symbols(rest, s);
        if right_symbols(g).contains(s) {
            let k = choose|k: int| 0 <= k < right_symbols(g).len() && right_symbols(g)[k] == s;
            if k < right_symbols(rest).len() {
                assert(right_symbols(rest)[k] == s);
                let (i, j) = choose|i: int, j: int|
                    0 <= i < rest.len() && 0 <= j < rest[i].right.len() && #[trigger] rest[i].right[j]
                        == s;
                assert(g[i].right[j] == s);
            } else {
                assert(g[g.len() - 1].right[k - right_symbols(rest).len()] == s);
            }
        }
        if occurs_right(g, s) {
            let (i, j) = choose|i: int, j: int|
                0 <= i < g.len() && 0 <= j < g[i].right.len() && #[trigger] g[i].right[j] == s;
            if i < rest.len() {
                assert(rest[i].right[j] == s);
                let k = choose|k: int|
                    0 <= k < right_symbols(rest).len() && right_symbols(rest)[k] == s;
                assert(right_symbols(g)[k] == s);
            } else {
                assert(right_symbols(g)[right_symbols(rest).len() + j] == s);
            }
        }
    }
}

/// Collects the non-terminals: the left side of every production, each once,
/// in the order of first appearance.
pub fn get_non_terminals(productions: &Vec<Production>) -> (nts: Vec<String>)
    ensures
        nts.deep_view() == non_terminal_list(productions.deep_view()),
        nts.deep_view().no_duplicates(),
        nts.deep_view().to_set() == non_terminals(productions.deep_view()),
{
    let ghost g = productions.deep_view();
    let mut nts: Vec<String> = Vec::new();
    assert(nts.deep_view() =~= Seq::<Symbol>::empty());
    let n: usize = productions.len();
    let mut i: usize = 0;
    while i < n
        invariant
            n == productions.len(),
            g == productions.deep_view(),
            i <= n,
            nts.deep_view() == distinct(lefts(g).take(i as int)),
        decreases n - i,
    {
        proof {
            assert(lefts(g).take(i + 1).drop_last() =~= lefts(g).take(i as int));
            assert(lefts(g).take(i + 1).last() == productions[i as int].left@);
        }
        insert_symbol(&mut nts, &productions[i].left);
        i = i + 1;
    }
    proof {
        assert(lefts(g).take(n as int) =~= lefts(g));
        lemma_distinct(lefts(g));
        assert forall|s: Symbol| nts.deep_view().to_set().contains(s) <==> non_terminals(
            g,
        ).contains(s) by {
            if lefts(g).contains(s) {
                let k = choose|k: int| 0 <= k < lefts(g).len() && lefts(g)[k] == s;
                assert(g[k].left == s);
            }
            if is_left(g, s) {
                let k = choose|k: int| 0 <= k < g.len() && (#[trigger] g[k]).left == s;
                assert(lefts(g)[k] == s);
            }
        }
        assert(nts.deep_view().to_set() =~= non_terminals(g));
    }
    nts
}

/// Collects the terminals: every right-side symbol that is not in `nts`, each
/// once, in the order of first appearance.
pub fn get_terminals(productions: &Vec<Production>, nts: &Vec<String>) -> (ts: Vec<String>)
    ensures
        ts.deep_view() == terminal_list(productions.deep_view(), nts.deep_view().to_set()),
        ts.deep_view().no_duplicates(),
        ts.deep_view().to_set() == terminals(productions.deep_view(), nts.deep_view().to_set()),
{
    let ghost g = productions.deep_view();
    let ghost nt = nts.deep_view().to_set();
    let mut ts: Vec<String> = Vec::new();
    assert(ts.deep_view() =~= Seq::<Symbol>::empty());
    let n: usize = productions.len();
    let mut i: usize = 0;
    assert(g.take(0) =~= Seq::<Rule>::empty());
    while i < n
        invariant
            n == productions.len(),
            g == productions.deep_view(),
            nt == nts.deep_view().to_set(),
            i <= n,
            ts.deep_view() == distinct_outside(right_symbols(g.take(i as int)), nt),
        decreases n - i,
    {
        let ghost seen = right_symbols(g.take(i as int));
        let ghost right = g[i as int].right;
        let m: usize = productions[i].right.len();
        let mut j: usize = 0;
        proof {
            assert(right == productions[i as int].right.deep_view());
            assert(seen + right.take(0) =~= seen);
        }
        while j < m
            invariant
                n == productions.len(),
                g == productions.deep_view(),
                nt == nts.deep_view().to_set(),
                i < n,
                seen == right_symbols(g.take(i as int)),
                right == g[i as int].right,
                m == productions[i as int].right.len(),
                m == right.len(),
                j <= m,
                ts.deep_view() == distinct_outside(seen + right.take(j as int), nt),
            decreases m - j,
        {
            proof {
                let next = seen + right.take(j + 1);
                assert(next.drop_last() =~= seen + right.take(j as int));
                assert(next.last() == right[j as int]);
                assert(productions[i as int].right[j as int]@ == right[j as int]);
            }
            if !contains_symbol(nts, &productions[i].right[j]) {
                insert_symbol(&mut ts, &productions[i].right[j]);
            }
            j = j + 1;
        }
        proof {
            assert(right.take(m as int) =~= right);
            assert(g.take(i + 1).drop_last() =~= g.take(i as int));
            assert(g.take(i + 1).last() == g[i as int]);
        }
        i = i + 1;
    }
    proof {
        assert(g.take(n as int) =~= g);
        lemma_distinct_outside(right_symbols(g), nt);
        assert forall|s: Symbol| ts.deep_view().to_set().contains(s) <==> terminals(
            g,
            nt,
        ).contains(s) by {
            lemma_right_symbols(g, s);
        }
        assert(ts.deep_view().to_set() =~= terminals(g, nt));
    }
    ts
}

/// Collects the terminal set of an augmented grammar: the right-side symbols
/// that are not in `nts`, in the order of first appearance, and the end
/// marker. Each member occurs once; so does the end marker, however many
/// productions there are.
pub fn get_terminal_set(productions: &Vec<Production>, nts: &Vec<String>) -> (ts: Vec<String>)
    ensures
        ts.deep_view() == with_end_marker(
            terminal_list(productions.deep_view(), nts.deep_view().to_set()),
        ),
        ts.deep_view().no_duplicates(),
        ts.deep_view().to_set() == terminals(
            productions.deep_view(),
            nts.deep_view().to_set(),
        ).insert(end_marker_symbol()),
        crate::symbol::occurrences(ts.deep_view(), end_marker_symbol()) == 1,
{
    let mut ts = get_terminals(productions, nts);
    let ghost before = ts.deep_view();
    let marker = end_marker();
    insert_symbol(&mut ts, &marker);
    proof {
        assert forall|s: Symbol|
            ts.deep_view().to_set().contains(s) <==> before.to_set().insert(
                end_marker_symbol(),
            ).contains(s) by {
            lemma_push_contains(before, end_marker_symbol(), s);
        }
        assert(ts.deep_view().to_set() =~= before.to_set().insert(end_marker_symbol()));
        lemma_push_contains(before, end_marker_symbol(), end_marker_symbol());
        crate::symbol::lemma_member_occurs_once(ts.deep_view(), end_marker_symbol());
    }
    ts
}

/// Augments the grammar: appends `S' -> $ S $`, where `S` is the left side of
/// the first production and `S'` is `S` followed by enough apostrophes to
/// differ from every left side. A grammar without productions has no start
/// symbol and is left as it is.
pub fn augment(productions: &mut Vec<Production>) -> (res: Result<(), GrammarError>)
    ensures
        old(productions).len() == 0 ==> res == Err::<(), GrammarError>(GrammarError::Empty)
            && final(productions).deep_view() == old(productions).deep_view(),
        old(productions).len() > 0 ==> res is Ok && final(productions).deep_view() == augmented(
            old(productions).deep_view(),
        ),
{
    let n: usize = productions.len();
    if n == 0 {
        return Err(GrammarError::Empty);
    }
    let ghost g = productions.deep_view();
    let mut longest: usize = 0;
    let mut i: usize = 0;
    while i < n
        invariant
            n == productions.len(),
            g == productions.deep_view(),
            i <= n,
            longest == longest_left(g.take(i as int)),
        decreases n - i,
    {
        let len: usize = productions[i].left.as_str().unicode_len();
        proof {
            assert(g.take(i + 1).drop_last() =~= g.take(i as int));
            assert(g.take(i + 1).last() == g[i as int]);
            assert(productions[i as int].left@ == g[i as int].left);
        }
        if len > longest {
            longest = len;
        }
        i = i + 1;
    }
    proof {
        assert(g.take(n as int) =~= g);
        lemma_longest_left(g, 0);
        reveal_strlit("'");
    }
    let start = productions[0].left.clone();
    assert(start@ == g[0].left);
    let mut fresh = start.clone();
    let mut remaining: usize = longest - start.as_str().unicode_len();
    fresh.append("'");
    assert(fresh@ =~= start@ + primes(1));
    while remaining > 0
        invariant
            remaining <= longest - start@.len(),
            start@.len() <= longest,
            "'"@ == seq!['\''],
            fresh@ == start@ + primes((longest - start@.len() + 1 - remaining) as nat),
        decreases remaining,
    {
        let ghost before = fresh@;
        fresh.append("'");
        remaining = remaining - 1;
        assert(fresh@ =~= start@ + primes((longest - start@.len() + 1 - remaining) as nat));
    }
    assert(fresh@ == fresh_start(g));
    let mut right: Vec<String> = Vec::new();
    right.push(end_marker());
    right.push(start);
    right.push(end_marker());
    assert(right.deep_view() =~= seq![end_marker_symbol(), g[0].left, end_marker_symbol()]);
    let added = Production { left: fresh, right };
    assert(added.deep_view() == augmenting_rule(g));
    productions.push(added);
    assert(productions.deep_view() =~= augmented(g));
    Ok(())
}

} // verus!
