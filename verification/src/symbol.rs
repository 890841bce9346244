//! Grammar symbols and small symbol collections.
//!
//! A symbol is an opaque name. Executable code holds it as a `String`; contracts
//! speak of its view, a sequence of characters. A collection of symbols is a
//! `Vec<String>` that is read as the sequence of its members' views.

use vstd::prelude::*;

verus! {

/// The mathematical model of a grammar symbol.
pub type Symbol = Seq<char>;

/// The reserved end marker `$` that augmentation wraps round the start symbol.
pub open spec fn end_marker_symbol() -> Symbol {
    seq!['$']
}

/// Returns the end marker as an owned symbol.
pub fn end_marker() -> (s: String)
    ensures
        s@ == end_marker_symbol(),
{
    proof {
        reveal_strlit("$");
    }
    let s = "$".to_owned();
    assert(s@ =~= end_marker_symbol());
    s
}

/// Tells whether `s` is a member of `set`.
pub fn contains_symbol(set: &Vec<String>, s: &String) -> (found: bool)
    ensures
        found == set.deep_view().contains(s@),
{
    let n: usize = set.len();
    let mut i: usize = 0;
    while i < n
        invariant
            n == set.len(),
            i <= n,
            forall|j: int| 0 <= j < i ==> set.deep_view()[j] != s@,
        decreases n - i,
    {
        if set[i] == *s {
            assert(set.deep_view()[i as int] == s@);
            return true;
        }
        i = i + 1;
    }
    false
}

/// Adds `s` at the end of `set` unless it is a member already.
pub fn insert_symbol(set: &mut Vec<String>, s: &String)
    ensures
        old(set).deep_view().contains(s@) ==> final(set).deep_view() == old(set).deep_view(),
        !old(set).deep_view().contains(s@) ==> final(set).deep_view() == old(set).deep_view().push(
            s@,
        ),
        old(set).deep_view().no_duplicates() ==> final(set).deep_view().no_duplicates(),
{
    if !contains_symbol(set, s) {
        let ghost before = set.deep_view();
        set.push(s.clone());
        assert(set.deep_view() =~= before.push(s@));
    }
}

/// `set` followed by the members of `items` that it lacks, each once, in the
/// order of `items`.
pub open spec fn union_list(set: Seq<Symbol>, items: Seq<Symbol>) -> Seq<Symbol>
    decreases items.len(),
{
    if items.len() == 0 {
        set
    } else {
        let rest = union_list(set, items.drop_last());
        if rest.contains(items.last()) {
            rest
        } else {
            rest.push(items.last())
        }
    }
}

/// `union_list` holds the members of both lists, and no repetition that
/// `set` did not have.
pub proof fn lemma_union_list(set: Seq<Symbol>, items: Seq<Symbol>)
    ensures
        forall|t: Symbol|
            #[trigger] union_list(set, items).contains(t) <==> set.contains(t) || items.contains(t),
        set.no_duplicates() ==> union_list(set, items).no_duplicates(),
    decreases items.len(),
{
    if items.len() > 0 {
        let rest = items.drop_last();
        lemma_union_list(set, rest);
        assert forall|t: Symbol|
            #[trigger] union_list(set, items).contains(t) <==> set.contains(t) || items.contains(
                t,
            ) by {
            lemma_push_contains(union_list(set, rest), items.last(), t);
            assert(items =~= rest.push(items.last()));
            lemma_push_contains(rest, items.last(), t);
        }
    } else {
        assert forall|t: Symbol| !items.contains(t) by {}
    }
}

/// Adds every member of `items` that `set` lacks, in the order of `items`.
pub fn insert_symbols(set: &mut Vec<String>, items: &Vec<String>)
    ensures
        final(set).deep_view() == union_list(old(set).deep_view(), items.deep_view()),
        forall|t: Symbol|
            #![trigger final(set).deep_view().contains(t)]
            final(set).deep_view().contains(t) <==> old(set).deep_view().contains(t)
                || items.deep_view().contains(t),
        old(set).deep_view().no_duplicates() ==> final(set).deep_view().no_duplicates(),
{
    let n: usize = items.len();
    let mut i: usize = 0;
    assert(items.deep_view().take(0) =~= Seq::<Symbol>::empty());
    while i < n
        invariant
            n == items.len(),
            i <= n,
            set.deep_view() == union_list(old(set).deep_view(), items.deep_view().take(i as int)),
        decreases n - i,
    {
        proof {
            let next = items.deep_view().take(i + 1);
            assert(next.drop_last() =~= items.deep_view().take(i as int));
            assert(next.last() == items[i as int]@);
        }
        insert_symbol(set, &items[i]);
        i = i + 1;
    }
    proof {
        assert(items.deep_view().take(n as int) =~= items.deep_view());
        lemma_union_list(old(set).deep_view(), items.deep_view());
    }
}

/// The members of `list` in the order of first appearance, each once.
pub open spec fn distinct(list: Seq<Symbol>) -> Seq<Symbol>
    decreases list.len(),
{
    if list.len() == 0 {
        Seq::empty()
    } else {
        let rest = distinct(list.drop_last());
        if rest.contains(list.last()) {
            rest
        } else {
            rest.push(list.last())
        }
    }
}

/// `distinct` keeps the members and drops the repetitions.
pub proof fn lemma_distinct(list: Seq<Symbol>)
    ensures
        distinct(list).no_duplicates(),
        forall|s: Symbol| #[trigger] distinct(list).contains(s) <==> list.contains(s),
    decreases list.len(),
{
    if list.len() > 0 {
        let rest = list.drop_last();
        lemma_distinct(rest);
        assert forall|s: Symbol| #[trigger] distinct(list).contains(s) <==> list.contains(s) by {
            lemma_push_contains(distinct(rest), list.last(), s);
            assert(list =~= rest.push(list.last()));
            lemma_push_contains(rest, list.last(), s);
        }
    }
}

/// How many times `x` occurs in `list`.
pub open spec fn occurrences(list: Seq<Symbol>, x: Symbol) -> nat
    decreases list.len(),
{
    if list.len() == 0 {
        0
    } else {
        occurrences(list.drop_last(), x) + if list.last() == x {
            1nat
        } else {
            0nat
        }
    }
}

/// A symbol that is not a member occurs no times.
pub proof fn lemma_absent_occurs_never(list: Seq<Symbol>, x: Symbol)
    requires
        !list.contains(x),
    ensures
        occurrences(list, x) == 0,
    decreases list.len(),
{
    if list.len() > 0 {
        assert(list[list.len() - 1] != x);
        assert forall|i: int| 0 <= i < list.drop_last().len() implies list.drop_last()[i] != x by {
            assert(list[i] != x);
        }
        lemma_absent_occurs_never(list.drop_last(), x);
    }
}

/// A member of a list without duplicates occurs exactly once.
pub proof fn lemma_member_occurs_once(list: Seq<Symbol>, x: Symbol)
    requires
        list.no_duplicates(),
        list.contains(x),
    ensures
        occurrences(list, x) == 1,
    decreases list.len(),
{
    let rest = list.drop_last();
    let i = choose|i: int| 0 <= i < list.len() && list[i] == x;
    if list.last() == x {
        assert forall|j: int| 0 <= j < rest.len() implies rest[j] != x by {
            assert(list[j] != list[list.len() - 1]);
        }
        lemma_absent_occurs_never(rest, x);
    } else {
        assert(rest[i] == x);
        lemma_member_occurs_once(rest, x);
    }
}

/// Membership after `insert_symbol`: the old members and the new symbol.
pub proof fn lemma_push_contains(set: Seq<Symbol>, s: Symbol, x: Symbol)
    ensures
        set.push(s).contains(x) <==> set.contains(x) || x == s,
{
    if set.contains(x) {
        let i = choose|i: int| 0 <= i < set.len() && set[i] == x;
        assert(set.push(s)[i] == x);
    }
    if x == s {
        assert(set.push(s)[set.len() as int] == x);
    }
}

} // verus!
