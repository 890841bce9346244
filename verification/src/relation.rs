//! Finite binary relations between symbols.
//!
//! The direct-contribution relation, the containment relation and the FIRSTVT
//! and LASTVT results are all of this shape: a finite set of ordered pairs of
//! symbols, read as "the left symbol is related to the right symbol". The
//! pairs are kept in the order in which they came.

use crate::symbol::{insert_symbol, lemma_union_list, union_list, Symbol};
use vstd::prelude::*;

verus! {

/// `list` followed by the pairs of `more` that it lacks, each once, in the
/// order of `more`.
pub open spec fn union_pairs(list: Seq<(Symbol, Symbol)>, more: Seq<(Symbol, Symbol)>) -> Seq<
    (Symbol, Symbol),
>
    decreases more.len(),
{
    if more.len() == 0 {
        list
    } else {
        let rest = union_pairs(list, more.drop_last());
        if rest.contains(more.last()) {
            rest
        } else {
            rest.push(more.last())
        }
    }
}

/// The pairs that relate `a` to each member of `items`, in the order of
/// `items`.
pub open spec fn pairs_from(a: Symbol, items: Seq<Symbol>) -> Seq<(Symbol, Symbol)> {
    Seq::new(items.len(), |i: int| (a, items[i]))
}

/// The pairs that relate each member of `items` to `b`, in the order of
/// `items`.
pub open spec fn pairs_to(items: Seq<Symbol>, b: Symbol) -> Seq<(Symbol, Symbol)> {
    Seq::new(items.len(), |i: int| (items[i], b))
}

/// The left symbols of the pairs of `list`, in order.
pub open spec fn sources_of(list: Seq<(Symbol, Symbol)>) -> Seq<Symbol> {
    Seq::new(list.len(), |i: int| list[i].0)
}

/// The symbols that the pairs of `list` relate `a` to, each once, in the
/// order of the pairs.
pub open spec fn image_list(list: Seq<(Symbol, Symbol)>, a: Symbol) -> Seq<Symbol>
    decreases list.len(),
{
    if list.len() == 0 {
        Seq::empty()
    } else {
        let rest = image_list(list.drop_last(), a);
        if list.last().0 == a && !rest.contains(list.last().1) {
            rest.push(list.last().1)
        } else {
            rest
        }
    }
}

/// Membership in a list of pairs that has grown by one pair.
pub proof fn lemma_push_pair(s: Seq<(Symbol, Symbol)>, e: (Symbol, Symbol), p: (Symbol, Symbol))
    ensures
        s.push(e).contains(p) <==> s.contains(p) || p == e,
{
    if s.contains(p) {
        let i = choose|i: int| 0 <= i < s.len() && s[i] == p;
        assert(s.push(e)[i] == p);
    }
    if p == e {
        assert(s.push(e)[s.len() as int] == p);
    }
}

/// `union_pairs` holds the pairs of both lists.
pub proof fn lemma_union_pairs(list: Seq<(Symbol, Symbol)>, more: Seq<(Symbol, Symbol)>)
    ensures
        forall|p: (Symbol, Symbol)|
            #[trigger] union_pairs(list, more).contains(p) <==> list.contains(p) || more.contains(
                p,
            ),
    decreases more.len(),
{
    if more.len() > 0 {
        let rest = more.drop_last();
        lemma_union_pairs(list, rest);
        assert forall|p: (Symbol, Symbol)|
            #[trigger] union_pairs(list, more).contains(p) <==> list.contains(p) || more.contains(
                p,
            ) by {
            lemma_push_pair(union_pairs(list, rest), more.last(), p);
            assert(more =~= rest.push(more.last()));
            lemma_push_pair(rest, more.last(), p);
        }
    } else {
        assert forall|p: (Symbol, Symbol)| !more.contains(p) by {}
    }
}

/// `image_list` holds the symbols that `a` is related to, each once.
pub proof fn lemma_image_list(list: Seq<(Symbol, Symbol)>, a: Symbol)
    ensures
        image_list(list, a).no_duplicates(),
        forall|t: Symbol| #[trigger] image_list(list, a).contains(t) <==> list.contains((a, t)),
    decreases list.len(),
{
    if list.len() > 0 {
        let rest = list.drop_last();
        lemma_image_list(rest, a);
        assert forall|t: Symbol| #[trigger]
            image_list(list, a).contains(t) <==> list.contains((a, t)) by {
            crate::symbol::lemma_push_contains(image_list(rest, a), list.last().1, t);
            assert(list =~= rest.push(list.last()));
            lemma_push_pair(rest, list.last(), (a, t));
        }
    } else {
        assert forall|t: Symbol| !list.contains((a, t)) by {}
    }
}

/// A finite relation between symbols, kept as the list of its pairs.
pub struct Relation {
    pairs: Vec<(String, String)>,
}

impl View for Relation {
    type V = Set<(Symbol, Symbol)>;

    /// The relation as a set of ordered pairs.
    open spec fn view(&self) -> Set<(Symbol, Symbol)> {
        self.entries().to_set()
    }
}

impl Relation {
    /// The pairs in the order in which they were first inserted.
    pub closed spec fn entries(self) -> Seq<(Symbol, Symbol)> {
        self.pairs.deep_view()
    }

    /// The view is a finite set.
    pub proof fn lemma_view_finite(self)
        ensures
            self@.finite(),
    {
        vstd::seq_lib::seq_to_set_is_finite(self.entries());
    }

    /// Creates the empty relation.
    pub fn new() -> (r: Relation)
        ensures
            r.entries() == Seq::<(Symbol, Symbol)>::empty(),
            r@ == Set::<(Symbol, Symbol)>::empty(),
    {
        let r = Relation { pairs: Vec::new() };
        assert(r.entries() =~= Seq::<(Symbol, Symbol)>::empty());
        assert(r@ =~= Set::<(Symbol, Symbol)>::empty());
        r
    }

    /// The number of stored pairs.
    pub fn len(&self) -> (n: usize)
        ensures
            n == self.entries().len(),
    {
        self.pairs.len()
    }

    /// The left symbol of the pair at position `i`.
    pub fn left(&self, i: usize) -> (s: &String)
        requires
            i < self.entries().len(),
        ensures
            s@ == self.entries()[i as int].0,
    {
        &self.pairs[i].0
    }

    /// The right symbol of the pair at position `i`.
    pub fn right(&self, i: usize) -> (s: &String)
        requires
            i < self.entries().len(),
        ensures
            s@ == self.entries()[i as int].1,
    {
        &self.pairs[i].1
    }

    /// Tells whether `a` is related to `b`.
    pub fn contains(&self, a: &String, b: &String) -> (found: bool)
        ensures
            found == self@.contains((a@, b@)),
    {
        let n: usize = self.pairs.len();
        let mut i: usize = 0;
        while i < n
            invariant
                n == self.pairs.len(),
                i <= n,
                forall|j: int| 0 <= j < i ==> self.entries()[j] != (a@, b@),
            decreases n - i,
        {
            if self.pairs[i].0 == *a && self.pairs[i].1 == *b {
                assert(self.entries()[i as int] == (a@, b@));
                return true;
            }
            i = i + 1;
        }
        false
    }

    /// Relates `a` to `b`. A pair that is present already is not stored twice.
    pub fn insert(&mut self, a: &String, b: &String)
        ensures
            final(self)@ == old(self)@.insert((a@, b@)),
            final(self).entries() == union_pairs(old(self).entries(), seq![(a@, b@)]),
            old(self)@.contains((a@, b@)) ==> final(self).entries() == old(self).entries(),
            !old(self)@.contains((a@, b@)) ==> final(self).entries() == old(self).entries().push(
                (a@, b@),
            ),
    {
        let ghost before = self.entries();
        proof {
            let one = seq![(a@, b@)];
            assert(one.drop_last() =~= Seq::<(Symbol, Symbol)>::empty());
            assert(union_pairs(before, one.drop_last()) == before);
        }
        if !self.contains(a, b) {
            self.pairs.push((a.clone(), b.clone()));
            assert(self.entries() =~= before.push((a@, b@)));
            assert forall|p: (Symbol, Symbol)| self@.contains(p) <==> before.to_set().insert(
                (a@, b@),
            ).contains(p) by {
                lemma_push_pair(before, (a@, b@), p);
            }
            assert(self@ =~= before.to_set().insert((a@, b@)));
        } else {
            assert(self@ =~= self@.insert((a@, b@)));
        }
    }

    /// Relates `a` to every member of `items`.
    pub fn insert_all(&mut self, a: &String, items: &Vec<String>)
        ensures
            final(self).entries() == union_pairs(
                old(self).entries(),
                pairs_from(a@, items.deep_view()),
            ),
            forall|p: (Symbol, Symbol)|
                #![trigger final(self)@.contains(p)]
                final(self)@.contains(p) <==> old(self)@.contains(p) || (p.0 == a@
                    && items.deep_view().contains(p.1)),
    {
        let ghost more = pairs_from(a@, items.deep_view());
        let n: usize = items.len();
        let mut i: usize = 0;
        assert(more.take(0) =~= Seq::<(Symbol, Symbol)>::empty());
        while i < n
            invariant
                n == items.len(),
                i <= n,
                more == pairs_from(a@, items.deep_view()),
                self.entries() == union_pairs(old(self).entries(), more.take(i as int)),
            decreases n - i,
        {
            proof {
                assert(more.take(i + 1).drop_last() =~= more.take(i as int));
                assert(more.take(i + 1).last() == (a@, items[i as int]@));
            }
            self.insert(a, &items[i]);
            i = i + 1;
        }
        proof {
            assert(more.take(n as int) =~= more);
            lemma_union_pairs(old(self).entries(), more);
            assert forall|p: (Symbol, Symbol)|
                #![trigger self@.contains(p)]
                self@.contains(p) <==> old(self)@.contains(p) || (p.0 == a@
                    && items.deep_view().contains(p.1)) by {
                if more.contains(p) {
                    let j = choose|j: int| 0 <= j < more.len() && more[j] == p;
                    assert(items.deep_view()[j] == p.1);
                }
                if p.0 == a@ && items.deep_view().contains(p.1) {
                    let j = choose|j: int|
                        0 <= j < items.deep_view().len() && items.deep_view()[j] == p.1;
                    assert(more[j] == p);
                }
            }
        }
    }

    /// Relates every member of `items` to `b`.
    pub fn insert_all_to(&mut self, items: &Vec<String>, b: &String)
        ensures
            final(self).entries() == union_pairs(
                old(self).entries(),
                pairs_to(items.deep_view(), b@),
            ),
            forall|p: (Symbol, Symbol)|
                #![trigger final(self)@.contains(p)]
                final(self)@.contains(p) <==> old(self)@.contains(p) || (p.1 == b@
                    && items.deep_view().contains(p.0)),
    {
        let ghost more = pairs_to(items.deep_view(), b@);
        let n: usize = items.len();
        let mut i: usize = 0;
        assert(more.take(0) =~= Seq::<(Symbol, Symbol)>::empty());
        while i < n
            invariant
                n == items.len(),
                i <= n,
                more == pairs_to(items.deep_view(), b@),
                self.entries() == union_pairs(old(self).entries(), more.take(i as int)),
            decreases n - i,
        {
            proof {
                assert(more.take(i + 1).drop_last() =~= more.take(i as int));
                assert(more.take(i + 1).last() == (items[i as int]@, b@));
            }
            self.insert(&items[i], b);
            i = i + 1;
        }
        proof {
            assert(more.take(n as int) =~= more);
            lemma_union_pairs(old(self).entries(), more);
            assert forall|p: (Symbol, Symbol)|
                #![trigger self@.contains(p)]
                self@.contains(p) <==> old(self)@.contains(p) || (p.1 == b@
                    && items.deep_view().contains(p.0)) by {
                if more.contains(p) {
                    let j = choose|j: int| 0 <= j < more.len() && more[j] == p;
                    assert(items.deep_view()[j] == p.0);
                }
                if p.1 == b@ && items.deep_view().contains(p.0) {
                    let j = choose|j: int|
                        0 <= j < items.deep_view().len() && items.deep_view()[j] == p.0;
                    assert(more[j] == p);
                }
            }
        }
    }

    /// Collects the left symbols of the relation, each once, behind those
    /// that `out` holds already.
    pub fn add_sources(&self, out: &mut Vec<String>)
        ensures
            final(out).deep_view() == union_list(old(out).deep_view(), sources_of(self.entries())),
            forall|x: Symbol|
                #![trigger final(out).deep_view().contains(x)]
                final(out).deep_view().contains(x) <==> old(out).deep_view().contains(x)
                    || exists|j: int|
                    0 <= j < self.entries().len() && (#[trigger] self.entries()[j]).0 == x,
            old(out).deep_view().no_duplicates() ==> final(out).deep_view().no_duplicates(),
    {
        let ghost sources = sources_of(self.entries());
        let n: usize = self.pairs.len();
        let mut i: usize = 0;
        assert(sources.take(0) =~= Seq::<Symbol>::empty());
        while i < n
            invariant
                n == self.entries().len(),
                n == self.pairs.len(),
                i <= n,
                sources == sources_of(self.entries()),
                out.deep_view() == union_list(old(out).deep_view(), sources.take(i as int)),
            decreases n - i,
        {
            proof {
                assert(sources.take(i + 1).drop_last() =~= sources.take(i as int));
                assert(sources.take(i + 1).last() == self.pairs[i as int].0@);
            }
            insert_symbol(out, &self.pairs[i].0);
            i = i + 1;
        }
        proof {
            assert(sources.take(n as int) =~= sources);
            lemma_union_list(old(out).deep_view(), sources);
            assert forall|x: Symbol|
                #![trigger out.deep_view().contains(x)]
                out.deep_view().contains(x) <==> old(out).deep_view().contains(x) || exists|j: int|
                    0 <= j < self.entries().len() && (#[trigger] self.entries()[j]).0 == x by {
                if sources.contains(x) {
                    let j = choose|j: int| 0 <= j < sources.len() && sources[j] == x;
                    assert(self.entries()[j].0 == x);
                }
                if exists|j: int|
                    0 <= j < self.entries().len() && (#[trigger] self.entries()[j]).0 == x {
                    let j = choose|j: int|
                        0 <= j < self.entries().len() && (#[trigger] self.entries()[j]).0 == x;
                    assert(sources[j] == x);
                }
            }
        }
    }

    /// Collects the symbols related to `a`, each once, in the order of the
    /// pairs.
    pub fn image(&self, a: &String) -> (out: Vec<String>)
        ensures
            out.deep_view() == image_list(self.entries(), a@),
            forall|t: Symbol|
                #![trigger out.deep_view().contains(t)]
                #![trigger self@.contains((a@, t))]
                out.deep_view().contains(t) <==> self@.contains((a@, t)),
            out.deep_view().no_duplicates(),
    {
        let mut out: Vec<String> = Vec::new();
        let n: usize = self.pairs.len();
        let mut i: usize = 0;
        proof {
            assert(out.deep_view() =~= Seq::<Symbol>::empty());
            assert(self.entries().take(0) =~= Seq::<(Symbol, Symbol)>::empty());
        }
        while i < n
            invariant
                n == self.pairs.len(),
                i <= n,
                out.deep_view() == image_list(self.entries().take(i as int), a@),
            decreases n - i,
        {
            proof {
                let next = self.entries().take(i + 1);
                assert(next.drop_last() =~= self.entries().take(i as int));
                assert(next.last() == (self.pairs[i as int].0@, self.pairs[i as int].1@));
            }
            if self.pairs[i].0 == *a {
                insert_symbol(&mut out, &self.pairs[i].1);
            }
            i = i + 1;
        }
        proof {
            assert(self.entries().take(n as int) =~= self.entries());
            lemma_image_list(self.entries(), a@);
        }
        out
    }
}

impl Clone for Relation {
    /// Copies the relation pair by pair.
    fn clone(&self) -> (r: Relation)
        ensures
            r.entries() == self.entries(),
            r@ == self@,
    {
        let mut pairs: Vec<(String, String)> = Vec::new();
        let n: usize = self.pairs.len();
        let mut i: usize = 0;
        while i < n
            invariant
                n == self.pairs.len(),
                i <= n,
                pairs.len() == i,
                forall|j: int| 0 <= j < i ==> #[trigger] pairs.deep_view()[j] == self.entries()[j],
            decreases n - i,
        {
            let ghost before = pairs.deep_view();
            let pair = (self.pairs[i].0.clone(), self.pairs[i].1.clone());
            assert((pair.0@, pair.1@) == self.entries()[i as int]);
            pairs.push(pair);
            assert(pairs.deep_view() =~= before.push(self.entries()[i as int]));
            i = i + 1;
        }
        let r = Relation { pairs };
        assert(r.entries() =~= self.entries());
        r
    }
}

} // verus!
