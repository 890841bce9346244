//! The precedence table: a conflict-checked map from ordered pairs of
//! terminals to a precedence relation, with the terminal set that its matrix
//! is drawn over.

use crate::relation::Relation;
use crate::symbol::{distinct, insert_symbol, lemma_distinct, Symbol};
use vstd::prelude::*;
use vstd::string::*;

verus! {

/// The precedence of the first terminal of an ordered pair against the second.
#[derive(Clone, Copy, PartialEq, Eq, Structural, Debug)]
pub enum Precedence {
    /// The two terminals belong to one handle.
    Equal,
    /// The first yields to the second.
    Less,
    /// The first takes precedence over the second.
    Greater,
}

impl Precedence {
    /// The character that stands for the relation in a drawn table.
    pub open spec fn glyph(self) -> char {
        match self {
            Precedence::Equal => '=',
            Precedence::Less => '<',
            Precedence::Greater => '>',
        }
    }

    /// Returns the character that stands for the relation in a drawn table.
    pub fn symbol(self) -> (c: char)
        ensures
            c == self.glyph(),
    {
        match self {
            Precedence::Equal => '=',
            Precedence::Less => '<',
            Precedence::Greater => '>',
        }
    }
}

/// One ordered pair of terminals would need two different relations: the
/// grammar is not an operator-precedence grammar.
#[derive(Debug, PartialEq, Eq)]
pub struct AmbiguousGrammar {
    /// The first terminal of the pair.
    pub left: String,
    /// The second terminal of the pair.
    pub right: String,
    /// The relation that the table held for the pair.
    pub existing: Precedence,
    /// The different relation that was to be recorded.
    pub attempted: Precedence,
}

/// One recorded relation.
struct Entry {
    left: String,
    right: String,
    rel: Precedence,
}

/// The map that a list of entries stands for; a later entry for a pair
/// overrides an earlier one.
spec fn fold_entries(entries: Seq<Entry>) -> Map<(Symbol, Symbol), Precedence>
    decreases entries.len(),
{
    if entries.len() == 0 {
        Map::empty()
    } else {
        fold_entries(entries.drop_last()).insert(
            (entries.last().left@, entries.last().right@),
            entries.last().rel,
        )
    }
}

/// Entries behind position `i` that do not name `key` do not change what the
/// map says of `key`.
proof fn lemma_fold_suffix(entries: Seq<Entry>, key: (Symbol, Symbol), i: int)
    requires
        0 <= i <= entries.len(),
        forall|j: int|
            i <= j < entries.len() ==> ((#[trigger] entries[j]).left@, entries[j].right@) != key,
    ensures
        fold_entries(entries).contains_key(key) == fold_entries(entries.take(i)).contains_key(
            key,
        ),
        fold_entries(entries).contains_key(key) ==> fold_entries(entries)[key] == fold_entries(
            entries.take(i),
        )[key],
    decreases entries.len() - i,
{
    if i == entries.len() {
        assert(entries.take(i) =~= entries);
    } else {
        let rest = entries.drop_last();
        assert((entries[entries.len() - 1].left@, entries[entries.len() - 1].right@) != key);
        assert forall|j: int| i <= j < rest.len() implies ((#[trigger] rest[j]).left@, rest[j].right@)
            != key by {
            assert(rest[j] == entries[j]);
        }
        lemma_fold_suffix(rest, key, i);
        assert(rest.take(i) =~= entries.take(i));
    }
}

/// What recording `rel` for `key` does to the map `m`: nothing is recorded
/// where `m` holds a different relation for `key`.
pub open spec fn insert_outcome(
    m: Map<(Symbol, Symbol), Precedence>,
    key: (Symbol, Symbol),
    rel: Precedence,
) -> Option<Map<(Symbol, Symbol), Precedence>> {
    if m.contains_key(key) && m[key] != rel {
        None
    } else {
        Some(m.insert(key, rel))
    }
}

/// Recording a relation a second time changes nothing and raises no conflict.
pub proof fn lemma_insert_idempotent(
    m: Map<(Symbol, Symbol), Precedence>,
    key: (Symbol, Symbol),
    rel: Precedence,
)
    requires
        insert_outcome(m, key, rel) is Some,
    ensures
        insert_outcome(insert_outcome(m, key, rel).unwrap(), key, rel) == insert_outcome(
            m,
            key,
            rel,
        ),
{
    let once = m.insert(key, rel);
    assert(once.insert(key, rel) =~= once);
}

/// Recording a different relation for a pair that has one raises a conflict.
pub proof fn lemma_insert_conflict(
    m: Map<(Symbol, Symbol), Precedence>,
    key: (Symbol, Symbol),
    first: Precedence,
    second: Precedence,
)
    requires
        insert_outcome(m, key, first) is Some,
        first != second,
    ensures
        insert_outcome(insert_outcome(m, key, first).unwrap(), key, second) is None,
{
}

/// Every pair of `pairs` can take the relation `rel` in `m`: none of them has
/// a different relation there.
pub open spec fn compatible(
    m: Map<(Symbol, Symbol), Precedence>,
    pairs: Set<(Symbol, Symbol)>,
    rel: Precedence,
) -> bool {
    forall|k: (Symbol, Symbol)| #[trigger] pairs.contains(k) && m.contains_key(k) ==> m[k] == rel
}

/// The map `m` with `rel` recorded for every pair of `pairs`.
pub open spec fn merged(
    m: Map<(Symbol, Symbol), Precedence>,
    pairs: Set<(Symbol, Symbol)>,
    rel: Precedence,
) -> Map<(Symbol, Symbol), Precedence> {
    Map::new(
        |k: (Symbol, Symbol)| m.contains_key(k) || pairs.contains(k),
        |k: (Symbol, Symbol)|
            if pairs.contains(k) {
                rel
            } else {
                m[k]
            },
    )
}

/// `later` keeps every relation of `earlier`, and what it has more is `rel`
/// for pairs of `pairs`.
pub open spec fn grown_by(
    earlier: Map<(Symbol, Symbol), Precedence>,
    later: Map<(Symbol, Symbol), Precedence>,
    pairs: Set<(Symbol, Symbol)>,
    rel: Precedence,
) -> bool {
    &&& forall|k: (Symbol, Symbol)| #[trigger]
        earlier.contains_key(k) ==> later.contains_key(k) && later[k] == earlier[k]
    &&& forall|k: (Symbol, Symbol)| #[trigger]
        later.contains_key(k) && !earlier.contains_key(k) ==> pairs.contains(k) && later[k] == rel
}

/// `e` reports a true conflict met while `rel` was recorded for the pairs of
/// `pairs`: it names a pair of `pairs` for which `earlier` holds another
/// relation, and `later` is `earlier` grown by pairs recorded before it.
pub open spec fn is_conflict(
    earlier: Map<(Symbol, Symbol), Precedence>,
    later: Map<(Symbol, Symbol), Precedence>,
    pairs: Set<(Symbol, Symbol)>,
    rel: Precedence,
    e: AmbiguousGrammar,
) -> bool {
    &&& pairs.contains((e.left@, e.right@))
    &&& earlier.contains_key((e.left@, e.right@))
    &&& e.existing == earlier[(e.left@, e.right@)]
    &&& e.existing != rel
    &&& e.attempted == rel
    &&& grown_by(earlier, later, pairs, rel)
}

/// The pair at position `i` of `list` is the first for which `m` holds a
/// relation other than `rel`.
pub open spec fn first_conflict_at(
    m: Map<(Symbol, Symbol), Precedence>,
    list: Seq<(Symbol, Symbol)>,
    rel: Precedence,
    i: int,
) -> bool {
    &&& 0 <= i < list.len()
    &&& m.contains_key(list[i])
    &&& m[list[i]] != rel
    &&& forall|j: int| 0 <= j < i && m.contains_key(#[trigger] list[j]) ==> m[list[j]] == rel
}

/// The text of one cell of the drawn table.
pub open spec fn cell_text(
    m: Map<(Symbol, Symbol), Precedence>,
    a: Symbol,
    b: Symbol,
) -> Seq<char> {
    if m.contains_key((a, b)) {
        seq![m[(a, b)].glyph(), '\t']
    } else {
        seq![' ', '\t']
    }
}

/// The column titles of the drawn table, each followed by a tab.
pub open spec fn header_cells(order: Seq<Symbol>) -> Seq<char>
    decreases order.len(),
{
    if order.len() == 0 {
        Seq::empty()
    } else {
        header_cells(order.drop_last()) + order.last() + seq!['\t']
    }
}

/// The cells of the row of `a`, one for each column.
pub open spec fn row_cells(
    m: Map<(Symbol, Symbol), Precedence>,
    a: Symbol,
    order: Seq<Symbol>,
) -> Seq<char>
    decreases order.len(),
{
    if order.len() == 0 {
        Seq::empty()
    } else {
        row_cells(m, a, order.drop_last()) + cell_text(m, a, order.last())
    }
}

/// The line of the row of `a`: its title, a tab, its cells, a line feed.
pub open spec fn row_text(
    m: Map<(Symbol, Symbol), Precedence>,
    a: Symbol,
    order: Seq<Symbol>,
) -> Seq<char> {
    a + seq!['\t'] + row_cells(m, a, order) + seq!['\n']
}

/// The lines of the rows titled `rows`, over the columns `order`.
pub open spec fn rows_text(
    m: Map<(Symbol, Symbol), Precedence>,
    rows: Seq<Symbol>,
    order: Seq<Symbol>,
) -> Seq<char>
    decreases rows.len(),
{
    if rows.len() == 0 {
        Seq::empty()
    } else {
        rows_text(m, rows.drop_last(), order) + row_text(m, rows.last(), order)
    }
}

/// The drawn table: a title line that begins with a blank cell, and one line
/// for each symbol of `order`, with a blank cell where no relation is
/// recorded.
pub open spec fn render_text(m: Map<(Symbol, Symbol), Precedence>, order: Seq<Symbol>) -> Seq<
    char,
> {
    seq![' ', '\t'] + header_cells(order) + seq!['\n'] + rows_text(m, order, order)
}

/// `k` is one of the first `i` pairs of `list`.
spec fn among_pairs(list: Seq<(Symbol, Symbol)>, i: int, k: (Symbol, Symbol)) -> bool {
    exists|j: int| 0 <= j < i && j < list.len() && list[j] == k
}

/// One more pair of the list has been passed.
proof fn lemma_among_pairs_step(list: Seq<(Symbol, Symbol)>, i: int, k: (Symbol, Symbol))
    requires
        0 <= i < list.len(),
    ensures
        among_pairs(list, i + 1, k) <==> among_pairs(list, i, k) || list[i] == k,
{
    if among_pairs(list, i, k) {
        let j = choose|j: int| 0 <= j < i && j < list.len() && list[j] == k;
        assert(0 <= j < i + 1 && list[j] == k);
    }
    if list[i] == k {
        assert(0 <= i < i + 1 && list[i] == k);
    }
}

/// The operator-precedence table.
pub struct OpTable {
    /// The recorded relations.
    table: Vec<Entry>,
    /// The terminal set of the grammar.
    ts: Vec<String>,
}

impl View for OpTable {
    type V = Map<(Symbol, Symbol), Precedence>;

    /// The recorded relations as a map from ordered pairs of terminals.
    closed spec fn view(&self) -> Map<(Symbol, Symbol), Precedence> {
        fold_entries(self.table@)
    }
}

impl OpTable {
    /// The terminal set, in the order in which the table draws it.
    pub closed spec fn terminals(self) -> Seq<Symbol> {
        self.ts.deep_view()
    }

    /// Creates a table without relations over the terminals `ts`; a terminal
    /// that is listed more than once is kept at its first place only.
    pub fn new(ts: Vec<String>) -> (t: OpTable)
        ensures
            t@ == Map::<(Symbol, Symbol), Precedence>::empty(),
            t.terminals() == distinct(ts.deep_view()),
            t.terminals().no_duplicates(),
            t.terminals().to_set() == ts.deep_view().to_set(),
    {
        let mut kept: Vec<String> = Vec::new();
        assert(kept.deep_view() =~= Seq::<Symbol>::empty());
        let n: usize = ts.len();
        let mut i: usize = 0;
        while i < n
            invariant
                n == ts.len(),
                i <= n,
                kept.deep_view() == distinct(ts.deep_view().take(i as int)),
            decreases n - i,
        {
            proof {
                assert(ts.deep_view().take(i + 1).drop_last() =~= ts.deep_view().take(i as int));
                assert(ts.deep_view().take(i + 1).last() == ts[i as int]@);
            }
            insert_symbol(&mut kept, &ts[i]);
            i = i + 1;
        }
        proof {
            assert(ts.deep_view().take(n as int) =~= ts.deep_view());
            lemma_distinct(ts.deep_view());
            assert(kept.deep_view().to_set() =~= ts.deep_view().to_set());
        }
        OpTable { table: Vec::new(), ts: kept }
    }

    /// The terminal set, in the order in which the table draws it.
    pub fn terminal_list(&self) -> (ts: &Vec<String>)
        ensures
            ts.deep_view() == self.terminals(),
    {
        &self.ts
    }

    /// Looks up the relation recorded for the ordered pair `(a, b)`.
    pub fn get(&self, a: &String, b: &String) -> (found: Option<Precedence>)
        ensures
            found == (if self@.contains_key((a@, b@)) {
                Some(self@[(a@, b@)])
            } else {
                None::<Precedence>
            }),
    {
        let ghost key = (a@, b@);
        let mut i: usize = self.table.len();
        while i > 0
            invariant
                i <= self.table.len(),
                key == (a@, b@),
                forall|j: int|
                    i <= j < self.table.len() ==> ((#[trigger] self.table@[j]).left@,
                    self.table@[j].right@) != key,
            decreases i,
        {
            i = i - 1;
            if self.table[i].left == *a && self.table[i].right == *b {
                proof {
                    lemma_fold_suffix(self.table@, key, i + 1);
                    assert(self.table@.take(i + 1).drop_last() =~= self.table@.take(i as int));
                    assert(self.table@.take(i + 1).last() == self.table@[i as int]);
                }
                return Some(self.table[i].rel);
            }
        }
        proof {
            lemma_fold_suffix(self.table@, key, 0);
        }
        None
    }

    /// Records `rel` for the ordered pair `ttuple`. Where the pair has a
    /// different relation already, nothing is recorded and the conflict is
    /// returned; the same relation may be recorded any number of times.
    pub fn insert(&mut self, ttuple: &(String, String), rel: Precedence) -> (res: Result<
        (),
        AmbiguousGrammar,
    >)
        ensures
            final(self).terminals() == old(self).terminals(),
            res is Ok <==> insert_outcome(old(self)@, (ttuple.0@, ttuple.1@), rel) is Some,
            res is Ok ==> final(self)@ == old(self)@.insert((ttuple.0@, ttuple.1@), rel),
            res matches Err(e) ==> {
                &&& final(self)@ == old(self)@
                &&& e.left@ == ttuple.0@
                &&& e.right@ == ttuple.1@
                &&& e.existing == old(self)@[(ttuple.0@, ttuple.1@)]
                &&& e.attempted == rel
            },
    {
        let ghost key = (ttuple.0@, ttuple.1@);
        match self.get(&ttuple.0, &ttuple.1) {
            Some(existing) => {
                if existing == rel {
                    assert(self@.insert(key, rel) =~= self@);
                    Ok(())
                } else {
                    Err(
                        AmbiguousGrammar {
                            left: ttuple.0.clone(),
                            right: ttuple.1.clone(),
                            existing,
                            attempted: rel,
                        },
                    )
                }
            },
            None => {
                let ghost before = self.table@;
                let entry = Entry { left: ttuple.0.clone(), right: ttuple.1.clone(), rel };
                self.table.push(entry);
                proof {
                    assert(self.table@.drop_last() =~= before);
                }
                Ok(())
            },
        }
    }

    /// Records `rel` for every pair of `pairs`, in their stored order, and
    /// stops at the first pair that has a different relation already.
    pub fn insert_relation(&mut self, pairs: &Relation, rel: Precedence) -> (res: Result<
        (),
        AmbiguousGrammar,
    >)
        ensures
            final(self).terminals() == old(self).terminals(),
            res is Ok <==> compatible(old(self)@, pairs@, rel),
            res is Ok ==> final(self)@ == merged(old(self)@, pairs@, rel),
            res matches Err(e) ==> is_conflict(old(self)@, final(self)@, pairs@, rel, e),
            res matches Err(e) ==> exists|i: int|
                {
                    &&& #[trigger] first_conflict_at(old(self)@, pairs.entries(), rel, i)
                    &&& (e.left@, e.right@) == pairs.entries()[i]
                    &&& final(self)@ == merged(old(self)@, pairs.entries().take(i).to_set(), rel)
                },
    {
        let n: usize = pairs.len();
        let mut i: usize = 0;
        while i < n
            invariant
                n == pairs.entries().len(),
                i <= n,
                self.terminals() == old(self).terminals(),
                forall|k: (Symbol, Symbol)|
                    #![trigger self@.contains_key(k)]
                    self@.contains_key(k) <==> old(self)@.contains_key(k) || among_pairs(
                        pairs.entries(),
                        i as int,
                        k,
                    ),
                forall|k: (Symbol, Symbol)|
                    #![trigger old(self)@.contains_key(k)]
                    old(self)@.contains_key(k) ==> self@[k] == old(self)@[k],
                forall|k: (Symbol, Symbol)|
                    #![trigger among_pairs(pairs.entries(), i as int, k)]
                    among_pairs(pairs.entries(), i as int, k) ==> self@[k] == rel,
                forall|j: int|
                    0 <= j < i && old(self)@.contains_key(#[trigger] pairs.entries()[j]) ==> old(
                        self,
                    )@[pairs.entries()[j]] == rel,
            decreases n - i,
        {
            let ghost key = pairs.entries()[i as int];
            let ghost before = self@;
            let ttuple = (pairs.left(i).clone(), pairs.right(i).clone());
            assert((ttuple.0@, ttuple.1@) == key);
            assert(pairs@.contains(key));
            match self.insert(&ttuple, rel) {
                Ok(()) => {},
                Err(e) => {
                    proof {
                        assert(!among_pairs(pairs.entries(), i as int, key));
                        assert(old(self)@.contains_key(key));
                        assert forall|k: (Symbol, Symbol)| #[trigger]
                            self@.contains_key(k) && !old(self)@.contains_key(
                                k,
                            ) implies pairs@.contains(k) && self@[k] == rel by {
                            assert(among_pairs(pairs.entries(), i as int, k));
                            let j = choose|j: int|
                                0 <= j < i && j < pairs.entries().len() && pairs.entries()[j] == k;
                            assert(pairs.entries()[j] == k);
                        }
                        let list = pairs.entries();
                        assert(first_conflict_at(old(self)@, list, rel, i as int));
                        let done = list.take(i as int).to_set();
                        assert forall|k: (Symbol, Symbol)| done.contains(k) <==> among_pairs(
                            list,
                            i as int,
                            k,
                        ) by {
                            if done.contains(k) {
                                let j = choose|j: int|
                                    0 <= j < list.take(i as int).len() && list.take(i as int)[j]
                                        == k;
                                assert(list[j] == k);
                            }
                            if among_pairs(list, i as int, k) {
                                let j = choose|j: int| 0 <= j < i && j < list.len() && list[j] == k;
                                assert(list.take(i as int)[j] == k);
                            }
                        }
                        assert(self@ =~= merged(old(self)@, done, rel));
                    }
                    return Err(e);
                },
            }
            proof {
                assert(self@ == before.insert(key, rel));
                assert forall|k: (Symbol, Symbol)|
                    #![trigger self@.contains_key(k)]
                    self@.contains_key(k) <==> old(self)@.contains_key(k) || among_pairs(
                        pairs.entries(),
                        i + 1,
                        k,
                    ) by {
                    lemma_among_pairs_step(pairs.entries(), i as int, k);
                }
                assert forall|k: (Symbol, Symbol)|
                    #![trigger among_pairs(pairs.entries(), i + 1, k)]
                    among_pairs(pairs.entries(), i + 1, k) implies self@[k] == rel by {
                    lemma_among_pairs_step(pairs.entries(), i as int, k);
                }
                assert forall|k: (Symbol, Symbol)|
                    #![trigger old(self)@.contains_key(k)]
                    old(self)@.contains_key(k) implies self@[k] == old(self)@[k] by {
                    if k == key {
                        assert(before.contains_key(key));
                    }
                }
            }
            i = i + 1;
        }
        proof {
            assert forall|k: (Symbol, Symbol)| among_pairs(pairs.entries(), n as int, k)
                <==> pairs@.contains(k) by {
                if pairs@.contains(k) {
                    let j = choose|j: int| 0 <= j < pairs.entries().len() && pairs.entries()[j] == k;
                    assert(pairs.entries()[j] == k);
                }
            }
            assert forall|k: (Symbol, Symbol)| #[trigger]
                pairs@.contains(k) && old(self)@.contains_key(k) implies old(self)@[k] == rel by {
                assert(among_pairs(pairs.entries(), n as int, k));
            }
            assert forall|k: (Symbol, Symbol)| self@.contains_key(k) <==> merged(
                old(self)@,
                pairs@,
                rel,
            ).contains_key(k) by {
                assert(among_pairs(pairs.entries(), n as int, k) <==> pairs@.contains(k));
            }
            assert forall|k: (Symbol, Symbol)| self@.contains_key(k) implies self@[k] == merged(
                old(self)@,
                pairs@,
                rel,
            )[k] by {
                assert(among_pairs(pairs.entries(), n as int, k) <==> pairs@.contains(k));
            }
            assert(self@ =~= merged(old(self)@, pairs@, rel));
        }
        Ok(())
    }

    /// Draws the table as a square matrix over the symbols of `order`: a
    /// title line, and a line for each symbol, cells ended by tabs and lines
    /// by line feeds.
    pub fn render(&self, order: &Vec<String>) -> (text: String)
        ensures
            text@ == render_text(self@, order.deep_view()),
    {
        let ghost cols = order.deep_view();
        let ghost m = self@;
        proof {
            reveal_strlit(" \t");
            reveal_strlit("\t");
            reveal_strlit("\n");
            reveal_strlit("=");
            reveal_strlit("<");
            reveal_strlit(">");
            assert(" \t"@ =~= seq![' ', '\t']);
            assert("\t"@ =~= seq!['\t']);
            assert("\n"@ =~= seq!['\n']);
            assert("="@ =~= seq!['=']);
            assert("<"@ =~= seq!['<']);
            assert(">"@ =~= seq!['>']);
        }
        let mut output: String = String::new();
        output.append(" \t");
        assert(output@ =~= seq![' ', '\t'] + header_cells(cols.take(0)));
        let n: usize = order.len();
        let mut j: usize = 0;
        while j < n
            invariant
                n == order.len(),
                cols == order.deep_view(),
                j <= n,
                "\t"@ == seq!['\t'],
                output@ == seq![' ', '\t'] + header_cells(cols.take(j as int)),
            decreases n - j,
        {
            proof {
                assert(cols.take(j + 1).drop_last() =~= cols.take(j as int));
                assert(cols.take(j + 1).last() == order[j as int]@);
            }
            let ghost before = output@;
            output.append(order[j].as_str());
            output.append("\t");
            assert(output@ =~= seq![' ', '\t'] + header_cells(cols.take(j + 1)));
            j = j + 1;
        }
        output.append("\n");
        proof {
            assert(cols.take(n as int) =~= cols);
            assert(output@ =~= seq![' ', '\t'] + header_cells(cols) + seq!['\n'] + rows_text(
                m,
                cols.take(0),
                cols,
            ));
        }
        let ghost head = seq![' ', '\t'] + header_cells(cols) + seq!['\n'];
        let mut i: usize = 0;
        while i < n
            invariant
                n == order.len(),
                cols == order.deep_view(),
                m == self@,
                i <= n,
                head == seq![' ', '\t'] + header_cells(cols) + seq!['\n'],
                " \t"@ == seq![' ', '\t'],
                "\t"@ == seq!['\t'],
                "\n"@ == seq!['\n'],
                "="@ == seq!['='],
                "<"@ == seq!['<'],
                ">"@ == seq!['>'],
                output@ == head + rows_text(m, cols.take(i as int), cols),
            decreases n - i,
        {
            let ghost a = order[i as int]@;
            let ghost done = output@;
            proof {
                assert(cols.take(i + 1).drop_last() =~= cols.take(i as int));
                assert(cols.take(i + 1).last() == a);
            }
            output.append(order[i].as_str());
            output.append("\t");
            assert(output@ =~= done + (a + seq!['\t'] + row_cells(m, a, cols.take(0))));
            let mut j: usize = 0;
            while j < n
                invariant
                    n == order.len(),
                    cols == order.deep_view(),
                    m == self@,
                    i < n,
                    a == order[i as int]@,
                    j <= n,
                    " \t"@ == seq![' ', '\t'],
                    "\t"@ == seq!['\t'],
                    "="@ == seq!['='],
                    "<"@ == seq!['<'],
                    ">"@ == seq!['>'],
                    output@ == done + (a + seq!['\t'] + row_cells(m, a, cols.take(j as int))),
                decreases n - j,
            {
                let ghost b = order[j as int]@;
                proof {
                    assert(cols.take(j + 1).drop_last() =~= cols.take(j as int));
                    assert(cols.take(j + 1).last() == b);
                }
                match self.get(&order[i], &order[j]) {
                    Some(Precedence::Equal) => {
                        output.append("=");
                        output.append("\t");
                    },
                    Some(Precedence::Less) => {
                        output.append("<");
                        output.append("\t");
                    },
                    Some(Precedence::Greater) => {
                        output.append(">");
                        output.append("\t");
                    },
                    None => {
                        output.append(" \t");
                    },
                }
                assert(output@ =~= done + (a + seq!['\t'] + row_cells(m, a, cols.take(j as int)))
                    + cell_text(m, a, b));
                assert(output@ =~= done + (a + seq!['\t'] + row_cells(m, a, cols.take(j + 1))));
                j = j + 1;
            }
            output.append("\n");
            proof {
                assert(cols.take(n as int) =~= cols);
                assert(output@ =~= done + row_text(m, a, cols));
                assert(output@ =~= head + rows_text(m, cols.take(i + 1), cols));
            }
            i = i + 1;
        }
        proof {
            assert(cols.take(n as int) =~= cols);
        }
        output
    }

    /// Draws the table over its own terminal set, in the order of that set.
    pub fn to_string(&self) -> (text: String)
        ensures
            text@ == render_text(self@, self.terminals()),
    {
        self.render(&self.ts)
    }
}

} // verus!
