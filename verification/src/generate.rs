//! From a grammar to its precedence table.
//!
//! The non-terminals and the FIRSTVT and LASTVT relations are taken from the
//! grammar as written; the grammar is augmented with `S' -> $ S $`; the
//! terminal set and the relations are taken from the augmented grammar.

use crate::grammar::{
    augment, augmented, get_non_terminals, get_terminal_set, non_terminals, occurs_right,
    terminal_list, terminal_set, with_end_marker, GrammarError, Production, Rule,
};
use crate::parse::{gen_productions, parse_grammar};
use crate::precedence::{
    build_table, consistent, equal_at, equal_in, equal_pairs, first_clash, greater_at, greater_in,
    less_at, less_in, less_pairs, precedence_map, required,
};
use crate::symbol::{end_marker_symbol, lemma_member_occurs_once, occurrences, Symbol};
use crate::table::{render_text, AmbiguousGrammar, OpTable, Precedence};
use crate::vt::{
    firstvt, gen_firstvt, gen_lastvt, lastvt, lemma_firstvt_gives_terminals,
    lemma_lastvt_gives_terminals,
};
use vstd::prelude::*;

verus! {

/// Why no table came of a grammar.
#[derive(Debug, PartialEq, Eq)]
pub enum OpgError {
    /// The productions are not a grammar.
    Malformed(GrammarError),
    /// The grammar is not an operator-precedence grammar.
    Ambiguous(AmbiguousGrammar),
}

/// The rules ask for the relation `rel` between the terminals of `k` in the
/// grammar `g`.
pub open spec fn asks_for(g: Seq<Rule>, k: (Symbol, Symbol), rel: Precedence) -> bool {
    required(
        augmented(g),
        non_terminals(g),
        firstvt(g, non_terminals(g)),
        lastvt(g, non_terminals(g)),
        k,
        rel,
    )
}

/// `g` is an operator-precedence grammar: no ordered pair of terminals is
/// asked to have two different relations.
pub open spec fn is_operator_precedence(g: Seq<Rule>) -> bool {
    consistent(
        augmented(g),
        non_terminals(g),
        firstvt(g, non_terminals(g)),
        lastvt(g, non_terminals(g)),
    )
}

/// The relations of the precedence table of `g`.
pub open spec fn table_of(g: Seq<Rule>) -> Map<(Symbol, Symbol), Precedence> {
    precedence_map(
        augmented(g),
        non_terminals(g),
        firstvt(g, non_terminals(g)),
        lastvt(g, non_terminals(g)),
    )
}

/// The terminals of the precedence table of `g`, in the order of its rows.
pub open spec fn terminal_order(g: Seq<Rule>) -> Seq<Symbol> {
    with_end_marker(terminal_list(augmented(g), non_terminals(g)))
}

/// The first production of `g` with an empty right side is the one at `i`.
pub open spec fn first_empty_right(g: Seq<Rule>, i: int) -> bool {
    &&& 0 <= i < g.len()
    &&& g[i].right.len() == 0
    &&& forall|j: int| 0 <= j < i ==> (#[trigger] g[j]).right.len() > 0
}

/// `res` is what generating the table of `g` gives: an error for a grammar
/// that is malformed or ambiguous, and the one table of `g` otherwise.
pub open spec fn generated(g: Seq<Rule>, res: Result<OpTable, OpgError>) -> bool {
    match res {
        Ok(table) => {
            &&& crate::grammar::well_formed(g)
            &&& is_operator_precedence(g)
            &&& table@ == table_of(g)
            &&& table.terminals() == terminal_order(g)
        },
        Err(OpgError::Malformed(e)) => match e {
            GrammarError::Empty => g.len() == 0,
            GrammarError::EmptyRight { line } => first_empty_right(g, line as int),
            GrammarError::MissingArrow { line } => false,
        },
        Err(OpgError::Ambiguous(e)) => {
            &&& crate::grammar::well_formed(g)
            &&& !is_operator_precedence(g)
            &&& e.existing != e.attempted
            &&& asks_for(g, (e.left@, e.right@), e.existing)
            &&& asks_for(g, (e.left@, e.right@), e.attempted)
            &&& first_clash(
                augmented(g),
                non_terminals(g),
                firstvt(g, non_terminals(g)),
                lastvt(g, non_terminals(g)),
                e,
            )
        },
    }
}

/// The terminal set of a table lists every terminal once, and the end marker
/// among them, however many productions the grammar has.
pub proof fn lemma_terminal_order(g: Seq<Rule>)
    ensures
        terminal_order(g).no_duplicates(),
        terminal_order(g).to_set() == terminal_set(g, non_terminals(g)),
        occurrences(terminal_order(g), end_marker_symbol()) == 1,
{
    let list = terminal_list(augmented(g), non_terminals(g));
    crate::grammar::lemma_distinct_outside(
        crate::grammar::right_symbols(augmented(g)),
        non_terminals(g),
    );
    assert forall|s: Symbol| terminal_order(g).to_set().contains(s) <==> terminal_set(
        g,
        non_terminals(g),
    ).contains(s) by {
        crate::symbol::lemma_push_contains(list, end_marker_symbol(), s);
        crate::grammar::lemma_right_symbols(augmented(g), s);
    }
    assert(terminal_order(g).to_set() =~= terminal_set(g, non_terminals(g)));
    crate::symbol::lemma_push_contains(list, end_marker_symbol(), end_marker_symbol());
    lemma_member_occurs_once(terminal_order(g), end_marker_symbol());
}

/// Every relation of the table is between two members of the terminal set:
/// the table drawn over its terminals shows all that it holds.
pub proof fn lemma_table_relates_terminals(g: Seq<Rule>, k: (Symbol, Symbol))
    requires
        table_of(g).contains_key(k),
    ensures
        terminal_order(g).contains(k.0),
        terminal_order(g).contains(k.1),
{
    let nts = non_terminals(g);
    let grown = augmented(g);
    let ts = terminal_set(g, nts);
    lemma_terminal_order(g);
    assert(terminal_order(g).to_set().contains(k.0) == ts.contains(k.0));
    assert(terminal_order(g).to_set().contains(k.1) == ts.contains(k.1));
    assert forall|s: Symbol| occurs_right(g, s) implies occurs_right(grown, s) by {
        let (i, j) = choose|i: int, j: int|
            0 <= i < g.len() && 0 <= j < g[i].right.len() && #[trigger] g[i].right[j] == s;
        assert(grown[i].right[j] == s);
    }
    if equal_pairs(grown, nts).contains(k) {
        let a = choose|a: int| 0 <= a < grown.len() && equal_in((#[trigger] grown[a]).right, nts, k);
        let (i, j) = choose|i: int, j: int| #[trigger] equal_at(grown[a].right, nts, i, j, k);
        assert(grown[a].right[i] == k.0);
        assert(grown[a].right[j] == k.1);
    } else if less_pairs(grown, nts, firstvt(g, nts)).contains(k) {
        let a = choose|a: int|
            0 <= a < grown.len() && less_in((#[trigger] grown[a]).right, nts, firstvt(g, nts), k);
        let i = choose|i: int| #[trigger] less_at(grown[a].right, nts, firstvt(g, nts), i, k);
        assert(grown[a].right[i] == k.0);
        lemma_firstvt_gives_terminals(g, nts, grown[a].right[i + 1], k.1);
    } else {
        let a = choose|a: int|
            0 <= a < grown.len() && greater_in(
                (#[trigger] grown[a]).right,
                nts,
                lastvt(g, nts),
                k,
            );
        let i = choose|i: int| #[trigger] greater_at(grown[a].right, nts, lastvt(g, nts), i, k);
        assert(grown[a].right[i + 1] == k.1);
        lemma_lastvt_gives_terminals(g, nts, grown[a].right[i], k.0);
    }
}

/// Finds the first production with an empty right side.
fn find_empty_right(productions: &Vec<Production>) -> (found: Option<usize>)
    ensures
        found matches Some(i) ==> first_empty_right(productions.deep_view(), i as int),
        found is None ==> forall|j: int|
            0 <= j < productions.len() ==> (#[trigger] productions.deep_view()[j]).right.len() > 0,
{
    let n: usize = productions.len();
    let mut i: usize = 0;
    while i < n
        invariant
            n == productions.len(),
            i <= n,
            forall|j: int| 0 <= j < i ==> (#[trigger] productions.deep_view()[j]).right.len() > 0,
        decreases n - i,
    {
        assert(productions.deep_view()[i as int].right.len() == productions[i as int].right.len());
        if productions[i].right.len() == 0 {
            return Some(i);
        }
        i = i + 1;
    }
    None
}

/// Copies a list of productions.
fn copy_productions(productions: &Vec<Production>) -> (out: Vec<Production>)
    ensures
        out.deep_view() == productions.deep_view(),
{
    let mut out: Vec<Production> = Vec::new();
    let n: usize = productions.len();
    let mut i: usize = 0;
    while i < n
        invariant
            n == productions.len(),
            i <= n,
            out.len() == i,
            forall|j: int|
                0 <= j < i ==> #[trigger] out.deep_view()[j] == productions.deep_view()[j],
        decreases n - i,
    {
        let ghost before = out.deep_view();
        let p = productions[i].clone();
        assert(p.deep_view() == productions.deep_view()[i as int]);
        out.push(p);
        assert(out.deep_view() =~= before.push(p.deep_view()));
        i = i + 1;
    }
    assert(out.deep_view() =~= productions.deep_view());
    out
}

/// Generates the precedence table of a grammar given by its productions. A
/// grammar without productions, or with a production whose right side is
/// empty, is malformed; one that asks two relations of one pair of terminals
/// is ambiguous.
pub fn generate_table(productions: &Vec<Production>) -> (res: Result<OpTable, OpgError>)
    ensures
        generated(productions.deep_view(), res),
{
    let ghost g = productions.deep_view();
    if productions.len() == 0 {
        return Err(OpgError::Malformed(GrammarError::Empty));
    }
    match find_empty_right(productions) {
        Some(i) => {
            return Err(OpgError::Malformed(GrammarError::EmptyRight { line: i }));
        },
        None => {},
    }
    let nts = get_non_terminals(productions);
    let firstvt = gen_firstvt(productions, &nts);
    let lastvt = gen_lastvt(productions, &nts);
    let mut grown = copy_productions(productions);
    match augment(&mut grown) {
        Ok(()) => {},
        Err(e) => {
            return Err(OpgError::Malformed(e));
        },
    }
    let ts = get_terminal_set(&grown, &nts);
    proof {
        assert(ts.deep_view() == terminal_order(g));
        crate::symbol::lemma_distinct(ts.deep_view());
        lemma_distinct_is_same(ts.deep_view());
    }
    match build_table(&grown, &nts, &firstvt, &lastvt, ts) {
        Ok(table) => Ok(table),
        Err(e) => Err(OpgError::Ambiguous(e)),
    }
}

/// A list without repetitions is its own list of distinct members.
pub proof fn lemma_distinct_is_same(list: Seq<Symbol>)
    requires
        list.no_duplicates(),
    ensures
        crate::symbol::distinct(list) == list,
    decreases list.len(),
{
    if list.len() > 0 {
        let rest = list.drop_last();
        lemma_distinct_is_same(rest);
        crate::symbol::lemma_distinct(rest);
        if rest.contains(list.last()) {
            let i = choose|i: int| 0 <= i < rest.len() && rest[i] == list.last();
            assert(list[i] == list[list.len() - 1]);
        }
        assert(rest.push(list.last()) =~= list);
    }
}

/// Generates the precedence table of the grammar that `contents` holds in
/// the text format of grammars.
pub fn opg_generate(contents: &str) -> (res: Result<OpTable, OpgError>)
    ensures
        match parse_grammar(contents@) {
            Ok(g) => generated(g, res),
            Err(e) => res matches Err(OpgError::Malformed(found)) && found == e,
        },
{
    match gen_productions(contents) {
        Ok(productions) => generate_table(&productions),
        Err(e) => Err(OpgError::Malformed(e)),
    }
}

/// A grammar read from its text.
pub struct Opg {
    contents: String,
    productions: Vec<Production>,
}

impl Opg {
    /// The text that the grammar was read from.
    pub closed spec fn text(self) -> Seq<char> {
        self.contents@
    }

    /// The productions of the grammar.
    pub closed spec fn grammar(self) -> Seq<Rule> {
        self.productions.deep_view()
    }

    /// Reads a grammar from its text.
    pub fn new(contents: String) -> (res: Result<Opg, GrammarError>)
        ensures
            match parse_grammar(contents@) {
                Ok(g) => res matches Ok(opg) && opg.text() == contents@ && opg.grammar() == g,
                Err(e) => res matches Err(found) && found == e,
            },
    {
        match gen_productions(contents.as_str()) {
            Ok(productions) => Ok(Opg { contents, productions }),
            Err(e) => Err(e),
        }
    }

    /// The text that the grammar was read from.
    pub fn contents(&self) -> (s: &String)
        ensures
            s@ == self.text(),
    {
        &self.contents
    }

    /// The productions of the grammar.
    pub fn productions(&self) -> (p: &Vec<Production>)
        ensures
            p.deep_view() == self.grammar(),
    {
        &self.productions
    }

    /// Generates the precedence table of the grammar and draws it over its
    /// terminals.
    pub fn generate(&self) -> (res: Result<String, OpgError>)
        ensures
            match res {
                Ok(text) => {
                    &&& crate::grammar::well_formed(self.grammar())
                    &&& is_operator_precedence(self.grammar())
                    &&& text@ == render_text(
                        table_of(self.grammar()),
                        terminal_order(self.grammar()),
                    )
                },
                Err(e) => generated(self.grammar(), Err::<OpTable, OpgError>(e)),
            },
    {
        match generate_table(&self.productions) {
            Ok(table) => Ok(table.to_string()),
            Err(e) => Err(e),
        }
    }
}

} // verus!
