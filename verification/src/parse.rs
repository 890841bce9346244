//! The grammar text format.
//!
//! A grammar is written one non-terminal per line: the left side, `->`, and
//! the alternatives of the right side separated by `|`, each a run of symbols
//! separated by white space.
//!
//! ```text
//! E -> E + T | T
//! T -> T * F | F
//! F -> ( E ) | id
//! ```
//!
//! Every alternative becomes a production of its own. Of a line with more
//! than one `->`, what follows the second is not read.

use crate::grammar::{GrammarError, Production, Rule};
use crate::symbol::Symbol;
use vstd::prelude::*;
use vstd::string::*;

verus! {

/// White space: the characters with the Unicode property `White_Space`.
pub open spec fn is_space(c: char) -> bool {
    let u = c as u32;
    ||| 0x09 <= u <= 0x0D
    ||| u == 0x20
    ||| u == 0x85
    ||| u == 0xA0
    ||| u == 0x1680
    ||| 0x2000 <= u <= 0x200A
    ||| u == 0x2028
    ||| u == 0x2029
    ||| u == 0x202F
    ||| u == 0x205F
    ||| u == 0x3000
}

/// Tells whether `c` is white space.
pub fn is_whitespace(c: char) -> (b: bool)
    ensures
        b == is_space(c),
{
    let u: u32 = c as u32;
    (0x09 <= u && u <= 0x0D) || u == 0x20 || u == 0x85 || u == 0xA0 || u == 0x1680 || (0x2000 <= u
        && u <= 0x200A) || u == 0x2028 || u == 0x2029 || u == 0x202F || u == 0x205F || u == 0x3000
}

/// The pieces into which the separator `sep` cuts `s`; there is one piece
/// more than there are separators.
pub open spec fn pieces(s: Seq<char>, sep: char) -> Seq<Seq<char>>
    decreases s.len(),
{
    if s.len() == 0 {
        seq![Seq::<char>::empty()]
    } else {
        let before = pieces(s.drop_last(), sep);
        if s.last() == sep {
            before.push(Seq::<char>::empty())
        } else {
            before.drop_last().push(before.last().push(s.last()))
        }
    }
}

/// The lines of `text`: its pieces between line feeds, without the empty
/// piece behind a final line feed.
pub open spec fn lines(text: Seq<char>) -> Seq<Seq<char>> {
    let all = pieces(text, '\n');
    if all.last().len() == 0 {
        all.drop_last()
    } else {
        all
    }
}

/// The words of `s`: its maximal runs of characters that are not white space.
pub open spec fn words(s: Seq<char>) -> Seq<Seq<char>>
    decreases s.len(),
{
    if s.len() == 0 {
        Seq::<Seq<char>>::empty()
    } else {
        let before = words(s.drop_last());
        if is_space(s.last()) {
            before
        } else if s.len() >= 2 && !is_space(s[s.len() - 2]) {
            before.drop_last().push(before.last().push(s.last()))
        } else {
            before.push(seq![s.last()])
        }
    }
}

/// `s` without the white space at its start.
pub open spec fn trim_start(s: Seq<char>) -> Seq<char>
    decreases s.len(),
{
    if s.len() > 0 && is_space(s[0]) {
        trim_start(s.subrange(1, s.len() as int))
    } else {
        s
    }
}

/// `s` without the white space at its end.
pub open spec fn trim_end(s: Seq<char>) -> Seq<char>
    decreases s.len(),
{
    if s.len() > 0 && is_space(s.last()) {
        trim_end(s.drop_last())
    } else {
        s
    }
}

/// `s` without the white space at its start and at its end.
pub open spec fn trim(s: Seq<char>) -> Seq<char> {
    trim_end(trim_start(s))
}

/// The two characters `->` stand at position `k` of `s`.
pub open spec fn arrow_at(s: Seq<char>, k: int) -> bool {
    0 <= k && k + 1 < s.len() && s[k] == '-' && s[k + 1] == '>'
}

/// `k` is the position of the first `->` of `s` at or behind `from`.
pub open spec fn is_first_arrow(s: Seq<char>, from: int, k: int) -> bool {
    &&& from <= k
    &&& arrow_at(s, k)
    &&& forall|j: int| from <= j < k ==> !#[trigger] arrow_at(s, j)
}

/// The position of the first `->` of `s` at or behind `from`, if there is one.
pub open spec fn first_arrow(s: Seq<char>, from: int) -> Option<int> {
    if exists|k: int| is_first_arrow(s, from, k) {
        Some(choose|k: int| is_first_arrow(s, from, k))
    } else {
        None
    }
}

/// The productions of one left side and its alternatives, or nothing where an
/// alternative has no symbol.
pub open spec fn rules_of(left: Symbol, alternatives: Seq<Seq<char>>) -> Option<Seq<Rule>>
    decreases alternatives.len(),
{
    if alternatives.len() == 0 {
        Some(Seq::<Rule>::empty())
    } else {
        match rules_of(left, alternatives.drop_last()) {
            None => None,
            Some(rules) => if words(alternatives.last()).len() == 0 {
                None
            } else {
                Some(rules.push(Rule { left: left, right: words(alternatives.last()) }))
            },
        }
    }
}

/// Where the right side of a line ends: at its second `->`, or at its end.
pub open spec fn right_end(line: Seq<char>, arrow: int) -> int {
    match first_arrow(line, arrow + 2) {
        Some(second) => second,
        None => line.len() as int,
    }
}

/// The productions that the line with the number `number` stands for.
pub open spec fn parse_line(line: Seq<char>, number: usize) -> Result<Seq<Rule>, GrammarError> {
    match first_arrow(line, 0) {
        None => Err(GrammarError::MissingArrow { line: number }),
        Some(arrow) => {
            let left = trim(line.subrange(0, arrow));
            let right = line.subrange(arrow + 2, right_end(line, arrow));
            match rules_of(left, pieces(right, '|')) {
                None => Err(GrammarError::EmptyRight { line: number }),
                Some(rules) => Ok(rules),
            }
        },
    }
}

/// The productions of a run of lines, or the error of the first line that has
/// one.
pub open spec fn parse_lines(all: Seq<Seq<char>>) -> Result<Seq<Rule>, GrammarError>
    decreases all.len(),
{
    if all.len() == 0 {
        Ok(Seq::<Rule>::empty())
    } else {
        match parse_lines(all.drop_last()) {
            Err(e) => Err(e),
            Ok(rules) => match parse_line(all.last(), (all.len() - 1) as usize) {
                Err(e) => Err(e),
                Ok(more) => Ok(rules + more),
            },
        }
    }
}

/// The grammar that `text` stands for: the productions of its lines, of which
/// there must be one at least.
pub open spec fn parse_grammar(text: Seq<char>) -> Result<Seq<Rule>, GrammarError> {
    match parse_lines(lines(text)) {
        Err(e) => Err(e),
        Ok(rules) => if rules.len() == 0 {
            Err(GrammarError::Empty)
        } else {
            Ok(rules)
        },
    }
}

/// The pieces up to a separator stay as they are when more text follows.
pub proof fn lemma_pieces_prefix(s: Seq<char>, sep: char, i: int, m: int)
    requires
        0 <= i < m <= s.len(),
        s[i] == sep,
    ensures
        pieces(s.take(m), sep).len() > pieces(s.take(i), sep).len(),
        forall|j: int|
            0 <= j < pieces(s.take(i), sep).len() ==> #[trigger] pieces(s.take(m), sep)[j] == pieces(
                s.take(i),
                sep,
            )[j],
    decreases m - i,
{
    assert(s.take(m).drop_last() =~= s.take(m - 1));
    if m == i + 1 {
        assert(s.take(m).last() == sep);
    } else {
        lemma_pieces_prefix(s, sep, i, m - 1);
    }
}

/// An error among the first lines is the error of the whole.
pub proof fn lemma_parse_lines_error(all: Seq<Seq<char>>, m: int)
    requires
        0 <= m <= all.len(),
        parse_lines(all.take(m)) is Err,
    ensures
        parse_lines(all) == parse_lines(all.take(m)),
    decreases all.len() - m,
{
    if m == all.len() {
        assert(all.take(m) =~= all);
    } else {
        assert(all.take(m + 1).drop_last() =~= all.take(m));
        lemma_parse_lines_error(all, m + 1);
    }
}

/// An alternative without symbols among the first ones spoils the whole.
pub proof fn lemma_rules_of_none(left: Symbol, alternatives: Seq<Seq<char>>, m: int)
    requires
        0 <= m <= alternatives.len(),
        rules_of(left, alternatives.take(m)) is None,
    ensures
        rules_of(left, alternatives) is None,
    decreases alternatives.len() - m,
{
    if m == alternatives.len() {
        assert(alternatives.take(m) =~= alternatives);
    } else {
        assert(alternatives.take(m + 1).drop_last() =~= alternatives.take(m));
        lemma_rules_of_none(left, alternatives, m + 1);
    }
}

/// Copies the characters of `s` into a vector.
pub fn to_chars(s: &str) -> (chars: Vec<char>)
    ensures
        chars@ == s@,
{
    let mut chars: Vec<char> = Vec::new();
    for c in it: s.chars()
        invariant
            chars@ == it.seq().take(it.index() as int),
            it.seq() == s@,
    {
        chars.push(c);
        assert(it.seq().take(it.index() + 1).drop_last() =~= it.seq().take(it.index() as int));
    }
    chars
}

/// Finds the first `->` of the line `chars[base..to]` at or behind `from`.
fn find_arrow(chars: &Vec<char>, base: usize, from: usize, to: usize) -> (found: Option<usize>)
    requires
        base <= from,
        base <= to <= chars.len(),
    ensures
        found matches Some(k) ==> from <= k && k + 2 <= to,
        found matches Some(k) ==> first_arrow(chars@.subrange(base as int, to as int), from - base)
            == Some(k - base),
        found is None ==> first_arrow(chars@.subrange(base as int, to as int), from - base)
            is None,
{
    let ghost s = chars@.subrange(base as int, to as int);
    let mut k: usize = from;
    while k < to
        invariant
            base <= from <= k,
            base <= to <= chars.len(),
            s == chars@.subrange(base as int, to as int),
            forall|j: int| from - base <= j < k - base ==> !#[trigger] arrow_at(s, j),
        decreases to - k,
    {
        if chars[k] == '-' && k + 1 < to && chars[k + 1] == '>' {
            proof {
                assert(s[k - base] == '-' && s[k - base + 1] == '>');
                assert(arrow_at(s, k - base));
                let start = from - base;
                assert(is_first_arrow(s, start, k - base));
                let c = choose|c: int| is_first_arrow(s, start, c);
                assert(is_first_arrow(s, start, c));
                if c < k - base {
                    assert(!arrow_at(s, c));
                }
                if k - base < c {
                    assert(!arrow_at(s, k - base));
                }
            }
            return Some(k);
        }
        proof {
            if k + 1 < to {
                assert(s[k - base] == chars[k as int] && s[k - base + 1] == chars[k + 1]);
            }
            assert(!arrow_at(s, k - base));
        }
        k = k + 1;
    }
    proof {
        let start = from - base;
        assert forall|c: int| !is_first_arrow(s, start, c) by {
            if is_first_arrow(s, start, c) {
                assert(arrow_at(s, c));
                assert(c < s.len());
            }
        }
    }
    None
}

/// Finds where the line `chars[from..to]` begins and ends once the white
/// space at its two ends is left out.
fn trim_bounds(chars: &Vec<char>, from: usize, to: usize) -> (bounds: (usize, usize))
    requires
        from <= to <= chars.len(),
    ensures
        from <= bounds.0 <= bounds.1 <= to,
        chars@.subrange(bounds.0 as int, bounds.1 as int) == trim(
            chars@.subrange(from as int, to as int),
        ),
{
    let mut a: usize = from;
    while a < to && is_whitespace(chars[a])
        invariant
            from <= a <= to <= chars.len(),
            trim_start(chars@.subrange(from as int, to as int)) == trim_start(
                chars@.subrange(a as int, to as int),
            ),
        decreases to - a,
    {
        proof {
            let s = chars@.subrange(a as int, to as int);
            assert(s[0] == chars[a as int]);
            assert(s.subrange(1, s.len() as int) =~= chars@.subrange(a + 1, to as int));
        }
        a = a + 1;
    }
    proof {
        let s = chars@.subrange(a as int, to as int);
        if a < to {
            assert(s[0] == chars[a as int]);
        }
        assert(trim_start(s) == s);
    }
    let mut b: usize = to;
    while a < b && is_whitespace(chars[b - 1])
        invariant
            from <= a <= b <= to <= chars.len(),
            trim(chars@.subrange(from as int, to as int)) == trim_end(
                chars@.subrange(a as int, b as int),
            ),
        decreases b - a,
    {
        proof {
            let s = chars@.subrange(a as int, b as int);
            assert(s.last() == chars[b - 1]);
            assert(s.drop_last() =~= chars@.subrange(a as int, b - 1));
        }
        b = b - 1;
    }
    proof {
        let s = chars@.subrange(a as int, b as int);
        if a < b {
            assert(s.last() == chars[b - 1]);
        }
        assert(trim_end(s) == s);
    }
    (a, b)
}

/// Cuts the owned string `chars[from..to]` out of `contents`.
fn slice_string(contents: &str, chars: &Vec<char>, from: usize, to: usize) -> (s: String)
    requires
        chars@ == contents@,
        from <= to <= chars.len(),
    ensures
        s@ == chars@.subrange(from as int, to as int),
{
    contents.substring_char(from, to).to_owned()
}

/// Splits `chars[from..to]` into its words.
fn split_words(contents: &str, chars: &Vec<char>, from: usize, to: usize) -> (out: Vec<String>)
    requires
        chars@ == contents@,
        from <= to <= chars.len(),
    ensures
        out.deep_view() == words(chars@.subrange(from as int, to as int)),
{
    let mut out: Vec<String> = Vec::new();
    let mut start: usize = from;
    let mut in_word: bool = false;
    let mut i: usize = from;
    proof {
        assert(out.deep_view() =~= Seq::<Seq<char>>::empty());
        assert(chars@.subrange(from as int, from as int) =~= Seq::<char>::empty());
    }
    while i < to
        invariant
            chars@ == contents@,
            from <= i <= to <= chars.len(),
            in_word ==> from <= start < i && !is_space(chars[i - 1]) && words(
                chars@.subrange(from as int, i as int),
            ) == out.deep_view().push(chars@.subrange(start as int, i as int)),
            !in_word ==> (i == from || is_space(chars[i - 1])) && words(
                chars@.subrange(from as int, i as int),
            ) == out.deep_view(),
        decreases to - i,
    {
        let ghost seen = chars@.subrange(from as int, i as int);
        let ghost next = chars@.subrange(from as int, i + 1);
        let ghost before = out.deep_view();
        proof {
            assert(next.drop_last() =~= seen);
            assert(next.last() == chars[i as int]);
            if i > from {
                assert(next[next.len() - 2] == chars[i - 1]);
            }
        }
        if is_whitespace(chars[i]) {
            if in_word {
                let word = slice_string(contents, chars, start, i);
                out.push(word);
                assert(out.deep_view() =~= before.push(chars@.subrange(start as int, i as int)));
                in_word = false;
            }
        } else {
            if in_word {
                proof {
                    let grown = before.push(chars@.subrange(start as int, i as int));
                    assert(grown.drop_last() =~= before);
                    assert(grown.last().push(chars[i as int]) =~= chars@.subrange(
                        start as int,
                        i + 1,
                    ));
                }
            } else {
                start = i;
                in_word = true;
                assert(seq![chars[i as int]] =~= chars@.subrange(i as int, i + 1));
            }
        }
        i = i + 1;
    }
    if in_word {
        let ghost before = out.deep_view();
        let word = slice_string(contents, chars, start, to);
        out.push(word);
        assert(out.deep_view() =~= before.push(chars@.subrange(start as int, to as int)));
    }
    out
}

/// Reads the alternatives in `chars[from..to]`, separated by `|`, and adds a
/// production of `left` for each. Tells whether every alternative had a
/// symbol; where one had none, the productions gathered before it stay.
fn parse_alternatives(
    contents: &str,
    chars: &Vec<char>,
    from: usize,
    to: usize,
    left: &String,
    productions: &mut Vec<Production>,
) -> (complete: bool)
    requires
        chars@ == contents@,
        from <= to <= chars.len(),
    ensures
        complete == rules_of(left@, pieces(chars@.subrange(from as int, to as int), '|')) is Some,
        complete ==> final(productions).deep_view() == old(productions).deep_view() + rules_of(
            left@,
            pieces(chars@.subrange(from as int, to as int), '|'),
        ).unwrap(),
{
    let ghost full = chars@.subrange(from as int, to as int);
    let ghost mut done: Seq<Seq<char>> = Seq::empty();
    let ghost mut rules: Seq<Rule> = Seq::empty();
    let mut start: usize = from;
    let mut i: usize = from;
    proof {
        assert(chars@.subrange(from as int, from as int) =~= Seq::<char>::empty());
        assert(pieces(chars@.subrange(from as int, from as int), '|') =~= done.push(
            chars@.subrange(start as int, i as int),
        ));
        assert(productions.deep_view() =~= old(productions).deep_view() + rules);
    }
    while i < to
        invariant
            chars@ == contents@,
            from <= start <= i <= to <= chars.len(),
            full == chars@.subrange(from as int, to as int),
            pieces(chars@.subrange(from as int, i as int), '|') == done.push(
                chars@.subrange(start as int, i as int),
            ),
            rules_of(left@, done) == Some(rules),
            productions.deep_view() == old(productions).deep_view() + rules,
        decreases to - i,
    {
        let ghost seen = chars@.subrange(from as int, i as int);
        let ghost next = chars@.subrange(from as int, i + 1);
        let ghost open = chars@.subrange(start as int, i as int);
        proof {
            assert(next.drop_last() =~= seen);
            assert(next.last() == chars[i as int]);
            assert(done.push(open).drop_last() =~= done);
        }
        if chars[i] == '|' {
            let right = split_words(contents, chars, start, i);
            if right.len() == 0 {
                proof {
                    let all = pieces(full, '|');
                    let k = i - from;
                    assert(full.take(k) =~= seen);
                    lemma_pieces_prefix(full, '|', k, full.len() as int);
                    assert(full.take(full.len() as int) =~= full);
                    assert(all.take(done.len() as int + 1) =~= done.push(open));
                    assert(rules_of(left@, done.push(open)) is None);
                    lemma_rules_of_none(left@, all, done.len() as int + 1);
                }
                return false;
            }
            let ghost before = productions.deep_view();
            let added = Production { left: left.clone(), right };
            productions.push(added);
            proof {
                let rule = Rule { left: left@, right: words(open) };
                assert(productions.deep_view() =~= before.push(rule));
                done = done.push(open);
                rules = rules.push(rule);
                assert(productions.deep_view() =~= old(productions).deep_view() + rules);
                assert(chars@.subrange(i + 1, i + 1) =~= Seq::<char>::empty());
            }
            start = i + 1;
        } else {
            proof {
                assert(open.push(chars[i as int]) =~= chars@.subrange(start as int, i + 1));
            }
        }
        i = i + 1;
    }
    let ghost open = chars@.subrange(start as int, to as int);
    proof {
        assert(done.push(open).drop_last() =~= done);
    }
    let right = split_words(contents, chars, start, to);
    if right.len() == 0 {
        return false;
    }
    let ghost before = productions.deep_view();
    let added = Production { left: left.clone(), right };
    productions.push(added);
    proof {
        let rule = Rule { left: left@, right: words(open) };
        assert(productions.deep_view() =~= before.push(rule));
        assert(productions.deep_view() =~= old(productions).deep_view() + rules.push(rule));
    }
    true
}

/// Reads the line `chars[from..to]` and adds its productions. Where the line
/// has an error, the productions gathered before it stay.
fn parse_one_line(
    contents: &str,
    chars: &Vec<char>,
    from: usize,
    to: usize,
    number: usize,
    productions: &mut Vec<Production>,
) -> (res: Result<(), GrammarError>)
    requires
        chars@ == contents@,
        from <= to <= chars.len(),
    ensures
        match parse_line(chars@.subrange(from as int, to as int), number) {
            Ok(rules) => res is Ok && final(productions).deep_view() == old(
                productions,
            ).deep_view() + rules,
            Err(e) => res == Err::<(), GrammarError>(e),
        },
{
    let ghost line = chars@.subrange(from as int, to as int);
    match find_arrow(chars, from, from, to) {
        None => Err(GrammarError::MissingArrow { line: number }),
        Some(arrow) => {
            let end: usize = match find_arrow(chars, from, arrow + 2, to) {
                Some(second) => second,
                None => to,
            };
            let bounds = trim_bounds(chars, from, arrow);
            let left = slice_string(contents, chars, bounds.0, bounds.1);
            proof {
                assert(first_arrow(line, 0) == Some(arrow - from));
                assert(right_end(line, arrow - from) == end - from);
                assert(line.subrange(0, arrow - from) =~= chars@.subrange(
                    from as int,
                    arrow as int,
                ));
                assert(line.subrange(arrow - from + 2, end - from) =~= chars@.subrange(
                    arrow + 2,
                    end as int,
                ));
            }
            if parse_alternatives(contents, chars, arrow + 2, end, &left, productions) {
                Ok(())
            } else {
                Err(GrammarError::EmptyRight { line: number })
            }
        },
    }
}

/// Reads a grammar from its text: one production for every alternative of
/// every line, in the order of the text. The first line without `->`, or
/// with an alternative that has no symbol, is reported, and so is a text
/// without productions.
pub fn gen_productions(contents: &str) -> (res: Result<Vec<Production>, GrammarError>)
    ensures
        match parse_grammar(contents@) {
            Ok(rules) => res matches Ok(productions) && productions.deep_view() == rules,
            Err(e) => res matches Err(found) && found == e,
        },
        res matches Ok(productions) ==> crate::grammar::well_formed(productions.deep_view()),
{
    let chars = to_chars(contents);
    let ghost text = chars@;
    let n: usize = chars.len();
    let mut productions: Vec<Production> = Vec::new();
    let ghost mut done: Seq<Seq<char>> = Seq::empty();
    let mut start: usize = 0;
    let mut number: usize = 0;
    let mut i: usize = 0;
    proof {
        assert(text.take(0) =~= Seq::<char>::empty());
        assert(text.subrange(0, 0) =~= Seq::<char>::empty());
        assert(pieces(text.take(0), '\n') =~= done.push(text.subrange(0, 0)));
        assert(productions.deep_view() =~= Seq::<Rule>::empty());
    }
    while i < n
        invariant
            chars@ == contents@,
            text == chars@,
            n == chars.len(),
            start <= i <= n,
            number <= start,
            number == done.len(),
            pieces(text.take(i as int), '\n') == done.push(text.subrange(start as int, i as int)),
            parse_lines(done) == Ok::<Seq<Rule>, GrammarError>(productions.deep_view()),
            all_nonempty(productions.deep_view()),
        decreases n - i,
    {
        let ghost open = text.subrange(start as int, i as int);
        proof {
            assert(text.take(i + 1).drop_last() =~= text.take(i as int));
            assert(text.take(i + 1).last() == chars[i as int]);
            assert(done.push(open).drop_last() =~= done);
        }
        if chars[i] == '\n' {
            let ghost before = productions.deep_view();
            match parse_one_line(contents, &chars, start, i, number, &mut productions) {
                Ok(()) => {},
                Err(e) => {
                    proof {
                        let all = pieces(text, '\n');
                        lemma_pieces_prefix(text, '\n', i as int, n as int);
                        assert(text.take(n as int) =~= text);
                        assert(lines(text).take(number + 1) =~= done.push(open));
                        assert(parse_lines(done.push(open)) == Err::<Seq<Rule>, GrammarError>(e));
                        lemma_parse_lines_error(lines(text), number + 1);
                    }
                    return Err(e);
                },
            }
            proof {
                lemma_rules_nonempty(open, number);
                done = done.push(open);
                assert(text.subrange(i + 1, i + 1) =~= Seq::<char>::empty());
            }
            number = number + 1;
            start = i + 1;
        } else {
            proof {
                assert(open.push(chars[i as int]) =~= text.subrange(start as int, i + 1));
            }
        }
        i = i + 1;
    }
    let ghost open = text.subrange(start as int, n as int);
    proof {
        assert(text.take(n as int) =~= text);
        assert(done.push(open).drop_last() =~= done);
    }
    if start < n {
        match parse_one_line(contents, &chars, start, n, number, &mut productions) {
            Ok(()) => {},
            Err(e) => {
                return Err(e);
            },
        }
        proof {
            lemma_rules_nonempty(open, number);
        }
    }
    if productions.len() == 0 {
        return Err(GrammarError::Empty);
    }
    Ok(productions)
}

/// No production of `g` has an empty right side.
spec fn all_nonempty(g: Seq<Rule>) -> bool {
    forall|i: int| 0 <= i < g.len() ==> (#[trigger] g[i]).right.len() > 0
}

/// The productions of alternatives have symbols on their right sides.
proof fn lemma_alternatives_nonempty(left: Symbol, alternatives: Seq<Seq<char>>)
    requires
        rules_of(left, alternatives) is Some,
    ensures
        all_nonempty(rules_of(left, alternatives).unwrap()),
    decreases alternatives.len(),
{
    if alternatives.len() > 0 {
        lemma_alternatives_nonempty(left, alternatives.drop_last());
    }
}

/// The productions of a line have symbols on their right sides.
proof fn lemma_rules_nonempty(line: Seq<char>, number: usize)
    requires
        parse_line(line, number) is Ok,
    ensures
        all_nonempty(parse_line(line, number).unwrap()),
{
    let arrow = first_arrow(line, 0).unwrap();
    let left = trim(line.subrange(0, arrow));
    let right = line.subrange(arrow + 2, right_end(line, arrow));
    lemma_alternatives_nonempty(left, pieces(right, '|'));
}

} // verus!
