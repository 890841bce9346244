//! The closure engine: FIRSTVT and LASTVT from their direct relations.
//!
//! Given the direct-contribution relation `mono` (non-terminal to terminal) and
//! the containment relation `con` (non-terminal to non-terminal), the closure
//! relates a non-terminal `x` to every terminal that `mono` gives to some
//! non-terminal reachable from `x` through `con`, `x` itself included. The
//! containment graph may hold cycles; the traversal marks what it has visited
//! and never descends twice into one node.

use crate::relation::Relation;
use crate::symbol::{contains_symbol, insert_symbols, Symbol};
use vstd::prelude::*;

verus! {

/// The step of `path` that leaves position `i` is an edge of `con`.
pub open spec fn edge_at(con: Set<(Symbol, Symbol)>, path: Seq<Symbol>, i: int) -> bool {
    con.contains((path[i], path[i + 1]))
}

/// `path` is a non-empty walk along the edges of `con`.
pub open spec fn is_path(con: Set<(Symbol, Symbol)>, path: Seq<Symbol>) -> bool {
    &&& path.len() > 0
    &&& forall|i: int| 0 <= i < path.len() - 1 ==> #[trigger] edge_at(con, path, i)
}

/// `y` can be reached from `x` by following zero or more edges of `con`.
pub open spec fn reaches(con: Set<(Symbol, Symbol)>, x: Symbol, y: Symbol) -> bool {
    exists|path: Seq<Symbol>| #[trigger] is_path(con, path) && path[0] == x && path.last() == y
}

/// The closure of `mono` along `con`: `x` is related to `t` when some `y`
/// reachable from `x` is related to `t` by `mono`.
pub open spec fn vt_closure(mono: Set<(Symbol, Symbol)>, con: Set<(Symbol, Symbol)>) -> Set<
    (Symbol, Symbol),
> {
    Set::new(
        |p: (Symbol, Symbol)|
            exists|y: Symbol| #[trigger] reaches(con, p.0, y) && mono.contains((y, p.1)),
    )
}

/// A pair is in the closure when a witness is at hand.
pub proof fn lemma_closure_intro(
    mono: Set<(Symbol, Symbol)>,
    con: Set<(Symbol, Symbol)>,
    x: Symbol,
    y: Symbol,
    t: Symbol,
)
    requires
        reaches(con, x, y),
        mono.contains((y, t)),
    ensures
        vt_closure(mono, con).contains((x, t)),
{
    let p = (x, t);
    assert(reaches(con, p.0, y) && mono.contains((y, p.1)));
}

/// A pair of the closure has a witness.
pub proof fn lemma_closure_elim(
    mono: Set<(Symbol, Symbol)>,
    con: Set<(Symbol, Symbol)>,
    x: Symbol,
    t: Symbol,
)
    requires
        vt_closure(mono, con).contains((x, t)),
    ensures
        exists|y: Symbol| #[trigger] reaches(con, x, y) && mono.contains((y, t)),
{
    let p = (x, t);
    let y = choose|y: Symbol| #[trigger] reaches(con, p.0, y) && mono.contains((y, p.1));
    assert(reaches(con, x, y) && mono.contains((y, t)));
}

/// Every symbol reaches itself.
pub proof fn lemma_reaches_self(con: Set<(Symbol, Symbol)>, x: Symbol)
    ensures
        reaches(con, x, x),
{
    let path = seq![x];
    assert(is_path(con, path));
    assert(path[0] == x && path.last() == x);
}

/// An edge makes its right symbol reachable from its left symbol.
pub proof fn lemma_reaches_edge(con: Set<(Symbol, Symbol)>, x: Symbol, y: Symbol)
    requires
        con.contains((x, y)),
    ensures
        reaches(con, x, y),
{
    let path = seq![x, y];
    assert forall|i: int| 0 <= i < path.len() - 1 implies #[trigger] edge_at(con, path, i) by {
        assert(path[0] == x && path[1] == y);
    }
    assert(is_path(con, path));
    assert(path[0] == x && path.last() == y);
}

/// Two walks, the second starting where the first ends, join into one.
proof fn lemma_join_paths(con: Set<(Symbol, Symbol)>, first: Seq<Symbol>, second: Seq<Symbol>)
    requires
        is_path(con, first),
        is_path(con, second),
        first.last() == second[0],
    ensures
        is_path(con, first + second.subrange(1, second.len() as int)),
        (first + second.subrange(1, second.len() as int))[0] == first[0],
        (first + second.subrange(1, second.len() as int)).last() == second.last(),
{
    let joined = first + second.subrange(1, second.len() as int);
    assert forall|i: int| 0 <= i < joined.len() - 1 implies #[trigger] edge_at(con, joined, i) by {
        if i < first.len() - 1 {
            assert(edge_at(con, first, i));
            assert(joined[i] == first[i] && joined[i + 1] == first[i + 1]);
        } else {
            let k = i - first.len() + 1;
            assert(edge_at(con, second, k));
            assert(joined[i + 1] == second[k + 1]);
            if k == 0 {
                assert(joined[i] == first.last());
            } else {
                assert(joined[i] == second[k]);
            }
        }
    }
}

/// Reachability is transitive.
pub proof fn lemma_reaches_transitive(
    con: Set<(Symbol, Symbol)>,
    x: Symbol,
    y: Symbol,
    z: Symbol,
)
    requires
        reaches(con, x, y),
        reaches(con, y, z),
    ensures
        reaches(con, x, z),
{
    let first = choose|path: Seq<Symbol>| #[trigger]
        is_path(con, path) && path[0] == x && path.last() == y;
    let second = choose|path: Seq<Symbol>| #[trigger]
        is_path(con, path) && path[0] == y && path.last() == z;
    lemma_join_paths(con, first, second);
    let joined = first + second.subrange(1, second.len() as int);
    assert(is_path(con, joined) && joined[0] == x && joined.last() == z);
}

/// A walk can be prolonged by one edge at its end.
pub proof fn lemma_reaches_step(con: Set<(Symbol, Symbol)>, x: Symbol, y: Symbol, z: Symbol)
    requires
        reaches(con, x, y),
        con.contains((y, z)),
    ensures
        reaches(con, x, z),
{
    lemma_reaches_edge(con, y, z);
    lemma_reaches_transitive(con, x, y, z);
}

/// A set that holds the start of a walk and is closed under the edges of `con`
/// holds every symbol on the walk.
proof fn lemma_closed_holds_walk(
    con: Set<(Symbol, Symbol)>,
    closed: Set<Symbol>,
    path: Seq<Symbol>,
    k: int,
)
    requires
        is_path(con, path),
        closed.contains(path[0]),
        forall|v: Symbol, w: Symbol|
            closed.contains(v) && #[trigger] con.contains((v, w)) ==> closed.contains(w),
        0 <= k < path.len(),
    ensures
        closed.contains(path[k]),
    decreases k,
{
    if k > 0 {
        lemma_closed_holds_walk(con, closed, path, k - 1);
        assert(edge_at(con, path, k - 1));
    }
}

/// A set that holds `x` and is closed under the edges of `con` holds every
/// symbol reachable from `x`.
pub proof fn lemma_closed_holds_reachable(
    con: Set<(Symbol, Symbol)>,
    closed: Set<Symbol>,
    x: Symbol,
    y: Symbol,
)
    requires
        closed.contains(x),
        forall|v: Symbol, w: Symbol|
            closed.contains(v) && #[trigger] con.contains((v, w)) ==> closed.contains(w),
        reaches(con, x, y),
    ensures
        closed.contains(y),
{
    let path = choose|path: Seq<Symbol>| #[trigger]
        is_path(con, path) && path[0] == x && path.last() == y;
    lemma_closed_holds_walk(con, closed, path, path.len() - 1);
}

/// The terminals that `x` derives within `depth` containment steps, by the
/// direct recursive definition: `t` is a direct terminal of `x`, or one that
/// a non-terminal contained in `x` derives within one step less.
pub open spec fn vt_within(
    mono: Set<(Symbol, Symbol)>,
    con: Set<(Symbol, Symbol)>,
    x: Symbol,
    t: Symbol,
    depth: nat,
) -> bool
    decreases depth,
{
    mono.contains((x, t)) || (depth > 0 && exists|y: Symbol|
        #[trigger] con.contains((x, y)) && vt_within(mono, con, y, t, (depth - 1) as nat))
}

/// `con` has no cycle: no walk of one or more edges returns to its start.
pub open spec fn acyclic(con: Set<(Symbol, Symbol)>) -> bool {
    forall|path: Seq<Symbol>| #[trigger]
        is_path(con, path) && path.len() > 1 ==> path[0] != path.last()
}

/// All members of a containment cycle receive the same set: two symbols that
/// reach each other are related by the closure to the same terminals.
pub proof fn lemma_cycle_members_share_vt(
    mono: Set<(Symbol, Symbol)>,
    con: Set<(Symbol, Symbol)>,
    x: Symbol,
    y: Symbol,
)
    requires
        reaches(con, x, y),
        reaches(con, y, x),
    ensures
        forall|t: Symbol|
            #![trigger vt_closure(mono, con).contains((x, t))]
            #![trigger vt_closure(mono, con).contains((y, t))]
            vt_closure(mono, con).contains((x, t)) <==> vt_closure(mono, con).contains((y, t)),
{
    assert forall|t: Symbol|
        #![trigger vt_closure(mono, con).contains((x, t))]
        #![trigger vt_closure(mono, con).contains((y, t))]
        vt_closure(mono, con).contains((x, t)) <==> vt_closure(mono, con).contains((y, t)) by {
        if vt_closure(mono, con).contains((x, t)) {
            lemma_closure_elim(mono, con, x, t);
            let z = choose|z: Symbol| #[trigger] reaches(con, x, z) && mono.contains((z, t));
            lemma_reaches_transitive(con, y, x, z);
            lemma_closure_intro(mono, con, y, z, t);
        }
        if vt_closure(mono, con).contains((y, t)) {
            lemma_closure_elim(mono, con, y, t);
            let z = choose|z: Symbol| #[trigger] reaches(con, y, z) && mono.contains((z, t));
            lemma_reaches_transitive(con, x, y, z);
            lemma_closure_intro(mono, con, x, z, t);
        }
    }
}

/// The closure obeys the recursive equation of FIRSTVT and LASTVT: `x` has its
/// own direct terminals and the terminals of every non-terminal it contains,
/// and no others.
pub proof fn lemma_closure_unfolds(
    mono: Set<(Symbol, Symbol)>,
    con: Set<(Symbol, Symbol)>,
    x: Symbol,
    t: Symbol,
)
    ensures
        vt_closure(mono, con).contains((x, t)) <==> mono.contains((x, t)) || exists|y: Symbol|
            #[trigger] con.contains((x, y)) && vt_closure(mono, con).contains((y, t)),
{
    if vt_closure(mono, con).contains((x, t)) {
        lemma_closure_elim(mono, con, x, t);
        let z = choose|z: Symbol| #[trigger] reaches(con, x, z) && mono.contains((z, t));
        let path = choose|path: Seq<Symbol>| #[trigger]
            is_path(con, path) && path[0] == x && path.last() == z;
        if path.len() > 1 {
            let rest = path.subrange(1, path.len() as int);
            assert(edge_at(con, path, 0));
            assert forall|i: int| 0 <= i < rest.len() - 1 implies #[trigger] edge_at(
                con,
                rest,
                i,
            ) by {
                assert(edge_at(con, path, i + 1));
            }
            assert(is_path(con, rest) && rest[0] == path[1] && rest.last() == z);
            lemma_closure_intro(mono, con, path[1], z, t);
            assert(con.contains((x, path[1])));
        }
    }
    if mono.contains((x, t)) {
        lemma_reaches_self(con, x);
        lemma_closure_intro(mono, con, x, x, t);
    }
    if exists|y: Symbol|
        #[trigger] con.contains((x, y)) && vt_closure(mono, con).contains((y, t)) {
        let y = choose|y: Symbol|
            #[trigger] con.contains((x, y)) && vt_closure(mono, con).contains((y, t));
        lemma_closure_elim(mono, con, y, t);
        let z = choose|z: Symbol| #[trigger] reaches(con, y, z) && mono.contains((z, t));
        lemma_reaches_edge(con, x, y);
        lemma_reaches_transitive(con, x, y, z);
        lemma_closure_intro(mono, con, x, z, t);
    }
}

/// What the recursive definition derives at any depth is in the closure.
pub proof fn lemma_within_in_closure(
    mono: Set<(Symbol, Symbol)>,
    con: Set<(Symbol, Symbol)>,
    x: Symbol,
    t: Symbol,
    depth: nat,
)
    requires
        vt_within(mono, con, x, t, depth),
    ensures
        vt_closure(mono, con).contains((x, t)),
    decreases depth,
{
    if mono.contains((x, t)) {
        lemma_reaches_self(con, x);
        lemma_closure_intro(mono, con, x, x, t);
    } else {
        let y = choose|y: Symbol|
            #[trigger] con.contains((x, y)) && vt_within(mono, con, y, t, (depth - 1) as nat);
        lemma_within_in_closure(mono, con, y, t, (depth - 1) as nat);
        lemma_closure_unfolds(mono, con, x, t);
    }
}

/// A deeper recursion derives all that a shallower one does.
pub proof fn lemma_within_monotone(
    mono: Set<(Symbol, Symbol)>,
    con: Set<(Symbol, Symbol)>,
    x: Symbol,
    t: Symbol,
    depth: nat,
    deeper: nat,
)
    requires
        vt_within(mono, con, x, t, depth),
        depth <= deeper,
    ensures
        vt_within(mono, con, x, t, deeper),
    decreases depth,
{
    if !mono.contains((x, t)) {
        let y = choose|y: Symbol|
            #[trigger] con.contains((x, y)) && vt_within(mono, con, y, t, (depth - 1) as nat);
        lemma_within_monotone(mono, con, y, t, (depth - 1) as nat, (deeper - 1) as nat);
    }
}

/// Along a walk that ends at a symbol with direct terminal `t`, the symbol at
/// position `i` derives `t` within as many steps as the walk has left.
proof fn lemma_walk_within(
    mono: Set<(Symbol, Symbol)>,
    con: Set<(Symbol, Symbol)>,
    path: Seq<Symbol>,
    t: Symbol,
    i: int,
)
    requires
        is_path(con, path),
        mono.contains((path.last(), t)),
        0 <= i < path.len(),
    ensures
        vt_within(mono, con, path[i], t, (path.len() - 1 - i) as nat),
    decreases path.len() - i,
{
    if i < path.len() - 1 {
        lemma_walk_within(mono, con, path, t, i + 1);
        assert(edge_at(con, path, i));
        assert(con.contains((path[i], path[i + 1])));
    }
}

/// In a graph without cycles no walk visits a symbol twice.
proof fn lemma_acyclic_walk_distinct(con: Set<(Symbol, Symbol)>, path: Seq<Symbol>)
    requires
        acyclic(con),
        is_path(con, path),
    ensures
        path.no_duplicates(),
{
    assert forall|i: int, j: int|
        0 <= i < path.len() && 0 <= j < path.len() && i != j implies path[i] != path[j] by {
        let (a, b) = if i < j {
            (i, j)
        } else {
            (j, i)
        };
        let part = path.subrange(a, b + 1);
        assert forall|k: int| 0 <= k < part.len() - 1 implies #[trigger] edge_at(con, part, k) by {
            assert(edge_at(con, path, a + k));
        }
        assert(is_path(con, part));
        assert(part[0] == path[a] && part.last() == path[b]);
    }
}

/// In a finite graph without cycles a walk has no more edges than the graph.
proof fn lemma_acyclic_walk_short(con: Set<(Symbol, Symbol)>, path: Seq<Symbol>)
    requires
        con.finite(),
        acyclic(con),
        is_path(con, path),
    ensures
        path.len() - 1 <= con.len(),
{
    lemma_acyclic_walk_distinct(con, path);
    let steps = Seq::new((path.len() - 1) as nat, |i: int| (path[i], path[i + 1]));
    assert(steps.no_duplicates());
    assert forall|e: (Symbol, Symbol)| steps.to_set().contains(e) implies con.contains(e) by {
        let i = choose|i: int| 0 <= i < steps.len() && steps[i] == e;
        assert(edge_at(con, path, i));
    }
    steps.unique_seq_to_set();
    vstd::set_lib::lemma_len_subset(steps.to_set(), con);
}

/// Where the containment relation is finite and has no cycle, the closure is
/// what the direct recursive definition derives, taken as deep as the
/// relation has pairs: the union of `mono` along every walk from `x`.
pub proof fn lemma_acyclic_closure_is_recursive(
    mono: Set<(Symbol, Symbol)>,
    con: Set<(Symbol, Symbol)>,
    x: Symbol,
    t: Symbol,
)
    requires
        con.finite(),
        acyclic(con),
    ensures
        vt_closure(mono, con).contains((x, t)) <==> vt_within(mono, con, x, t, con.len()),
{
    if vt_closure(mono, con).contains((x, t)) {
        lemma_closure_elim(mono, con, x, t);
        let z = choose|z: Symbol| #[trigger] reaches(con, x, z) && mono.contains((z, t));
        let path = choose|path: Seq<Symbol>| #[trigger]
            is_path(con, path) && path[0] == x && path.last() == z;
        lemma_walk_within(mono, con, path, t, 0);
        lemma_acyclic_walk_short(con, path);
        lemma_within_monotone(mono, con, x, t, (path.len() - 1) as nat, con.len());
    }
    if vt_within(mono, con, x, t, con.len()) {
        lemma_within_in_closure(mono, con, x, t, con.len());
    }
}

/// `s` is the right symbol of some edge.
spec fn is_target(edges: Seq<(Symbol, Symbol)>, s: Symbol) -> bool {
    exists|k: int| 0 <= k < edges.len() && (#[trigger] edges[k]).1 == s
}

/// `s` is the left symbol of some edge.
spec fn is_source(edges: Seq<(Symbol, Symbol)>, s: Symbol) -> bool {
    exists|k: int| 0 <= k < edges.len() && (#[trigger] edges[k]).0 == s
}

/// Distinct symbols that are each the root or the target of an edge are at
/// most one more than the edges.
proof fn lemma_visited_bound(visited: Seq<Symbol>, root: Symbol, edges: Seq<(Symbol, Symbol)>)
    requires
        visited.no_duplicates(),
        forall|i: int|
            0 <= i < visited.len() ==> (#[trigger] visited[i]) == root || is_target(
                edges,
                visited[i],
            ),
    ensures
        visited.len() <= edges.len() + 1,
{
    let targets = edges.map_values(|e: (Symbol, Symbol)| e.1);
    let bound = targets.to_set().insert(root);
    vstd::seq_lib::seq_to_set_is_finite(targets);
    targets.lemma_cardinality_of_set();
    vstd::set::axiom_set_insert_len(targets.to_set(), root);
    vstd::set::axiom_set_insert_finite(targets.to_set(), root);
    assert forall|s: Symbol| visited.to_set().contains(s) implies bound.contains(s) by {
        let i = choose|i: int| 0 <= i < visited.len() && visited[i] == s;
        if visited[i] != root {
            let k = choose|k: int| 0 <= k < edges.len() && (#[trigger] edges[k]).1 == s;
            assert(targets[k] == s);
        }
    }
    vstd::set_lib::lemma_len_subset(visited.to_set(), bound);
    visited.unique_seq_to_set();
}

/// Every visited node that has left the active path has all its successors
/// visited.
spec fn closed_except(
    con: Set<(Symbol, Symbol)>,
    visited: Seq<Symbol>,
    path: Seq<Symbol>,
) -> bool {
    forall|v: Symbol, w: Symbol|
        visited.contains(v) && !path.contains(v) && #[trigger] con.contains((v, w))
            ==> visited.contains(w)
}

/// What holds between two steps of a traversal from `root`: `visited` lists
/// distinct nodes reachable from `root`, closed under `edges` but for the
/// nodes on the active `path`, and `acc` lists, each once, the terminals that
/// `mono` gives to a visited node.
spec fn traversal_ok(
    mono: Set<(Symbol, Symbol)>,
    edges: Seq<(Symbol, Symbol)>,
    visited: Seq<Symbol>,
    path: Seq<Symbol>,
    acc: Seq<Symbol>,
    root: Symbol,
) -> bool {
    &&& visited.no_duplicates()
    &&& forall|i: int|
        0 <= i < visited.len() ==> (#[trigger] visited[i]) == root || is_target(
            edges,
            visited[i],
        )
    &&& forall|i: int| 0 <= i < visited.len() ==> reaches(edges.to_set(), root, #[trigger] visited[i])
    &&& closed_except(edges.to_set(), visited, path)
    &&& acc.no_duplicates()
    &&& forall|t: Symbol|
        acc.contains(t) <==> exists|i: int|
            0 <= i < visited.len() && mono.contains((#[trigger] visited[i], t))
}

/// The visited nodes never outnumber the edges by more than one.
proof fn lemma_traversal_bound(
    mono: Set<(Symbol, Symbol)>,
    edges: Seq<(Symbol, Symbol)>,
    visited: Seq<Symbol>,
    path: Seq<Symbol>,
    acc: Seq<Symbol>,
    root: Symbol,
)
    requires
        traversal_ok(mono, edges, visited, path, acc, root),
    ensures
        visited.len() <= edges.len() + 1,
{
    lemma_visited_bound(visited, root, edges);
}

/// Entering a node that was not visited: it joins `visited` and `path`, and
/// its direct terminals join the collected ones.
proof fn lemma_traversal_enter(
    mono: Set<(Symbol, Symbol)>,
    edges: Seq<(Symbol, Symbol)>,
    visited: Seq<Symbol>,
    path: Seq<Symbol>,
    acc: Seq<Symbol>,
    root: Symbol,
    node: Symbol,
    grown: Seq<Symbol>,
)
    requires
        traversal_ok(mono, edges, visited, path, acc, root),
        !visited.contains(node),
        reaches(edges.to_set(), root, node),
        node == root || is_target(edges, node),
        grown.no_duplicates(),
        forall|t: Symbol| grown.contains(t) <==> acc.contains(t) || mono.contains((node, t)),
    ensures
        traversal_ok(mono, edges, visited.push(node), path.push(node), grown, root),
{
    let visited1 = visited.push(node);
    let path1 = path.push(node);
    let con = edges.to_set();
    assert(path1[path.len() as int] == node);
    assert(path1.contains(node));
    assert forall|v: Symbol, w: Symbol|
        visited1.contains(v) && !path1.contains(v) && #[trigger] con.contains(
            (v, w),
        ) implies visited1.contains(w) by {
        crate::symbol::lemma_push_contains(visited, node, v);
        crate::symbol::lemma_push_contains(visited, node, w);
        assert(v != node);
        assert(visited.contains(v));
        if path.contains(v) {
            crate::symbol::lemma_push_contains(path, node, v);
        }
    }
    assert forall|t: Symbol|
        grown.contains(t) <==> exists|i: int|
            0 <= i < visited1.len() && mono.contains((#[trigger] visited1[i], t)) by {
        if acc.contains(t) {
            let i = choose|i: int| 0 <= i < visited.len() && mono.contains((#[trigger] visited[i], t));
            assert(mono.contains((visited1[i], t)));
        }
        if mono.contains((node, t)) {
            assert(mono.contains((visited1[visited.len() as int], t)));
        }
        if exists|i: int| 0 <= i < visited1.len() && mono.contains((#[trigger] visited1[i], t)) {
            let i = choose|i: int|
                0 <= i < visited1.len() && mono.contains((#[trigger] visited1[i], t));
            if i < visited.len() {
                assert(mono.contains((visited[i], t)));
            }
        }
    }
}

/// Leaving a node whose successors are all visited: it leaves `path`.
proof fn lemma_traversal_leave(
    mono: Set<(Symbol, Symbol)>,
    edges: Seq<(Symbol, Symbol)>,
    visited: Seq<Symbol>,
    path: Seq<Symbol>,
    acc: Seq<Symbol>,
    root: Symbol,
    node: Symbol,
)
    requires
        traversal_ok(mono, edges, visited, path.push(node), acc, root),
        forall|j: int|
            0 <= j < edges.len() && (#[trigger] edges[j]).0 == node ==> visited.contains(edges[j].1),
    ensures
        traversal_ok(mono, edges, visited, path, acc, root),
{
    let path1 = path.push(node);
    let con = edges.to_set();
    assert forall|v: Symbol, w: Symbol|
        visited.contains(v) && !path.contains(v) && #[trigger] con.contains(
            (v, w),
        ) implies visited.contains(w) by {
        crate::symbol::lemma_push_contains(path, node, v);
        if v == node {
            let j = choose|j: int| 0 <= j < edges.len() && edges[j] == (v, w);
            assert(edges[j].0 == node);
        } else {
            assert(!path1.contains(v));
        }
    }
}

/// After a traversal from `root` that has come back to an empty path, the
/// collected terminals are those of the closure at `root`.
proof fn lemma_traversal_done(
    mono: Set<(Symbol, Symbol)>,
    edges: Seq<(Symbol, Symbol)>,
    visited: Seq<Symbol>,
    acc: Seq<Symbol>,
    root: Symbol,
)
    requires
        traversal_ok(mono, edges, visited, Seq::<Symbol>::empty(), acc, root),
        visited.contains(root),
    ensures
        forall|t: Symbol| acc.contains(t) <==> vt_closure(mono, edges.to_set()).contains((root, t)),
{
    let con = edges.to_set();
    let empty = Seq::<Symbol>::empty();
    assert forall|t: Symbol| acc.contains(t) <==> vt_closure(mono, con).contains((root, t)) by {
        if acc.contains(t) {
            let i = choose|i: int| 0 <= i < visited.len() && mono.contains((#[trigger] visited[i], t));
            assert(reaches(con, root, visited[i]));
            lemma_closure_intro(mono, con, root, visited[i], t);
        }
        if vt_closure(mono, con).contains((root, t)) {
            lemma_closure_elim(mono, con, root, t);
            let y = choose|y: Symbol| #[trigger] reaches(con, root, y) && mono.contains((y, t));
            assert forall|v: Symbol, w: Symbol|
                visited.to_set().contains(v) && #[trigger] con.contains(
                    (v, w),
                ) implies visited.to_set().contains(w) by {
                assert(!empty.contains(v));
            }
            lemma_closed_holds_reachable(con, visited.to_set(), root, y);
            let i = choose|i: int| 0 <= i < visited.len() && visited[i] == y;
            assert(mono.contains((visited[i], t)));
        }
    }
}

/// A pair of the closure has a left symbol that is a left symbol of `mono` or
/// of `con`.
proof fn lemma_closure_has_source(
    mono: Seq<(Symbol, Symbol)>,
    con: Seq<(Symbol, Symbol)>,
    x: Symbol,
    t: Symbol,
)
    requires
        vt_closure(mono.to_set(), con.to_set()).contains((x, t)),
    ensures
        is_source(mono, x) || is_source(con, x),
{
    lemma_closure_elim(mono.to_set(), con.to_set(), x, t);
    let y = choose|y: Symbol| #[trigger]
        reaches(con.to_set(), x, y) && mono.to_set().contains((y, t));
    let path = choose|path: Seq<Symbol>| #[trigger]
        is_path(con.to_set(), path) && path[0] == x && path.last() == y;
    if path.len() == 1 {
        let k = choose|k: int| 0 <= k < mono.len() && mono[k] == (y, t);
        assert(mono[k].0 == x);
    } else {
        assert(edge_at(con.to_set(), path, 0));
        let k = choose|k: int| 0 <= k < con.len() && con[k] == (path[0], path[1]);
        assert(con[k].0 == x);
    }
}

/// `x` is one of the first `k` members of `list`.
spec fn among_first(list: Seq<Symbol>, k: int, x: Symbol) -> bool {
    exists|j: int| 0 <= j < k && j < list.len() && list[j] == x
}

/// One traversal of the containment graph, with the relations it works on.
pub struct Dfs {
    mono: Relation,
    con: Relation,
    visited: Vec<String>,
    path: Vec<String>,
}

impl Dfs {
    /// The direct-contribution relation that the traversal reads.
    pub closed spec fn mono(self) -> Set<(Symbol, Symbol)> {
        self.mono@
    }

    /// The containment relation that the traversal walks.
    pub closed spec fn con(self) -> Set<(Symbol, Symbol)> {
        self.con@
    }

    /// The traversal invariant on the fields, with `acc` the collected
    /// terminals.
    spec fn inv(self, root: Symbol, acc: Seq<Symbol>) -> bool {
        traversal_ok(
            self.mono@,
            self.con.entries(),
            self.visited.deep_view(),
            self.path.deep_view(),
            acc,
            root,
        )
    }

    /// Sets up a traversal over `mono` and `con` with nothing visited.
    pub fn new(mono: Relation, con: Relation) -> (d: Dfs)
        ensures
            d.mono() == mono@,
            d.con() == con@,
    {
        Dfs { mono, con, visited: Vec::new(), path: Vec::new() }
    }

    /// Computes the closure for every non-terminal: the result relates `x` to
    /// `t` exactly when `mono` gives `t` to some `y` reachable from `x`.
    pub fn dfs(&mut self) -> (vt: Relation)
        ensures
            vt@ == vt_closure(old(self).mono(), old(self).con()),
            final(self).mono() == old(self).mono(),
            final(self).con() == old(self).con(),
    {
        let mut vt = Relation::new();
        let mut roots: Vec<String> = Vec::new();
        assert(roots.deep_view() =~= Seq::<Symbol>::empty());
        self.mono.add_sources(&mut roots);
        self.con.add_sources(&mut roots);
        let ghost closure = vt_closure(self.mono@, self.con@);
        let n: usize = roots.len();
        let mut k: usize = 0;
        while k < n
            invariant
                n == roots.len(),
                k <= n,
                self.mono == old(self).mono,
                self.con == old(self).con,
                closure == vt_closure(self.mono@, self.con@),
                forall|p: (Symbol, Symbol)|
                    #![trigger vt@.contains(p)]
                    #![trigger closure.contains(p)]
                    vt@.contains(p) <==> closure.contains(p) && among_first(
                        roots.deep_view(),
                        k as int,
                        p.0,
                    ),
            decreases n - k,
        {
            let ghost root = roots.deep_view()[k as int];
            let ghost before = vt@;
            let map = self.collect(&roots[k]);
            vt.insert_all(&roots[k], &map);
            assert(roots[k as int]@ == root);
            assert forall|p: (Symbol, Symbol)|
                vt@.contains(p) <==> closure.contains(p) && among_first(
                    roots.deep_view(),
                    k + 1,
                    p.0,
                ) by {
                let t = p.1;
                assert(p == (p.0, t));
                assert(map.deep_view().contains(t) <==> closure.contains((root, t)));
                assert(vt@.contains(p) <==> before.contains(p) || (p.0 == root
                    && map.deep_view().contains(t)));
                assert(before.contains(p) <==> closure.contains(p) && among_first(
                    roots.deep_view(),
                    k as int,
                    p.0,
                ));
                if p.0 == root {
                    assert(roots.deep_view()[k as int] == p.0);
                    assert(among_first(roots.deep_view(), k + 1, p.0));
                }
                if among_first(roots.deep_view(), k + 1, p.0) && p.0 != root {
                    assert(among_first(roots.deep_view(), k as int, p.0));
                }
                if among_first(roots.deep_view(), k as int, p.0) {
                    assert(among_first(roots.deep_view(), k + 1, p.0));
                }
            }
            k = k + 1;
        }
        proof {
            assert forall|p: (Symbol, Symbol)| closure.contains(p) implies vt@.contains(p) by {
                assert(p == (p.0, p.1));
                lemma_closure_has_source(self.mono.entries(), self.con.entries(), p.0, p.1);
                assert(roots.deep_view().contains(p.0));
            }
            assert(vt@ =~= closure);
        }
        vt
    }

    /// Runs one traversal from `root` and returns the terminals of the
    /// closure at `root`, each once.
    fn collect(&mut self, root: &String) -> (map: Vec<String>)
        ensures
            final(self).mono == old(self).mono,
            final(self).con == old(self).con,
            map.deep_view().no_duplicates(),
            forall|t: Symbol|
                map.deep_view().contains(t) <==> vt_closure(
                    old(self).mono@,
                    old(self).con@,
                ).contains((root@, t)),
    {
        self.visited = Vec::new();
        self.path = Vec::new();
        let mut map: Vec<String> = Vec::new();
        proof {
            assert(self.visited.deep_view() =~= Seq::<Symbol>::empty());
            assert(self.path.deep_view() =~= Seq::<Symbol>::empty());
            assert(map.deep_view() =~= Seq::<Symbol>::empty());
            lemma_reaches_self(self.con@, root@);
        }
        self.dfs_map(root.clone(), &mut map, Ghost(root@));
        proof {
            lemma_traversal_done(
                self.mono@,
                self.con.entries(),
                self.visited.deep_view(),
                map.deep_view(),
                root@,
            );
        }
        map
    }

    /// Visits `node` and, through it, every node that can be reached from it
    /// and was not visited before; the direct terminals of each newly visited
    /// node join `map`.
    fn dfs_map(&mut self, node: String, map: &mut Vec<String>, Ghost(root): Ghost<Symbol>)
        requires
            old(self).inv(root, old(map).deep_view()),
            reaches(old(self).con@, root, node@),
            node@ == root || is_target(old(self).con.entries(), node@),
        ensures
            final(self).inv(root, final(map).deep_view()),
            final(self).mono == old(self).mono,
            final(self).con == old(self).con,
            final(self).path.deep_view() == old(self).path.deep_view(),
            final(self).visited.deep_view().contains(node@),
            final(self).visited.deep_view().len() >= old(self).visited.deep_view().len(),
            forall|x: Symbol|
                old(self).visited.deep_view().contains(x) ==> final(self).visited.deep_view().contains(
                    x,
                ),
        decreases old(self).con.entries().len() + 1 - old(self).visited.deep_view().len(),
    {
        if contains_symbol(&self.visited, &node) {
            return ;
        }
        let ghost visited0 = self.visited.deep_view();
        let ghost path0 = self.path.deep_view();
        let ghost acc0 = map.deep_view();
        let direct = self.mono.image(&node);
        insert_symbols(map, &direct);
        self.visited.push(node.clone());
        self.path.push(node.clone());
        proof {
            assert(self.visited.deep_view() =~= visited0.push(node@));
            assert(self.path.deep_view() =~= path0.push(node@));
            assert forall|t: Symbol|
                map.deep_view().contains(t) <==> acc0.contains(t) || self.mono@.contains(
                    (node@, t),
                ) by {
                assert(direct.deep_view().contains(t) <==> self.mono@.contains((node@, t)));
            }
            lemma_traversal_enter(
                self.mono@,
                self.con.entries(),
                visited0,
                path0,
                acc0,
                root,
                node@,
                map.deep_view(),
            );
            assert(self.visited.deep_view()[visited0.len() as int] == node@);
            assert forall|x: Symbol| visited0.contains(x) implies self.visited.deep_view().contains(
                x,
            ) by {
                crate::symbol::lemma_push_contains(visited0, node@, x);
            }
        }
        let n: usize = self.con.len();
        let mut k: usize = 0;
        while k < n
            invariant
                n == self.con.entries().len(),
                k <= n,
                self.mono == old(self).mono,
                self.con == old(self).con,
                self.inv(root, map.deep_view()),
                self.path.deep_view() == path0.push(node@),
                visited0 == old(self).visited.deep_view(),
                self.visited.deep_view().contains(node@),
                self.visited.deep_view().len() > visited0.len(),
                reaches(self.con@, root, node@),
                forall|x: Symbol| visited0.contains(x) ==> self.visited.deep_view().contains(x),
                forall|j: int|
                    0 <= j < k && (#[trigger] self.con.entries()[j]).0 == node@
                        ==> self.visited.deep_view().contains(self.con.entries()[j].1),
            decreases n - k,
        {
            if *self.con.left(k) == node {
                let child = self.con.right(k).clone();
                proof {
                    let edge = self.con.entries()[k as int];
                    assert(self.con@.contains(edge));
                    assert(edge == (node@, child@));
                    assert(is_target(self.con.entries(), child@));
                    lemma_reaches_step(self.con@, root, node@, child@);
                    lemma_traversal_bound(
                        self.mono@,
                        self.con.entries(),
                        self.visited.deep_view(),
                        self.path.deep_view(),
                        map.deep_view(),
                        root,
                    );
                }
                self.dfs_map(child, map, Ghost(root));
            }
            k = k + 1;
        }
        let ghost full = self.path@;
        self.path.pop();
        proof {
            assert forall|i: int| 0 <= i < path0.len() implies self.path.deep_view()[i]
                == path0[i] by {
                assert(self.path@[i] == full[i]);
                assert(path0.push(node@)[i] == full[i]@);
            }
            assert(self.path.deep_view() =~= path0);
            lemma_traversal_leave(
                self.mono@,
                self.con.entries(),
                self.visited.deep_view(),
                path0,
                map.deep_view(),
                root,
                node@,
            );
        }
    }
}

/// Computes FIRSTVT or LASTVT from its direct relations: the result relates a
/// non-terminal `x` to a terminal `t` exactly when `mono` gives `t` to some
/// non-terminal reachable from `x` through `con`.
pub fn compose_elements(mono: &Relation, con: &Relation) -> (vt: Relation)
    ensures
        vt@ == vt_closure(mono@, con@),
{
    let mut dfs_div = Dfs::new(mono.clone(), con.clone());
    dfs_div.dfs()
}

} // verus!
