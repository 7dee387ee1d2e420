//! What holds of the graph and of the search as wholes.

use crate::board::Board;
use crate::graph::{
    grows, grows_in, lemma_edge, lemma_grows_in, lemma_grows_more, lemma_vertex, linked, links,
    placement, Edge, Graph,
};
use crate::search::{Node, StepView, STEP_COST};
use vstd::prelude::*;

verus! {

/// On no board of the graph does a queen attack another.
pub proof fn law_no_self_attack(graph: Graph, e: Edge)
    requires
        graph.wf(),
        graph@.contains(e),
    ensures
        e.from.peaceful(),
        e.to.peaceful(),
{
    lemma_edge(e.from, e.to);
    lemma_vertex(e.from);
    lemma_vertex(e.to);
}

/// Every edge of the graph comes with its reverse.
pub proof fn law_edge_symmetry(graph: Graph, e: Edge)
    requires
        graph.wf(),
        graph@.contains(e),
    ensures
        graph@.contains(Edge { from: e.to, to: e.from }),
{
    lemma_edge(e.from, e.to);
}

/// The two boards of an edge differ by one queen.
pub proof fn law_queen_count(graph: Graph, e: Edge)
    requires
        graph.wf(),
        graph@.contains(e),
    ensures
        e.from.queens() == e.to.queens() + 1 || e.to.queens() == e.from.queens() + 1,
        e.from.queens() <= 6,
        e.to.queens() <= 6,
{
    lemma_edge(e.from, e.to);
}

/// The boards of `path` are joined by edges of the graph, each to the next.
pub open spec fn walks(graph: Graph, path: Seq<Board>) -> bool {
    forall|i: int|
        0 < i < path.len() ==> graph@.contains(Edge { from: path[i - 1], to: #[trigger] path[i] })
}

/// Every board of the graph is at the end of a path of edges from the empty
/// board, with one edge for each of its queens.
pub proof fn law_reachability(graph: Graph, e: Edge) -> (path: Seq<Board>)
    requires
        graph.wf(),
        graph@.contains(e),
    ensures
        path.len() == e.from.queens() + 1,
        path[0] == Board::of(0),
        path.last() == e.from,
        walks(graph, path),
{
    lemma_edge(e.from, e.to);
    let n = choose|n: nat| #[trigger] grows_in(Board::of(0), e.from, n);
    Board::lemma_empty();
    lemma_grows_in(Board::of(0), e.from, n);
    assert(grows_in(Board::of(0), Board::of(0), 0));
    lemma_path(Board::of(0), e.from, n)
}

/// A chain of placements from a board of the graph is a path of edges.
proof fn lemma_path(a: Board, b: Board, n: nat) -> (path: Seq<Board>)
    requires
        grows(Board::of(0), a),
        grows_in(a, b, n),
        b.queens() <= 6,
    ensures
        path.len() == n + 1,
        path[0] == a,
        path.last() == b,
        forall|i: int| 0 < i < path.len() ==> linked(path[i - 1], #[trigger] path[i]),
    decreases n,
{
    if n == 0 {
        seq![a]
    } else {
        let c = choose|c: Board| #[trigger] placement(a, c) && grows_in(c, b, (n - 1) as nat);
        lemma_grows_in(a, b, n);
        let m = choose|m: nat| #[trigger] grows_in(Board::of(0), a, m);
        lemma_grows_more(Board::of(0), a, c, m);
        assert(links(Board::of(0), Edge { from: a, to: c }));
        let rest = lemma_path(c, b, (n - 1) as nat);
        let path = seq![a] + rest;
        assert forall|i: int| 0 < i < path.len() implies linked(path[i - 1], #[trigger] path[i]) by {
            if i > 1 {
                assert(path[i] == rest[i - 1]);
                assert(path[i - 1] == rest[i - 2]);
                assert(linked(rest[i - 2], rest[i - 1]));
            }
        }
        path
    }
}

/// The node that a step expands is the first that waits, and none of the
/// others that wait has a lower estimate.
pub proof fn law_least_first(step: StepView, k: int)
    requires
        step.inv(),
        step.unfinished(),
        0 <= k < step.open.len(),
    ensures
        step.advance().current == step.open[0].board,
        step.open[0].spec_f() <= step.open[k].spec_f(),
{
}

/// The search ends: some number of steps after any of its steps comes one whose
/// current board has six queens, and it is the first such step.
pub proof fn law_search_ends(step: StepView) -> (n: nat)
    requires
        step.inv(),
    ensures
        step.ends(step.after(n), n),
        step.after(n).current.queens() == 6,
    decreases step.remaining(),
{
    step.frontier().lemma_known(step.current);
    if step.unfinished() {
        step.lemma_advance();
        let next = step.advance();
        let m = law_search_ends(next);
        step.lemma_after(m);
        assert forall|k: nat| k < m + 1 implies (#[trigger] step.after(k)).unfinished() by {
            if k > 0 {
                step.lemma_after((k - 1) as nat);
                assert(next.after((k - 1) as nat).unfinished());
            }
        }
        m + 1
    } else {
        0
    }
}

/// The search from the first step ends on a board with six queens.
pub proof fn law_search_succeeds() -> (n: nat)
    ensures
        StepView::first().ends(StepView::first().after(n), n),
        StepView::first().after(n).current.queens() == 6,
{
    StepView::lemma_first();
    law_search_ends(StepView::first())
}

/// Along the boards that lead to a board, every board costs one step more than
/// the one before at least, and has one queen more at most.
proof fn lemma_trail(step: StepView, to: Board, path: Seq<Board>, k: int)
    requires
        step.inv(),
        step.frontier().trail(to, path),
        0 <= k < path.len(),
    ensures
        path[0] == Board::of(0),
        STEP_COST * k <= step.frontier().node(path[k]).g,
        path[k].queens() <= k,
        k > 0 ==> linked(path[k - 1], path[k]),
    decreases k,
{
    let f = step.frontier();
    let n = f.node(path[k]);
    f.lemma_known(path[k]);
    assert(f.sound(n));
    Board::lemma_empty();
    if k > 0 {
        lemma_trail(step, to, path, k - 1);
        let p = path[k - 1];
        f.lemma_known(p);
        let m = choose|m: Node| #[trigger] f.holds(m) && m.board == p && m.g + STEP_COST <= n.g;
        f.lemma_one_node(m, f.node(p));
        lemma_edge(p, path[k]);
    }
}

/// The boards that lead to a board lead to it from the empty board over edges
/// of the graph, with one edge for each of its queens at least and one for each
/// step of its cost at most: with one for each of its queens, then, where its
/// cost is that of as many steps.
pub proof fn law_traceback(step: StepView, to: Board, path: Seq<Board>)
    requires
        step.inv(),
        step.frontier().trail(to, path),
    ensures
        path[0] == Board::of(0),
        path.last() == to,
        forall|i: int| 0 < i < path.len() ==> linked(path[i - 1], #[trigger] path[i]),
        1 + to.queens() <= path.len(),
        STEP_COST * (path.len() - 1) <= step.frontier().node(to).g,
        step.frontier().node(to).g == STEP_COST * to.queens() ==> path.len() == 1 + to.queens(),
{
    lemma_trail(step, to, path, path.len() - 1);
    assert forall|i: int| 0 < i < path.len() implies linked(path[i - 1], #[trigger] path[i]) by {
        lemma_trail(step, to, path, i);
    }
}

} // verus!
