//! The graph of placements: its edges link every board that can be built from the
//! empty board, one unattacked queen at a time, to the boards one queen further,
//! in both directions.

use crate::board::{attacks, Board, LIMIT, SQUARES};
use std::collections::BTreeSet;
use vstd::prelude::*;

verus! {

/// A step from one board to another. Edges compare by `from`, then by `to`.
#[derive(Debug, Copy, Clone, Eq, PartialEq, Structural, Ord, PartialOrd)]
pub struct Edge {
    pub from: Board,
    pub to: Board,
}

/// Board `b` is board `a` with one more queen, on the free square `pos`, where no
/// queen of `a` attacks it.
pub open spec fn places(a: Board, b: Board, pos: u64) -> bool {
    pos < SQUARES && !a.has_queen(pos) && b == a.with_queen(pos) && !b.sees(pos)
}

/// Board `b` is board `a` with one more queen, which no queen of `a` attacks.
pub open spec fn placement(a: Board, b: Board) -> bool {
    exists|pos: u64| #[trigger] places(a, b, pos)
}

/// Board `b` results from board `a` by `n` placements.
pub open spec fn grows_in(a: Board, b: Board, n: nat) -> bool
    decreases n,
{
    if n == 0 {
        a == b
    } else {
        exists|c: Board| #[trigger] placement(a, c) && grows_in(c, b, (n - 1) as nat)
    }
}

/// Board `b` results from board `a` by some number of placements.
pub open spec fn grows(a: Board, b: Board) -> bool {
    exists|n: nat| #[trigger] grows_in(a, b, n)
}

/// Edge `e` links a board with fewer than six queens that results from `root` to
/// a board one placement further, in one direction or the other.
pub open spec fn links(root: Board, e: Edge) -> bool {
    ||| grows(root, e.from) && e.from.queens() < 6 && placement(e.from, e.to)
    ||| grows(root, e.to) && e.to.queens() < 6 && placement(e.to, e.from)
}

/// The edges among the boards that result from `root`.
pub open spec fn edges_below(root: Board) -> Set<Edge> {
    Set::new(|e: Edge| links(root, e))
}

/// The edges of the whole graph: those among the boards that result from the empty board.
pub open spec fn all_edges() -> Set<Edge> {
    edges_below(Board::of(0))
}

/// A board of the graph: one that results from the empty board, with six queens at most.
pub open spec fn vertex(b: Board) -> bool {
    grows(Board::of(0), b) && b.queens() <= 6
}

/// Whether the edge from `from` to `to` is in the graph.
pub open spec fn linked(from: Board, to: Board) -> bool {
    all_edges().contains(Edge { from, to })
}

/// Edge `e` is one of those that the placement on square `pos` of `parent` brings:
/// the two between `parent` and the new board, and those below the new board.
pub open spec fn via(parent: Board, pos: u64, e: Edge) -> bool {
    let child = parent.with_queen(pos);
    places(parent, child, pos) && (e == (Edge { from: parent, to: child }) || e == (Edge {
        from: child,
        to: parent,
    }) || links(child, e))
}

/// The edges that the placements on the squares below `n` of `parent` bring.
pub open spec fn edges_via(parent: Board, n: u64) -> Set<Edge> {
    Set::new(|e: Edge| exists|pos: u64| pos < n && #[trigger] via(parent, pos, e))
}

/// Pairs are ordered by their first part, then by their second.
pub open spec fn before(a: (u64, u64), b: (u64, u64)) -> bool {
    a.0 < b.0 || (a.0 == b.0 && a.1 < b.1)
}

/// Calls `BTreeSet::range` with the half-open range from `lo` to `hi` and collects
/// what it yields: the pairs of the set from `lo` on and before `hi`, in ascending
/// order. The call panics where `hi` comes before `lo`.
#[verifier::external_body]
fn pairs_between(
    set: &BTreeSet<(u64, u64)>,
    lo: (u64, u64),
    hi: (u64, u64),
) -> (out: Vec<(u64, u64)>)
    requires
        !before(hi, lo),
    ensures
        (forall|i: int, j: int| 0 <= i < j < out@.len() ==> before(out@[i], out@[j])),
        (forall|t: (u64, u64)|
            #[trigger] out@.contains(t) == (set@.contains(t) && !before(t, lo) && before(t, hi))),
{
    set.range(lo..hi).copied().collect()
}

/// The edges of the graph, each as the bit patterns of its two boards.
#[derive(Debug)]
pub struct Graph(BTreeSet<(u64, u64)>);

impl View for Graph {
    type V = Set<Edge>;

    closed spec fn view(&self) -> Set<Edge> {
        Set::new(|e: Edge| self.0@.contains((e.from@, e.to@)))
    }
}

impl Graph {
    /// Every board of every edge fits in 36 bits.
    pub closed spec fn inv(&self) -> bool {
        forall|t: (u64, u64)| #[trigger] self.0@.contains(t) ==> t.0 < LIMIT && t.1 < LIMIT
    }

    /// The graph holds the edges of the whole graph and no others.
    pub open spec fn wf(&self) -> bool {
        self.inv() && self@ == all_edges()
    }

    /// The whole graph, built from the empty board by trying every placement on
    /// every board that comes up.
    pub fn valid_boards_from_empty() -> (graph: Graph)
        ensures
            graph.wf(),
    {
        let mut graph = Graph(BTreeSet::new());
        assert(graph@ =~= Set::<Edge>::empty());
        graph.insert_valid_boards(Board::empty());
        assert(graph@ =~= all_edges());
        graph
    }

    /// Inserts one edge.
    fn insert(&mut self, from: Board, to: Board)
        requires
            old(self).inv(),
            from.wf(),
            to.wf(),
        ensures
            final(self).inv(),
            final(self)@ == old(self)@.insert(Edge { from, to }),
    {
        self.0.insert((from.raw(), to.raw()));
        proof {
            let e0 = Edge { from, to };
            assert forall|e: Edge| self@.contains(e) == old(self)@.insert(e0).contains(e) by {
                e.from.lemma_of_view();
                e.to.lemma_of_view();
                from.lemma_of_view();
                to.lemma_of_view();
            }
            assert(self@ =~= old(self)@.insert(e0));
        }
    }

    /// Adds the edges among the boards that result from `parent`.
    fn insert_valid_boards(&mut self, parent: Board)
        requires
            old(self).inv(),
            parent.wf(),
        ensures
            final(self).inv(),
            final(self)@ == old(self)@.union(edges_below(parent)),
        decreases 36 - parent.queens(),
    {
        let ghost before = self@;
        if parent.count_queens() < 6 {
            let mut n: u64 = 0;
            assert(self@ =~= before.union(edges_via(parent, 0)));
            while n < 36
                invariant
                    n <= 36,
                    parent.wf(),
                    parent.queens() < 6,
                    self.inv(),
                    self@ == before.union(edges_via(parent, n)),
                decreases 36 - n,
            {
                let ghost mid = self@;
                if !parent.has_queen_at(n) {
                    let b = parent.place_queen(n);
                    if !b.has_vision(n) {
                        self.insert(parent, b);
                        self.insert(b, parent);
                        self.insert_valid_boards(b);
                        assert(places(parent, b, n));
                    }
                }
                proof {
                    let now = self@;
                    assert forall|e: Edge|
                        now.contains(e) == before.union(edges_via(parent, (n + 1) as u64)).contains(
                            e,
                        ) by {
                        if before.union(edges_via(parent, (n + 1) as u64)).contains(e)
                            && !before.contains(e) {
                            let pos = choose|pos: u64| pos < n + 1 && #[trigger] via(parent, pos, e);
                            if pos < n {
                                assert(edges_via(parent, n).contains(e));
                            }
                        }
                        if now.contains(e) && !mid.contains(e) {
                            assert(via(parent, n, e));
                        }
                        if mid.contains(e) && !before.contains(e) {
                            let pos = choose|pos: u64| pos < n && #[trigger] via(parent, pos, e);
                            assert(via(parent, pos, e));
                        }
                    }
                    assert(now =~= before.union(edges_via(parent, (n + 1) as u64)));
                }
                n += 1;
            }
            proof {
                lemma_edges_via_all(parent);
            }
        } else {
            proof {
                lemma_edges_below_full(parent);
                assert(self@ =~= before.union(edges_below(parent)));
            }
        }
    }

    /// The boards one edge away from `from`, in ascending order of their bit patterns.
    pub fn reachable_from(&self, from: Board) -> (out: Vec<Board>)
        requires
            self.inv(),
            from.wf(),
        ensures
            forall|i: int, j: int| 0 <= i < j < out@.len() ==> out@[i]@ < out@[j]@,
            forall|b: Board| out@.contains(b) <==> self@.contains(Edge { from, to: b }),
            forall|i: int| 0 <= i < out@.len() ==> (#[trigger] out@[i]).wf(),
    {
        let lo = (from.raw(), 0u64);
        let hi = (from.raw() + 1, 0u64);
        let found = pairs_between(&self.0, lo, hi);
        let mut out: Vec<Board> = Vec::new();
        let mut i: usize = 0;
        while i < found.len()
            invariant
                i <= found@.len(),
                out@.len() == i,
                self.inv(),
                forall|t: (u64, u64)| #[trigger] found@.contains(t) ==> self.0@.contains(t),
                forall|k: int|
                    0 <= k < i ==> (#[trigger] out@[k])@ == found@[k].1 && out@[k].wf(),
            decreases found@.len() - i,
        {
            let t = found[i];
            assert(found@.contains(t));
            assert(self.0@.contains(t));
            out.push(Board::new(t.1));
            i += 1;
        }
        proof {
            assert forall|b: Board| out@.contains(b) implies self@.contains(
                Edge { from, to: b },
            ) by {
                let k = choose|k: int| 0 <= k < out@.len() && out@[k] == b;
                assert(found@.contains(found@[k]));
            }
            assert forall|b: Board| self@.contains(Edge { from, to: b }) implies out@.contains(
                b,
            ) by {
                let t = (from@, b@);
                assert(found@.contains(t));
                let k = choose|k: int| 0 <= k < found@.len() && found@[k] == t;
                out@[k].lemma_of_view();
                b.lemma_of_view();
                assert(out@[k] == b);
            }
            assert forall|k: int, j: int| 0 <= k < j < out@.len() implies out@[k]@ < out@[j]@ by {
                assert(found@.contains(found@[k]));
                assert(found@.contains(found@[j]));
                assert(before(found@[k], found@[j]));
            }
        }
        out
    }
}

/// A chain of placements goes on by one placement at its end.
pub proof fn lemma_grows_more(a: Board, b: Board, c: Board, n: nat)
    requires
        grows_in(a, b, n),
        placement(b, c),
    ensures
        grows_in(a, c, n + 1),
    decreases n,
{
    if n == 0 {
        assert(grows_in(c, c, 0));
    } else {
        let d = choose|d: Board| #[trigger] placement(a, d) && grows_in(d, b, (n - 1) as nat);
        lemma_grows_more(d, b, c, (n - 1) as nat);
    }
}

/// Each placement adds one queen, keeps the board within its 36 squares and
/// leaves the queens at peace if they were.
pub proof fn lemma_placement(a: Board, b: Board)
    requires
        placement(a, b),
    ensures
        b.queens() == a.queens() + 1,
        a.wf() ==> b.wf(),
        a.peaceful() ==> b.peaceful(),
        a != b,
{
    let pos = choose|pos: u64| #[trigger] places(a, b, pos);
    a.lemma_with_queen(pos);
    if a.peaceful() {
        assert forall|p: u64, q: u64|
            p < SQUARES && q < SQUARES && #[trigger] b.has_queen(p) && #[trigger] b.has_queen(
                q,
            ) implies !attacks(p, q) by {
            if p == pos && q != pos {
                assert(!attacks(pos, q));
            } else if q == pos && p != pos {
                assert(!attacks(pos, p));
            } else if p != pos && q != pos {
                assert(a.has_queen(p) && a.has_queen(q));
            }
        }
    }
}

/// A board that results from another by `n` placements has `n` queens more.
pub proof fn lemma_grows_in(a: Board, b: Board, n: nat)
    requires
        grows_in(a, b, n),
    ensures
        b.queens() == a.queens() + n,
        a.wf() ==> b.wf(),
        a.peaceful() ==> b.peaceful(),
    decreases n,
{
    if n > 0 {
        let c = choose|c: Board| #[trigger] placement(a, c) && grows_in(c, b, (n - 1) as nat);
        lemma_placement(a, c);
        lemma_grows_in(c, b, (n - 1) as nat);
    }
}

/// What results from the empty board fits in 36 bits, and its queens are at peace.
pub proof fn lemma_vertex(b: Board)
    requires
        grows(Board::of(0), b),
    ensures
        b.wf(),
        b.peaceful(),
{
    let n = choose|n: nat| #[trigger] grows_in(Board::of(0), b, n);
    Board::lemma_empty();
    lemma_grows_in(Board::of(0), b, n);
}

/// An edge of the graph joins two boards of the graph, one of which results from
/// the other by a placement, and comes with its reverse.
pub proof fn lemma_edge(a: Board, b: Board)
    requires
        linked(a, b),
    ensures
        vertex(a),
        vertex(b),
        linked(b, a),
        a != b,
        a.queens() < 6 && placement(a, b) || b.queens() < 6 && placement(b, a),
        a.queens() == b.queens() + 1 || b.queens() == a.queens() + 1,
{
    let e = Edge { from: a, to: b };
    let r = Edge { from: b, to: a };
    assert(links(Board::of(0), e));
    assert(links(Board::of(0), r));
    if grows(Board::of(0), a) && a.queens() < 6 && placement(a, b) {
        let n = choose|n: nat| #[trigger] grows_in(Board::of(0), a, n);
        lemma_grows_more(Board::of(0), a, b, n);
        lemma_placement(a, b);
    } else {
        let n = choose|n: nat| #[trigger] grows_in(Board::of(0), b, n);
        lemma_grows_more(Board::of(0), b, a, n);
        lemma_placement(b, a);
    }
}

/// Nothing lies below a board with six queens or more.
proof fn lemma_edges_below_full(parent: Board)
    requires
        parent.queens() >= 6,
    ensures
        edges_below(parent) =~= Set::<Edge>::empty(),
{
    assert forall|e: Edge| !links(parent, e) by {
        if grows(parent, e.from) {
            let n = choose|n: nat| #[trigger] grows_in(parent, e.from, n);
            lemma_grows_in(parent, e.from, n);
        }
        if grows(parent, e.to) {
            let n = choose|n: nat| #[trigger] grows_in(parent, e.to, n);
            lemma_grows_in(parent, e.to, n);
        }
    }
}

/// What results from a board results from it directly or from one of the boards
/// one placement further.
proof fn lemma_grows_split(parent: Board, b: Board)
    requires
        grows(parent, b),
    ensures
        b == parent || exists|pos: u64|
            #![trigger parent.with_queen(pos)]
            places(parent, parent.with_queen(pos), pos) && grows(parent.with_queen(pos), b),
{
    let n = choose|n: nat| #[trigger] grows_in(parent, b, n);
    if n > 0 {
        let c = choose|c: Board| #[trigger] placement(parent, c) && grows_in(c, b, (n - 1) as nat);
        let pos = choose|pos: u64| #[trigger] places(parent, c, pos);
        assert(places(parent, parent.with_queen(pos), pos) && grows(parent.with_queen(pos), b));
    }
}

/// What results from a board one placement further results from the board itself.
proof fn lemma_grows_join(parent: Board, c: Board, b: Board)
    requires
        placement(parent, c),
        grows(c, b),
    ensures
        grows(parent, b),
{
    let n = choose|n: nat| #[trigger] grows_in(c, b, n);
    assert(grows_in(parent, b, n + 1));
}

/// The placements on all squares of a board with fewer than six queens bring the
/// edges below that board.
proof fn lemma_edges_via_all(parent: Board)
    requires
        parent.queens() < 6,
    ensures
        edges_via(parent, 36) =~= edges_below(parent),
{
    assert(grows_in(parent, parent, 0));
    assert forall|e: Edge| edges_via(parent, 36).contains(e) implies links(parent, e) by {
        let pos = choose|pos: u64| pos < 36 && #[trigger] via(parent, pos, e);
        let child = parent.with_queen(pos);
        assert(placement(parent, child));
        if links(child, e) {
            if grows(child, e.from) && e.from.queens() < 6 && placement(e.from, e.to) {
                lemma_grows_join(parent, child, e.from);
            } else {
                lemma_grows_join(parent, child, e.to);
            }
        }
    }
    assert forall|e: Edge| links(parent, e) implies edges_via(parent, 36).contains(e) by {
        if grows(parent, e.from) && e.from.queens() < 6 && placement(e.from, e.to) {
            lemma_grows_split(parent, e.from);
            if e.from == parent {
                let pos = choose|pos: u64| #[trigger] places(parent, e.to, pos);
                assert(via(parent, pos, e));
            } else {
                let pos = choose|pos: u64|
                    #![trigger parent.with_queen(pos)]
                    places(parent, parent.with_queen(pos), pos) && grows(
                        parent.with_queen(pos),
                        e.from,
                    );
                assert(via(parent, pos, e));
            }
        } else {
            lemma_grows_split(parent, e.to);
            if e.to == parent {
                let pos = choose|pos: u64| #[trigger] places(parent, e.from, pos);
                assert(via(parent, pos, e));
            } else {
                let pos = choose|pos: u64|
                    #![trigger parent.with_queen(pos)]
                    places(parent, parent.with_queen(pos), pos) && grows(
                        parent.with_queen(pos),
                        e.to,
                    );
                assert(via(parent, pos, e));
            }
        }
    }
}

/// A queen on a free square that no queen attacks is a placement.
proof fn lemma_put(a: Board, pos: u64) -> (b: Board)
    requires
        pos < 36,
        !a.has_queen(pos),
        forall|q: u64| q < 36 && #[trigger] a.has_queen(q) ==> !attacks(pos, q),
    ensures
        b == a.with_queen(pos),
        placement(a, b),
        forall|q: u64| q < 64 ==> (#[trigger] b.has_queen(q) <==> q == pos || a.has_queen(q)),
{
    let b = a.with_queen(pos);
    a.lemma_with_queen(pos);
    assert(places(a, b, pos));
    b
}

/// Six queens at peace: the squares of one full board, and the boards on the way to it.
pub proof fn lemma_solution() -> (s: Board)
    ensures
        grows_in(Board::of(0), s, 6),
        s.queens() == 6,
{
    Board::lemma_empty();
    let b0 = Board::of(0);
    let b1 = lemma_put(b0, 1);
    let b2 = lemma_put(b1, 9);
    let b3 = lemma_put(b2, 17);
    let b4 = lemma_put(b3, 18);
    let b5 = lemma_put(b4, 26);
    let b6 = lemma_put(b5, 34);
    assert(grows_in(b6, b6, 0));
    assert(grows_in(b5, b6, 1));
    assert(grows_in(b4, b6, 2));
    assert(grows_in(b3, b6, 3));
    assert(grows_in(b2, b6, 4));
    assert(grows_in(b1, b6, 5));
    assert(grows_in(b0, b6, 6));
    lemma_grows_in(b0, b6, 6);
    b6
}

} // verus!
