//! What holds of every step of the search, and why a step keeps it.

use crate::board::{lemma_calm_empty, Board};
use crate::census::lemma_census;
use crate::graph::{
    grows_in, lemma_edge, lemma_solution, lemma_vertex, linked, links, placement, vertex, Edge,
};
use crate::lists::{
    lemma_carries, lemma_find, lemma_place, lemma_push, lemma_push_contains, lemma_remove,
};
use crate::search::{
    adjacent, ascending, carries, find, heuristic, keys_apart, keys_distinct, place, usable,
    Frontier, Node, StepView, STEP_COST,
};
use vstd::prelude::*;

verus! {

/// No more boards than this have their queens at peace.
pub const BOARDS: u32 = 117_649;

impl Frontier {
    /// What holds of a node of the search: its board is one of the graph, its guess
    /// is that of its board, its cost is bounded by the number of nodes, and
    /// unless it is the node of the empty board it was reached over an edge from
    /// the board of a node that costs one step less at least.
    pub open spec fn sound(self, n: Node) -> bool {
        &&& vertex(n.board)
        &&& n.h == heuristic(n.board)
        &&& n.g + STEP_COST <= STEP_COST * self.count()
        &&& match n.parent {
            None => n.board == Board::of(0) && n.g == 0,
            Some(p) => n.board != Board::of(0) && linked(p, n.board) && exists|m: Node|
                #[trigger] self.holds(m) && m.board == p && m.g + STEP_COST <= n.g,
        }
    }

    /// `open` is in order, no board has two nodes, every node is sound and the
    /// empty board has a node.
    pub open spec fn tidy(self) -> bool {
        &&& ascending(self.open)
        &&& keys_distinct(self.open)
        &&& keys_distinct(self.closed)
        &&& keys_apart(self.open, self.closed)
        &&& forall|n: Node| #[trigger] self.holds(n) ==> self.sound(n)
        &&& self.knows(Board::of(0))
    }

    /// Every board one edge away from `b` has a node.
    pub open spec fn surrounds(self, b: Board) -> bool {
        forall|x: Board| #[trigger] linked(b, x) ==> self.knows(x)
    }

    /// What holds while node `curr` is expanded and the boards `done` next to its
    /// own have been dealt with.
    pub open spec fn expanding(self, curr: Node, done: Seq<Board>) -> bool {
        &&& self.tidy()
        &&& self.closed.contains(curr)
        &&& forall|n: Node| #[trigger]
            self.closed.contains(n) && n.board != curr.board ==> self.surrounds(n.board)
                && n.board.queens() < 6
        &&& forall|x: Board| #[trigger] done.contains(x) ==> self.knows(x)
    }
}

impl StepView {
    /// What holds of every step: the lists are tidy, the current board has a
    /// node, the boards around those of `closed` have nodes, and no board of
    /// `closed` but the current one has six queens.
    pub open spec fn inv(self) -> bool {
        &&& self.frontier().tidy()
        &&& self.frontier().knows(self.current)
        &&& forall|n: Node| #[trigger]
            self.closed.contains(n) ==> self.frontier().surrounds(n.board) && (n.board
                != self.current ==> n.board.queens() < 6)
    }
}

impl Frontier {
    /// The boards of the nodes, those of `open` first.
    pub open spec fn boards(self) -> Seq<Board> {
        Seq::new(self.count(), |i: int| (self.open + self.closed)[i].board)
    }

    /// Tidy lists have no more nodes than there are boards with queens at peace.
    pub proof fn lemma_count(self)
        requires
            self.tidy(),
        ensures
            self.count() <= BOARDS,
    {
        let all = self.open + self.closed;
        let s = self.boards();
        assert forall|i: int| 0 <= i < s.len() implies (#[trigger] s[i]).wf() && s[i].peaceful() by {
            let n = all[i];
            if i < self.open.len() {
                assert(self.open[i] == n);
                assert(self.open.contains(n));
            } else {
                assert(self.closed[i - self.open.len()] == n);
                assert(self.closed.contains(n));
            }
            assert(self.holds(n));
            assert(self.sound(n));
            lemma_vertex(n.board);
        }
        assert forall|i: int, j: int| 0 <= i < j < s.len() implies s[i] != s[j] by {
            if j < self.open.len() {
                assert(self.open[i].board != self.open[j].board);
            } else if i < self.open.len() {
                assert(self.open[i].board != self.closed[j - self.open.len()].board);
            } else {
                assert(self.closed[i - self.open.len()].board != self.closed[j
                    - self.open.len()].board);
            }
        }
        lemma_census(s);
    }

    /// Two nodes of tidy lists with one board are one node.
    pub proof fn lemma_one_node(self, m: Node, n: Node)
        requires
            self.tidy(),
            self.holds(m),
            self.holds(n),
            m.board == n.board,
        ensures
            m == n,
    {
        if self.open.contains(m) {
            let i = choose|i: int| 0 <= i < self.open.len() && self.open[i] == m;
            if self.open.contains(n) {
                let j = choose|j: int| 0 <= j < self.open.len() && self.open[j] == n;
                if i < j {
                    assert(self.open[i].board != self.open[j].board);
                } else if j < i {
                    assert(self.open[j].board != self.open[i].board);
                }
            } else {
                let j = choose|j: int| 0 <= j < self.closed.len() && self.closed[j] == n;
                assert(self.open[i].board != self.closed[j].board);
            }
        } else {
            let i = choose|i: int| 0 <= i < self.closed.len() && self.closed[i] == m;
            if self.open.contains(n) {
                let j = choose|j: int| 0 <= j < self.open.len() && self.open[j] == n;
                assert(self.open[j].board != self.closed[i].board);
            } else {
                let j = choose|j: int| 0 <= j < self.closed.len() && self.closed[j] == n;
                if i < j {
                    assert(self.closed[i].board != self.closed[j].board);
                } else if j < i {
                    assert(self.closed[j].board != self.closed[i].board);
                }
            }
        }
    }
}

/// The guess of a board with six queens at most lies between nothing and 216.
pub proof fn lemma_heuristic(b: Board)
    requires
        b.queens() <= 6,
    ensures
        0 <= heuristic(b) <= 216,
{
    b.lemma_calm_le(36);
    let p = b.spec_penalty() as int;
    let q = 6 - b.queens();
    assert(0 <= p * q <= 216) by (nonlinear_arith)
        requires
            0 <= p <= 36,
            0 <= q <= 6,
    ;
}

impl Frontier {
    /// Lists stay as they should be when the node of a board is taken out, if
    /// there is one, and a node of that board at a lower cost, reached from the
    /// node that is being expanded, is put into `open`.
    pub proof fn lemma_change(
        self,
        base: Frontier,
        fresh: Node,
        curr: Node,
        done: Seq<Board>,
        nb: Board,
    )
        requires
            self.expanding(curr, done),
            linked(curr.board, nb),
            nb != Board::of(0),
            ascending(base.open),
            keys_distinct(base.open),
            keys_distinct(base.closed),
            keys_apart(base.open, base.closed),
            forall|n: Node| #[trigger] base.open.contains(n) ==> self.open.contains(n),
            forall|n: Node|
                #[trigger] base.closed.contains(n) <==> self.closed.contains(n) && n.board != nb,
            forall|n: Node| #[trigger] base.holds(n) <==> self.holds(n) && n.board != nb,
            forall|b: Board| #[trigger] base.knows(b) <==> self.knows(b) && b != nb,
            base.count() + 1 >= self.count(),
            fresh == (Node { board: nb, parent: Some(curr.board), g: fresh.g, h: fresh.h }),
            fresh.h == heuristic(nb),
            fresh.g == curr.g + STEP_COST,
            fresh.g + STEP_COST <= STEP_COST * (base.count() + 1),
            forall|m: Node| #[trigger] self.holds(m) && m.board == nb ==> fresh.g < m.g,
        ensures
            (Frontier { open: place(base.open, fresh), closed: base.closed }).expanding(
                curr,
                done.push(nb),
            ),
    {
        let g = Frontier { open: place(base.open, fresh), closed: base.closed };
        lemma_edge(curr.board, nb);
        lemma_place(base.open, fresh);
        lemma_push_contains(done, nb);
        assert(!carries(base.open, nb)) by {
            assert(!base.knows(nb));
        }
        assert forall|n: Node| #[trigger] g.holds(n) <==> base.holds(n) || n == fresh by {}
        assert forall|b: Board| #[trigger] g.knows(b) <==> self.knows(b) || b == nb by {
            assert(base.knows(b) <==> self.knows(b) && b != nb);
        }
        assert(self.holds(curr));
        assert(base.closed.contains(curr));
        assert(g.holds(curr));
        assert(g.holds(fresh));
        assert(keys_apart(g.open, g.closed)) by {
            assert forall|i: int, j: int|
                0 <= i < g.open.len() && 0 <= j < g.closed.len() implies (#[trigger] g.open[i]).board
                != (#[trigger] g.closed[j]).board by {
                let x = g.open[i].board;
                if x == g.closed[j].board {
                    assert(carries(g.open, x));
                    assert(carries(base.closed, x));
                    if x == nb {
                        assert(base.knows(nb));
                    } else {
                        assert(carries(base.open, x));
                        let i0 = choose|i0: int|
                            0 <= i0 < base.open.len() && (#[trigger] base.open[i0]).board == x;
                        assert(base.open[i0].board != base.closed[j].board);
                    }
                }
            }
        }
        assert forall|n: Node| #[trigger] g.holds(n) implies g.sound(n) by {
            if n == fresh {
                assert(g.holds(curr) && curr.board == curr.board && curr.g + STEP_COST <= n.g);
            } else {
                assert(base.holds(n));
                assert(self.holds(n) && n.board != nb);
                assert(self.sound(n));
                match n.parent {
                    None => {},
                    Some(p) => {
                        let m = choose|m: Node|
                            #[trigger] self.holds(m) && m.board == p && m.g + STEP_COST <= n.g;
                        if m.board == nb {
                            assert(g.holds(fresh) && fresh.board == p && fresh.g + STEP_COST
                                <= n.g);
                        } else {
                            assert(base.holds(m));
                            assert(g.holds(m) && m.board == p && m.g + STEP_COST <= n.g);
                        }
                    },
                }
            }
        }
        assert forall|n: Node| #[trigger]
            g.closed.contains(n) && n.board != curr.board implies g.surrounds(n.board)
            && n.board.queens() < 6 by {
            assert(self.closed.contains(n));
            assert(self.surrounds(n.board));
            assert forall|x: Board| #[trigger] linked(n.board, x) implies g.knows(x) by {
                assert(self.knows(x));
            }
        }
        assert forall|x: Board| #[trigger] done.push(nb).contains(x) implies g.knows(x) by {
            if x != nb {
                assert(done.contains(x));
                assert(self.knows(x));
            }
        }
    }

    /// Dealing with one more board next to that of the node that is being
    /// expanded keeps the lists as they should be.
    pub proof fn lemma_relax(self, curr: Node, done: Seq<Board>, nb: Board)
        requires
            self.expanding(curr, done),
            linked(curr.board, nb),
        ensures
            self.relax(curr, nb).expanding(curr, done.push(nb)),
            curr.g + STEP_COST <= u32::MAX,
    {
        self.lemma_count();
        assert(self.holds(curr));
        assert(self.sound(curr));
        let cost = (curr.g + STEP_COST) as u32;
        assert(cost == curr.g + STEP_COST);
        lemma_edge(curr.board, nb);
        lemma_heuristic(nb);
        lemma_push_contains(done, nb);
        if carries(self.open, nb) || carries(self.closed, nb) {
            let in_open = carries(self.open, nb);
            let list = if in_open {
                self.open
            } else {
                self.closed
            };
            let i = find(list, nb);
            lemma_find(list, nb);
            let known = list[i];
            assert(self.holds(known));
            assert(self.sound(known));
            if cost < known.g {
                let fresh = Node { board: nb, parent: Some(curr.board), g: cost, h: known.h };
                lemma_remove(list, i);
                let base = if in_open {
                    Frontier { open: self.open.remove(i), closed: self.closed }
                } else {
                    Frontier { open: self.open, closed: self.closed.remove(i) }
                };
                assert(nb != Board::of(0)) by {
                    if nb == Board::of(0) {
                        assert(known.parent is None);
                    }
                }
                assert forall|m: Node| #[trigger] self.holds(m) && m.board == nb implies fresh.g
                    < m.g by {
                    self.lemma_one_node(m, known);
                }
                assert forall|n: Node| #[trigger]
                    base.closed.contains(n) <==> self.closed.contains(n) && n.board != nb by {
                    if self.closed.contains(n) {
                        lemma_carries(self.closed, n);
                        if n.board == nb {
                            self.lemma_one_node(n, known);
                        }
                    }
                }
                assert forall|n: Node| #[trigger] base.open.contains(n) implies self.open.contains(
                    n,
                ) by {}
                assert forall|n: Node| #[trigger]
                    base.holds(n) <==> self.holds(n) && n.board != nb by {
                    if self.holds(n) && n.board == nb {
                        self.lemma_one_node(n, known);
                    }
                    if self.holds(n) && n.board != nb {
                        assert(n != known);
                    }
                }
                assert forall|b: Board| #[trigger]
                    base.knows(b) <==> self.knows(b) && b != nb by {
                    if in_open {
                        if carries(self.closed, nb) {
                            let j = find(self.closed, nb);
                            lemma_find(self.closed, nb);
                            assert(self.open[i].board != self.closed[j].board);
                        }
                    }
                }
                assert(keys_apart(base.open, base.closed)) by {
                    assert forall|a: int, b: int|
                        0 <= a < base.open.len() && 0 <= b < base.closed.len() implies (
                    #[trigger] base.open[a]).board != (#[trigger] base.closed[b]).board by {
                        let x = base.open[a].board;
                        if x == base.closed[b].board {
                            assert(carries(base.open, x));
                            assert(carries(base.closed, x));
                            assert(carries(self.open, x) && carries(self.closed, x));
                            lemma_find(self.open, x);
                            lemma_find(self.closed, x);
                            assert(self.open[find(self.open, x)].board != self.closed[find(
                                self.closed,
                                x,
                            )].board);
                        }
                    }
                }
                self.lemma_change(base, fresh, curr, done, nb);
            } else {
                assert(self.knows(nb));
            }
        } else {
            let fresh = Node {
                board: nb,
                parent: Some(curr.board),
                g: cost,
                h: heuristic(nb) as u32,
            };
            assert(nb != Board::of(0)) by {
                assert(self.knows(Board::of(0)));
            }
            assert forall|n: Node| #[trigger] self.holds(n) implies n.board != nb by {
                if self.open.contains(n) {
                    lemma_carries(self.open, n);
                } else {
                    lemma_carries(self.closed, n);
                }
            }
            self.lemma_change(self, fresh, curr, done, nb);
        }
    }
}

impl StepView {
    /// The first step is as a step should be.
    pub proof fn lemma_first()
        ensures
            StepView::first().inv(),
    {
        let v = StepView::first();
        let f = v.frontier();
        let root = v.open[0];
        Board::lemma_empty();
        assert(grows_in(Board::of(0), Board::of(0), 0));
        assert(vertex(Board::of(0)));
        lemma_calm_empty(36);
        assert(heuristic(Board::of(0)) == 216);
        assert forall|n: Node| #[trigger] f.holds(n) implies f.sound(n) by {
            assert(v.open.contains(n));
            let k = choose|k: int| 0 <= k < v.open.len() && v.open[k] == n;
            assert(n == root);
        }
        assert(carries(v.open, Board::of(0))) by {
            assert(v.open[0].board == Board::of(0));
        }
        assert(forall|n: Node| !v.closed.contains(n));
    }

    /// A step from which the search goes on has a node to expand, and with that
    /// node moved to `closed` the lists are ready for its expansion.
    pub proof fn lemma_start(self)
        requires
            self.inv(),
            self.unfinished(),
        ensures
            self.open.len() > 0,
            (Frontier {
                open: self.open.drop_first(),
                closed: self.closed.push(self.open[0]),
            }).expanding(self.open[0], Seq::empty()),
    {
        let f = self.frontier();
        if self.open.len() == 0 {
            let s = lemma_solution();
            assert(carries(self.closed, Board::of(0)));
            self.lemma_all_closed(Board::of(0), s, 6);
            let k = find(self.closed, s);
            lemma_find(self.closed, s);
            assert(self.closed.contains(self.closed[k]));
            assert(false);
        }
        let curr = self.open[0];
        let g = Frontier { open: self.open.drop_first(), closed: self.closed.push(curr) };
        assert(self.open.drop_first() =~= self.open.remove(0));
        lemma_remove(self.open, 0);
        lemma_push(self.closed, curr);
        assert(self.open.contains(curr));
        assert(!carries(self.closed, curr.board)) by {
            if carries(self.closed, curr.board) {
                let j = find(self.closed, curr.board);
                lemma_find(self.closed, curr.board);
                assert(self.open[0].board != self.closed[j].board);
            }
        }
        assert forall|n: Node| #[trigger] g.holds(n) <==> f.holds(n) by {}
        assert forall|b: Board| #[trigger] g.knows(b) <==> f.knows(b) by {
            if carries(self.open, b) && b == curr.board {
                assert(carries(g.closed, b));
            }
        }
        assert(keys_apart(g.open, g.closed)) by {
            assert forall|i: int, j: int|
                0 <= i < g.open.len() && 0 <= j < g.closed.len() implies (#[trigger] g.open[i]).board
                != (#[trigger] g.closed[j]).board by {
                assert(g.open[i] == self.open[i + 1]);
                if j < self.closed.len() {
                    assert(self.open[i + 1].board != self.closed[j].board);
                } else {
                    assert(self.open[0].board != self.open[i + 1].board);
                }
            }
        }
        assert forall|n: Node| #[trigger] g.holds(n) implies g.sound(n) by {
            assert(f.holds(n));
            assert(f.sound(n));
            match n.parent {
                None => {},
                Some(p) => {
                    let m = choose|m: Node|
                        #[trigger] f.holds(m) && m.board == p && m.g + STEP_COST <= n.g;
                    assert(g.holds(m) && m.board == p && m.g + STEP_COST <= n.g);
                },
            }
        }
        assert forall|n: Node| #[trigger]
            g.closed.contains(n) && n.board != curr.board implies g.surrounds(n.board)
            && n.board.queens() < 6 by {
            assert(self.closed.contains(n));
            assert(f.surrounds(n.board));
            assert forall|x: Board| #[trigger] linked(n.board, x) implies g.knows(x) by {
                assert(f.knows(x));
            }
        }
    }

    /// Where nothing waits and no board but the current one has six queens among
    /// those expanded, every board that results from an expanded one is expanded.
    proof fn lemma_all_closed(self, a: Board, b: Board, n: nat)
        requires
            self.inv(),
            self.unfinished(),
            self.open.len() == 0,
            carries(self.closed, a),
            grows_in(a, b, n),
        ensures
            carries(self.closed, b),
        decreases n,
    {
        if n > 0 {
            let c = choose|c: Board| #[trigger] placement(a, c) && grows_in(c, b, (n - 1) as nat);
            let k = find(self.closed, a);
            lemma_find(self.closed, a);
            let node = self.closed[k];
            assert(self.closed.contains(node));
            assert(self.frontier().holds(node));
            assert(self.frontier().sound(node));
            assert(a.queens() < 6);
            assert(links(Board::of(0), Edge { from: a, to: c }));
            assert(linked(a, c));
            assert(self.frontier().surrounds(a));
            assert(self.frontier().knows(c));
            self.lemma_all_closed(c, b, (n - 1) as nat);
        }
    }
}

impl Frontier {
    /// Once all the boards next to that of the expanded node are dealt with, the
    /// lists make a step as it should be.
    pub proof fn lemma_finish(self, curr: Node, nbs: Seq<Board>)
        requires
            self.expanding(curr, nbs),
            adjacent(curr.board, nbs),
        ensures
            (StepView { current: curr.board, open: self.open, closed: self.closed }).inv(),
    {
        let v = StepView { current: curr.board, open: self.open, closed: self.closed };
        assert(v.frontier() == self);
        lemma_carries(self.closed, curr);
        assert forall|n: Node| #[trigger] v.closed.contains(n) implies v.frontier().surrounds(
            n.board,
        ) && (n.board != v.current ==> n.board.queens() < 6) by {
            if n.board == curr.board {
                assert forall|x: Board| #[trigger] linked(n.board, x) implies self.knows(x) by {
                    assert(nbs.contains(x));
                }
            }
        }
    }
}

impl Frontier {
    /// A node of tidy lists is the node of its board.
    pub proof fn lemma_node(self, n: Node)
        requires
            self.tidy(),
            self.holds(n),
        ensures
            self.knows(n.board),
            self.node(n.board) == n,
    {
        if self.open.contains(n) {
            lemma_carries(self.open, n);
        } else {
            lemma_carries(self.closed, n);
        }
        let m = self.node(n.board);
        if carries(self.closed, n.board) {
            lemma_find(self.closed, n.board);
        } else {
            lemma_find(self.open, n.board);
        }
        assert(self.holds(m));
        self.lemma_one_node(m, n);
    }

    /// A board that tidy lists know is a board of the graph.
    pub proof fn lemma_known(self, b: Board)
        requires
            self.tidy(),
            self.knows(b),
        ensures
            vertex(b),
            b.wf(),
            self.holds(self.node(b)),
            self.node(b).board == b,
    {
        if carries(self.closed, b) {
            lemma_find(self.closed, b);
        } else {
            lemma_find(self.open, b);
        }
        assert(self.holds(self.node(b)));
        assert(self.sound(self.node(b)));
        lemma_vertex(b);
    }

    /// Every node of tidy lists can be handed out.
    pub proof fn lemma_usable(self)
        requires
            self.tidy(),
        ensures
            forall|i: int| 0 <= i < self.open.len() ==> usable(#[trigger] self.open[i]),
            forall|i: int| 0 <= i < self.closed.len() ==> usable(#[trigger] self.closed[i]),
    {
        self.lemma_costs();
        assert forall|i: int| 0 <= i < self.open.len() implies usable(#[trigger] self.open[i]) by {
            let n = self.open[i];
            assert(self.open.contains(n));
            assert(self.holds(n));
            assert(self.sound(n));
            lemma_vertex(n.board);
        }
        assert forall|i: int| 0 <= i < self.closed.len() implies usable(
            #[trigger] self.closed[i],
        ) by {
            let n = self.closed[i];
            assert(self.closed.contains(n));
            assert(self.holds(n));
            assert(self.sound(n));
            lemma_vertex(n.board);
        }
    }

    /// In tidy lists every estimate fits in 32 bits.
    pub proof fn lemma_costs(self)
        requires
            self.tidy(),
        ensures
            forall|n: Node| #[trigger] self.holds(n) ==> n.spec_f() <= u32::MAX,
            forall|i: int|
                0 <= i < self.open.len() ==> (#[trigger] self.open[i]).spec_f() <= u32::MAX,
    {
        self.lemma_count();
        assert forall|n: Node| #[trigger] self.holds(n) implies n.spec_f() <= u32::MAX by {
            assert(self.sound(n));
            lemma_heuristic(n.board);
        }
        assert forall|i: int| 0 <= i < self.open.len() implies (#[trigger] self.open[i]).spec_f()
            <= u32::MAX by {
            assert(self.open.contains(self.open[i]));
            assert(self.holds(self.open[i]));
        }
    }
}

} // verus!
