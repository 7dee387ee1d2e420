//! Why the search ends: every step uses up some of what is left to do.

use crate::board::Board;
use crate::graph::{lemma_edge, linked};
use crate::lists::{lemma_find, lemma_neighbors_exist, lemma_remove, lemma_slot};
use crate::search::{
    adjacent, carries, find, heuristic, neighbors, slot, Frontier, Node, StepView, STEP_COST,
};
use crate::soundness::{lemma_heuristic, BOARDS};
use vstd::prelude::*;

verus! {

/// What a board without a node counts for: more than any node does.
pub const ROOM: u32 = 8_470_730;

/// What a list of nodes counts for: twice the costs of its nodes, and `extra` for each node.
pub open spec fn weight(s: Seq<Node>, extra: int) -> int
    decreases s.len(),
{
    if s.len() == 0 {
        0
    } else {
        weight(s.drop_last(), extra) + 2 * s.last().g + extra
    }
}

impl Frontier {
    /// What is left to do at most: boards may yet get a node, nodes may yet be
    /// expanded, and costs may yet fall.
    pub open spec fn potential(self) -> int {
        (BOARDS - self.count()) * ROOM + weight(self.open, 1) + weight(self.closed, 0)
    }
}

impl StepView {
    /// A bound on the number of steps that can follow this one.
    pub open spec fn remaining(self) -> int {
        self.frontier().potential()
    }

    /// Step `last` comes `n` steps after this one, and the search goes on from
    /// every step before it.
    pub open spec fn ends(self, last: StepView, n: nat) -> bool {
        &&& last == self.after(n)
        &&& !last.unfinished()
        &&& forall|k: nat| k < n ==> (#[trigger] self.after(k)).unfinished()
    }

    /// The step that comes `n` steps after this one.
    pub open spec fn after(self, n: nat) -> StepView
        decreases n,
    {
        if n == 0 {
            self
        } else {
            self.after((n - 1) as nat).advance()
        }
    }
}

/// No list counts for less than nothing.
pub proof fn lemma_weight(s: Seq<Node>, extra: int)
    requires
        extra >= 0,
    ensures
        weight(s, extra) >= 0,
    decreases s.len(),
{
    if s.len() > 0 {
        lemma_weight(s.drop_last(), extra);
    }
}

/// A list counts for what it counted for before a node came in, and for that node.
pub proof fn lemma_weight_insert(s: Seq<Node>, k: int, node: Node, extra: int)
    requires
        0 <= k <= s.len(),
    ensures
        weight(s.insert(k, node), extra) == weight(s, extra) + 2 * node.g + extra,
    decreases s.len(),
{
    let r = s.insert(k, node);
    if k == s.len() {
        assert(r.drop_last() =~= s);
    } else {
        assert(r.drop_last() =~= s.drop_last().insert(k, node));
        assert(r.last() == s.last());
        lemma_weight_insert(s.drop_last(), k, node, extra);
    }
}

/// A list without one of its nodes counts for that much less.
pub proof fn lemma_weight_remove(s: Seq<Node>, i: int, extra: int)
    requires
        0 <= i < s.len(),
    ensures
        weight(s.remove(i), extra) == weight(s, extra) - 2 * s[i].g - extra,
    decreases s.len(),
{
    let r = s.remove(i);
    if i == s.len() - 1 {
        assert(r =~= s.drop_last());
    } else {
        assert(r.drop_last() =~= s.drop_last().remove(i));
        assert(r.last() == s.last());
        lemma_weight_remove(s.drop_last(), i, extra);
    }
}

impl Frontier {
    /// Tidy lists leave something to do or nothing, never less.
    pub proof fn lemma_potential(self)
        requires
            self.tidy(),
        ensures
            self.potential() >= 0,
    {
        self.lemma_count();
        lemma_weight(self.open, 1);
        lemma_weight(self.closed, 0);
        let room = BOARDS - self.count();
        assert(room * ROOM >= 0) by (nonlinear_arith)
            requires
                room >= 0,
        ;
    }

    /// Dealing with a board next to that of the expanded node leaves no more to do
    /// than there was.
    pub proof fn lemma_relax_progress(self, curr: Node, done: Seq<Board>, nb: Board)
        requires
            self.expanding(curr, done),
            linked(curr.board, nb),
        ensures
            self.relax(curr, nb).potential() <= self.potential(),
    {
        self.lemma_count();
        assert(self.holds(curr));
        assert(self.sound(curr));
        let cost = (curr.g + STEP_COST) as u32;
        assert(cost == curr.g + STEP_COST);
        lemma_edge(curr.board, nb);
        lemma_heuristic(nb);
        let after = self.relax(curr, nb);
        if carries(self.open, nb) {
            let i = find(self.open, nb);
            lemma_find(self.open, nb);
            let known = self.open[i];
            if cost < known.g {
                let fresh = Node { board: nb, parent: Some(curr.board), g: cost, h: known.h };
                let rest = self.open.remove(i);
                lemma_remove(self.open, i);
                lemma_slot(rest, fresh.spec_f());
                lemma_weight_remove(self.open, i, 1);
                lemma_weight_insert(rest, slot(rest, fresh.spec_f()), fresh, 1);
                assert(after.count() == self.count());
            }
        } else if carries(self.closed, nb) {
            let j = find(self.closed, nb);
            lemma_find(self.closed, nb);
            let known = self.closed[j];
            if cost < known.g {
                let fresh = Node { board: nb, parent: Some(curr.board), g: cost, h: known.h };
                lemma_slot(self.open, fresh.spec_f());
                lemma_weight_remove(self.closed, j, 0);
                lemma_weight_insert(self.open, slot(self.open, fresh.spec_f()), fresh, 1);
                assert(after.count() == self.count());
            }
        } else {
            let fresh = Node {
                board: nb,
                parent: Some(curr.board),
                g: cost,
                h: heuristic(nb) as u32,
            };
            lemma_slot(self.open, fresh.spec_f());
            lemma_weight_insert(self.open, slot(self.open, fresh.spec_f()), fresh, 1);
            assert(after.count() == self.count() + 1);
            let room = BOARDS - self.count();
            assert((room - 1) * ROOM == room * ROOM - ROOM) by (nonlinear_arith);
        }
    }
}

impl StepView {
    /// Moving the first waiting node to the expanded ones uses up one unit of
    /// what is left to do.
    pub proof fn lemma_pop(self)
        requires
            self.open.len() > 0,
        ensures
            (Frontier {
                open: self.open.drop_first(),
                closed: self.closed.push(self.open[0]),
            }).potential() == self.remaining() - 1,
    {
        assert(self.open.drop_first() =~= self.open.remove(0));
        lemma_weight_remove(self.open, 0, 1);
        assert(self.closed.push(self.open[0]).drop_last() =~= self.closed);
    }
}

impl Frontier {
    /// Dealing with the boards next to that of the expanded node, one after the
    /// other, keeps the lists as they should be and leaves no more to do.
    pub proof fn lemma_expand(self, curr: Node, nbs: Seq<Board>, k: int)
        requires
            self.expanding(curr, Seq::empty()),
            adjacent(curr.board, nbs),
            0 <= k <= nbs.len(),
        ensures
            self.expand(curr, nbs.take(k)).expanding(curr, nbs.take(k)),
            self.expand(curr, nbs.take(k)).potential() <= self.potential(),
        decreases k,
    {
        if k == 0 {
            assert(nbs.take(0) =~= Seq::<Board>::empty());
        } else {
            self.lemma_expand(curr, nbs, k - 1);
            let done = nbs.take(k - 1);
            let nb = nbs[k - 1];
            let before = self.expand(curr, done);
            assert(nbs.contains(nb));
            assert(nbs.take(k).drop_last() =~= done);
            assert(nbs.take(k) =~= done.push(nb));
            before.lemma_relax(curr, done, nb);
            before.lemma_relax_progress(curr, done, nb);
        }
    }
}

impl StepView {
    /// A step of the search leads to a step of the search, with less left to do.
    pub proof fn lemma_advance(self)
        requires
            self.inv(),
            self.unfinished(),
        ensures
            self.advance().inv(),
            0 <= self.advance().remaining() < self.remaining(),
    {
        self.lemma_start();
        self.lemma_pop();
        let curr = self.open[0];
        let start = Frontier { open: self.open.drop_first(), closed: self.closed.push(curr) };
        let nbs = neighbors(curr.board);
        lemma_neighbors_exist(curr.board);
        start.lemma_expand(curr, nbs, nbs.len() as int);
        assert(nbs.take(nbs.len() as int) =~= nbs);
        let end = start.expand(curr, nbs);
        end.lemma_finish(curr, nbs);
        end.lemma_potential();
        assert(self.advance().frontier() == end);
    }

    /// Going one step on and then `n` steps is going `n` steps and then one step on.
    pub proof fn lemma_after(self, n: nat)
        ensures
            self.advance().after(n) == self.after(n + 1),
        decreases n,
    {
        if n > 0 {
            self.lemma_after((n - 1) as nat);
            assert(self.after(n + 1) == self.after(n).advance());
        } else {
            assert(self.after(1) == self.after(0).advance());
        }
    }
}

} // verus!
