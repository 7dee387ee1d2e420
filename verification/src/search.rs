//! The search: a best-first walk over the graph of placements, one expansion per
//! step, from the empty board to a board with six queens.
//!
//! A [`Step`] holds the board that was expanded last, the nodes that wait to be
//! expanded (`open`, by ascending estimate, the earlier found first among equals)
//! and the nodes that were expanded (`closed`).
//!
//! Every placement costs 36, and the guess of what is left from a board is the
//! penalty of the board for every queen that it lacks. The guess may be too
//! high, so a board that was expanded can be found again at a lower cost; it
//! then waits once more.

use crate::board::Board;
use crate::graph::{lemma_edge, lemma_vertex, linked, Graph};
use crate::laws::law_traceback;
use crate::lists::{lemma_find, lemma_neighbors, lemma_remove, lemma_slot};
use crate::soundness::lemma_heuristic;
use vstd::prelude::*;

verus! {

/// What one placement adds to the cost of a path.
pub const STEP_COST: u32 = 36;

/// A board as the search knows it: the board it was reached from, the cost `g`
/// of the way to it and the guess `h` of what is left from it.
#[derive(Debug, Copy, Clone, Eq, PartialEq, Hash)]
pub struct Node {
    pub board: Board,
    pub parent: Option<Board>,
    pub g: u32,
    pub h: u32,
}

impl Node {
    /// The estimate of a node: the cost of the path to it and the guess of what is left.
    pub open spec fn spec_f(self) -> int {
        self.g + self.h
    }

    /// The board of the node.
    pub fn board(&self) -> (b: Board)
        ensures
            b == self.board,
    {
        self.board
    }

    /// The estimate of the node, by which the waiting nodes are ordered.
    pub fn f(&self) -> (f: u32)
        requires
            self.g + self.h <= u32::MAX,
        ensures
            f == self.spec_f(),
    {
        self.g + self.h
    }

    /// The cost of the way to the board of the node.
    pub fn g(&self) -> (g: u32)
        ensures
            g == self.g,
    {
        self.g
    }

    /// The guess of what is left from the board of the node.
    pub fn h(&self) -> (h: u32)
        ensures
            h == self.h,
    {
        self.h
    }
}

/// The guess of what is left from a board: its penalty for every queen that is missing.
pub open spec fn heuristic(b: Board) -> int {
    b.spec_penalty() * (6 - b.queens())
}

/// The board of a node fits in 36 bits and has six queens at most, and the
/// estimate of the node fits in 32 bits.
pub open spec fn usable(n: Node) -> bool {
    n.board.wf() && n.board.queens() <= 6 && n.spec_f() <= u32::MAX
}

/// No two nodes of `s` have the same board.
pub open spec fn keys_distinct(s: Seq<Node>) -> bool {
    forall|i: int, j: int|
        0 <= i < j < s.len() ==> (#[trigger] s[i]).board != (#[trigger] s[j]).board
}

/// No node of `a` has the board of a node of `b`.
pub open spec fn keys_apart(a: Seq<Node>, b: Seq<Node>) -> bool {
    forall|i: int, j: int|
        0 <= i < a.len() && 0 <= j < b.len() ==> (#[trigger] a[i]).board != (#[trigger] b[j]).board
}

/// Whether a node of `s` has board `b`.
pub open spec fn carries(s: Seq<Node>, b: Board) -> bool {
    exists|i: int| 0 <= i < s.len() && (#[trigger] s[i]).board == b
}

/// Where in `s` a node with board `b` stands.
pub open spec fn find(s: Seq<Node>, b: Board) -> int {
    choose|i: int| 0 <= i < s.len() && (#[trigger] s[i]).board == b
}

/// The estimates of `s` never fall from one node to the next.
pub open spec fn ascending(s: Seq<Node>) -> bool {
    forall|i: int, j: int|
        0 <= i < j < s.len() ==> (#[trigger] s[i]).spec_f() <= (#[trigger] s[j]).spec_f()
}

/// Index `k` parts `s` into the nodes with an estimate of `x` at most and those above `x`.
pub open spec fn fits(s: Seq<Node>, x: int, k: int) -> bool {
    &&& 0 <= k <= s.len()
    &&& forall|i: int| 0 <= i < k ==> (#[trigger] s[i]).spec_f() <= x
    &&& forall|i: int| k <= i < s.len() ==> x < (#[trigger] s[i]).spec_f()
}

/// Where a node with estimate `x` goes into `s`: behind the nodes with that estimate or less.
pub open spec fn slot(s: Seq<Node>, x: int) -> int {
    choose|k: int| fits(s, x, k)
}

/// `s` with `node` at its place by estimate.
pub open spec fn place(s: Seq<Node>, node: Node) -> Seq<Node> {
    s.insert(slot(s, node.spec_f()), node)
}

/// The two lists of nodes of a search.
pub struct Frontier {
    pub open: Seq<Node>,
    pub closed: Seq<Node>,
}

impl Frontier {
    /// Node `n` is in one of the lists.
    pub open spec fn holds(self, n: Node) -> bool {
        self.open.contains(n) || self.closed.contains(n)
    }

    /// A node with board `b` is in one of the lists.
    pub open spec fn knows(self, b: Board) -> bool {
        carries(self.open, b) || carries(self.closed, b)
    }

    /// The node with board `b`: the one in `closed` if there is one, else that in `open`.
    pub open spec fn node(self, b: Board) -> Node {
        if carries(self.closed, b) {
            self.closed[find(self.closed, b)]
        } else {
            self.open[find(self.open, b)]
        }
    }

    /// The number of nodes.
    pub open spec fn count(self) -> nat {
        self.open.len() + self.closed.len()
    }

    /// What the search does with `nb`, a board next to that of the node `curr` which
    /// is being expanded: a board that is new becomes a node of `open`; a board that
    /// is known at a higher cost than by way of `curr` leaves its list and comes
    /// back into `open` at the lower cost; any other stays as it is.
    pub open spec fn relax(self, curr: Node, nb: Board) -> Frontier {
        let cost = (curr.g + STEP_COST) as u32;
        if carries(self.open, nb) {
            let i = find(self.open, nb);
            let known = self.open[i];
            if cost < known.g {
                let fresh = Node { board: nb, parent: Some(curr.board), g: cost, h: known.h };
                Frontier { open: place(self.open.remove(i), fresh), closed: self.closed }
            } else {
                self
            }
        } else if carries(self.closed, nb) {
            let j = find(self.closed, nb);
            let known = self.closed[j];
            if cost < known.g {
                let fresh = Node { board: nb, parent: Some(curr.board), g: cost, h: known.h };
                Frontier { open: place(self.open, fresh), closed: self.closed.remove(j) }
            } else {
                self
            }
        } else {
            let fresh = Node {
                board: nb,
                parent: Some(curr.board),
                g: cost,
                h: heuristic(nb) as u32,
            };
            Frontier { open: place(self.open, fresh), closed: self.closed }
        }
    }

    /// What the search does with the boards `nbs` next to that of `curr`, one after the other.
    pub open spec fn expand(self, curr: Node, nbs: Seq<Board>) -> Frontier
        decreases nbs.len(),
    {
        if nbs.len() == 0 {
            self
        } else {
            self.expand(curr, nbs.drop_last()).relax(curr, nbs.last())
        }
    }

    /// `path` leads to `to` from a board whose node has no parent, each of its
    /// boards being the parent of the node of the next.
    pub open spec fn trail(self, to: Board, path: Seq<Board>) -> bool {
        &&& path.len() > 0
        &&& path.last() == to
        &&& self.node(path[0]).parent is None
        &&& forall|i: int| 0 <= i < path.len() ==> self.knows(#[trigger] path[i])
        &&& forall|i: int|
            0 < i < path.len() ==> self.node(#[trigger] path[i]).parent == Some(path[i - 1])
    }
}

/// `s` lists the boards one edge away from `b`, each once, by ascending bit pattern.
pub open spec fn adjacent(b: Board, s: Seq<Board>) -> bool {
    &&& forall|i: int, j: int| 0 <= i < j < s.len() ==> (#[trigger] s[i])@ < (#[trigger] s[j])@
    &&& forall|x: Board|
        #![trigger s.contains(x)]
        #![trigger linked(b, x)]
        s.contains(x) <==> linked(b, x)
}

/// The boards one edge away from `b`, by ascending bit pattern.
pub open spec fn neighbors(b: Board) -> Seq<Board> {
    choose|s: Seq<Board>| adjacent(b, s)
}

/// What a step of the search shows.
pub struct StepView {
    pub current: Board,
    pub open: Seq<Node>,
    pub closed: Seq<Node>,
}

impl StepView {
    /// The two lists of the step.
    pub open spec fn frontier(self) -> Frontier {
        Frontier { open: self.open, closed: self.closed }
    }

    /// The first step: nothing is expanded, and the empty board waits at no cost.
    pub open spec fn first() -> StepView {
        StepView {
            current: Board::of(0),
            open: seq![Node { board: Board::of(0), parent: None, g: 0, h: 216 }],
            closed: Seq::empty(),
        }
    }

    /// Whether the search goes on from this step.
    pub open spec fn unfinished(self) -> bool {
        self.current.queens() < 6
    }

    /// The step after this one: the first node of `open` moves to `closed` and is
    /// expanded to the boards next to its own.
    pub open spec fn advance(self) -> StepView {
        let curr = self.open[0];
        let start = Frontier { open: self.open.drop_first(), closed: self.closed.push(curr) };
        let end = start.expand(curr, neighbors(curr.board));
        StepView { current: curr.board, open: end.open, closed: end.closed }
    }
}

/// Where in `nodes` the node with board `board` stands, if there is one.
fn position(nodes: &Vec<Node>, board: Board) -> (r: Option<usize>)
    ensures
        match r {
            Some(i) => i < nodes@.len() && nodes@[i as int].board == board,
            None => !carries(nodes@, board),
        },
{
    let mut i: usize = 0;
    while i < nodes.len()
        invariant
            i <= nodes@.len(),
            forall|k: int| 0 <= k < i ==> (#[trigger] nodes@[k]).board != board,
        decreases nodes@.len() - i,
    {
        if nodes[i].board == board {
            return Some(i);
        }
        i += 1;
    }
    None
}

/// Puts `node` into `open` behind the nodes with its estimate or less.
fn push_by_cost(open: &mut Vec<Node>, node: Node)
    requires
        ascending(old(open)@),
        forall|i: int| 0 <= i < old(open)@.len() ==> (#[trigger] old(open)@[i]).spec_f() <= u32::MAX,
        node.spec_f() <= u32::MAX,
    ensures
        final(open)@ == place(old(open)@, node),
{
    let f = node.f();
    let mut k: usize = 0;
    while k < open.len() && open[k].f() <= f
        invariant
            k <= open@.len(),
            open@ == old(open)@,
            forall|i: int| 0 <= i < open@.len() ==> (#[trigger] open@[i]).spec_f() <= u32::MAX,
            forall|i: int| 0 <= i < k ==> (#[trigger] open@[i]).spec_f() <= f,
        decreases open@.len() - k,
    {
        k += 1;
    }
    proof {
        assert(fits(open@, f as int, k as int)) by {
            assert forall|i: int| k <= i < open@.len() implies f < (#[trigger] open@[i]).spec_f() by {
                if k < i {
                    assert(open@[k as int].spec_f() <= open@[i].spec_f());
                }
            }
        }
        lemma_slot(open@, f as int);
    }
    open.insert(k, node);
}

/// Deals with `nb`, a board next to that of `curr`, as [`Frontier::relax`] says.
fn relax(
    open: &mut Vec<Node>,
    closed: &mut Vec<Node>,
    curr: Node,
    nb: Board,
    Ghost(done): Ghost<Seq<Board>>,
)
    requires
        (Frontier { open: old(open)@, closed: old(closed)@ }).expanding(curr, done),
        linked(curr.board, nb),
        nb.wf(),
    ensures
        (Frontier { open: final(open)@, closed: final(closed)@ }) == (Frontier {
            open: old(open)@,
            closed: old(closed)@,
        }).relax(curr, nb),
{
    let ghost before = Frontier { open: open@, closed: closed@ };
    proof {
        before.lemma_relax(curr, done, nb);
        before.lemma_costs();
        before.lemma_count();
        assert(before.holds(curr));
        lemma_edge(curr.board, nb);
        lemma_heuristic(nb);
    }
    let cost = curr.g + STEP_COST;
    match position(open, nb) {
        Some(i) => {
            let known = open[i];
            proof {
                lemma_find(open@, nb);
                assert(open@.contains(known));
                assert(before.holds(known));
                lemma_remove(open@, i as int);
            }
            if cost < known.g {
                open.remove(i);
                push_by_cost(open, Node { board: nb, parent: Some(curr.board), g: cost, h: known.h });
            }
        },
        None => {
            match position(closed, nb) {
                Some(j) => {
                    let known = closed[j];
                    proof {
                        lemma_find(closed@, nb);
                        assert(closed@.contains(known));
                        assert(before.holds(known));
                    }
                    if cost < known.g {
                        closed.remove(j);
                        push_by_cost(
                            open,
                            Node { board: nb, parent: Some(curr.board), g: cost, h: known.h },
                        );
                    }
                },
                None => {
                    let penalty = nb.penalty();
                    let missing = 6 - nb.count_queens();
                    assert(penalty * missing == heuristic(nb));
                    let h = penalty * missing;
                    push_by_cost(open, Node { board: nb, parent: Some(curr.board), g: cost, h });
                },
            }
        },
    }
}

/// One step of the search. A step is never changed: the next step is a new value.
#[derive(Clone, Debug)]
pub struct Step<'a> {
    current: Board,
    graph: &'a Graph,
    open: Vec<Node>,
    closed: Vec<Node>,
}

impl<'a> View for Step<'a> {
    type V = StepView;

    closed spec fn view(&self) -> StepView {
        StepView { current: self.current, open: self.open@, closed: self.closed@ }
    }
}

impl<'a> Step<'a> {
    /// The graph that is searched.
    pub closed spec fn graph(&self) -> &Graph {
        self.graph
    }

    /// The step is one of a search over the whole graph.
    pub open spec fn wf(&self) -> bool {
        self.graph().wf() && self@.inv()
    }

    /// The board that was expanded last: the empty board at first.
    pub fn current(&self) -> (b: Board)
        ensures
            b == self@.current,
            self.wf() ==> b.wf() && b.queens() <= 6,
    {
        proof {
            if self.wf() {
                self.lemma_current();
            }
        }
        self.current
    }

    /// The nodes that wait, by ascending estimate.
    pub fn clone_open_sorted(&self) -> (open: Vec<Node>)
        requires
            self.wf(),
        ensures
            open@ == self@.open,
            ascending(open@),
            forall|i: int| 0 <= i < open@.len() ==> usable(#[trigger] open@[i]),
    {
        proof {
            self@.frontier().lemma_usable();
        }
        self.open.clone()
    }

    /// The nodes that were expanded.
    pub fn closed(&self) -> (closed: &[Node])
        ensures
            closed@ == self@.closed,
            self.wf() ==> forall|i: int| 0 <= i < closed@.len() ==> usable(#[trigger] closed@[i]),
    {
        proof {
            if self.wf() {
                self@.frontier().lemma_usable();
            }
        }
        self.closed.as_slice()
    }

    /// The step after this one, unless the current board has six queens.
    pub fn next(&self) -> (r: Option<Step<'a>>)
        requires
            self.wf(),
        ensures
            r is Some <==> self@.unfinished(),
            r is None ==> self@.current.queens() == 6,
            r matches Some(n) ==> n.wf() && n@ == self@.advance() && 0 <= n@.remaining()
                < self@.remaining(),
    {
        proof {
            self.lemma_current();
        }
        if self.current.count_queens() >= 6 {
            return None;
        }
        proof {
            self@.lemma_start();
        }
        let mut open = self.open.clone();
        let mut closed = self.closed.clone();
        assert(open@ == self.open@);
        assert(closed@ == self.closed@);
        let curr = open.remove(0);
        closed.push(curr);
        assert(open@ =~= self.open@.drop_first());
        let ghost start = Frontier { open: open@, closed: closed@ };
        proof {
            assert(start.holds(curr));
            lemma_vertex(curr.board);
            self@.lemma_pop();
        }
        let nbs = self.graph.reachable_from(curr.board);
        assert(adjacent(curr.board, nbs@));
        let mut i: usize = 0;
        assert(nbs@.take(0) =~= Seq::<Board>::empty());
        while i < nbs.len()
            invariant
                i <= nbs@.len(),
                adjacent(curr.board, nbs@),
                forall|k: int| 0 <= k < nbs@.len() ==> (#[trigger] nbs@[k]).wf(),
                (Frontier { open: open@, closed: closed@ }) == start.expand(
                    curr,
                    nbs@.take(i as int),
                ),
                (Frontier { open: open@, closed: closed@ }).expanding(curr, nbs@.take(i as int)),
                (Frontier { open: open@, closed: closed@ }).potential() <= start.potential(),
            decreases nbs@.len() - i,
        {
            let nb = nbs[i];
            let ghost done = nbs@.take(i as int);
            let ghost before = Frontier { open: open@, closed: closed@ };
            proof {
                assert(nbs@.contains(nb));
                before.lemma_relax(curr, done, nb);
                before.lemma_relax_progress(curr, done, nb);
                assert(nbs@.take(i + 1).drop_last() =~= done);
                assert(nbs@.take(i + 1) =~= done.push(nb));
            }
            relax(&mut open, &mut closed, curr, nb, Ghost(done));
            i += 1;
        }
        proof {
            assert(nbs@.take(i as int) =~= nbs@);
            let end = Frontier { open: open@, closed: closed@ };
            end.lemma_finish(curr, nbs@);
            end.lemma_potential();
            lemma_neighbors(curr.board, nbs@);
        }
        Some(Step { current: curr.board, graph: self.graph, open, closed })
    }

    /// The last step of the search that goes on from this one: the first whose
    /// current board has six queens.
    pub fn finish(self) -> (last: Step<'a>)
        requires
            self.wf(),
        ensures
            last.wf(),
            last@.current.queens() == 6,
            exists|n: nat| #[trigger] self@.ends(last@, n),
    {
        let ghost start = self@;
        let ghost mut n: nat = 0;
        let mut step = self;
        loop
            invariant
                start == self@,
                step.wf(),
                step@ == start.after(n),
                forall|k: nat| k < n ==> (#[trigger] start.after(k)).unfinished(),
            decreases step@.remaining(),
        {
            match step.next() {
                None => {
                    assert(start.ends(step@, n));
                    return step;
                },
                Some(s) => {
                    proof {
                        assert(start.after(n + 1) == start.after(n).advance());
                        n = n + 1;
                    }
                    step = s;
                },
            }
        }
    }

    /// The node of `board`, looked for among the expanded nodes first.
    fn node_for(&self, board: Board) -> (r: Option<Node>)
        requires
            self.wf(),
        ensures
            r is Some <==> self@.frontier().knows(board),
            r matches Some(n) ==> n == self@.frontier().node(board) && n.board == board
                && self@.frontier().holds(n),
    {
        let ghost f = self@.frontier();
        match position(&self.closed, board) {
            Some(i) => {
                proof {
                    lemma_find(f.closed, board);
                    assert(f.closed.contains(f.closed[i as int]));
                }
                Some(self.closed[i])
            },
            None => {
                match position(&self.open, board) {
                    Some(i) => {
                        proof {
                            lemma_find(f.open, board);
                            assert(f.open.contains(f.open[i as int]));
                        }
                        Some(self.open[i])
                    },
                    None => None,
                }
            },
        }
    }

    /// The cost of the node of `to` and the boards that lead to it, each the
    /// parent of the next, from the empty board on.
    pub fn traceback(&self, to: Board) -> (r: (u32, Vec<Board>))
        requires
            self.wf(),
            self@.frontier().knows(to),
        ensures
            r.0 == self@.frontier().node(to).g,
            self@.frontier().trail(to, r.1@),
            r.1@[0] == Board::of(0),
            r.1@.last() == to,
            forall|i: int| 0 < i < r.1@.len() ==> linked(r.1@[i - 1], #[trigger] r.1@[i]),
            forall|i: int| 0 <= i < r.1@.len() ==> (#[trigger] r.1@[i]).wf(),
            1 + to.queens() <= r.1@.len(),
            STEP_COST * (r.1@.len() - 1) <= r.0,
            r.0 == STEP_COST * to.queens() ==> r.1@.len() == 1 + to.queens(),
    {
        let ghost f = self@.frontier();
        let target = self.node_for(to).unwrap();
        let mut back: Vec<Board> = Vec::new();
        back.push(to);
        let mut at = target;
        while at.parent.is_some()
            invariant
                self.wf(),
                f == self@.frontier(),
                f.holds(at),
                at == f.node(at.board),
                back@.len() > 0,
                back@[0] == to,
                back@.last() == at.board,
                forall|i: int| 0 <= i < back@.len() ==> f.knows(#[trigger] back@[i]),
                forall|i: int|
                    0 <= i < back@.len() - 1 ==> f.node(#[trigger] back@[i]).parent == Some(
                        back@[i + 1],
                    ),
            decreases at.g,
        {
            let p = at.parent.unwrap();
            proof {
                assert(f.sound(at));
                let m = choose|m: Node|
                    #[trigger] f.holds(m) && m.board == p && m.g + STEP_COST <= at.g;
                f.lemma_node(m);
            }
            let up = self.node_for(p).unwrap();
            back.push(p);
            at = up;
        }
        let mut path: Vec<Board> = Vec::new();
        let mut k: usize = back.len();
        while k > 0
            invariant
                k <= back@.len(),
                path@.len() == back@.len() - k,
                forall|i: int| 0 <= i < path@.len() ==> path@[i] == back@[back@.len() - 1 - i],
            decreases k,
        {
            k -= 1;
            path.push(back[k]);
        }
        proof {
            assert forall|i: int| 0 < i < path@.len() implies f.node(#[trigger] path@[i]).parent
                == Some(path@[i - 1]) by {
                let j = back@.len() - 1 - i;
                assert(f.node(back@[j]).parent == Some(back@[j + 1]));
            }
            assert forall|i: int| 0 <= i < path@.len() implies f.knows(#[trigger] path@[i])
                && path@[i].wf() by {
                assert(f.knows(back@[back@.len() - 1 - i]));
                f.lemma_known(path@[i]);
            }
            law_traceback(self@, to, path@);
        }
        (target.g, path)
    }

    /// The current board is a board of the graph.
    proof fn lemma_current(&self)
        requires
            self.wf(),
        ensures
            self.current.wf(),
            self.current.queens() <= 6,
    {
        let f = self@.frontier();
        let b = self.current;
        assert(f.knows(b));
        let n = f.node(b);
        if carries(f.closed, b) {
            lemma_find(f.closed, b);
        } else {
            lemma_find(f.open, b);
        }
        assert(f.holds(n));
        assert(f.sound(n));
        lemma_vertex(b);
    }
}

/// The first step of the search over `graph`: the empty board waits to be expanded.
pub fn a_star<'a>(graph: &'a Graph) -> (first: Step<'a>)
    requires
        graph.wf(),
    ensures
        first.wf(),
        first@ == StepView::first(),
{
    let mut open: Vec<Node> = Vec::new();
    open.push(Node { parent: None, board: Board::empty(), g: 0, h: 36 * (6 - 0) });
    let first = Step { current: Board::empty(), graph, open, closed: Vec::new() };
    proof {
        StepView::lemma_first();
        assert(first@.open =~= StepView::first().open);
        assert(first@.closed =~= StepView::first().closed);
    }
    first
}

} // verus!
