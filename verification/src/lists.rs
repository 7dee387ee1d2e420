//! Lists of nodes and of boards: what taking a node out, putting one in and
//! looking one up do to them.

use crate::board::{Board, LIMIT};
use crate::graph::{lemma_edge, lemma_vertex, linked};
use crate::search::{
    adjacent, ascending, carries, find, fits, keys_distinct, neighbors, place, slot, Node,
};
use vstd::prelude::*;

verus! {

/// A list without a node has the other nodes, in their order.
pub proof fn lemma_remove(s: Seq<Node>, i: int)
    requires
        0 <= i < s.len(),
        keys_distinct(s),
    ensures
        keys_distinct(s.remove(i)),
        ascending(s) ==> ascending(s.remove(i)),
        !carries(s.remove(i), s[i].board),
        forall|n: Node| #[trigger] s.remove(i).contains(n) <==> s.contains(n) && n != s[i],
        forall|b: Board| #[trigger] carries(s.remove(i), b) <==> carries(s, b) && b != s[i].board,
{
    let r = s.remove(i);
    assert forall|k: int| 0 <= k < r.len() implies #[trigger] r[k] == s[if k < i {
        k
    } else {
        k + 1
    }] by {}
    assert forall|n: Node| #[trigger] r.contains(n) <==> s.contains(n) && n != s[i] by {
        if r.contains(n) {
            let k = choose|k: int| 0 <= k < r.len() && r[k] == n;
            let k0 = if k < i {
                k
            } else {
                k + 1
            };
            assert(s[k0] == n);
        }
        if s.contains(n) && n != s[i] {
            let k = choose|k: int| 0 <= k < s.len() && s[k] == n;
            let k0 = if k < i {
                k
            } else {
                k - 1
            };
            assert(r[k0] == n);
        }
    }
    assert forall|b: Board| #[trigger] carries(r, b) <==> carries(s, b) && b != s[i].board by {
        if carries(r, b) {
            let k = choose|k: int| 0 <= k < r.len() && (#[trigger] r[k]).board == b;
            let k0 = if k < i {
                k
            } else {
                k + 1
            };
            assert(s[k0].board == b);
        }
        if carries(s, b) && b != s[i].board {
            let k = choose|k: int| 0 <= k < s.len() && (#[trigger] s[k]).board == b;
            let k0 = if k < i {
                k
            } else {
                k - 1
            };
            assert(r[k0].board == b);
        }
    }
}

/// A list in order has a place for every estimate, and one only.
pub proof fn lemma_slot(s: Seq<Node>, x: int)
    requires
        ascending(s),
    ensures
        fits(s, x, slot(s, x)),
        forall|k: int| fits(s, x, k) ==> k == slot(s, x),
    decreases s.len(),
{
    if s.len() == 0 {
        assert(fits(s, x, 0));
    } else {
        let t = s.drop_last();
        lemma_slot(t, x);
        let k = slot(t, x);
        if s.last().spec_f() <= x {
            assert(fits(s, x, s.len() as int)) by {
                assert forall|i: int| 0 <= i < s.len() implies (#[trigger] s[i]).spec_f() <= x by {
                    if i < s.len() - 1 {
                        assert(s[i].spec_f() <= s[s.len() - 1].spec_f());
                    }
                }
            }
        } else {
            assert(fits(s, x, k)) by {
                assert forall|i: int| 0 <= i < k implies (#[trigger] s[i]).spec_f() <= x by {
                    assert(t[i] == s[i]);
                }
                assert forall|i: int| k <= i < s.len() implies x < (#[trigger] s[i]).spec_f() by {
                    if i < s.len() - 1 {
                        assert(t[i] == s[i]);
                    }
                }
            }
        }
    }
    let k0 = slot(s, x);
    assert forall|k: int| fits(s, x, k) implies k == k0 by {
        if k < k0 {
            assert(s[k].spec_f() <= x);
        } else if k0 < k {
            assert(s[k0].spec_f() <= x);
        }
    }
}

/// A list with a node put at its place has that node and the others, in order.
pub proof fn lemma_place(s: Seq<Node>, node: Node)
    requires
        ascending(s),
    ensures
        ascending(place(s, node)),
        place(s, node).len() == s.len() + 1,
        keys_distinct(s) && !carries(s, node.board) ==> keys_distinct(place(s, node)),
        forall|n: Node| #[trigger] place(s, node).contains(n) <==> s.contains(n) || n == node,
        forall|b: Board| #[trigger] carries(place(s, node), b) <==> carries(s, b) || b == node.board,
{
    lemma_slot(s, node.spec_f());
    let k = slot(s, node.spec_f());
    let r = place(s, node);
    assert forall|j: int| 0 <= j < r.len() implies #[trigger] r[j] == (if j < k {
        s[j]
    } else if j == k {
        node
    } else {
        s[j - 1]
    }) by {}
    assert forall|n: Node| #[trigger] r.contains(n) <==> s.contains(n) || n == node by {
        if r.contains(n) {
            let j = choose|j: int| 0 <= j < r.len() && r[j] == n;
            if j < k {
                assert(s[j] == n);
            } else if j > k {
                assert(s[j - 1] == n);
            }
        }
        if s.contains(n) {
            let j = choose|j: int| 0 <= j < s.len() && s[j] == n;
            let j0 = if j < k {
                j
            } else {
                j + 1
            };
            assert(r[j0] == n);
        }
        if n == node {
            assert(r[k] == n);
        }
    }
    assert forall|b: Board| #[trigger] carries(r, b) <==> carries(s, b) || b == node.board by {
        if carries(r, b) {
            let j = choose|j: int| 0 <= j < r.len() && (#[trigger] r[j]).board == b;
            if j < k {
                assert(s[j].board == b);
            } else if j > k {
                assert(s[j - 1].board == b);
            }
        }
        if carries(s, b) {
            let j = choose|j: int| 0 <= j < s.len() && (#[trigger] s[j]).board == b;
            let j0 = if j < k {
                j
            } else {
                j + 1
            };
            assert(r[j0].board == b);
        }
        if b == node.board {
            assert(r[k].board == b);
        }
    }
    assert forall|i: int, j: int| 0 <= i < j < r.len() implies (#[trigger] r[i]).spec_f() <= (
    #[trigger] r[j]).spec_f() by {
        let i0 = if i < k {
            i
        } else {
            i - 1
        };
        let j0 = if j < k {
            j
        } else {
            j - 1
        };
        if i != k && j != k {
            assert(s[i0].spec_f() <= s[j0].spec_f());
        } else if i == k {
            assert(node.spec_f() < s[j0].spec_f());
        } else {
            assert(s[i0].spec_f() <= node.spec_f());
        }
    }
    if keys_distinct(s) && !carries(s, node.board) {
        assert forall|i: int, j: int| 0 <= i < j < r.len() implies (#[trigger] r[i]).board != (
        #[trigger] r[j]).board by {
            let i0 = if i < k {
                i
            } else {
                i - 1
            };
            let j0 = if j < k {
                j
            } else {
                j - 1
            };
            if i != k && j != k {
                assert(s[i0].board != s[j0].board);
            } else if i == k {
                assert(s[j0].board != node.board);
            } else {
                assert(s[i0].board != node.board);
            }
        }
    }
}

/// A list that has a board has one node with it, at the place that `find` gives.
pub proof fn lemma_find(s: Seq<Node>, b: Board)
    requires
        carries(s, b),
    ensures
        0 <= find(s, b) < s.len(),
        s[find(s, b)].board == b,
        s.contains(s[find(s, b)]),
        keys_distinct(s) ==> forall|i: int|
            0 <= i < s.len() && (#[trigger] s[i]).board == b ==> i == find(s, b),
{
    let k = find(s, b);
    if keys_distinct(s) {
        assert forall|i: int| 0 <= i < s.len() && (#[trigger] s[i]).board == b implies i == k by {
            if i < k {
                assert(s[i].board != s[k].board);
            } else if k < i {
                assert(s[k].board != s[i].board);
            }
        }
    }
}

/// A node that a list contains gives the list its board.
pub proof fn lemma_carries(s: Seq<Node>, n: Node)
    requires
        s.contains(n),
    ensures
        carries(s, n.board),
        keys_distinct(s) ==> s[find(s, n.board)] == n,
{
    let k = choose|k: int| 0 <= k < s.len() && s[k] == n;
    assert(s[k].board == n.board);
    lemma_find(s, n.board);
}

/// A list with one more node at its end contains that node and what it contained.
pub proof fn lemma_push(s: Seq<Node>, node: Node)
    ensures
        forall|n: Node| #[trigger] s.push(node).contains(n) <==> s.contains(n) || n == node,
        forall|b: Board| #[trigger] carries(s.push(node), b) <==> carries(s, b) || b == node.board,
        keys_distinct(s) && !carries(s, node.board) ==> keys_distinct(s.push(node)),
{
    let r = s.push(node);
    assert forall|n: Node| #[trigger] r.contains(n) <==> s.contains(n) || n == node by {
        if r.contains(n) {
            let k = choose|k: int| 0 <= k < r.len() && r[k] == n;
            if k < s.len() {
                assert(s[k] == n);
            }
        }
        if s.contains(n) {
            let k = choose|k: int| 0 <= k < s.len() && s[k] == n;
            assert(r[k] == n);
        }
        if n == node {
            assert(r[s.len() as int] == n);
        }
    }
    assert forall|b: Board| #[trigger] carries(r, b) <==> carries(s, b) || b == node.board by {
        if carries(r, b) {
            let k = choose|k: int| 0 <= k < r.len() && (#[trigger] r[k]).board == b;
            if k < s.len() {
                assert(s[k].board == b);
            }
        }
        if carries(s, b) {
            let k = choose|k: int| 0 <= k < s.len() && (#[trigger] s[k]).board == b;
            assert(r[k].board == b);
        }
        if b == node.board {
            assert(r[s.len() as int].board == b);
        }
    }
    if keys_distinct(s) && !carries(s, node.board) {
        assert forall|i: int, j: int| 0 <= i < j < r.len() implies (#[trigger] r[i]).board != (
        #[trigger] r[j]).board by {
            if j < s.len() {
                assert(s[i].board != s[j].board);
            } else {
                assert(s[i].board != node.board);
            }
        }
    }
}

/// A list with one more board at its end contains that board and what it contained.
pub proof fn lemma_push_contains(done: Seq<Board>, nb: Board)
    ensures
        forall|x: Board| #[trigger] done.push(nb).contains(x) <==> done.contains(x) || x == nb,
{
    let d = done.push(nb);
    assert forall|x: Board| #[trigger] d.contains(x) <==> done.contains(x) || x == nb by {
        if d.contains(x) {
            let k = choose|k: int| 0 <= k < d.len() && d[k] == x;
            if k < done.len() {
                assert(done[k] == x);
            }
        }
        if done.contains(x) {
            let k = choose|k: int| 0 <= k < done.len() && done[k] == x;
            assert(d[k] == x);
        }
        if x == nb {
            assert(d[done.len() as int] == x);
        }
    }
}

/// Two lists of boards by ascending bit pattern that contain the same boards are one list.
pub proof fn lemma_same_boards(s: Seq<Board>, t: Seq<Board>)
    requires
        forall|i: int, j: int| 0 <= i < j < s.len() ==> (#[trigger] s[i])@ < (#[trigger] s[j])@,
        forall|i: int, j: int| 0 <= i < j < t.len() ==> (#[trigger] t[i])@ < (#[trigger] t[j])@,
        forall|x: Board|
            #![trigger s.contains(x)]
            #![trigger t.contains(x)]
            s.contains(x) <==> t.contains(x),
    ensures
        s == t,
    decreases s.len(),
{
    if s.len() == 0 {
        if t.len() > 0 {
            assert(t.contains(t[0]));
        }
        assert(s =~= t);
    } else {
        let m = s.last();
        assert(s.contains(m));
        assert(t.contains(m));
        let j = choose|j: int| 0 <= j < t.len() && t[j] == m;
        let w = t.last();
        assert(t.contains(w));
        let i = choose|i: int| 0 <= i < s.len() && s[i] == w;
        if i < s.len() - 1 {
            assert(s[i]@ < s[s.len() - 1]@);
        }
        if j < t.len() - 1 {
            assert(t[j]@ < t[t.len() - 1]@);
        }
        m.lemma_of_view();
        w.lemma_of_view();
        assert(m == w);
        let s0 = s.drop_last();
        let t0 = t.drop_last();
        assert forall|x: Board|
            #![trigger s0.contains(x)]
            #![trigger t0.contains(x)]
            s0.contains(x) <==> t0.contains(x) by {
            if s0.contains(x) {
                let k = choose|k: int| 0 <= k < s0.len() && s0[k] == x;
                assert(s[k] == x);
                assert(s[k]@ < s[s.len() - 1]@);
                assert(s.contains(x));
                let l = choose|l: int| 0 <= l < t.len() && t[l] == x;
                assert(t0[l] == x);
            }
            if t0.contains(x) {
                let k = choose|k: int| 0 <= k < t0.len() && t0[k] == x;
                assert(t[k] == x);
                assert(t[k]@ < t[t.len() - 1]@);
                assert(t.contains(x));
                let l = choose|l: int| 0 <= l < s.len() && s[l] == x;
                assert(s0[l] == x);
            }
        }
        lemma_same_boards(s0, t0);
        assert(s =~= s0.push(m));
        assert(t =~= t0.push(w));
    }
}

/// A list that lists the boards next to a board is the list of its neighbors.
pub proof fn lemma_neighbors(b: Board, s: Seq<Board>)
    requires
        adjacent(b, s),
    ensures
        neighbors(b) == s,
{
    lemma_same_boards(neighbors(b), s);
}

/// The boards one edge away from `b` whose bit patterns are below `m`, by ascending bit pattern.
pub open spec fn neighbors_below(b: Board, m: nat) -> Seq<Board>
    decreases m,
{
    if m == 0 {
        Seq::empty()
    } else {
        let rest = neighbors_below(b, (m - 1) as nat);
        let x = Board::of((m - 1) as u64);
        if linked(b, x) {
            rest.push(x)
        } else {
            rest
        }
    }
}

/// The boards next to `b` below `m` are listed as they should be.
pub proof fn lemma_neighbors_below(b: Board, m: nat)
    requires
        m <= LIMIT,
    ensures
        forall|i: int, j: int|
            0 <= i < j < neighbors_below(b, m).len() ==> (#[trigger] neighbors_below(b, m)[i])@ < (
            #[trigger] neighbors_below(b, m)[j])@,
        forall|i: int|
            0 <= i < neighbors_below(b, m).len() ==> (#[trigger] neighbors_below(b, m)[i])@ < m,
        forall|x: Board|
            #![trigger neighbors_below(b, m).contains(x)]
            #![trigger linked(b, x)]
            neighbors_below(b, m).contains(x) <==> linked(b, x) && x@ < m,
    decreases m,
{
    let s = neighbors_below(b, m);
    if m > 0 {
        let rest = neighbors_below(b, (m - 1) as nat);
        let top = Board::of((m - 1) as u64);
        lemma_neighbors_below(b, (m - 1) as nat);
        Board::lemma_view_of((m - 1) as u64);
        assert(top@ == m - 1);
        assert forall|x: Board|
            #![trigger s.contains(x)]
            #![trigger linked(b, x)]
            s.contains(x) <==> linked(b, x) && x@ < m by {
            x.lemma_of_view();
            if s.contains(x) {
                let k = choose|k: int| 0 <= k < s.len() && s[k] == x;
                if k < rest.len() {
                    assert(rest[k] == x);
                    assert(rest.contains(x));
                }
            }
            if linked(b, x) && x@ < m {
                if x@ == m - 1 {
                    assert(x == top);
                    assert(s[rest.len() as int] == x);
                } else {
                    assert(rest.contains(x));
                    let k = choose|k: int| 0 <= k < rest.len() && rest[k] == x;
                    assert(s[k] == x);
                }
            }
        }
    } else {
        assert forall|x: Board|
            #![trigger s.contains(x)]
            #![trigger linked(b, x)]
            s.contains(x) <==> linked(b, x) && x@ < m by {}
    }
}

/// Every board has its list of neighbors.
pub proof fn lemma_neighbors_exist(b: Board)
    ensures
        adjacent(b, neighbors(b)),
{
    lemma_neighbors_below(b, LIMIT as nat);
    let s = neighbors_below(b, LIMIT as nat);
    assert forall|x: Board|
        #![trigger s.contains(x)]
        #![trigger linked(b, x)]
        s.contains(x) <==> linked(b, x) by {
        if linked(b, x) {
            lemma_edge(b, x);
            lemma_vertex(x);
        }
    }
    assert(adjacent(b, s));
}

} // verus!
