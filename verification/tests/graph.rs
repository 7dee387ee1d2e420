use seisreinas2::board::Board;
use seisreinas2::graph::{Edge, Graph};
use std::collections::BTreeMap;

fn board_with(squares: &[u64]) -> Board {
    let mut b = Board::empty();
    for &s in squares {
        b = b.place_queen(s);
    }
    b
}

/// Every board that edges lead to from the empty board, with the number of edges walked.
fn boards_by_distance(graph: &Graph) -> BTreeMap<Board, u32> {
    let mut found = BTreeMap::new();
    found.insert(Board::empty(), 0);
    let mut frontier = vec![Board::empty()];
    while !frontier.is_empty() {
        let mut next = Vec::new();
        for b in frontier {
            let d = found[&b];
            for n in graph.reachable_from(b) {
                if !found.contains_key(&n) {
                    found.insert(n, d + 1);
                    next.push(n);
                }
            }
        }
        frontier = next;
    }
    found
}

#[test]
fn empty_board_has_thirty_six_neighbours() {
    let graph = Graph::valid_boards_from_empty();
    let next = graph.reachable_from(Board::empty());
    assert_eq!(next.len(), 36);
    for (i, b) in next.iter().enumerate() {
        assert_eq!(b.raw(), 1 << i);
    }
}

#[test]
fn graph_has_four_boards_with_six_queens() {
    let graph = Graph::valid_boards_from_empty();
    let boards = boards_by_distance(&graph);
    let full: Vec<u64> =
        boards.keys().filter(|b| b.count_queens() == 6).map(|b| b.raw()).collect();
    assert_eq!(full, vec![2290094352, 4832428104, 8610916356, 17247371778]);
}

#[test]
fn graph_has_the_known_number_of_boards_for_each_number_of_queens() {
    let graph = Graph::valid_boards_from_empty();
    let boards = boards_by_distance(&graph);
    let mut counts = [0usize; 7];
    for b in boards.keys() {
        counts[b.count_queens() as usize] += 1;
    }
    assert_eq!(counts, [1, 36, 340, 1024, 982, 248, 4]);
    let edges: usize = boards.keys().map(|b| graph.reachable_from(*b).len()).sum();
    assert_eq!(edges, 17960);
}

#[test]
fn no_board_of_the_graph_has_a_queen_under_attack() {
    let graph = Graph::valid_boards_from_empty();
    for b in boards_by_distance(&graph).keys() {
        for pos in 0..36 {
            if b.has_queen_at(pos) {
                assert!(!b.has_vision(pos));
            }
        }
    }
}

#[test]
fn every_edge_has_its_reverse() {
    let graph = Graph::valid_boards_from_empty();
    for b in boards_by_distance(&graph).keys() {
        for n in graph.reachable_from(*b) {
            assert!(graph.reachable_from(n).contains(b));
        }
    }
}

#[test]
fn edges_join_boards_one_queen_apart() {
    let graph = Graph::valid_boards_from_empty();
    for b in boards_by_distance(&graph).keys() {
        for n in graph.reachable_from(*b) {
            let (x, y) = (b.count_queens(), n.count_queens());
            assert!(x == y + 1 || y == x + 1);
            assert_eq!((b.raw() ^ n.raw()).count_ones(), 1);
        }
    }
}

#[test]
fn every_board_is_as_many_edges_from_the_empty_board_as_it_has_queens() {
    let graph = Graph::valid_boards_from_empty();
    for (b, d) in boards_by_distance(&graph) {
        assert_eq!(d, b.count_queens());
    }
}

#[test]
fn neighbours_come_in_ascending_order() {
    let graph = Graph::valid_boards_from_empty();
    for b in boards_by_distance(&graph).keys() {
        let next = graph.reachable_from(*b);
        for pair in next.windows(2) {
            assert!(pair[0] < pair[1]);
        }
    }
}

#[test]
fn neighbours_of_a_corner_queen() {
    let graph = Graph::valid_boards_from_empty();
    let next = graph.reachable_from(board_with(&[0]));
    assert_eq!(next.len(), 21);
    assert_eq!(next[0], Board::empty());
    assert_eq!(next[1], board_with(&[0, 8]));
    assert_eq!(next[2], board_with(&[0, 9]));
    assert_eq!(next[3], board_with(&[0, 10]));
    assert!(!next.contains(&board_with(&[0, 1])));
    assert!(!next.contains(&board_with(&[0, 7])));
}

#[test]
fn neighbours_of_a_full_board_are_the_boards_with_one_queen_less() {
    let graph = Graph::valid_boards_from_empty();
    let squares = [1u64, 9, 17, 18, 26, 34];
    let full = board_with(&squares);
    let next: Vec<u64> = graph.reachable_from(full).iter().map(|b| b.raw()).collect();
    let mut want: Vec<u64> = squares.iter().map(|s| full.raw() & !(1 << s)).collect();
    want.sort();
    assert_eq!(next, want);
}

#[test]
fn boards_outside_the_graph_have_no_neighbours() {
    let graph = Graph::valid_boards_from_empty();
    assert!(graph.reachable_from(board_with(&[0, 1])).is_empty());
    assert!(graph.reachable_from(board_with(&[0, 7])).is_empty());
    assert!(graph.reachable_from(Board::new(0xF_FFFF_FFFF)).is_empty());
}

#[test]
fn edges_are_ordered_by_origin_then_target() {
    let a = Edge { from: board_with(&[0]), to: board_with(&[0, 8]) };
    let b = Edge { from: board_with(&[0]), to: board_with(&[0, 9]) };
    let c = Edge { from: board_with(&[1]), to: Board::empty() };
    assert!(a < b);
    assert!(b < c);
    assert_eq!(a, Edge { from: board_with(&[0]), to: board_with(&[8, 0]) });
}
