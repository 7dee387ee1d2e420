use seisreinas2::board::Board;
use seisreinas2::graph::Graph;
use seisreinas2::search::{a_star, Node, Step};

fn board_with(squares: &[u64]) -> Board {
    let mut b = Board::empty();
    for &s in squares {
        b = b.place_queen(s);
    }
    b
}

fn steps_of<'a>(graph: &'a Graph, limit: usize) -> Vec<Step<'a>> {
    std::iter::successors(Some(a_star(graph)), |s| s.next()).take(limit).collect()
}

#[test]
fn first_step_has_the_empty_board_waiting() {
    let graph = Graph::valid_boards_from_empty();
    let first = a_star(&graph);
    assert_eq!(first.current(), Board::empty());
    assert!(first.closed().is_empty());
    let open = first.clone_open_sorted();
    assert_eq!(open.len(), 1);
    assert_eq!(open[0].board(), Board::empty());
    assert_eq!(open[0].g(), 0);
    assert_eq!(open[0].h(), 216);
    assert_eq!(open[0].f(), 216);
    assert_eq!(open[0].parent, None);
}

#[test]
fn second_step_has_expanded_the_empty_board() {
    let graph = Graph::valid_boards_from_empty();
    let second = a_star(&graph).next().unwrap();
    assert_eq!(second.current(), Board::empty());
    assert_eq!(second.closed().len(), 1);
    assert_eq!(second.closed()[0].board(), Board::empty());
    let open = second.clone_open_sorted();
    assert_eq!(open.len(), 36);
    for node in &open {
        assert_eq!(node.g(), 36);
        assert_eq!(node.parent, Some(Board::empty()));
        assert_eq!(node.h(), node.board().penalty() * 5);
        assert_eq!(node.f(), node.g() + node.h());
    }
    assert_eq!(open[0], Node { board: board_with(&[1]), parent: Some(Board::empty()), g: 36, h: 170 });
    assert_eq!(open[1].board(), board_with(&[2]));
    assert_eq!(open[34].board(), board_with(&[35]));
    assert_eq!(open[35], Node { board: board_with(&[0]), parent: Some(Board::empty()), g: 36, h: 175 });
}

#[test]
fn third_step_has_expanded_the_cheapest_board() {
    let graph = Graph::valid_boards_from_empty();
    let third = a_star(&graph).next().unwrap().next().unwrap();
    assert_eq!(third.current(), board_with(&[1]));
    let closed: Vec<Board> = third.closed().iter().map(|n| n.board()).collect();
    assert_eq!(closed, vec![Board::empty(), board_with(&[1])]);
    let open = third.clone_open_sorted();
    assert_eq!(open.len(), 55);
    assert_eq!(open[0], Node { board: board_with(&[1, 9]), parent: Some(board_with(&[1])), g: 72, h: 128 });
    assert_eq!(open[1].board(), board_with(&[1, 10]));
}

#[test]
fn search_ends_on_six_queens() {
    let graph = Graph::valid_boards_from_empty();
    let steps = steps_of(&graph, usize::MAX);
    assert_eq!(steps.len(), 2633);
    for step in &steps[..steps.len() - 1] {
        assert!(step.current().count_queens() < 6);
    }
    let last = steps.last().unwrap();
    assert_eq!(last.current().count_queens(), 6);
    assert_eq!(last.current(), board_with(&[1, 9, 17, 18, 26, 34]));
    assert!(last.next().is_none());
    assert_eq!(last.closed().len(), 2632);
    assert_eq!(last.clone_open_sorted().len(), 3);
}

#[test]
fn finish_gives_the_last_step() {
    let graph = Graph::valid_boards_from_empty();
    let last = a_star(&graph).finish();
    assert_eq!(last.current(), board_with(&[1, 9, 17, 18, 26, 34]));
    assert!(last.next().is_none());
    let (cost, path) = last.traceback(last.current());
    assert_eq!(cost, 216);
    assert_eq!(
        path,
        vec![
            Board::empty(),
            board_with(&[1]),
            board_with(&[1, 9]),
            board_with(&[1, 9, 17]),
            board_with(&[1, 9, 17, 26]),
            board_with(&[1, 9, 17, 26, 34]),
            board_with(&[1, 9, 17, 18, 26, 34]),
        ]
    );
    let again = last.finish();
    assert_eq!(again.current(), board_with(&[1, 9, 17, 18, 26, 34]));
    assert_eq!(again.closed().len(), 2632);
}

#[test]
fn the_first_waiting_node_has_the_least_estimate_at_every_step() {
    let graph = Graph::valid_boards_from_empty();
    let mut step = a_star(&graph);
    loop {
        let open = step.clone_open_sorted();
        for pair in open.windows(2) {
            assert!(pair[0].f() <= pair[1].f());
        }
        match step.next() {
            Some(next) => {
                assert_eq!(next.current(), open[0].board());
                assert!(next.closed().contains(&open[0]));
                step = next;
            }
            None => break,
        }
    }
}

#[test]
fn no_board_has_two_nodes_at_any_step() {
    let graph = Graph::valid_boards_from_empty();
    for step in steps_of(&graph, 400) {
        let mut boards: Vec<Board> = step.clone_open_sorted().iter().map(|n| n.board()).collect();
        boards.extend(step.closed().iter().map(|n| n.board()));
        let count = boards.len();
        boards.sort();
        boards.dedup();
        assert_eq!(boards.len(), count);
    }
}

#[test]
fn traceback_leads_from_the_empty_board_to_the_target() {
    let graph = Graph::valid_boards_from_empty();
    for step in steps_of(&graph, 60) {
        let mut nodes = step.clone_open_sorted();
        nodes.extend(step.closed().iter().copied());
        for node in nodes {
            let (cost, path) = step.traceback(node.board());
            assert_eq!(cost, node.g());
            assert_eq!(path[0], Board::empty());
            assert_eq!(*path.last().unwrap(), node.board());
            for pair in path.windows(2) {
                assert!(graph.reachable_from(pair[0]).contains(&pair[1]));
            }
            let queens = node.board().count_queens() as usize;
            assert!(path.len() >= 1 + queens);
            assert!(36 * (path.len() - 1) <= cost as usize);
            if cost == 36 * queens as u32 {
                assert_eq!(path.len(), 1 + queens);
            }
        }
    }
}

#[test]
fn traceback_of_the_empty_board_is_the_empty_board() {
    let graph = Graph::valid_boards_from_empty();
    let first = a_star(&graph);
    assert_eq!(first.traceback(Board::empty()), (0, vec![Board::empty()]));
    let second = first.next().unwrap();
    assert_eq!(second.traceback(Board::empty()), (0, vec![Board::empty()]));
    assert_eq!(
        second.traceback(board_with(&[7])),
        (36, vec![Board::empty(), board_with(&[7])])
    );
}

#[test]
fn traceback_follows_a_detour_where_a_board_was_found_from_a_larger_one() {
    let graph = Graph::valid_boards_from_empty();
    let steps = steps_of(&graph, 5);
    let step = &steps[4];
    assert_eq!(step.current(), board_with(&[1, 9, 12]));
    let (cost, path) = step.traceback(board_with(&[9, 12]));
    assert_eq!(cost, 144);
    assert_eq!(
        path,
        vec![
            Board::empty(),
            board_with(&[1]),
            board_with(&[1, 9]),
            board_with(&[1, 9, 12]),
            board_with(&[9, 12]),
        ]
    );
}

#[test]
fn a_cheaper_way_replaces_the_node_of_a_board() {
    let graph = Graph::valid_boards_from_empty();
    let target = board_with(&[9, 12]);
    let mut step = a_star(&graph);
    let mut costs = Vec::new();
    while let Some(next) = step.next() {
        step = next;
        let open = step.clone_open_sorted();
        let found = open.iter().chain(step.closed().iter()).find(|n| n.board() == target);
        if let Some(node) = found {
            if costs.last() != Some(&node.g()) {
                costs.push(node.g());
            }
        }
    }
    assert_eq!(costs, vec![144, 72]);
    let (cost, path) = step.traceback(target);
    assert_eq!(cost, 72);
    assert_eq!(path.len(), 3);
}

#[test]
fn earlier_steps_stay_as_they_were() {
    let graph = Graph::valid_boards_from_empty();
    let first = a_star(&graph);
    let second = first.next().unwrap();
    let _third = second.next().unwrap();
    assert_eq!(first.clone_open_sorted().len(), 1);
    assert!(first.closed().is_empty());
    assert_eq!(second.clone_open_sorted().len(), 36);
    let copy = second.clone();
    assert_eq!(copy.current(), second.current());
    assert_eq!(copy.clone_open_sorted(), second.clone_open_sorted());
}

#[test]
fn the_search_gives_the_same_steps_when_run_again() {
    let graph = Graph::valid_boards_from_empty();
    let one = steps_of(&graph, 120);
    let two = steps_of(&graph, 120);
    for (a, b) in one.iter().zip(two.iter()) {
        assert_eq!(a.current(), b.current());
        assert_eq!(a.clone_open_sorted(), b.clone_open_sorted());
        assert_eq!(a.closed(), b.closed());
    }
}
