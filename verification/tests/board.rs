use seisreinas2::board::Board;

fn board_with(squares: &[u64]) -> Board {
    let mut b = Board::empty();
    for &s in squares {
        b = b.place_queen(s);
    }
    b
}

#[test]
fn empty_board_has_no_queens() {
    let b = Board::empty();
    assert_eq!(b.count_queens(), 0);
    assert_eq!(b.raw(), 0);
    for pos in 0..36 {
        assert!(!b.has_queen_at(pos));
        assert!(!b.has_vision(pos));
    }
}

#[test]
fn new_keeps_the_bit_pattern() {
    assert_eq!(Board::new(0), Board::empty());
    assert_eq!(Board::new(5).raw(), 5);
    assert_eq!(Board::new(0xF_FFFF_FFFF).raw(), 0xF_FFFF_FFFF);
    assert_eq!(Board::new(0xF_FFFF_FFFF).count_queens(), 36);
    assert_eq!(Board::new(17247371778), board_with(&[1, 9, 17, 18, 26, 34]));
}

#[test]
fn place_queen_sets_one_square() {
    let b = Board::empty().place_queen(7);
    assert_eq!(b.raw(), 1 << 7);
    assert!(b.has_queen_at(7));
    assert!(!b.has_queen_at(6));
    assert!(!b.has_queen_at(8));
    assert_eq!(b.count_queens(), 1);
    let c = b.place_queen(35);
    assert_eq!(c.raw(), (1 << 7) | (1 << 35));
    assert!(c.has_queen_at(7));
    assert!(c.has_queen_at(35));
    assert_eq!(c.count_queens(), 2);
}

#[test]
fn place_queen_on_a_taken_square_changes_nothing() {
    let b = Board::empty().place_queen(20);
    assert_eq!(b.place_queen(20), b);
    assert_eq!(b.place_queen(20).count_queens(), 1);
}

#[test]
fn count_queens_counts_set_squares() {
    assert_eq!(board_with(&[0]).count_queens(), 1);
    assert_eq!(board_with(&[0, 35]).count_queens(), 2);
    assert_eq!(board_with(&[1, 9, 17, 18, 26, 34]).count_queens(), 6);
    assert_eq!(board_with(&[0, 1, 2, 3, 4, 5, 6, 7]).count_queens(), 8);
}

#[test]
fn boards_are_ordered_by_their_bit_patterns() {
    assert!(board_with(&[0]) < board_with(&[1]));
    assert!(board_with(&[0, 1]) < board_with(&[2]));
    assert!(Board::empty() < board_with(&[0]));
    assert_eq!(board_with(&[3, 4]), board_with(&[4, 3]));
}

#[test]
fn penalty_counts_squares_that_match_the_next() {
    assert_eq!(Board::empty().penalty(), 36);
    assert_eq!(board_with(&[0]).penalty(), 35);
    assert_eq!(board_with(&[5]).penalty(), 34);
    assert_eq!(board_with(&[0, 1]).penalty(), 35);
    assert_eq!(board_with(&[35]).penalty(), 34);
    assert_eq!(board_with(&[1, 9, 17, 18, 26, 34]).penalty(), 26);
    assert_eq!(Board::new(0xF_FFFF_FFFF).penalty(), 35);
    assert_eq!(Board::new(0x5_5555_5555).penalty(), 1);
    assert_eq!(Board::new(0xA_AAAA_AAAA).penalty(), 0);
}

#[test]
fn bits_lists_the_last_square_first() {
    let cells = Board::empty().bits();
    assert!(cells.iter().all(|c| !c));
    let cells = board_with(&[0]).bits();
    assert!(cells[35]);
    assert_eq!(cells.iter().filter(|c| **c).count(), 1);
    let cells = board_with(&[35, 6]).bits();
    assert!(cells[0]);
    assert!(cells[29]);
    assert_eq!(cells.iter().filter(|c| **c).count(), 2);
}

#[test]
fn to_string_writes_thirty_six_binary_digits() {
    assert_eq!(Board::empty().to_string(), "0".repeat(36));
    assert_eq!(board_with(&[0]).to_string(), format!("{}1", "0".repeat(35)));
    assert_eq!(board_with(&[35]).to_string(), format!("1{}", "0".repeat(35)));
    assert_eq!(
        board_with(&[1, 9, 17, 18, 26, 34]).to_string(),
        "010000000100000001100000001000000010"
    );
    assert_eq!(
        board_with(&[1, 9, 17, 18, 26, 34]).to_string(),
        format!("{:036b}", 17247371778u64)
    );
}

#[test]
fn first_queen_sees_row_column_and_diagonal() {
    let b = Board::empty().place_queen(0);
    assert!(b.place_queen(6).has_vision(6));
    assert!(b.place_queen(1).has_vision(1));
    assert!(b.place_queen(7).has_vision(7));
    assert!(!b.place_queen(8).has_vision(8));
    assert!(b.has_vision(6));
    assert!(b.has_vision(1));
    assert!(b.has_vision(7));
    assert!(!b.has_vision(8));
}

#[test]
fn second_square_of_the_first_row_is_seen_from_the_first() {
    let b = Board::empty().place_queen(0);
    assert!(b.has_vision(2));
    assert!(b.place_queen(2).has_vision(2));
}

#[test]
fn a_queen_does_not_see_itself() {
    for pos in 0..36 {
        assert!(!Board::empty().place_queen(pos).has_vision(pos));
    }
}

#[test]
fn vision_runs_along_both_diagonals_to_the_edges() {
    assert!(board_with(&[35]).has_vision(0));
    assert!(board_with(&[0]).has_vision(35));
    assert!(board_with(&[5]).has_vision(30));
    assert!(board_with(&[30]).has_vision(5));
    assert!(board_with(&[14]).has_vision(21));
    assert!(board_with(&[14]).has_vision(19));
    assert!(board_with(&[14]).has_vision(7));
    assert!(board_with(&[14]).has_vision(9));
}

#[test]
fn vision_does_not_wrap_around_the_edges() {
    assert!(!board_with(&[11]).has_vision(12));
    assert!(!board_with(&[5]).has_vision(6));
    assert!(!board_with(&[6]).has_vision(5));
    assert!(!board_with(&[5]).has_vision(10 + 2));
    assert!(!board_with(&[0]).has_vision(11));
}

#[test]
fn vision_matches_the_geometry_on_every_pair_of_squares() {
    for p in 0..36u64 {
        for q in 0..36u64 {
            let (pr, pc) = ((p / 6) as i64, (p % 6) as i64);
            let (qr, qc) = ((q / 6) as i64, (q % 6) as i64);
            let attacked =
                p != q && (pr == qr || pc == qc || pr - pc == qr - qc || pr + pc == qr + qc);
            assert_eq!(board_with(&[q]).has_vision(p), attacked, "{} {}", p, q);
        }
    }
}

#[test]
fn a_full_solution_has_no_vision_on_any_of_its_queens() {
    let squares = [1, 9, 17, 18, 26, 34];
    let b = board_with(&squares);
    for s in squares {
        assert!(!b.has_vision(s));
    }
    assert!(b.has_vision(0));
}
