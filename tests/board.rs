use game_of_life::board::{Board, LoadError, MarkOutcome};

fn board_with(side: usize, live: &[(usize, usize)]) -> Board {
    let mut b = Board::new(side);
    for &(i, j) in live {
        b.set(i, j, true);
    }
    b
}

fn live_cells(b: &Board) -> Vec<(usize, usize)> {
    let mut out = Vec::new();
    for i in 0..b.side() {
        for j in 0..b.side() {
            if b.get(i, j) {
                out.push((i, j));
            }
        }
    }
    out
}

#[test]
fn new_board_is_dead_and_square() {
    for side in [0usize, 1, 5] {
        let b = Board::new(side);
        assert_eq!(b.side(), side);
        assert!(live_cells(&b).is_empty());
    }
}

#[test]
fn set_changes_one_cell() {
    let mut b = Board::new(3);
    b.set(1, 2, true);
    assert_eq!(live_cells(&b), vec![(1, 2)]);
    b.set(1, 2, false);
    assert!(live_cells(&b).is_empty());
}

#[test]
fn neighbors_of_center_on_full_board() {
    let all: Vec<(usize, usize)> = (0..3).flat_map(|i| (0..3).map(move |j| (i, j))).collect();
    let b = board_with(3, &all);
    assert_eq!(b.get_n_live_neighbors(1, 1), 8);
    assert_eq!(b.get_n_live_neighbors(0, 1), 5);
}

#[test]
fn corner_counts_three_neighbors_at_most() {
    let all: Vec<(usize, usize)> = (0..4).flat_map(|i| (0..4).map(move |j| (i, j))).collect();
    let b = board_with(4, &all);
    assert_eq!(b.get_n_live_neighbors(0, 0), 3);
    assert_eq!(b.get_n_live_neighbors(3, 3), 3);
    assert_eq!(b.get_n_live_neighbors(0, 3), 3);
}

#[test]
fn neighbors_do_not_wrap() {
    // Live cells on the far edges would be neighbors of (0, 0) on a torus.
    let b = board_with(4, &[(3, 3), (0, 3), (3, 0)]);
    assert_eq!(b.get_n_live_neighbors(0, 0), 0);
}

#[test]
fn neighbor_count_skips_the_cell_itself() {
    let b = board_with(3, &[(1, 1), (0, 0), (2, 1)]);
    assert_eq!(b.get_n_live_neighbors(1, 1), 2);
}

#[test]
fn round_trip_all_dead() {
    let b = Board::new(4);
    let text = b.to_json();
    let back = Board::from_json(&text).unwrap();
    assert_eq!(back.side(), 4);
    assert!(live_cells(&back).is_empty());
}

#[test]
fn round_trip_all_alive() {
    let all: Vec<(usize, usize)> = (0..3).flat_map(|i| (0..3).map(move |j| (i, j))).collect();
    let b = board_with(3, &all);
    let back = Board::from_json(&b.to_json()).unwrap();
    assert_eq!(back.side(), 3);
    assert_eq!(live_cells(&back), all);
}

#[test]
fn round_trip_mixed() {
    let live = vec![(0, 1), (1, 2), (2, 0), (2, 1), (2, 2)];
    let b = board_with(5, &live);
    let back = Board::from_json(&b.to_json()).unwrap();
    assert_eq!(back.side(), 5);
    assert_eq!(live_cells(&back), live);
}

#[test]
fn to_json_writes_rows_of_booleans() {
    let b = board_with(2, &[(0, 0)]);
    assert_eq!(b.to_json(), "[[true,false],[false,false]]");
}

#[test]
fn from_json_reads_rows() {
    let b = Board::from_json("[[false, true], [true, false]]").unwrap();
    assert_eq!(b.side(), 2);
    assert_eq!(live_cells(&b), vec![(0, 1), (1, 0)]);
}

#[test]
fn from_json_non_array_is_empty_board() {
    let b = Board::from_json("{\"a\": 1}").unwrap();
    assert_eq!(b.side(), 0);
    let b = Board::from_json("true").unwrap();
    assert_eq!(b.side(), 0);
}

#[test]
fn from_json_tolerates_malformed_rows() {
    let b = Board::from_json("[[true], 7, [1, \"x\", true, true, true]]").unwrap();
    assert_eq!(b.side(), 3);
    assert_eq!(live_cells(&b), vec![(0, 0), (2, 2)]);
}

#[test]
fn from_json_rejects_text_that_is_not_json() {
    assert_eq!(Board::from_json("[[true,").err(), Some(LoadError::NotJson));
    assert_eq!(Board::from_json("").err(), Some(LoadError::NotJson));
}

#[test]
fn mark_alive_outcomes() {
    let mut b = Board::new(3);
    assert_eq!(b.mark_alive(1, 2), MarkOutcome::Marked);
    assert_eq!(live_cells(&b), vec![(1, 2)]);
    assert_eq!(b.mark_alive(1, 2), MarkOutcome::AlreadyAlive);
    assert_eq!(b.mark_alive(3, 0), MarkOutcome::OutOfRange);
    assert_eq!(b.mark_alive(0, -1), MarkOutcome::OutOfRange);
    assert_eq!(live_cells(&b), vec![(1, 2)]);
}
