use game_of_life::board::Board;
use game_of_life::game_rules::apply_game_of_life_rules;

fn board_with(side: usize, live: &[(usize, usize)]) -> Board {
    let mut b = Board::new(side);
    for &(i, j) in live {
        b.set(i, j, true);
    }
    b
}

fn live_cells(b: &Board) -> Vec<(usize, usize)> {
    let mut out = Vec::new();
    for i in 0..b.side() {
        for j in 0..b.side() {
            if b.get(i, j) {
                out.push((i, j));
            }
        }
    }
    out
}

#[test]
fn block_is_still_life() {
    let block = vec![(1, 1), (1, 2), (2, 1), (2, 2)];
    let mut b = board_with(4, &block);
    apply_game_of_life_rules(&mut b);
    assert_eq!(live_cells(&b), block);
    let corner = vec![(0, 0), (0, 1), (1, 0), (1, 1)];
    let mut b = board_with(6, &corner);
    apply_game_of_life_rules(&mut b);
    assert_eq!(live_cells(&b), corner);
}

#[test]
fn blinker_oscillates() {
    let horizontal = vec![(2, 1), (2, 2), (2, 3)];
    let vertical = vec![(1, 2), (2, 2), (3, 2)];
    let mut b = board_with(5, &horizontal);
    apply_game_of_life_rules(&mut b);
    assert_eq!(live_cells(&b), vertical);
    apply_game_of_life_rules(&mut b);
    assert_eq!(live_cells(&b), horizontal);
}

#[test]
fn glider_changes_shape() {
    let mut b = board_with(8, &[(0, 1), (1, 2), (2, 0), (2, 1), (2, 2)]);
    apply_game_of_life_rules(&mut b);
    let next = live_cells(&b);
    assert_eq!(next.len(), 5);
    assert_eq!(next, vec![(1, 0), (1, 2), (2, 1), (2, 2), (3, 1)]);
}

#[test]
fn live_cell_dies_without_two_or_three_neighbors() {
    // 0 neighbors.
    let mut b = board_with(5, &[(2, 2)]);
    apply_game_of_life_rules(&mut b);
    assert!(!b.get(2, 2));
    // 1 neighbor.
    let mut b = board_with(5, &[(2, 2), (2, 3)]);
    apply_game_of_life_rules(&mut b);
    assert!(!b.get(2, 2));
    // 4 neighbors.
    let mut b = board_with(5, &[(2, 2), (1, 1), (1, 3), (3, 1), (3, 3)]);
    assert_eq!(b.get_n_live_neighbors(2, 2), 4);
    apply_game_of_life_rules(&mut b);
    assert!(!b.get(2, 2));
    // 5 neighbors.
    let mut b = board_with(5, &[(2, 2), (1, 1), (1, 2), (1, 3), (3, 1), (3, 3)]);
    assert_eq!(b.get_n_live_neighbors(2, 2), 5);
    apply_game_of_life_rules(&mut b);
    assert!(!b.get(2, 2));
    // 8 neighbors.
    let all: Vec<(usize, usize)> = (1..4).flat_map(|i| (1..4).map(move |j| (i, j))).collect();
    let mut b = board_with(5, &all);
    apply_game_of_life_rules(&mut b);
    assert!(!b.get(2, 2));
}

#[test]
fn live_cell_survives_with_two_or_three_neighbors() {
    let mut b = board_with(5, &[(2, 2), (1, 1), (3, 3)]);
    assert_eq!(b.get_n_live_neighbors(2, 2), 2);
    apply_game_of_life_rules(&mut b);
    assert!(b.get(2, 2));
    let mut b = board_with(5, &[(2, 2), (1, 1), (3, 3), (1, 3)]);
    assert_eq!(b.get_n_live_neighbors(2, 2), 3);
    apply_game_of_life_rules(&mut b);
    assert!(b.get(2, 2));
}

#[test]
fn dead_cell_is_born_with_exactly_three_neighbors() {
    let mut b = board_with(5, &[(1, 1), (1, 3), (3, 2)]);
    apply_game_of_life_rules(&mut b);
    assert!(b.get(2, 2));
    for live in [
        vec![],
        vec![(1, 1)],
        vec![(1, 1), (3, 3)],
        vec![(1, 1), (1, 3), (3, 1), (3, 3)],
        vec![(1, 1), (1, 2), (1, 3), (3, 1), (3, 3)],
    ] {
        let mut b = board_with(5, &live);
        apply_game_of_life_rules(&mut b);
        assert!(!b.get(2, 2));
    }
}

#[test]
fn empty_board_advances_to_empty_board() {
    let mut b = Board::new(0);
    apply_game_of_life_rules(&mut b);
    assert_eq!(b.side(), 0);
}

#[test]
fn dead_board_stays_dead() {
    let mut b = Board::new(6);
    apply_game_of_life_rules(&mut b);
    assert_eq!(b.side(), 6);
    assert!(live_cells(&b).is_empty());
}

#[test]
fn survey_reads_one_frozen_generation() {
    // Updating in place while counting would let (1, 2)'s birth feed (1, 3).
    let mut b = board_with(5, &[(0, 1), (0, 2), (0, 3)]);
    apply_game_of_life_rules(&mut b);
    assert_eq!(live_cells(&b), vec![(0, 2), (1, 2)]);
}
