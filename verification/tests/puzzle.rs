use sliding_puzzle::Direction;
use sliding_puzzle::PuzzleError;
use sliding_puzzle::SlidingPuzzle;

fn board(width: usize, height: usize) -> SlidingPuzzle {
    SlidingPuzzle::new(width, height).unwrap()
}

#[test]
fn fresh_boards_are_solved() {
    for (w, h) in [(2, 2), (2, 3), (3, 3), (4, 4), (5, 3), (3, 5), (7, 2)] {
        let game = board(w, h);
        assert!(game.is_sorted());
        assert_eq!(game.size(), w * h);
        assert_eq!(game.blank_value(), w * h);
    }
}

#[test]
fn dimensions_below_two_are_rejected() {
    assert_eq!(
        SlidingPuzzle::new(1, 5).unwrap_err(),
        PuzzleError::ConfigurationError
    );
    assert_eq!(
        SlidingPuzzle::new(5, 1).unwrap_err(),
        PuzzleError::ConfigurationError
    );
    assert_eq!(
        SlidingPuzzle::new(0, 0).unwrap_err(),
        PuzzleError::ConfigurationError
    );
    assert_eq!(
        SlidingPuzzle::new(usize::MAX, 2).unwrap_err(),
        PuzzleError::ConfigurationError
    );
}

#[test]
fn sorted_grid_contents() {
    let game = board(3, 3);
    // column by column: cell (x, y) holds x + y*width + 1
    assert_eq!(game.give_sorted(), vec![1, 4, 7, 2, 5, 8, 3, 6, 9]);
    let game = board(2, 2);
    assert_eq!(game.give_sorted(), vec![1, 3, 2, 4]);
}

#[test]
fn snapshot_of_sorted_three_by_three() {
    let game = board(3, 3);
    let snap = game.render_snapshot();
    let values: Vec<Vec<usize>> = snap
        .iter()
        .map(|col| col.iter().map(|c| c.0).collect())
        .collect();
    assert_eq!(values, vec![vec![1, 4, 7], vec![2, 5, 8], vec![3, 6, 9]]);
    // exactly the bottom-right cell is the blank
    for (x, col) in snap.iter().enumerate() {
        for (y, &(value, is_blank)) in col.iter().enumerate() {
            assert_eq!(is_blank, value == 9);
            assert_eq!(is_blank, (x, y) == (2, 2));
        }
    }
}

#[test]
fn swap_exchanges_two_cells() {
    let mut game = board(3, 3);
    game.swap(0, 0, 1, 1);
    let snap = game.render_snapshot();
    assert_eq!(snap[0][0].0, 5);
    assert_eq!(snap[1][1].0, 1);
    assert_eq!(snap[2][2].0, 9);
    assert!(!game.is_sorted());
}

#[test]
fn swap_is_an_involution() {
    let mut game = board(4, 3);
    let before = game.clone();
    game.swap(0, 2, 3, 1);
    assert_ne!(game, before);
    game.swap(0, 2, 3, 1);
    assert_eq!(game, before);
    // swapping a cell with itself changes nothing
    game.swap(2, 1, 2, 1);
    assert_eq!(game, before);
}

#[test]
fn blank_is_found_at_bottom_right_when_sorted() {
    for (w, h) in [(2, 2), (3, 3), (4, 2), (2, 5)] {
        let game = board(w, h);
        assert_eq!(game.index_blank(), (w - 1, h - 1));
    }
}

#[test]
fn distance_to_home_is_manhattan() {
    let game = board(3, 3);
    for x in 0..3 {
        for y in 0..3 {
            assert_eq!(game.get_distance(x, y), 0);
        }
    }
    let mut game = board(3, 3);
    // put label 1 (home at (0, 0)) in the corner cell (2, 2)
    game.swap(0, 0, 2, 2);
    assert_eq!(game.get_distance(2, 2), 4);
    // the blank label 9 (home at (2, 2)) now sits at (0, 0)
    assert_eq!(game.get_distance(0, 0), 4);
    assert_eq!(game.get_distance(1, 1), 0);
}

#[test]
fn moves_off_the_edge_are_ignored() {
    let mut game = board(3, 3);
    let before = game.clone();
    // blank starts at the bottom-right corner: down and right have no
    // neighbour in bounds
    assert!(!game.apply_move(&Direction::Down(())));
    assert_eq!(game, before);
    assert!(!game.apply_move(&Direction::Right(())));
    assert_eq!(game, before);
}

#[test]
fn legal_move_swaps_blank_with_neighbour() {
    // the concrete scenario: sorted 3x3, blank 9 bottom-right; moving left
    // swaps the blank with its left neighbour, label 8
    let mut game = board(3, 3);
    assert!(game.is_sorted());
    assert!(game.apply_move(&Direction::Left(())));
    assert!(!game.is_sorted());
    assert_eq!(game.index_blank(), (1, 2));
    let snap = game.render_snapshot();
    assert_eq!(snap[2][2].0, 8);
    assert_eq!(snap[1][2].0, 9);
}

#[test]
fn moves_undo_each_other() {
    let mut game = board(3, 3);
    let before = game.clone();
    assert!(game.apply_move(&Direction::Up(())));
    assert!(game.apply_move(&Direction::Down(())));
    assert_eq!(game, before);
}

#[test]
fn cycle_of_moves_thrice_restores_the_board() {
    let mut game = board(3, 3);
    // walk the blank to the centre so it has room on all sides
    assert!(game.apply_move(&Direction::Up(())));
    assert!(game.apply_move(&Direction::Left(())));
    assert_eq!(game.index_blank(), (1, 1));
    let before = game.clone();
    for tour in 0..3 {
        assert!(game.apply_move(&Direction::Up(())));
        assert!(game.apply_move(&Direction::Left(())));
        assert!(game.apply_move(&Direction::Down(())));
        assert!(game.apply_move(&Direction::Right(())));
        // each tour returns the blank home; only the third restores the
        // whole configuration, the single tour rotates three tiles
        assert_eq!(game.index_blank(), (1, 1));
        if tour < 2 {
            assert_ne!(game, before);
        }
    }
    assert_eq!(game, before);
}

#[test]
fn sorted_boards_are_solvability_valid() {
    // the solved configuration is reachable from itself, whatever the size
    // regime: both dimensions small, mixed, or both at least four
    for (w, h) in [
        (2, 2),
        (2, 3),
        (3, 3),
        (3, 4),
        (4, 3),
        (2, 4),
        (2, 5),
        (2, 6),
        (3, 7),
        (4, 4),
        (5, 4),
        (6, 5),
    ] {
        let game = board(w, h);
        assert!(game.is_valid_field(), "sorted {}x{} must be valid", w, h);
    }
}

#[test]
fn one_stray_transposition_breaks_validity() {
    // exchanging two tiles (not a legal move) flips the permutation parity
    // while leaving the blank in place, so the outcome must flip
    for (w, h) in [(2, 2), (3, 3), (3, 4), (4, 4), (5, 4)] {
        let mut game = board(w, h);
        game.swap(0, 0, 1, 1);
        assert!(!game.is_valid_field(), "{}x{} after one swap", w, h);
        game.swap(0, 0, 1, 1);
        assert!(game.is_valid_field());
    }
}

#[test]
fn legal_moves_preserve_validity_from_sorted() {
    // deterministic walk from the sorted 3x3 board: the sorted board is
    // valid and every legal move keeps it so
    let mut game = board(3, 3);
    assert!(game.is_valid_field());
    for dir in [
        Direction::Up(()),
        Direction::Left(()),
        Direction::Down(()),
        Direction::Right(()),
        Direction::Left(()),
        Direction::Up(()),
        Direction::Up(()),
        Direction::Right(()),
    ] {
        game.apply_move(&dir);
        assert!(game.is_valid_field());
    }
}

#[test]
fn legal_moves_preserve_validity() {
    let mut game = board(4, 4);
    game.shuffle().unwrap();
    assert!(game.is_valid_field());
    // walk the blank around; after every legal move the outcome holds
    let dirs = [
        Direction::Up(()),
        Direction::Left(()),
        Direction::Down(()),
        Direction::Right(()),
        Direction::Up(()),
        Direction::Up(()),
        Direction::Left(()),
        Direction::Down(()),
    ];
    for dir in dirs {
        game.apply_move(&dir);
        assert!(game.is_valid_field());
    }
}

#[test]
fn shuffle_gives_unsolved_valid_boards() {
    for (w, h) in [(2, 2), (2, 3), (3, 3), (4, 4), (5, 3)] {
        let mut game = board(w, h);
        game.shuffle().unwrap();
        assert!(!game.is_sorted(), "{}x{} still sorted", w, h);
        assert!(game.is_valid_field(), "{}x{} not valid", w, h);
        // still a permutation: every label occurs exactly once
        let mut labels: Vec<usize> = game
            .render_snapshot()
            .iter()
            .flatten()
            .map(|c| c.0)
            .collect();
        labels.sort();
        let expected: Vec<usize> = (1..=w * h).collect();
        assert_eq!(labels, expected);
    }
}

#[test]
fn shuffle_once_swaps_two_cells() {
    let mut game = board(3, 3);
    let before = game.clone();
    game.shuffle_once();
    // two cells in distinct columns and rows were exchanged
    assert_ne!(game, before);
    let mut labels: Vec<usize> = game.give_sorted();
    labels.sort();
    let mut found: Vec<usize> = game
        .render_snapshot()
        .iter()
        .flatten()
        .map(|c| c.0)
        .collect();
    found.sort();
    assert_eq!(found, labels);
    let differing = before
        .render_snapshot()
        .iter()
        .flatten()
        .zip(game.render_snapshot().iter().flatten())
        .filter(|(a, b)| a != b)
        .count();
    assert_eq!(differing, 2);
}

#[test]
fn bot_random_move_keeps_a_playable_board() {
    let mut game = board(3, 3);
    game.shuffle().unwrap();
    let valid_before = game.is_valid_field();
    for _ in 0..50 {
        game.bot_random_move();
        assert!(game.is_valid_field() == valid_before);
    }
    let mut labels: Vec<usize> = game
        .render_snapshot()
        .iter()
        .flatten()
        .map(|c| c.0)
        .collect();
    labels.sort();
    let expected: Vec<usize> = (1..=9).collect();
    assert_eq!(labels, expected);
}

#[test]
fn direction_carries_its_value() {
    assert_eq!(*Direction::Up(7usize).get_value(), 7);
    assert_eq!(*Direction::Left("tile").get_value(), "tile");
    assert_eq!(*Direction::Down(1u8).get_value(), 1);
    assert_eq!(*Direction::Right(-3i32).get_value(), -3);
}
