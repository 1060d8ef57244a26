use game_of_live::game::{Game, Grid};

/// All live cell coordinates of `b`, in row-major order.
fn live_cells(b: &Grid) -> Vec<(usize, usize)> {
    let mut v: Vec<(usize, usize)> = Vec::new();
    let n = b.get_size();
    for y in 0..n {
        for x in 0..n {
            if b.is_field_alive(x, y) {
                v.push((x, y));
            }
        }
    }
    v
}

fn sorted(mut v: Vec<(usize, usize)>) -> Vec<(usize, usize)> {
    v.sort();
    v
}

#[test]
fn new_engine_is_dead_at_generation_zero() {
    let g = Game::new(4);
    let b = g.get_board();
    assert_eq!(b.get_size(), 4);
    assert_eq!(b.get_generation(), 0);
    assert!(live_cells(&b).is_empty());
}

#[test]
fn grid_constructor_matches_engine_view() {
    let grid = Grid::new(3);
    assert_eq!(grid.get_size(), 3);
    assert_eq!(grid.get_generation(), 0);
    assert!(live_cells(&grid).is_empty());
}

#[test]
fn toggle_returns_new_liveness() {
    let mut g = Game::new(3);
    assert_eq!(g.toggle_field(1, 1), true);
    assert!(g.get_board().is_field_alive(1, 1));
    assert_eq!(g.toggle_field(1, 1), false);
    assert!(!g.get_board().is_field_alive(1, 1));
}

#[test]
fn single_cell_grid_has_no_neighbors() {
    // On a grid of side 1 the single cell has zero neighbors: under the
    // default rules it dies (0 is not a survival threshold) ...
    let mut g = Game::new(1);
    g.toggle_field(0, 0);
    g.advance();
    assert!(!g.get_board().is_field_alive(0, 0));

    // ... and with survive = {0} it lives forever.
    let mut h = Game::new_with_rules(1, vec![], vec![0]);
    h.toggle_field(0, 0);
    for _ in 0..3 {
        h.advance();
        assert!(h.get_board().is_field_alive(0, 0));
    }
}

#[test]
fn full_board_reveals_neighbor_counts() {
    // On a fully live 4x4 board under the default rules, only cells with
    // exactly 2 or 3 live neighbors survive: corners have 3, edges 5,
    // interior cells 8, so exactly the four corners remain.
    let mut g = Game::new(4);
    for y in 0..4 {
        for x in 0..4 {
            g.toggle_field(x, y);
        }
    }
    g.advance();
    assert_eq!(
        sorted(live_cells(&g.get_board())),
        vec![(0, 0), (0, 3), (3, 0), (3, 3)]
    );
}

#[test]
fn generation_counts_advances() {
    let mut g = Game::new(3);
    assert_eq!(g.get_board().get_generation(), 0);
    for i in 0..5u32 {
        let prev = g.advance();
        assert_eq!(prev.get_generation(), i);
        assert_eq!(g.get_board().get_generation(), i + 1);
    }
}

#[test]
fn advance_is_deterministic() {
    let mut a = Game::new(5);
    let mut b = Game::new(5);
    for (x, y) in [(0, 0), (1, 2), (2, 2), (3, 2), (4, 4), (2, 0)] {
        a.toggle_field(x, y);
        b.toggle_field(x, y);
    }
    for _ in 0..4 {
        a.advance();
        b.advance();
        assert_eq!(live_cells(&a.get_board()), live_cells(&b.get_board()));
    }
}

#[test]
fn empty_rules_clear_the_board() {
    let mut g = Game::new_with_rules(5, vec![], vec![]);
    for (x, y) in [(0, 0), (1, 1), (2, 3), (4, 4), (3, 0)] {
        g.toggle_field(x, y);
    }
    let prev = g.advance();
    // the snapshot still shows the old configuration ...
    assert_eq!(live_cells(&prev).len(), 5);
    // ... and the new generation is completely dead.
    assert!(live_cells(&g.get_board()).is_empty());
}

#[test]
fn block_is_still_life() {
    let mut g = Game::new(4);
    for (x, y) in [(1, 1), (1, 2), (2, 1), (2, 2)] {
        g.toggle_field(x, y);
    }
    g.advance();
    assert_eq!(
        sorted(live_cells(&g.get_board())),
        vec![(1, 1), (1, 2), (2, 1), (2, 2)]
    );
}

#[test]
fn blinker_oscillates() {
    let mut g = Game::new(5);
    for (x, y) in [(1, 2), (2, 2), (3, 2)] {
        g.toggle_field(x, y);
    }
    g.advance();
    assert_eq!(
        sorted(live_cells(&g.get_board())),
        vec![(2, 1), (2, 2), (2, 3)]
    );
    g.advance();
    assert_eq!(
        sorted(live_cells(&g.get_board())),
        vec![(1, 2), (2, 2), (3, 2)]
    );
}

#[test]
fn glider_travels() {
    let mut g = Game::new(6);
    for (x, y) in [(1, 0), (2, 1), (0, 2), (1, 2), (2, 2)] {
        g.toggle_field(x, y);
    }
    for _ in 0..4 {
        g.advance();
    }
    // after four steps the glider has moved one cell down and one right
    assert_eq!(
        sorted(live_cells(&g.get_board())),
        vec![(1, 3), (2, 1), (2, 3), (3, 2), (3, 3)]
    );
}

#[test]
fn resize_resets_state() {
    let mut g = Game::new(4);
    for (x, y) in [(1, 1), (1, 2), (2, 1), (2, 2)] {
        g.toggle_field(x, y);
    }
    g.advance();
    g.advance();
    g.resize(6);
    let b = g.get_board();
    assert_eq!(b.get_size(), 6);
    assert_eq!(b.get_generation(), 0);
    assert!(live_cells(&b).is_empty());
}

#[test]
fn resize_keeps_the_rules() {
    let mut g = Game::new_with_rules(4, vec![], vec![]);
    g.resize(3);
    g.toggle_field(1, 1);
    g.advance();
    // the empty rule set survived the resize: the cell died
    assert!(live_cells(&g.get_board()).is_empty());
}

#[test]
fn same_rules_same_outcome() {
    let mut a = Game::new(5);
    let mut b = Game::new(5);
    for (x, y) in [(1, 2), (2, 2), (3, 2), (0, 0)] {
        a.toggle_field(x, y);
        b.toggle_field(x, y);
    }
    // re-installing the values already in effect changes nothing
    b.set_rules(vec![3], vec![2, 3]);
    a.advance();
    b.advance();
    assert_eq!(live_cells(&a.get_board()), live_cells(&b.get_board()));
}

#[test]
fn set_rules_takes_effect_on_next_advance() {
    let mut g = Game::new(4);
    for (x, y) in [(1, 1), (1, 2), (2, 1), (2, 2)] {
        g.toggle_field(x, y);
    }
    g.set_rules(vec![], vec![]);
    g.advance();
    assert!(live_cells(&g.get_board()).is_empty());
}

#[test]
fn birth_rule_governs_dead_cells() {
    // born = {1}, survive = {}: the lone live center dies and every one of
    // its eight neighbors, each seeing exactly one live cell, is born.
    let mut g = Game::new_with_rules(3, vec![1], vec![]);
    g.toggle_field(1, 1);
    g.advance();
    assert_eq!(
        sorted(live_cells(&g.get_board())),
        vec![
            (0, 0),
            (0, 1),
            (0, 2),
            (1, 0),
            (1, 2),
            (2, 0),
            (2, 1),
            (2, 2),
        ]
    );
}

#[test]
fn advance_returns_prior_snapshot() {
    let mut g = Game::new(3);
    g.toggle_field(0, 0);
    let prev = g.advance();
    assert_eq!(prev.get_generation(), 0);
    assert!(prev.is_field_alive(0, 0));
    // the snapshot is an independent copy: further mutation of the engine
    // does not touch it
    g.toggle_field(0, 0);
    g.toggle_field(2, 2);
    assert!(prev.is_field_alive(0, 0));
    assert!(!prev.is_field_alive(2, 2));
}

#[test]
fn empty_grid_engine_is_valid() {
    let mut g = Game::new(0);
    assert_eq!(g.get_board().get_size(), 0);
    g.advance();
    g.advance();
    assert_eq!(g.get_board().get_generation(), 2);
    assert_eq!(g.get_board().get_size(), 0);
}

#[test]
fn inert_thresholds_are_accepted() {
    // a threshold no real neighbor count can reach is accepted and inert
    let mut a = Game::new_with_rules(4, vec![3, 200], vec![2, 3, 9]);
    let mut b = Game::new(4);
    for (x, y) in [(1, 1), (1, 2), (2, 1), (2, 2), (0, 0)] {
        a.toggle_field(x, y);
        b.toggle_field(x, y);
    }
    a.advance();
    b.advance();
    assert_eq!(live_cells(&a.get_board()), live_cells(&b.get_board()));
}
