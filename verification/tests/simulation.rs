//! Behavioural tests for the crowd-controlled snake simulation.

use crowd_snake::state::{step_cell, Inner, Tally};
use crowd_snake::{Direction, Snake};

/// The all-zero tally.
fn zero_tally() -> Tally {
    Tally { up: 0, down: 0, left: 0, right: 0 }
}

/// Builds a well-formed state from explicit snake and food cells: the free
/// cells are exactly the rest of the board.
fn build_state(
    size: usize,
    snake: Vec<(usize, usize)>,
    heading: Direction,
    food: Vec<(usize, usize)>,
) -> Inner {
    let mut free = Vec::new();
    for x in 0..size {
        for y in 0..size {
            if !snake.contains(&(x, y)) && !food.contains(&(x, y)) {
                free.push((x, y));
            }
        }
    }
    Inner { size, snake, heading, tally: zero_tally(), food, free }
}

/// Checks the disjointness invariant at runtime: every board cell is in
/// exactly one of snake, food and free, and no list holds duplicates.
fn assert_disjoint_cover(st: &Inner) {
    for x in 0..st.size {
        for y in 0..st.size {
            let c = (x, y);
            let n = st.snake.iter().filter(|&&p| p == c).count()
                + st.food.iter().filter(|&&p| p == c).count()
                + st.free.iter().filter(|&&p| p == c).count();
            assert_eq!(n, 1, "cell {:?} covered {} times", c, n);
        }
    }
    let total = st.snake.len() + st.food.len() + st.free.len();
    assert_eq!(total, st.size * st.size);
}

#[test]
fn disjointness_holds_after_every_tick() {
    let mut st = Inner::new(6);
    assert_disjoint_cover(&st);
    for i in 0..50 {
        st.record_vote(match i % 4 {
            0 => Direction::up,
            1 => Direction::down,
            2 => Direction::left,
            _ => Direction::right,
        });
        st.update();
        assert_disjoint_cover(&st);
    }
}

#[test]
fn length_grows_by_one_exactly_on_food() {
    // Food directly ahead of the head: advancing eats it and grows by one.
    let mut st = build_state(
        5,
        vec![(2, 2), (1, 2), (0, 2)],
        Direction::right,
        vec![(3, 2)],
    );
    let collided = st.advance();
    assert!(!collided);
    assert_eq!(st.snake.len(), 4);
    assert_eq!(st.snake[0], (3, 2));
    assert!(st.food.is_empty());

    // No food ahead: the length is preserved and the tail cell is vacated.
    let mut st = build_state(5, vec![(2, 2), (1, 2), (0, 2)], Direction::right, vec![]);
    let collided = st.advance();
    assert!(!collided);
    assert_eq!(st.snake, vec![(3, 2), (2, 2), (1, 2)]);
    assert!(st.free.contains(&(0, 2)));
    assert!(!st.free.contains(&(3, 2)));
}

#[test]
fn length_never_decreases_without_reset() {
    let mut st = Inner::new(7);
    for _ in 0..60 {
        let before = st.snake.len();
        st.record_vote(Direction::down);
        st.update();
        let start = vec![(2, 0), (1, 0), (0, 0)];
        if st.snake != start {
            assert!(st.snake.len() >= before);
            assert!(st.snake.len() <= before + 1);
        }
    }
}

#[test]
fn opposite_votes_never_reverse_the_heading() {
    // Stuff the tally with votes for the exact opposite of the heading:
    // they are suppressed and the heading stays.
    let mut st = Inner::new(8);
    assert_eq!(st.heading, Direction::right);
    for _ in 0..10 {
        st.record_vote(Direction::left);
    }
    st.update();
    assert_ne!(st.heading, Direction::left);
    assert_eq!(st.heading, Direction::right);
}

#[test]
fn no_reverse_on_every_tick() {
    let mut st = Inner::new(9);
    for i in 0..80 {
        let entering = st.heading;
        st.record_vote(match i % 4 {
            0 => Direction::up,
            1 => Direction::down,
            2 => Direction::left,
            _ => Direction::right,
        });
        let start = vec![(2, 0), (1, 0), (0, 0)];
        st.update();
        if !(st.snake == start && st.heading == Direction::right) {
            assert_ne!(st.heading, entering.opposite());
        }
    }
}

#[test]
fn toroidal_wraparound_at_all_four_edges() {
    // Up from row 0 lands on the last row, same column.
    assert_eq!(step_cell(5, (2, 0), Direction::up), (2, 4));
    // Down from the last row lands on row 0.
    assert_eq!(step_cell(5, (3, 4), Direction::down), (3, 0));
    // Right from the last column lands on column 0, same row.
    assert_eq!(step_cell(5, (4, 1), Direction::right), (0, 1));
    // Left from column 0 lands on the last column.
    assert_eq!(step_cell(5, (0, 3), Direction::left), (4, 3));
    // Interior steps move by exactly one cell.
    assert_eq!(step_cell(5, (2, 2), Direction::up), (2, 1));
    assert_eq!(step_cell(5, (2, 2), Direction::down), (2, 3));
    assert_eq!(step_cell(5, (2, 2), Direction::right), (3, 2));
    assert_eq!(step_cell(5, (2, 2), Direction::left), (1, 2));
}

#[test]
fn wraparound_through_a_tick() {
    let mut st = build_state(5, vec![(2, 0), (2, 1), (2, 2)], Direction::up, vec![]);
    let collided = st.advance();
    assert!(!collided);
    assert_eq!(st.snake[0], (2, 4));
}

#[test]
fn reset_on_self_collision() {
    // On a 3x3 board the fresh snake spans a whole row: moving right wraps
    // the head onto its own tail, so the very first tick resets.
    let mut st = Inner::new(3);
    st.update();
    assert_eq!(st.snake, vec![(2, 0), (1, 0), (0, 0)]);
    assert!(st.food.is_empty());
    assert_eq!(st.heading, Direction::right);
    assert_disjoint_cover(&st);

    // The same through advance on an explicitly coiled snake.
    let mut st = build_state(
        5,
        vec![(2, 2), (2, 3), (3, 3), (3, 2), (3, 1), (2, 1), (1, 1)],
        Direction::up,
        vec![(0, 0)],
    );
    let collided = st.advance();
    assert!(collided);
    assert_eq!(st.snake, vec![(2, 0), (1, 0), (0, 0)]);
    assert!(st.food.is_empty());
    assert_eq!(st.heading, Direction::right);
    assert_disjoint_cover(&st);
}

#[test]
fn weighted_selection_sole_nonzero_weight_wins() {
    // Tally {up: 0, down: 0, left: 3, right: 0}, heading up (left is not
    // its opposite): whatever the draw, left is the only possible outcome.
    for r in 0..3 {
        let mut st = build_state(5, vec![(2, 2), (1, 2), (0, 2)], Direction::up, vec![]);
        st.record_vote(Direction::left);
        st.record_vote(Direction::left);
        st.record_vote(Direction::left);
        st.suppress_reverse();
        assert_eq!(st.total_votes(), 3);
        st.choose_heading(r);
        assert_eq!(st.heading, Direction::left);
        assert_eq!(st.total_votes(), 0);
    }
}

#[test]
fn zero_votes_keep_the_heading() {
    let mut st = Inner::new(5);
    assert_eq!(st.heading, Direction::right);
    st.update();
    assert_eq!(st.heading, Direction::right);

    let mut st = build_state(6, vec![(3, 3), (2, 3), (1, 3)], Direction::down, vec![]);
    st.suppress_reverse();
    st.choose_heading(0);
    assert_eq!(st.heading, Direction::down);
}

#[test]
fn board_rendering_of_a_known_state() {
    let st = build_state(
        5,
        vec![(0, 0), (1, 0), (2, 0)],
        Direction::right,
        vec![(4, 4)],
    );
    let board = st.get_board();
    assert_eq!(board, "OOO--\n-----\n-----\n-----\n----&\n");
}

#[test]
fn board_rendering_shape_and_characters() {
    let st = Inner::new(4);
    let board = st.get_board();
    assert_eq!(board.len(), 4 * 5);
    let rows: Vec<&str> = board.split('\n').filter(|r| !r.is_empty()).collect();
    assert_eq!(rows.len(), 4);
    assert_eq!(rows[0], "OOO-");
    for row in &rows[1..] {
        assert_eq!(*row, "----");
    }
}

#[test]
fn vote_counts_accumulate_and_only_one_entry_moves() {
    let mut st = Inner::new(5);
    st.record_vote(Direction::up);
    st.record_vote(Direction::up);
    st.record_vote(Direction::down);
    assert_eq!(st.tally.up, 2);
    assert_eq!(st.tally.down, 1);
    assert_eq!(st.tally.left, 0);
    assert_eq!(st.tally.right, 0);
    assert_eq!(st.total_votes(), 3);
}

#[test]
fn suppression_only_zeroes_the_opposite_entry() {
    let mut st = build_state(5, vec![(2, 2), (1, 2), (0, 2)], Direction::up, vec![]);
    st.record_vote(Direction::up);
    st.record_vote(Direction::down);
    st.record_vote(Direction::left);
    st.suppress_reverse();
    assert_eq!(st.tally.down, 0);
    assert_eq!(st.tally.up, 1);
    assert_eq!(st.tally.left, 1);
    assert_eq!(st.tally.right, 0);
}

#[test]
fn spawn_moves_one_free_cell_to_food() {
    let mut st = Inner::new(5);
    let free_before = st.free.len();
    let food_before = st.food.len();
    let c = st.free[3];
    st.spawn_food_at(3);
    assert_eq!(st.free.len(), free_before - 1);
    assert_eq!(st.food.len(), food_before + 1);
    assert!(st.food.contains(&c));
    assert!(!st.free.contains(&c));
    assert_disjoint_cover(&st);
}

#[test]
fn full_board_food_spawn_is_a_noop() {
    // Snake on eight cells of a 3x3 board, food on the ninth, directly
    // ahead: the tick eats it, the board is then completely occupied, and
    // the food-spawn step must do nothing rather than fail.
    let mut st = build_state(
        3,
        vec![
            (0, 1),
            (1, 1),
            (2, 1),
            (0, 2),
            (1, 2),
            (2, 2),
            (1, 0),
            (2, 0),
        ],
        Direction::up,
        vec![(0, 0)],
    );
    assert!(st.free.is_empty());
    st.update();
    assert_eq!(st.snake.len(), 9);
    assert!(st.food.is_empty());
    assert!(st.free.is_empty());
    assert_eq!(st.snake[0], (0, 0));
    assert_disjoint_cover(&st);
}

#[test]
fn weighted_selection_cumulative_boundaries() {
    // Tally {up: 1, down: 2} with heading right (left is suppressed): the
    // walk order up, down, left, right gives up for draw 0 and down for
    // draws 1 and 2.
    for (r, want) in [(0, Direction::up), (1, Direction::down), (2, Direction::down)] {
        let mut st = build_state(5, vec![(2, 2), (1, 2), (0, 2)], Direction::right, vec![]);
        st.record_vote(Direction::up);
        st.record_vote(Direction::down);
        st.record_vote(Direction::down);
        st.suppress_reverse();
        assert_eq!(st.total_votes(), 3);
        st.choose_heading(r);
        assert_eq!(st.heading, want);
    }
}

#[test]
fn reset_restores_the_starting_configuration() {
    let mut st = build_state(
        6,
        vec![(5, 5), (4, 5), (3, 5), (2, 5)],
        Direction::left,
        vec![(0, 3), (1, 4)],
    );
    st.record_vote(Direction::up);
    st.reset();
    assert_eq!(st.snake, vec![(2, 0), (1, 0), (0, 0)]);
    assert!(st.food.is_empty());
    assert_eq!(st.heading, Direction::right);
    assert_eq!(st.total_votes(), 0);
    assert_disjoint_cover(&st);
}

#[test]
fn opposites_pair_up() {
    assert_eq!(Direction::up.opposite(), Direction::down);
    assert_eq!(Direction::down.opposite(), Direction::up);
    assert_eq!(Direction::left.opposite(), Direction::right);
    assert_eq!(Direction::right.opposite(), Direction::left);
}

#[test]
fn simulation_wrapper_votes_ticks_and_renders() {
    let snake = Snake::new(5, 250);
    assert_eq!(snake.interval_ms, 250);
    let board = snake.get_board();
    assert_eq!(board, "OOO--\n-----\n-----\n-----\n-----\n");
    snake.add_direction(Direction::down);
    snake.tick();
    let board = snake.get_board();
    assert_eq!(board.len(), 30);
    // One tick from the start moves the head to (2, 1) or (3, 0); either
    // way the board still shows exactly three snake cells.
    assert_eq!(board.chars().filter(|&ch| ch == 'O').count(), 3);
}
