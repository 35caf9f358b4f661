use npuzzle::board::check_solvability;
use npuzzle::board::create_array_with_increasing_value;
use npuzzle::board::is_valid_state;
use npuzzle::direction::Direction;
use npuzzle::node::get_possible_nodes;
use npuzzle::node::Node;
use npuzzle::scramble::create_puzzle_state;
use npuzzle::solver::AStar;
use npuzzle::solver::Solve;
use npuzzle::solver::SolveError;
use npuzzle::solver::SolvedState;

/// Independent re-implementation of move application, used to check the
/// solver's move lists against the rules of the puzzle.
fn apply_moves_list(state: &[i8], moves: &[Direction]) -> Option<Vec<i8>> {
    let mut s: Vec<i8> = state.to_vec();
    for m in moves {
        let b = s.iter().position(|&x| x == 8)?;
        let row = b / 3;
        let col = b % 3;
        let t: usize = match m {
            Direction::Left => {
                if col < 1 {
                    return None;
                }
                b - 1
            }
            Direction::Right => {
                if col >= 2 {
                    return None;
                }
                b + 1
            }
            Direction::Up => {
                if row < 1 {
                    return None;
                }
                b - 3
            }
            Direction::Down => {
                if row >= 2 {
                    return None;
                }
                b + 3
            }
        };
        s.swap(b, t);
    }
    Some(s)
}

#[test]
fn manhattan_of_goal_is_zero() {
    let goal = create_array_with_increasing_value();
    assert_eq!(Node::manhattan_distance(&goal), 0);
}

#[test]
fn manhattan_of_displaced_state_is_positive() {
    let state: Vec<i8> = vec![1, 0, 2, 3, 4, 5, 6, 7, 8];
    assert!(Node::manhattan_distance(&state) > 0);
}

#[test]
fn manhattan_exact_value_of_reference_scramble() {
    let state: Vec<i8> = vec![5, 2, 3, 1, 8, 4, 6, 0, 7];
    assert_eq!(Node::manhattan_distance(&state), 16);
}

#[test]
fn goal_state_passes_solvability_precheck() {
    let goal = create_array_with_increasing_value();
    assert!(check_solvability(&goal));
}

#[test]
fn odd_parity_state_fails_solvability_precheck() {
    let state: Vec<i8> = vec![1, 0, 2, 3, 4, 5, 6, 7, 8];
    assert!(!check_solvability(&state));
}

#[test]
fn reference_scramble_is_solved() {
    let initial: Vec<i8> = vec![5, 2, 3, 1, 8, 4, 6, 0, 7];
    let mut solver = AStar::new();
    let solved = solver.solve(&initial).expect("the reference scramble is solvable");
    assert!(solver.is_ending_node_reached);
    let goal: Vec<i8> = vec![0, 1, 2, 3, 4, 5, 6, 7, 8];
    assert_eq!(solved.puzzle_state, goal);
    let replayed = apply_moves_list(&initial, &solved.moves).expect("every move must be legal");
    assert_eq!(replayed, goal);
    // one move changes the Manhattan sum by at most 2
    assert!(2 * solved.moves.len() >= Node::manhattan_distance(&initial));
    // the reversal filter shows in the output: no move is undone right away
    for w in solved.moves.windows(2) {
        assert!(w[1] != opposite_of(w[0]));
    }
    assert!(solver.ending_node.is_some());
    assert!(solver.expansions_used > 0);
}

fn opposite_of(d: Direction) -> Direction {
    match d {
        Direction::Left => Direction::Right,
        Direction::Right => Direction::Left,
        Direction::Up => Direction::Down,
        Direction::Down => Direction::Up,
    }
}

#[test]
fn already_solved_input_returns_empty_moves() {
    let initial = create_array_with_increasing_value();
    let mut solver = AStar::new();
    let solved = solver.solve(&initial).expect("the goal itself is solvable");
    assert!(solved.moves.is_empty());
    assert_eq!(solved.puzzle_state, initial);
    assert!(solver.is_ending_node_reached);
}

#[test]
fn duplicate_values_are_rejected() {
    let initial: Vec<i8> = vec![5, 2, 3, 1, 8, 4, 6, 0, 0];
    let mut solver = AStar::new();
    let r = solver.solve(&initial);
    assert!(matches!(r, Err(SolveError::MalformedInput)));
}

#[test]
fn wrong_length_is_rejected() {
    let initial: Vec<i8> = vec![0, 1, 2];
    let mut solver = AStar::new();
    let r = solver.solve(&initial);
    assert!(matches!(r, Err(SolveError::MalformedInput)));
}

#[test]
fn missing_blank_is_rejected() {
    let initial: Vec<i8> = vec![0, 1, 2, 3, 4, 5, 6, 7, 7];
    let mut solver = AStar::new();
    let r = solver.solve(&initial);
    assert!(matches!(r, Err(SolveError::MalformedInput)));
}

#[test]
fn out_of_range_value_is_rejected() {
    let initial: Vec<i8> = vec![0, 1, 2, 3, 4, 5, 6, 7, 9];
    let mut solver = AStar::new();
    let r = solver.solve(&initial);
    assert!(matches!(r, Err(SolveError::MalformedInput)));
}

#[test]
fn zero_expansion_limit_aborts() {
    let initial: Vec<i8> = vec![5, 2, 3, 1, 8, 4, 6, 0, 7];
    let mut solver = AStar::new();
    solver.expansion_limit = 0;
    let r = solver.solve(&initial);
    assert!(matches!(r, Err(SolveError::Aborted)));
    assert!(!solver.is_ending_node_reached);
    // aborting means the whole configured budget was spent
    assert_eq!(solver.expansions_used, 0);
}

#[test]
fn scramble_is_valid_and_passes_precheck() {
    let state = create_puzzle_state();
    assert!(is_valid_state(&state));
    assert!(check_solvability(&state));
}

#[test]
fn move_generator_filters_out_of_bounds_moves() {
    // blank in the bottom-right corner: only Left and Up are legal
    let root = Node::new(create_array_with_increasing_value());
    let children = get_possible_nodes(&root, 0);
    assert_eq!(children.len(), 2);
    for c in &children {
        assert!(c.is_movable);
        assert_eq!(c.length, 1);
        assert!(is_valid_state(&c.puzzle_state));
    }
}

#[test]
fn move_generator_never_reverses_the_incoming_move() {
    let root = Node::new(vec![0, 1, 2, 3, 8, 5, 6, 7, 4]);
    // pretend the blank just moved Left into the center
    let mut parent = Node::new_with_parent(&root, 0, Direction::Left);
    parent.length = 0;
    let children = get_possible_nodes(&parent, 0);
    assert!(!children.is_empty());
    for c in &children {
        assert!(c.direction != Some(Direction::Right));
    }
}

#[test]
fn solved_state_new_keeps_fields() {
    let state: Vec<i8> = vec![0, 1, 2, 3, 4, 5, 6, 7, 8];
    let moves = vec![Direction::Left, Direction::Up];
    let s = SolvedState::new(state.clone(), moves.clone());
    assert_eq!(s.puzzle_state, state);
    assert_eq!(s.moves, moves);
}

#[test]
fn astar_new_starts_unsolved() {
    let solver = AStar::new();
    assert!(!solver.is_ending_node_reached);
    assert!(solver.ending_node.is_none());
    assert_eq!(solver.expansion_limit, npuzzle::solver::DEFAULT_EXPANSION_LIMIT);
    assert_eq!(solver.expansions_used, 0);
}

#[test]
fn move_generator_is_complete_at_the_center() {
    // blank in the center: all four directions are legal from the root
    let root = Node::new(vec![0, 1, 2, 3, 8, 5, 6, 7, 4]);
    let children = get_possible_nodes(&root, 0);
    assert_eq!(children.len(), 4);
    let mut dirs: Vec<Direction> = children.iter().map(|c| c.direction.unwrap()).collect();
    dirs.sort_by_key(|d| match d {
        Direction::Left => 0,
        Direction::Right => 1,
        Direction::Up => 2,
        Direction::Down => 3,
    });
    assert_eq!(dirs, vec![Direction::Left, Direction::Right, Direction::Up, Direction::Down]);
}
