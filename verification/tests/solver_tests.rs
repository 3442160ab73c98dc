use snake_cube::geometry::Dir;
use snake_cube::solver::{advance_attempt, default_lengths, solve, solve_default};
use snake_cube::walk::are_moves_valid;

fn all_dirs() -> [Dir; 6] {
    [Dir::Right, Dir::Left, Dir::Up, Dir::Down, Dir::Forward, Dir::Backward]
}

#[test]
fn obviously_valid_moves() {
    let lengths = default_lengths();
    assert!(are_moves_valid(&vec![], &lengths));
    assert!(are_moves_valid(&vec![Dir::Backward], &lengths));
    assert!(are_moves_valid(&vec![Dir::Backward, Dir::Up], &lengths));
    assert!(are_moves_valid(&vec![Dir::Backward, Dir::Up, Dir::Right], &lengths));
}

#[test]
fn validator_is_deterministic() {
    let lengths: Vec<u32> = vec![2, 3, 1];
    let moves = vec![Dir::Right, Dir::Up, Dir::Right];
    let first = are_moves_valid(&moves, &lengths);
    let second = are_moves_valid(&moves, &lengths);
    assert_eq!(first, second);
    let third = are_moves_valid(&moves, &lengths);
    assert_eq!(first, third);
}

#[test]
fn empty_moves_trivially_valid() {
    let lengths: Vec<u32> = vec![];
    let moves: Vec<Dir> = vec![];
    assert!(are_moves_valid(&moves, &lengths));
}

#[test]
fn two_cell_segment_along_x() {
    let lengths: Vec<u32> = vec![2];
    assert!(are_moves_valid(&vec![Dir::Right], &lengths));
}

#[test]
fn straight_line_in_two_segments() {
    // The second segment continues into a fresh cell, so the walk stays
    // legal even without a turn.
    let lengths: Vec<u32> = vec![1, 1];
    assert!(are_moves_valid(&vec![Dir::Right, Dir::Right], &lengths));
}

#[test]
fn reversal_collides_with_the_start() {
    // Stepping back re-enters the pre-occupied starting cell.
    let lengths: Vec<u32> = vec![1, 1];
    assert!(!are_moves_valid(&vec![Dir::Right, Dir::Left], &lengths));
}

#[test]
fn leaving_the_grid_is_invalid() {
    let lengths: Vec<u32> = vec![1];
    assert!(!are_moves_valid(&vec![Dir::Left], &lengths));
    assert!(!are_moves_valid(&vec![Dir::Down], &lengths));
    assert!(!are_moves_valid(&vec![Dir::Forward], &lengths));
    let long: Vec<u32> = vec![4];
    assert!(!are_moves_valid(&vec![Dir::Right], &long));
}

#[test]
fn advance_attempt_walks_the_canonical_order() {
    assert_eq!(advance_attempt(vec![]), None);
    assert_eq!(advance_attempt(vec![Dir::Right]), Some(vec![Dir::Left]));
    assert_eq!(advance_attempt(vec![Dir::Backward]), None);
    assert_eq!(
        advance_attempt(vec![Dir::Up, Dir::Backward]),
        Some(vec![Dir::Down])
    );
    assert_eq!(
        advance_attempt(vec![Dir::Backward, Dir::Backward, Dir::Forward]),
        Some(vec![Dir::Backward, Dir::Backward, Dir::Backward])
    );
}

#[test]
fn solver_soundness_on_small_instances() {
    let empty: Vec<u32> = vec![];
    assert_eq!(solve(&empty), Some(vec![]));

    let cases: [&[u32]; 4] = [&[2], &[3, 3], &[1, 1, 1], &[3, 1, 3]];
    for lengths in cases {
        let witness = solve(lengths).expect("instance should be satisfiable");
        assert_eq!(witness.len(), lengths.len());
        assert!(are_moves_valid(&witness, lengths));
    }
}

#[test]
fn solver_completeness_single_segment() {
    // A straight run of four steps cannot fit in a four-cell-wide grid.
    let lengths: Vec<u32> = vec![4];
    assert_eq!(solve(&lengths), None);
    for d in all_dirs() {
        assert!(!are_moves_valid(&vec![d], &lengths));
    }
}

#[test]
fn solver_completeness_two_segments() {
    // Brute force over all 36 direction pairs agrees with the verdict.
    let lengths: Vec<u32> = vec![4, 1];
    assert_eq!(solve(&lengths), None);
    for a in all_dirs() {
        for b in all_dirs() {
            assert!(!are_moves_valid(&vec![a, b], &lengths));
        }
    }
    let solvable: Vec<u32> = vec![3, 2];
    let witness = solve(&solvable).expect("a three-step run then a turn fits");
    let mut found = false;
    for a in all_dirs() {
        for b in all_dirs() {
            if are_moves_valid(&vec![a, b], &solvable) {
                found = true;
            }
        }
    }
    assert!(found);
    assert!(are_moves_valid(&witness, &solvable));
}

#[test]
fn fixed_instance_has_a_witness() {
    let lengths = default_lengths();
    let witness = solve(&lengths).expect("the fixed sequence is satisfiable");
    assert_eq!(witness.len(), lengths.len());
    assert!(are_moves_valid(&witness, &lengths));
}

#[test]
fn solve_default_matches_solving_the_fixed_lengths() {
    let direct = solve_default();
    let via_solve = solve(&default_lengths());
    assert_eq!(direct, via_solve);
}
