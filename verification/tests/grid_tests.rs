use snake_cube::geometry::{Dir, Vec3};
use snake_cube::grid::Cube;

fn visited_count(cube: &Cube) -> usize {
    let mut n: usize = 0;
    for z in 0..4 {
        for y in 0..4 {
            for x in 0..4 {
                if cube.get(&Vec3 { x, y, z }) {
                    n += 1;
                }
            }
        }
    }
    n
}

#[test]
fn move_a_few_times() {
    let mut cube = Cube::new();
    let mut pos = Vec3 { x: 0, y: 0, z: 0 };
    assert!(cube.try_move_once(&Dir::Backward, &mut pos));
    assert!(cube.try_move_once(&Dir::Backward, &mut pos));
    assert!(cube.try_move_once(&Dir::Up, &mut pos));
    assert!(cube.try_move_once(&Dir::Up, &mut pos));
    assert!(cube.try_move_once(&Dir::Right, &mut pos));
    assert!(cube.try_move_once(&Dir::Right, &mut pos));
}

#[test]
fn grid_bounds() {
    let cube = Cube::new();
    for z in 0..4 {
        for y in 0..4 {
            for x in 0..4 {
                assert!(cube.is_inside(&Vec3 { x, y, z }));
            }
        }
    }
    assert!(!cube.is_inside(&Vec3 { x: -1, y: 0, z: 0 }));
    assert!(!cube.is_inside(&Vec3 { x: 4, y: 0, z: 0 }));
    assert!(!cube.is_inside(&Vec3 { x: 0, y: -1, z: 0 }));
    assert!(!cube.is_inside(&Vec3 { x: 0, y: 4, z: 0 }));
    assert!(!cube.is_inside(&Vec3 { x: 0, y: 0, z: -1 }));
    assert!(!cube.is_inside(&Vec3 { x: 0, y: 0, z: 4 }));
    assert!(!cube.is_inside(&Vec3 { x: 5, y: 5, z: 5 }));
}

#[test]
fn successful_step_marks_source_and_adds_one() {
    let mut cube = Cube::new();
    let mut pos = Vec3 { x: 0, y: 0, z: 0 };
    assert_eq!(visited_count(&cube), 0);
    assert!(cube.try_move_once(&Dir::Right, &mut pos));
    assert_eq!(pos, Vec3 { x: 1, y: 0, z: 0 });
    assert!(cube.get(&Vec3 { x: 0, y: 0, z: 0 }));
    assert!(!cube.get(&Vec3 { x: 1, y: 0, z: 0 }));
    assert_eq!(visited_count(&cube), 1);
}

#[test]
fn rejected_step_changes_nothing() {
    let mut cube = Cube::new();
    let mut pos = Vec3 { x: 0, y: 0, z: 0 };
    // Out of bounds.
    assert!(!cube.try_move_once(&Dir::Left, &mut pos));
    assert_eq!(pos, Vec3 { x: 0, y: 0, z: 0 });
    assert_eq!(visited_count(&cube), 0);
    // Collision with a visited destination.
    cube.set(&Vec3 { x: 1, y: 0, z: 0 }, true);
    let before = visited_count(&cube);
    assert!(!cube.try_move_once(&Dir::Right, &mut pos));
    assert_eq!(pos, Vec3 { x: 0, y: 0, z: 0 });
    assert_eq!(visited_count(&cube), before);
}

#[test]
fn set_then_get() {
    let mut cube = Cube::new();
    let v = Vec3 { x: 2, y: 3, z: 1 };
    assert!(!cube.get(&v));
    cube.set(&v, true);
    assert!(cube.get(&v));
    cube.set(&v, false);
    assert!(!cube.get(&v));
}

#[test]
fn direction_order_and_inversion() {
    let all = [Dir::Right, Dir::Left, Dir::Up, Dir::Down, Dir::Forward, Dir::Backward];
    assert_eq!(Dir::first(), Dir::Right);
    assert_eq!(Dir::Right.get_next(), Some(Dir::Left));
    assert_eq!(Dir::Left.get_next(), Some(Dir::Up));
    assert_eq!(Dir::Up.get_next(), Some(Dir::Down));
    assert_eq!(Dir::Down.get_next(), Some(Dir::Forward));
    assert_eq!(Dir::Forward.get_next(), Some(Dir::Backward));
    assert_eq!(Dir::Backward.get_next(), None);
    for d in all {
        assert_eq!(d.invert().invert(), d);
        assert_ne!(d.invert(), d);
    }
}

#[test]
fn unit_displacements() {
    assert_eq!(Dir::Right.to_vec3(), Vec3 { x: 1, y: 0, z: 0 });
    assert_eq!(Dir::Left.to_vec3(), Vec3 { x: -1, y: 0, z: 0 });
    assert_eq!(Dir::Up.to_vec3(), Vec3 { x: 0, y: 1, z: 0 });
    assert_eq!(Dir::Down.to_vec3(), Vec3 { x: 0, y: -1, z: 0 });
    assert_eq!(Dir::Forward.to_vec3(), Vec3 { x: 0, y: 0, z: -1 });
    assert_eq!(Dir::Backward.to_vec3(), Vec3 { x: 0, y: 0, z: 1 });
}

#[test]
fn possible_turns_are_the_perpendiculars() {
    assert_eq!(
        Dir::Right.get_possible_turns(),
        [Dir::Up, Dir::Down, Dir::Forward, Dir::Backward]
    );
    assert_eq!(
        Dir::Left.get_possible_turns(),
        [Dir::Up, Dir::Down, Dir::Forward, Dir::Backward]
    );
    assert_eq!(
        Dir::Up.get_possible_turns(),
        [Dir::Right, Dir::Left, Dir::Forward, Dir::Backward]
    );
    assert_eq!(
        Dir::Backward.get_possible_turns(),
        [Dir::Right, Dir::Left, Dir::Up, Dir::Down]
    );
    let all = [Dir::Right, Dir::Left, Dir::Up, Dir::Down, Dir::Forward, Dir::Backward];
    for d in all {
        let turns = d.get_possible_turns();
        for t in turns {
            assert_ne!(t, d);
            assert_ne!(t, d.invert());
        }
    }
}

#[test]
fn vector_arithmetic() {
    let a = Vec3 { x: 1, y: -2, z: 3 };
    let b = Vec3 { x: 4, y: 5, z: -6 };
    assert_eq!(a.add(b), Vec3 { x: 5, y: 3, z: -3 });
    assert_eq!(a.mul(-2), Vec3 { x: -2, y: 4, z: -6 });
}
