//! The path validator: replay a candidate direction-per-segment sequence
//! against a fresh grid and report whether the walk stays legal.

use vstd::prelude::*;
use crate::geometry::{Dir, Vec3};
use crate::grid::{Cube, in_bounds, step_state};

verus! {

/// Every walk starts at the grid's origin corner.
pub open spec fn origin() -> (int, int, int) {
    (0int, 0int, 0int)
}

/// The model state before the first segment: the walker stands at the
/// origin, which is already marked visited.
pub open spec fn init_state() -> (Set<(int, int, int)>, (int, int, int)) {
    (Set::<(int, int, int)>::empty().insert(origin()), origin())
}

/// Walk `n` unit steps along `d` from `(visited, pos)`, one `step_state`
/// at a time; None as soon as one step is rejected.
pub open spec fn run_segment(
    visited: Set<(int, int, int)>,
    pos: (int, int, int),
    d: Dir,
    n: nat,
) -> Option<(Set<(int, int, int)>, (int, int, int))>
    decreases n,
{
    if n == 0 {
        Some((visited, pos))
    } else {
        match step_state(visited, pos, d) {
            None => None,
            Some(s) => run_segment(s.0, s.1, d, (n - 1) as nat),
        }
    }
}

/// Replay the first `moves.len()` segments: segment `i` walks
/// `lengths[i]` steps along `moves[i]`. None at the first violation.
pub open spec fn replay(lengths: Seq<u32>, moves: Seq<Dir>) -> Option<
    (Set<(int, int, int)>, (int, int, int)),
>
    decreases moves.len(),
{
    if moves.len() == 0 {
        Some(init_state())
    } else {
        match replay(lengths, moves.drop_last()) {
            None => None,
            Some(s) => run_segment(s.0, s.1, moves.last(), lengths[moves.len() - 1] as nat),
        }
    }
}

/// A candidate `moves` prefix is valid for `lengths` iff its replay
/// completes with no step rejected.
pub open spec fn valid_moves(lengths: Seq<u32>, moves: Seq<Dir>) -> bool {
    moves.len() <= lengths.len() && replay(lengths, moves) is Some
}

/// If the replay already fails on a prefix, it fails on the whole
/// sequence: later segments cannot rescue an illegal walk.
pub proof fn lemma_replay_take_none(lengths: Seq<u32>, moves: Seq<Dir>, i: int)
    requires
        0 <= i <= moves.len(),
        replay(lengths, moves.take(i)) is None,
    ensures
        replay(lengths, moves) is None,
    decreases moves.len(),
{
    if i == moves.len() {
        assert(moves.take(i) =~= moves);
    } else {
        let m1 = moves.drop_last();
        assert(moves.take(i) =~= m1.take(i));
        lemma_replay_take_none(lengths, m1, i);
    }
}

/// Replay `moves` against `lengths` on a fresh grid: start at the origin,
/// mark it, then walk each segment `i` for `lengths[i]` unit steps along
/// `moves[i]`, failing at the first rejected step. The result depends on
/// the two arguments alone.
pub fn are_moves_valid(moves: &Vec<Dir>, lengths: &[u32]) -> (r: bool)
    requires
        moves@.len() <= lengths@.len(),
    ensures
        r == valid_moves(lengths@, moves@),
{
    let mut cube = Cube::new();
    let mut pos = Vec3 { x: 0, y: 0, z: 0 };
    cube.set(&pos, true);
    proof {
        assert(cube.visited() =~= init_state().0);
        assert(moves@.take(0) =~= Seq::<Dir>::empty());
    }
    let mut i: usize = 0;
    while i < moves.len()
        invariant
            i <= moves@.len() <= lengths@.len(),
            moves@.len() == moves.len(),
            cube.wf(),
            in_bounds(pos@),
            replay(lengths@, moves@.take(i as int)) == Some((cube.visited(), pos@)),
        decreases moves@.len() - i,
    {
        let d = moves[i];
        let n = lengths[i];
        let ghost seg_visited = cube.visited();
        let ghost seg_pos = pos@;
        let mut j: u32 = 0;
        while j < n
            invariant
                j <= n,
                i < moves@.len() <= lengths@.len(),
                moves@.len() == moves.len(),
                d == moves@[i as int],
                n == lengths@[i as int],
                cube.wf(),
                in_bounds(pos@),
                replay(lengths@, moves@.take(i as int)) == Some((seg_visited, seg_pos)),
                run_segment(seg_visited, seg_pos, d, n as nat) == run_segment(
                    cube.visited(),
                    pos@,
                    d,
                    (n - j) as nat,
                ),
            decreases n - j,
        {
            let ghost cur_visited = cube.visited();
            let ghost cur_pos = pos@;
            if !cube.try_move_once(&d, &mut pos) {
                proof {
                    assert(run_segment(cur_visited, cur_pos, d, (n - j) as nat) is None);
                    let ext = moves@.take(i as int + 1);
                    assert(ext.drop_last() =~= moves@.take(i as int));
                    assert(ext.last() == d);
                    assert(replay(lengths@, ext) is None);
                    lemma_replay_take_none(lengths@, moves@, i as int + 1);
                }
                return false;
            }
            j = j + 1;
        }
        proof {
            let ext = moves@.take(i as int + 1);
            assert(ext.drop_last() =~= moves@.take(i as int));
            assert(ext.last() == d);
            assert(replay(lengths@, ext) == Some((cube.visited(), pos@)));
        }
        i = i + 1;
    }
    proof {
        assert(moves@.take(moves@.len() as int) =~= moves@);
    }
    true
}

} // verus!
