//! The occupancy grid: a 4x4x4 cube of visited/unvisited cells, with a
//! bounds check and the single-step "attempt move" primitive.

use vstd::prelude::*;
use crate::geometry::{Dir, Vec3, dir_delta, triple_add};

verus! {

/// True iff every coordinate of `p` lies in [0, 4).
pub open spec fn in_bounds(p: (int, int, int)) -> bool {
    &&& 0 <= p.0 < 4
    &&& 0 <= p.1 < 4
    &&& 0 <= p.2 < 4
}

/// Linear index of an in-bounds coordinate triple: z-major, then y, then x.
pub open spec fn cell_index(p: (int, int, int)) -> int {
    p.2 * 16 + p.1 * 4 + p.0
}

/// Number of `true` entries in a boolean sequence.
pub open spec fn count_true(s: Seq<bool>) -> nat
    decreases s.len(),
{
    if s.len() == 0 {
        0
    } else {
        count_true(s.drop_last()) + if s.last() {
            1nat
        } else {
            0nat
        }
    }
}

/// One attempted step of the walk, on the mathematical model: from position
/// `pos` with `visited` cells already occupied, move one cell along `d`.
/// The step succeeds iff the destination is in bounds and unvisited; on
/// success the cell being left — not the destination — becomes visited.
pub open spec fn step_state(visited: Set<(int, int, int)>, pos: (int, int, int), d: Dir) -> Option<
    (Set<(int, int, int)>, (int, int, int)),
> {
    let next = triple_add(pos, dir_delta(d));
    if in_bounds(next) && !visited.contains(next) {
        Some((visited.insert(pos), next))
    } else {
        None
    }
}

proof fn lemma_cell_index_injective(p: (int, int, int), q: (int, int, int))
    requires
        in_bounds(p),
        in_bounds(q),
        cell_index(p) == cell_index(q),
    ensures
        p == q,
{
}

proof fn lemma_count_true_update(s: Seq<bool>, i: int)
    requires
        0 <= i < s.len(),
        !s[i],
    ensures
        count_true(s.update(i, true)) == count_true(s) + 1,
    decreases s.len(),
{
    if i == s.len() - 1 {
        assert(s.update(i, true).drop_last() =~= s.drop_last());
    } else {
        assert(s.update(i, true).drop_last() =~= s.drop_last().update(i, true));
        lemma_count_true_update(s.drop_last(), i);
    }
}

/// A fixed 4x4x4 grid of visited flags, stored flat in `cell_index` order.
pub struct Cube {
    cells: Vec<bool>,
}

impl Cube {
    /// The backing storage holds exactly one flag per cell.
    pub closed spec fn wf(self) -> bool {
        self.cells@.len() == 64
    }

    /// The set of in-bounds coordinates whose cell is marked visited.
    pub closed spec fn visited(self) -> Set<(int, int, int)> {
        Set::new(|p: (int, int, int)| in_bounds(p) && self.cells@[cell_index(p)])
    }

    /// How many cells are marked visited.
    pub closed spec fn visited_count(self) -> nat {
        count_true(self.cells@)
    }

    /// A fresh grid with every cell unvisited.
    pub fn new() -> (c: Cube)
        ensures
            c.wf(),
            c.visited() == Set::<(int, int, int)>::empty(),
            c.visited_count() == 0,
    {
        let mut cells: Vec<bool> = Vec::new();
        let mut i: usize = 0;
        while i < 64
            invariant
                i <= 64,
                cells@.len() == i,
                count_true(cells@) == 0,
                forall|j: int| 0 <= j < i ==> !cells@[j],
            decreases 64 - i,
        {
            let ghost prev = cells@;
            cells.push(false);
            proof {
                assert(cells@.drop_last() =~= prev);
            }
            i = i + 1;
        }
        let c = Cube { cells };
        proof {
            assert(c.visited() =~= Set::<(int, int, int)>::empty());
        }
        c
    }

    /// Whether `vec` lies inside the grid.
    pub fn is_inside(&self, vec: &Vec3) -> (r: bool)
        ensures
            r == in_bounds(vec@),
    {
        vec.x >= 0 && vec.x < 4 && vec.y >= 0 && vec.y < 4 && vec.z >= 0 && vec.z < 4
    }

    /// Read one cell's visited flag. The caller must guarantee the
    /// coordinate is inside the grid.
    pub fn get(&self, vec: &Vec3) -> (r: bool)
        requires
            self.wf(),
            in_bounds(vec@),
        ensures
            r == self.visited().contains(vec@),
    {
        let index = (vec.z * 16 + vec.y * 4 + vec.x) as usize;
        self.cells[index]
    }

    /// Write one cell's visited flag. The caller must guarantee the
    /// coordinate is inside the grid.
    pub fn set(&mut self, vec: &Vec3, value: bool)
        requires
            old(self).wf(),
            in_bounds(vec@),
        ensures
            final(self).wf(),
            value ==> final(self).visited() == old(self).visited().insert(vec@),
            !value ==> final(self).visited() == old(self).visited().remove(vec@),
            value && !old(self).visited().contains(vec@) ==> final(self).visited_count() == old(
                self,
            ).visited_count() + 1,
            value && old(self).visited().contains(vec@) ==> *final(self) == *old(self),
    {
        let ghost prev = *self;
        let index = (vec.z * 16 + vec.y * 4 + vec.x) as usize;
        if value && self.cells[index] {
            // The cell is already marked: writing `true` changes nothing.
            proof {
                assert(prev.visited().contains(vec@));
            }
            return ;
        }
        self.cells[index] = value;
        proof {
            assert forall|p: (int, int, int)|
                in_bounds(p) && p != vec@ implies cell_index(p) != cell_index(vec@) by {
                if cell_index(p) == cell_index(vec@) {
                    lemma_cell_index_injective(p, vec@);
                }
            }
            if value {
                assert(self.visited() =~= prev.visited().insert(vec@));
                assert(!prev.cells@[cell_index(vec@)]);
                lemma_count_true_update(prev.cells@, cell_index(vec@));
            } else {
                assert(self.visited() =~= prev.visited().remove(vec@));
            }
        }
    }

    /// Attempt one unit step from `*pos` along `dir`: if the destination
    /// cell is inside the grid and unvisited, mark the cell being left as
    /// visited, advance `*pos`, and return true; otherwise change nothing
    /// and return false. Mirrors `step_state` on the model exactly.
    pub fn try_move_once(&mut self, dir: &Dir, pos: &mut Vec3) -> (r: bool)
        requires
            old(self).wf(),
            in_bounds(old(pos)@),
        ensures
            final(self).wf(),
            r == (step_state(old(self).visited(), old(pos)@, *dir) is Some),
            r ==> {
                &&& final(pos)@ == triple_add(old(pos)@, dir_delta(*dir))
                &&& in_bounds(final(pos)@)
                &&& final(self).visited().contains(old(pos)@)
                &&& final(self).visited() == old(self).visited().insert(old(pos)@)
                &&& step_state(old(self).visited(), old(pos)@, *dir) == Some(
                    (final(self).visited(), final(pos)@),
                )
            },
            r && !old(self).visited().contains(old(pos)@) ==> final(self).visited_count() == old(
                self,
            ).visited_count() + 1,
            r && old(self).visited().contains(old(pos)@) ==> final(self).visited_count() == old(
                self,
            ).visited_count(),
            !r ==> *final(self) == *old(self) && *final(pos) == *old(pos),
    {
        let next_pos = pos.add(dir.to_vec3());
        if self.is_inside(&next_pos) && !self.get(&next_pos) {
            self.set(pos, true);
            *pos = next_pos;
            true
        } else {
            false
        }
    }
}

} // verus!
