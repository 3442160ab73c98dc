//! The backtracking solver: an iterative depth-first search over direction
//! sequences, with an explicit frontier in place of recursion. Its contract
//! states both soundness (a returned witness replays cleanly) and
//! completeness (a "no solution" verdict rules out every candidate).

use vstd::prelude::*;
use crate::geometry::{Dir, dir_idx, dir_next};
use crate::walk::{are_moves_valid, lemma_replay_take_none, replay, valid_moves};

verus! {

/// `a` is an initial segment of `b`.
pub open spec fn is_prefix(a: Seq<Dir>, b: Seq<Dir>) -> bool {
    a.len() <= b.len() && b.take(a.len() as int) == a
}

/// `ms` and `f` agree strictly below index `i`, where `ms` carries the
/// canonically later direction.
pub open spec fn later_at(ms: Seq<Dir>, f: Seq<Dir>, i: int) -> bool {
    &&& 0 <= i < f.len()
    &&& i < ms.len()
    &&& ms.take(i) == f.take(i)
    &&& dir_idx(ms[i]) > dir_idx(f[i])
}

/// `ms` does not lie strictly before the frontier `f` in depth-first
/// order: either `f` is a prefix of `ms`, or `ms` branches canonically
/// later at the first index where they differ.
pub open spec fn at_or_after(ms: Seq<Dir>, f: Seq<Dir>) -> bool {
    is_prefix(f, ms) || exists|i: int| later_at(ms, f, i)
}

/// The frontier that follows `m` when its deepest level is advanced:
/// trailing order-maximum directions are discarded, then the last
/// remaining direction is replaced by its canonical successor. None when
/// the whole search space below and beside `m` is exhausted.
pub open spec fn advance(m: Seq<Dir>) -> Option<Seq<Dir>>
    decreases m.len(),
{
    if m.len() == 0 {
        None
    } else {
        match dir_next(m.last()) {
            Some(d) => Some(m.drop_last().push(d)),
            None => advance(m.drop_last()),
        }
    }
}

/// Number of nodes in a complete 6-ary tree of height `h`.
pub open spec fn tree_size(h: nat) -> nat
    decreases h,
{
    if h == 0 {
        1
    } else {
        1 + 6 * tree_size((h - 1) as nat)
    }
}

/// Zero-based position of the frontier `f` in a depth-first preorder walk
/// of the complete 6-ary tree of height `depth_left`.
pub open spec fn rank(f: Seq<Dir>, depth_left: nat) -> nat
    decreases f.len(),
{
    if f.len() == 0 {
        0
    } else {
        (1 + dir_idx(f[0]) * tree_size((depth_left - 1) as nat) + rank(
            f.drop_first(),
            (depth_left - 1) as nat,
        )) as nat
    }
}

proof fn lemma_tree_size_pos(h: nat)
    ensures
        tree_size(h) >= 1,
    decreases h,
{
    if h > 0 {
        lemma_tree_size_pos((h - 1) as nat);
    }
}

proof fn lemma_rank_bound(f: Seq<Dir>, d: nat)
    requires
        f.len() <= d,
    ensures
        rank(f, d) < tree_size(d),
    decreases f.len(),
{
    lemma_tree_size_pos(d);
    if f.len() > 0 {
        let t = tree_size((d - 1) as nat);
        lemma_tree_size_pos((d - 1) as nat);
        lemma_rank_bound(f.drop_first(), (d - 1) as nat);
        assert(dir_idx(f[0]) * t <= 5 * t) by (nonlinear_arith)
            requires
                0 <= dir_idx(f[0]) <= 5,
                t >= 0,
        ;
    }
}

proof fn lemma_rank_push(f: Seq<Dir>, x: Dir, d: nat)
    requires
        f.len() < d,
    ensures
        rank(f.push(x), d) == rank(f, d) + 1 + dir_idx(x) * tree_size((d - f.len() - 1) as nat),
    decreases f.len(),
{
    let t = tree_size((d - f.len() - 1) as nat);
    assert(dir_idx(x) * t >= 0) by (nonlinear_arith)
        requires
            0 <= dir_idx(x),
            t >= 0,
    ;
    if f.len() == 0 {
        assert(f.push(x)[0] == x);
        assert(f.push(x).drop_first() =~= Seq::<Dir>::empty());
        assert(rank(f.push(x), d) == (1 + dir_idx(x) * t + rank(Seq::<Dir>::empty(), (d - 1) as nat)) as nat);
    } else {
        let t0 = tree_size((d - 1) as nat);
        assert(dir_idx(f[0]) * t0 >= 0) by (nonlinear_arith)
            requires
                0 <= dir_idx(f[0]),
                t0 >= 0,
        ;
        assert(f.push(x)[0] == f[0]);
        assert(f.push(x).drop_first() =~= f.drop_first().push(x));
        lemma_rank_push(f.drop_first(), x, (d - 1) as nat);
        assert(rank(f.drop_first().push(x), (d - 1) as nat) == rank(f.drop_first(), (d - 1) as nat)
            + 1 + dir_idx(x) * t);
        assert(rank(f.push(x), d) == (1 + dir_idx(f[0]) * t0 + rank(
            f.drop_first().push(x),
            (d - 1) as nat,
        )) as nat);
        assert(rank(f, d) == (1 + dir_idx(f[0]) * t0 + rank(f.drop_first(), (d - 1) as nat)) as nat);
    }
}

proof fn lemma_advance_len(f: Seq<Dir>)
    ensures
        advance(f) matches Some(g) ==> g.len() <= f.len(),
    decreases f.len(),
{
    if f.len() > 0 && dir_next(f.last()) is None {
        lemma_advance_len(f.drop_last());
    }
}

/// Advancing the frontier skips past the whole subtree rooted at it: the
/// new frontier's preorder rank lies beyond every descendant of the old.
proof fn lemma_advance_rank(f: Seq<Dir>, d: nat)
    requires
        1 <= f.len() <= d,
        advance(f) is Some,
    ensures
        rank(advance(f).unwrap(), d) >= rank(f, d) + tree_size((d - f.len()) as nat),
    decreases f.len(),
{
    let dl = f.drop_last();
    let t = tree_size((d - f.len()) as nat);
    assert(dl.push(f.last()) =~= f);
    lemma_rank_push(dl, f.last(), d);
    match dir_next(f.last()) {
        Some(nx) => {
            lemma_rank_push(dl, nx, d);
            assert(dir_idx(nx) == dir_idx(f.last()) + 1);
            assert((dir_idx(f.last()) + 1) * t == dir_idx(f.last()) * t + t) by (nonlinear_arith);
        },
        None => {
            assert(dir_idx(f.last()) == 5);
            lemma_advance_rank(dl, d);
            let t1 = tree_size((d - f.len() + 1) as nat);
            assert(t1 == 1 + 6 * t);
            assert(5 * t + t == 6 * t) by (nonlinear_arith);
        },
    }
}

/// A candidate that is not strictly before `f` stays not strictly before
/// `f` extended by the order's minimum direction.
proof fn lemma_extend_preserves(ms: Seq<Dir>, f: Seq<Dir>)
    requires
        at_or_after(ms, f),
        f.len() < ms.len(),
    ensures
        at_or_after(ms, f.push(Dir::Right)),
{
    let g = f.push(Dir::Right);
    if is_prefix(f, ms) {
        let n = f.len() as int;
        assert(ms.take(n) == f);
        if ms[n] == Dir::Right {
            assert(ms.take(n + 1) =~= g);
        } else {
            assert(g.take(n) =~= f);
            assert(ms.take(n) =~= g.take(n));
            assert(dir_idx(ms[n]) > 0);
            assert(later_at(ms, g, n));
        }
    } else {
        let i = choose|i: int| later_at(ms, f, i);
        assert(g.take(i) =~= f.take(i));
        assert(later_at(ms, g, i));
    }
}

/// How `advance` reshapes a frontier: some position `j` is bumped to its
/// canonical successor and everything after `j` — all order maxima — is
/// discarded; or every entry is the order maximum and None comes back.
spec fn advance_shape(f: Seq<Dir>, g: Seq<Dir>, j: int) -> bool {
    &&& 0 <= j < f.len()
    &&& dir_next(f[j]) is Some
    &&& g == f.take(j).push(dir_next(f[j]).unwrap())
    &&& forall|i: int| j < i < f.len() ==> f[i] == Dir::Backward
}

proof fn lemma_advance_char(f: Seq<Dir>)
    ensures
        advance(f) is None ==> forall|i: int| 0 <= i < f.len() ==> f[i] == Dir::Backward,
        advance(f) matches Some(g) ==> exists|j: int| advance_shape(f, g, j),
    decreases f.len(),
{
    if f.len() == 0 {
    } else {
        let dl = f.drop_last();
        match dir_next(f.last()) {
            Some(nx) => {
                let g = advance(f).unwrap();
                let j = f.len() - 1;
                assert(f.take(j) =~= dl);
                assert(advance_shape(f, g, j));
            },
            None => {
                lemma_advance_char(dl);
                assert(f.last() == Dir::Backward);
                if advance(dl) is Some {
                    let g = advance(dl).unwrap();
                    let j = choose|j: int| advance_shape(dl, g, j);
                    assert(f.take(j) =~= dl.take(j));
                    assert(f[j] == dl[j]);
                    assert forall|i: int| j < i < f.len() implies f[i] == Dir::Backward by {
                        if i < f.len() - 1 {
                            assert(f[i] == dl[i]);
                        } else {
                            assert(f[i] == f.last());
                        }
                    }
                    assert(advance_shape(f, g, j));
                } else {
                    assert forall|i: int| 0 <= i < f.len() implies f[i] == Dir::Backward by {
                        if i < f.len() - 1 {
                            assert(f[i] == dl[i]);
                        } else {
                            assert(f[i] == f.last());
                        }
                    }
                }
            },
        }
    }
}

/// Directions with equal canonical positions are equal.
proof fn lemma_dir_idx_injective(a: Dir, b: Dir)
    requires
        dir_idx(a) == dir_idx(b),
    ensures
        a == b,
{
}

/// A candidate that branches canonically later than the frontier stays at
/// or after the advanced frontier; and if the frontier cannot be advanced,
/// no candidate branches later at all.
proof fn lemma_advance_preserves(ms: Seq<Dir>, f: Seq<Dir>, i: int)
    requires
        later_at(ms, f, i),
    ensures
        advance(f) matches Some(g) ==> at_or_after(ms, g),
        advance(f) is Some,
{
    lemma_advance_char(f);
    if advance(f) is None {
        assert(f[i] == Dir::Backward);
        assert(dir_idx(ms[i]) > 5);
        assert(false);
    }
    let g = advance(f).unwrap();
    let j = choose|j: int| advance_shape(f, g, j);
    if i < j {
        assert(g.take(i) =~= f.take(i));
        assert(g[i] == f[i]);
        assert(later_at(ms, g, i));
    } else if i == j {
        let nx = dir_next(f[j]).unwrap();
        assert(dir_idx(nx) == dir_idx(f[j]) + 1);
        if dir_idx(ms[j]) == dir_idx(nx) {
            lemma_dir_idx_injective(ms[j], nx);
            assert(g.take(j) =~= f.take(j));
            assert(ms.take(j + 1) =~= g) by {
                assert(g.len() == j + 1);
                assert(forall|k: int|
                    0 <= k < j ==> ms.take(j + 1)[k] == #[trigger] ms.take(j)[k]);
            }
            assert(is_prefix(g, ms));
        } else {
            assert(g.take(j) =~= f.take(j));
            assert(g[j] == nx);
            assert(later_at(ms, g, j));
        }
    } else {
        assert(f[i] == Dir::Backward);
        assert(dir_idx(ms[i]) > 5);
        assert(false);
    }
}

/// Pop trailing order-maximum directions off the frontier, then replace
/// the last remaining one by its canonical successor; None once every
/// level is exhausted. Mirrors `advance` on the view exactly.
pub fn advance_attempt(moves: Vec<Dir>) -> (r: Option<Vec<Dir>>)
    ensures
        (r is Some) == (advance(moves@) is Some),
        r matches Some(v) ==> Some(v@) == advance(moves@),
{
    let mut m = moves;
    loop
        invariant
            advance(m@) == advance(moves@),
        decreases m@.len(),
    {
        let ghost before = m@;
        match m.pop() {
            None => {
                return None;
            },
            Some(last) => {
                proof {
                    assert(m@ =~= before.drop_last());
                }
                match last.get_next() {
                    Some(next_last) => {
                        m.push(next_last);
                        return Some(m);
                    },
                    None => {},
                }
            },
        }
    }
}

/// Decide satisfiability of `lengths` by iterative depth-first search:
/// grow the frontier with the canonical-order minimum while it validates,
/// advance it on failure, and stop at the first full-length valid
/// frontier or when the space is exhausted. Either a witness comes back —
/// a full-length sequence whose replay is clean — or None, and then no
/// full-length direction sequence is valid at all.
pub fn solve(lengths: &[u32]) -> (r: Option<Vec<Dir>>)
    ensures
        r matches Some(m) ==> m@.len() == lengths@.len() && valid_moves(lengths@, m@),
        r is None ==> forall|ms: Seq<Dir>|
            ms.len() == lengths@.len() ==> !valid_moves(lengths@, ms),
{
    let ghost l = lengths@;
    let ghost depth = lengths@.len();
    let mut moves: Vec<Dir> = Vec::new();
    proof {
        lemma_rank_bound(moves@, depth);
        assert forall|ms: Seq<Dir>|
            ms.len() == l.len() && valid_moves(l, ms) implies #[trigger] at_or_after(
            ms,
            moves@,
        ) by {
            assert(ms.take(0) =~= Seq::<Dir>::empty());
            assert(is_prefix(moves@, ms));
        }
    }
    loop
        invariant
            moves@.len() <= l.len(),
            l == lengths@,
            depth == l.len(),
            rank(moves@, depth) < tree_size(depth),
            forall|ms: Seq<Dir>|
                ms.len() == l.len() && valid_moves(l, ms) ==> #[trigger] at_or_after(ms, moves@),
        decreases tree_size(depth) - rank(moves@, depth),
    {
        if are_moves_valid(&moves, lengths) {
            if moves.len() >= lengths.len() {
                return Some(moves);
            }
            let ghost before = moves@;
            moves.push(Dir::first());
            proof {
                lemma_rank_push(before, Dir::Right, depth);
                lemma_rank_bound(moves@, depth);
                assert forall|ms: Seq<Dir>|
                    ms.len() == l.len() && valid_moves(l, ms) implies #[trigger] at_or_after(
                    ms,
                    moves@,
                ) by {
                    assert(at_or_after(ms, before));
                    lemma_extend_preserves(ms, before);
                }
            }
        } else {
            let ghost before = moves@;
            proof {
                assert(replay(l, before) is None);
                assert(before.len() > 0);
                assert forall|ms: Seq<Dir>|
                    ms.len() == l.len() && valid_moves(l, ms) implies (exists|i: int|
                    later_at(ms, before, i)) by {
                    assert(at_or_after(ms, before));
                    if is_prefix(before, ms) {
                        assert(ms.take(before.len() as int) == before);
                        lemma_replay_take_none(l, ms, before.len() as int);
                        assert(false);
                    }
                }
            }
            match advance_attempt(moves) {
                Some(next_moves) => {
                    moves = next_moves;
                    proof {
                        lemma_advance_len(before);
                        lemma_advance_rank(before, depth);
                        lemma_tree_size_pos((depth - before.len()) as nat);
                        lemma_rank_bound(moves@, depth);
                        assert forall|ms: Seq<Dir>|
                            ms.len() == l.len() && valid_moves(l, ms) implies #[trigger] at_or_after(
                            ms,
                            moves@,
                        ) by {
                            let i = choose|i: int| later_at(ms, before, i);
                            lemma_advance_preserves(ms, before, i);
                        }
                    }
                },
                None => {
                    proof {
                        assert forall|ms: Seq<Dir>|
                            ms.len() == l.len() implies !valid_moves(l, ms) by {
                            if valid_moves(l, ms) {
                                let i = choose|i: int| later_at(ms, before, i);
                                lemma_advance_preserves(ms, before, i);
                            }
                        }
                    }
                    return None;
                },
            }
        }
    }
}

/// The fixed length sequence of the one-shot entry point.
pub open spec fn fixed_lengths() -> Seq<u32> {
    seq![2u32, 1u32, 1u32, 2u32, 1u32, 2u32, 1u32, 1u32, 2u32, 2u32, 1u32, 1u32, 1u32, 2u32, 2u32, 2u32, 2u32]
}

/// Build the fixed length sequence as a vector.
pub fn default_lengths() -> (r: Vec<u32>)
    ensures
        r@ == fixed_lengths(),
{
    let r: Vec<u32> = vec![2, 1, 1, 2, 1, 2, 1, 1, 2, 2, 1, 1, 1, 2, 2, 2, 2];
    proof {
        assert(r@ =~= fixed_lengths());
    }
    r
}

/// Solve the fixed built-in instance.
pub fn solve_default() -> (r: Option<Vec<Dir>>)
    ensures
        r matches Some(m) ==> m@.len() == fixed_lengths().len() && valid_moves(
            fixed_lengths(),
            m@,
        ),
        r is None ==> forall|ms: Seq<Dir>|
            ms.len() == fixed_lengths().len() ==> !valid_moves(fixed_lengths(), ms),
{
    let lengths = default_lengths();
    solve(lengths.as_slice())
}

} // verus!
