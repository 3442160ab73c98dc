//! The length-sequence enumerator: a variable-length odometer over the
//! digits {1,2,3} that visits every finite digit sequence exactly once, in
//! increasing numeral order; the checksum filter; and the stride arithmetic
//! that partitions the stream across independent workers.

use vstd::prelude::*;
use vstd::arithmetic::div_mod::{lemma_fundamental_div_mod, lemma_fundamental_div_mod_converse};
use crate::geometry::Dir;
use crate::solver::solve;
use crate::walk::valid_moves;

verus! {

/// Every digit lies in {1, 2, 3}.
pub open spec fn valid_digits(s: Seq<u32>) -> bool {
    forall|i: int| 0 <= i < s.len() ==> 1 <= #[trigger] s[i] <= 3
}

/// The odometer successor of a digit sequence, least-significant digit
/// first: 1 -> 2 and 2 -> 3 in place; 3 -> 1 with a carry into the next
/// position, appending a fresh digit 1 if the carry runs off the end.
pub open spec fn odometer_next(s: Seq<u32>) -> Seq<u32>
    decreases s.len(),
{
    if s.len() == 0 {
        seq![1u32]
    } else if s[0] < 3 {
        s.update(0, (s[0] + 1) as u32)
    } else {
        seq![1u32] + odometer_next(s.drop_first())
    }
}

/// The value of a digit sequence read as a bijective base-3 numeral with
/// the least-significant digit first; the empty sequence denotes 0.
pub open spec fn numeral(s: Seq<u32>) -> nat
    decreases s.len(),
{
    if s.len() == 0 {
        0
    } else {
        (s[0] + 3 * numeral(s.drop_first())) as nat
    }
}

/// Sum of all digits.
pub open spec fn sum_of(s: Seq<u32>) -> int
    decreases s.len(),
{
    if s.len() == 0 {
        0
    } else {
        sum_of(s.drop_last()) + s.last()
    }
}

/// `lengths` admits some full-length direction sequence whose replay is
/// clean.
pub open spec fn solvable(lengths: Seq<u32>) -> bool {
    exists|ms: Seq<Dir>| ms.len() == lengths.len() && valid_moves(lengths, ms)
}

/// One odometer tick raises the numeral value by exactly one and keeps
/// every digit in {1, 2, 3}.
pub proof fn lemma_odometer_increments(s: Seq<u32>)
    requires
        valid_digits(s),
    ensures
        valid_digits(odometer_next(s)),
        numeral(odometer_next(s)) == numeral(s) + 1,
    decreases s.len(),
{
    if s.len() == 0 {
        let o = odometer_next(s);
        assert(o[0] == 1);
        assert(o.drop_first() =~= Seq::<u32>::empty());
        assert(numeral(o) == 1 + 3 * numeral(Seq::<u32>::empty()));
    } else if s[0] < 3 {
        let o = s.update(0, (s[0] + 1) as u32);
        assert(o.drop_first() =~= s.drop_first());
        assert(numeral(o) == o[0] + 3 * numeral(s.drop_first()));
    } else {
        let rest = s.drop_first();
        lemma_odometer_increments(rest);
        let o = odometer_next(s);
        assert(o[0] == 1);
        assert(o.drop_first() =~= odometer_next(rest));
        assert(numeral(o) == 1 + 3 * numeral(odometer_next(rest)));
        assert(numeral(s) == 3 + 3 * numeral(rest));
        assert forall|i: int| 0 <= i < o.len() implies 1 <= #[trigger] o[i] <= 3 by {
            if i > 0 {
                assert(o[i] == odometer_next(rest)[i - 1]);
            }
        }
    }
}

/// Distinct digit sequences have distinct numeral values: the enumeration
/// never repeats a sequence.
pub proof fn lemma_numeral_injective(s: Seq<u32>, t: Seq<u32>)
    requires
        valid_digits(s),
        valid_digits(t),
        numeral(s) == numeral(t),
    ensures
        s == t,
    decreases s.len(),
{
    if s.len() == 0 {
        if t.len() > 0 {
            assert(1 <= t[0]);
            assert(false);
        }
        assert(s =~= t);
    } else if t.len() == 0 {
        assert(1 <= s[0]);
        assert(false);
    } else {
        let a = numeral(s.drop_first());
        let b = numeral(t.drop_first());
        let k = b - a;
        assert(s[0] - t[0] == 3 * k);
        assert(a == b);
        lemma_numeral_injective(s.drop_first(), t.drop_first());
        assert forall|i: int| 0 <= i < s.len() implies s[i] == t[i] by {
            if i > 0 {
                assert(s[i] == s.drop_first()[i - 1]);
                assert(t[i] == t.drop_first()[i - 1]);
            }
        }
        assert(s =~= t);
    }
}

/// The digit sequence whose numeral value is `n`: every value is reached,
/// so the enumeration covers all finite sequences over {1, 2, 3}.
pub open spec fn numeral_digits(n: nat) -> Seq<u32>
    decreases n,
{
    if n == 0 {
        Seq::<u32>::empty()
    } else {
        let d: nat = if n % 3 == 0 {
            3
        } else {
            n % 3
        };
        seq![d as u32] + numeral_digits(((n - d) / 3) as nat)
    }
}

pub proof fn lemma_numeral_digits(n: nat)
    ensures
        valid_digits(numeral_digits(n)),
        numeral(numeral_digits(n)) == n,
    decreases n,
{
    if n > 0 {
        let d: nat = if n % 3 == 0 {
            3
        } else {
            n % 3
        };
        assert(1 <= d <= 3);
        let m = ((n - d) / 3) as nat;
        assert(n - d == 3 * m) by {
            lemma_fundamental_div_mod(n as int, 3);
            if n % 3 == 0 {
                lemma_fundamental_div_mod((n - 3) as int, 3);
                lemma_fundamental_div_mod_converse((n - 3) as int, 3, n as int / 3 - 1, 0);
            } else {
                lemma_fundamental_div_mod_converse((n - d) as int, 3, n as int / 3, 0);
            }
        }
        assert(m < n);
        lemma_numeral_digits(m);
        let s = numeral_digits(n);
        assert(s[0] == d);
        assert(s.drop_first() =~= numeral_digits(m));
        assert(numeral(s) == d + 3 * m);
        assert forall|i: int| 0 <= i < s.len() implies 1 <= #[trigger] s[i] <= 3 by {
            if i > 0 {
                assert(s[i] == numeral_digits(m)[i - 1]);
            }
        }
    }
}

/// Powers of three.
pub open spec fn pow3(n: nat) -> nat
    decreases n,
{
    if n == 0 {
        1
    } else {
        3 * pow3((n - 1) as nat)
    }
}

proof fn lemma_valid_digits_drop_first(s: Seq<u32>)
    requires
        valid_digits(s),
        s.len() > 0,
    ensures
        valid_digits(s.drop_first()),
{
    let rest = s.drop_first();
    assert forall|i: int| 0 <= i < rest.len() implies 1 <= #[trigger] rest[i] <= 3 by {
        assert(rest[i] == s[i + 1]);
    }
}

proof fn lemma_numeral_bounds(s: Seq<u32>)
    requires
        valid_digits(s),
    ensures
        pow3(s.len()) - 1 <= 2 * numeral(s) <= 3 * pow3(s.len()) - 3,
    decreases s.len(),
{
    if s.len() > 0 {
        lemma_valid_digits_drop_first(s);
        lemma_numeral_bounds(s.drop_first());
    }
}

proof fn lemma_pow3_monotone(a: nat, b: nat)
    requires
        a <= b,
    ensures
        pow3(a) <= pow3(b),
    decreases b,
{
    if a < b {
        lemma_pow3_monotone(a, (b - 1) as nat);
    }
}

/// Shorter sequences carry strictly smaller numeral values: the
/// enumeration emits all sequences of one length before any longer one.
pub proof fn lemma_shorter_has_smaller_numeral(s: Seq<u32>, t: Seq<u32>)
    requires
        valid_digits(s),
        valid_digits(t),
        s.len() < t.len(),
    ensures
        numeral(s) < numeral(t),
{
    lemma_numeral_bounds(s);
    lemma_numeral_bounds(t);
    lemma_pow3_monotone(s.len() + 1, t.len());
    assert(pow3((s.len() + 1) as nat) == 3 * pow3(s.len()));
}

/// Every digit sequence is reached: it stands at stream position
/// `numeral(s)`, counting the empty start as position zero.
pub proof fn lemma_enumeration_reaches(s: Seq<u32>)
    requires
        valid_digits(s),
    ensures
        numeral_digits(numeral(s)) == s,
{
    lemma_numeral_digits(numeral(s));
    lemma_numeral_injective(numeral_digits(numeral(s)), s);
}

/// Unfold the carry chain: if the first `i` digits are all 3, the
/// odometer rewrites them to 1 and ticks the remainder of the sequence.
proof fn lemma_odometer_unfold(s: Seq<u32>, i: int)
    requires
        0 <= i <= s.len(),
        forall|j: int| 0 <= j < i ==> s[j] == 3,
    ensures
        odometer_next(s) == Seq::new(i as nat, |k: int| 1u32) + odometer_next(
            s.subrange(i, s.len() as int),
        ),
    decreases i,
{
    if i == 0 {
        assert(s.subrange(0, s.len() as int) =~= s);
        assert(Seq::new(0, |k: int| 1u32) + odometer_next(s) =~= odometer_next(s));
    } else {
        assert(s[0] == 3);
        let rest = s.drop_first();
        lemma_odometer_unfold(rest, i - 1);
        assert(rest.subrange(i - 1, rest.len() as int) =~= s.subrange(i, s.len() as int));
        assert(seq![1u32] + (Seq::new((i - 1) as nat, |k: int| 1u32) + odometer_next(
            s.subrange(i, s.len() as int),
        )) =~= Seq::new(i as nat, |k: int| 1u32) + odometer_next(s.subrange(i, s.len() as int)));
    }
}

/// Apply the odometer rule once, in place: scan from the least-significant
/// digit, turning each 3 into a 1, until a digit below 3 absorbs the
/// carry; append a fresh 1 if none does.
pub fn next_lengths(lengths: Vec<u32>) -> (r: Vec<u32>)
    requires
        valid_digits(lengths@),
    ensures
        r@ == odometer_next(lengths@),
        valid_digits(r@),
        numeral(r@) == numeral(lengths@) + 1,
{
    let ghost orig = lengths@;
    let mut ls = lengths;
    let mut i: usize = 0;
    while i < ls.len()
        invariant
            orig == lengths@,
            valid_digits(orig),
            i <= orig.len(),
            ls@.len() == orig.len(),
            forall|j: int| 0 <= j < i ==> #[trigger] orig[j] == 3,
            forall|j: int| 0 <= j < i ==> #[trigger] ls@[j] == 1,
            forall|j: int| i <= j < orig.len() ==> #[trigger] ls@[j] == orig[j],
        decreases orig.len() - i,
    {
        let ghost pre = ls@;
        let c = ls[i];
        if c < 3 {
            ls[i] = c + 1;
            proof {
                lemma_odometer_increments(orig);
                lemma_odometer_unfold(orig, i as int);
                let tail = orig.subrange(i as int, orig.len() as int);
                assert(tail[0] == orig[i as int]);
                assert(odometer_next(tail) == tail.update(0, (c + 1) as u32));
                let rhs = Seq::new(i as nat, |k: int| 1u32) + tail.update(0, (c + 1) as u32);
                assert(ls@ == pre.update(i as int, (c + 1) as u32));
                assert forall|k: int| 0 <= k < ls@.len() implies ls@[k] == rhs[k] by {
                    if k < i {
                        assert(ls@[k] == pre[k]);
                        assert(pre[k] == 1);
                    } else if k > i {
                        assert(ls@[k] == pre[k]);
                        assert(pre[k] == orig[k]);
                        assert(rhs[k] == tail[k - i]);
                    }
                }
                assert(ls@ =~= rhs);
            }
            return ls;
        }
        ls[i] = 1;
        i = i + 1;
    }
    let ghost pre = ls@;
    ls.push(1);
    proof {
        lemma_odometer_increments(orig);
        lemma_odometer_unfold(orig, orig.len() as int);
        let tail = orig.subrange(orig.len() as int, orig.len() as int);
        assert(tail =~= Seq::<u32>::empty());
        let rhs = Seq::new(orig.len(), |k: int| 1u32) + seq![1u32];
        assert forall|k: int| 0 <= k < ls@.len() implies ls@[k] == rhs[k] by {
            if k < orig.len() {
                assert(ls@[k] == pre[k]);
                assert(pre[k] == 1);
            }
        }
        assert(ls@ =~= rhs);
    }
    ls
}

/// Advance the odometer `steps` times: the numeral value rises by exactly
/// `steps`. Worker `k` of `w` seeds its cursor with `k` ticks and then
/// strides by `w`, so it sees exactly the stream positions congruent to
/// `k` modulo `w`.
pub fn advance_lengths(lengths: Vec<u32>, steps: u64) -> (r: Vec<u32>)
    requires
        valid_digits(lengths@),
    ensures
        valid_digits(r@),
        numeral(r@) == numeral(lengths@) + steps,
{
    let ghost start = lengths@;
    let mut ls = lengths;
    let mut k: u64 = 0;
    while k < steps
        invariant
            k <= steps,
            valid_digits(ls@),
            numeral(ls@) == numeral(start) + k,
        decreases steps - k,
    {
        ls = next_lengths(ls);
        k = k + 1;
    }
    ls
}

/// Every stream position belongs to the worker numbered by its residue:
/// the residue classes modulo the worker count cover the whole stream.
pub proof fn lemma_shard_covers(pos: nat, w: nat)
    requires
        w > 0,
    ensures
        pos % w < w,
        exists|n: nat| pos == pos % w + #[trigger] (n * w),
{
    let p = pos as int;
    let d = w as int;
    lemma_fundamental_div_mod(p, d);
    let q = p / d;
    assert(d * q == q * d) by (nonlinear_arith);
    let n = pos / w;
    assert(pos == pos % w + n * w);
}

/// No stream position belongs to two workers: distinct residues modulo
/// the worker count pick out disjoint position sets.
pub proof fn lemma_shards_disjoint(pos: nat, w: nat, k1: nat, n1: nat, k2: nat, n2: nat)
    requires
        w > 0,
        k1 < w,
        k2 < w,
        pos == k1 + n1 * w,
        pos == k2 + n2 * w,
    ensures
        k1 == k2,
        n1 == n2,
{
    lemma_fundamental_div_mod_converse(pos as int, w as int, n1 as int, k1 as int);
    lemma_fundamental_div_mod_converse(pos as int, w as int, n2 as int, k2 as int);
}

/// The checksum of a candidate: one pre-occupied start cell plus the sum
/// of the segment lengths. A candidate can cover the whole grid only if
/// this equals the total cell count, 64.
pub fn checksum_lengths(lengths: &[u32]) -> (r: u64)
    requires
        valid_digits(lengths@),
        lengths@.len() <= 0xffff_ffff,
    ensures
        r == 1 + sum_of(lengths@),
{
    let mut acc: u64 = 1;
    let mut i: usize = 0;
    while i < lengths.len()
        invariant
            valid_digits(lengths@),
            lengths@.len() <= 0xffff_ffff,
            i <= lengths@.len(),
            acc == 1 + sum_of(lengths@.take(i as int)),
            acc <= 1 + 3 * i,
        decreases lengths@.len() - i,
    {
        proof {
            assert(lengths@.take(i as int + 1).drop_last() =~= lengths@.take(i as int));
            assert(lengths@.take(i as int + 1).last() == lengths@[i as int]);
        }
        acc = acc + lengths[i] as u64;
        i = i + 1;
    }
    proof {
        assert(lengths@.take(lengths@.len() as int) =~= lengths@);
    }
    acc
}

/// Evaluate one enumerated candidate: sequences whose checksum misses the
/// cell count are dismissed without ever consulting the solver; the rest
/// go to the solver, whose verdict is final in both directions.
pub fn check_candidate(lengths: &Vec<u32>) -> (r: Option<Vec<Dir>>)
    requires
        valid_digits(lengths@),
        lengths@.len() <= 0xffff_ffff,
    ensures
        1 + sum_of(lengths@) != 64 ==> r is None,
        r matches Some(m) ==> 1 + sum_of(lengths@) == 64 && m@.len() == lengths@.len()
            && valid_moves(lengths@, m@),
        (r is None && 1 + sum_of(lengths@) == 64) ==> !solvable(lengths@),
{
    let c = checksum_lengths(lengths.as_slice());
    if c != 64 {
        None
    } else {
        solve(lengths.as_slice())
    }
}

} // verus!
