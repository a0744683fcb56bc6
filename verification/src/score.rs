//! The score of an outcome: how far the final grid is from the target, the
//! steps taken counted in, brought to a scale from 0 to 1,000,000,000.

use vstd::prelude::*;

verus! {

/// The normalized score of a perfect outcome.
pub const FULL_SCORE: u64 = 1_000_000_000;

/// The largest squared difference of two cells, `(2^32 - 1)^2`.
const MAX_SQUARE: u128 = 0xffff_fffe_0000_0001;

#[derive(Clone, Copy, Debug, PartialEq, Eq, Structural)]
pub struct Score {
    /// `n * n`, plus the number of steps, plus the squared differences.
    pub raw_error: u64,
    /// `1e9 * n * n / raw_error`, rounded to the nearest integer.
    pub normalized: u64,
}

/// The square of the difference of two cells.
pub open spec fn squared_difference(a: u32, b: u32) -> nat {
    ((a - b) * (a - b)) as nat
}

/// The sum of the squared differences over the first `cells` cells.
pub open spec fn distance(current: Seq<u32>, target: Seq<u32>, cells: nat) -> nat
    decreases cells,
{
    if cells == 0 {
        0
    } else {
        distance(current, target, (cells - 1) as nat) + squared_difference(
            current[cells - 1],
            target[cells - 1],
        )
    }
}

/// The raw error of a final grid reached in `steps` steps.
pub open spec fn raw_error(n: nat, current: Seq<u32>, target: Seq<u32>, steps: nat) -> nat {
    n * n + steps + distance(current, target, n * n)
}

/// `1e9 * n * n / raw`, rounded to the nearest integer, halves upwards.
pub open spec fn normalized(n: nat, raw: nat) -> nat {
    ((2 * FULL_SCORE * (n * n) + raw) / ((2 * raw) as int)) as nat
}

/// The score of a final grid reached in `steps` steps: there is one when the
/// raw error is not zero and fits 64 bits.
pub open spec fn evaluation(n: nat, current: Seq<u32>, target: Seq<u32>, steps: nat) -> Option<
    Score,
> {
    let raw = raw_error(n, current, target, steps);
    if 0 < raw <= u64::MAX {
        Some(Score { raw_error: raw as u64, normalized: normalized(n, raw) as u64 })
    } else {
        None
    }
}

/// The squared differences of `cells` cells sum to at most `cells` times the
/// largest one.
proof fn lemma_distance_bound(current: Seq<u32>, target: Seq<u32>, cells: nat)
    ensures
        distance(current, target, cells) <= cells * MAX_SQUARE,
    decreases cells,
{
    if cells > 0 {
        lemma_distance_bound(current, target, (cells - 1) as nat);
        let a = current[cells - 1];
        let b = target[cells - 1];
        assert(0 <= (a - b) * (a - b) <= 0xffff_fffe_0000_0001) by (nonlinear_arith)
            requires
                -0xffff_ffff <= a - b <= 0xffff_ffff,
        ;
        assert(cells * MAX_SQUARE == (cells - 1) * MAX_SQUARE + MAX_SQUARE) by (nonlinear_arith);
    }
}

/// The normalized score never exceeds the full score.
proof fn lemma_normalized_at_most_full(n: nat, raw: nat)
    requires
        n * n <= raw,
        0 < raw,
    ensures
        normalized(n, raw) <= FULL_SCORE,
{
    let cells = n * n;
    assert((2 * FULL_SCORE * cells + raw) / ((2 * raw) as int) <= FULL_SCORE) by (nonlinear_arith)
        requires
            cells <= raw,
            0 < raw,
    ;
}

/// Scores a final grid `current` of size `n` against `target`, when it was
/// reached in `steps` steps.
///
/// Returns `None` when the raw error is zero, which leaves nothing to divide
/// by, or does not fit 64 bits.
pub fn score(n: usize, current: &[u32], target: &[u32], steps: usize) -> (r: Option<Score>)
    requires
        n * n <= current@.len(),
        n * n <= target@.len(),
    ensures
        r == evaluation(n as nat, current@, target@, steps as nat),
{
    assert(current.len() <= usize::MAX);
    let cells = n * n;
    let mut sum: u128 = 0;
    let mut k: usize = 0;
    while k < cells
        invariant
            k <= cells,
            cells <= current@.len(),
            cells <= target@.len(),
            sum == distance(current@, target@, k as nat),
        decreases cells - k,
    {
        let a = current[k] as u64;
        let b = target[k] as u64;
        let d: u64 = if a >= b {
            a - b
        } else {
            b - a
        };
        proof {
            lemma_distance_bound(current@, target@, k as nat);
            lemma_distance_bound(current@, target@, (k + 1) as nat);
            assert(d * d == (a - b) * (a - b)) by (nonlinear_arith)
                requires
                    d == a - b || d == b - a,
            ;
            assert(0 <= d * d <= 0xffff_fffe_0000_0001) by (nonlinear_arith)
                requires
                    0 <= d <= 0xffff_ffff,
            ;
            assert((k + 1) * MAX_SQUARE <= 0x1_0000_0000_0000_0000 * MAX_SQUARE)
                by (nonlinear_arith)
                requires
                    k + 1 <= 0x1_0000_0000_0000_0000,
            ;
        }
        let square = d * d;
        sum = sum + square as u128;
        k += 1;
    }
    proof {
        lemma_distance_bound(current@, target@, cells as nat);
        assert(cells * MAX_SQUARE <= 0x1_0000_0000_0000_0000 * MAX_SQUARE) by (nonlinear_arith)
            requires
                cells <= 0x1_0000_0000_0000_0000,
        ;
    }
    let total: u128 = cells as u128 + steps as u128 + sum;
    if total == 0 || total > u64::MAX as u128 {
        return None;
    }
    proof {
        lemma_normalized_at_most_full(n as nat, total as nat);
        assert(2 * FULL_SCORE * cells <= 2 * FULL_SCORE * 0x1_0000_0000_0000_0000)
            by (nonlinear_arith)
            requires
                cells <= 0x1_0000_0000_0000_0000,
        ;
    }
    let scaled: u128 = 2 * (FULL_SCORE as u128) * (cells as u128);
    let normalized = (scaled + total) / (2 * total);
    Some(Score { raw_error: total as u64, normalized: normalized as u64 })
}

/// The raw error is at least `n * n`, and exactly that when no step was
/// taken and the grid equals the target on all `n * n` cells; the normalized
/// score is at most 1,000,000,000, and above 0 as long as the raw error does
/// not exceed `n * n` two thousand million times.
pub proof fn lemma_score_bounds(n: nat, current: Seq<u32>, target: Seq<u32>, steps: nat)
    requires
        n * n <= current.len(),
        n * n <= target.len(),
        0 < raw_error(n, current, target, steps),
    ensures
        raw_error(n, current, target, steps) >= n * n,
        normalized(n, raw_error(n, current, target, steps)) <= FULL_SCORE,
        0 < normalized(n, raw_error(n, current, target, steps)) <==> raw_error(
            n,
            current,
            target,
            steps,
        ) <= 2 * FULL_SCORE * (n * n),
        raw_error(n, current, target, steps) == n * n <==> steps == 0 && current.take(
            (n * n) as int,
        ) == target.take((n * n) as int),
{
    let raw = raw_error(n, current, target, steps);
    let cells = n * n;
    lemma_normalized_at_most_full(n, raw);
    assert(0 < (2 * FULL_SCORE * cells + raw) / ((2 * raw) as int) <==> raw <= 2 * FULL_SCORE * cells)
        by (nonlinear_arith)
        requires
            0 < raw,
            0 <= cells,
    ;
    lemma_distance_zero(current, target, cells);
    assert(current.take(cells as int) =~= target.take(cells as int) <==> forall|k: int|
        0 <= k < cells ==> current[k] == target[k]) by {
        if forall|k: int| 0 <= k < cells ==> current[k] == target[k] {
            assert(current.take(cells as int) =~= target.take(cells as int));
        }
        if current.take(cells as int) =~= target.take(cells as int) {
            assert forall|k: int| 0 <= k < cells implies current[k] == target[k] by {
                assert(current.take(cells as int)[k] == target.take(cells as int)[k]);
            }
        }
    }
}

/// The squared differences sum to zero exactly when the cells are equal.
proof fn lemma_distance_zero(current: Seq<u32>, target: Seq<u32>, cells: nat)
    ensures
        distance(current, target, cells) == 0 <==> forall|k: int|
            0 <= k < cells ==> current[k] == target[k],
    decreases cells,
{
    if cells > 0 {
        lemma_distance_zero(current, target, (cells - 1) as nat);
        let a = current[cells - 1];
        let b = target[cells - 1];
        assert((a - b) * (a - b) == 0 <==> a == b) by (nonlinear_arith);
        assert((a - b) * (a - b) >= 0) by (nonlinear_arith);
        if distance(current, target, cells) == 0 {
            assert forall|k: int| 0 <= k < cells implies current[k] == target[k] by {
                if k < cells - 1 {
                }
            }
        }
    }
}

/// The squared differences of cells below `bound` sum to at most `cells`
/// times the square of `bound`.
proof fn lemma_distance_of_small_cells(current: Seq<u32>, target: Seq<u32>, cells: nat, bound: nat)
    requires
        forall|k: int| 0 <= k < cells ==> current[k] < bound && target[k] < bound,
    ensures
        distance(current, target, cells) <= cells * (bound * bound),
    decreases cells,
{
    if cells > 0 {
        lemma_distance_of_small_cells(current, target, (cells - 1) as nat, bound);
        let a = current[cells - 1];
        let b = target[cells - 1];
        assert(0 <= (a - b) * (a - b) <= bound * bound) by (nonlinear_arith)
            requires
                0 <= a < bound,
                0 <= b < bound,
        ;
        assert(cells * (bound * bound) == (cells - 1) * (bound * bound) + bound * bound)
            by (nonlinear_arith);
    }
}

/// On an instance whose cells lie below 50 the normalized score is above 0
/// as long as there are at most `1_999_997_499 * n * n` steps.
pub proof fn lemma_score_positive(n: nat, current: Seq<u32>, target: Seq<u32>, steps: nat)
    requires
        n >= 1,
        n * n <= current.len(),
        n * n <= target.len(),
        forall|k: int| 0 <= k < n * n ==> current[k] < 50 && target[k] < 50,
        steps <= 1_999_997_499 * (n * n),
    ensures
        0 < normalized(n, raw_error(n, current, target, steps)) <= FULL_SCORE,
{
    let cells = n * n;
    assert(cells >= 1) by (nonlinear_arith)
        requires
            cells == n * n,
            n >= 1,
    ;
    lemma_distance_of_small_cells(current, target, cells, 50);
    assert(cells * (50nat * 50nat) == 2500 * cells) by (nonlinear_arith);
    assert(distance(current, target, cells) <= 2500 * cells);
    assert(2 * FULL_SCORE * cells == 2_000_000_000 * cells) by (nonlinear_arith)
        requires
            FULL_SCORE == 1_000_000_000,
    ;
    lemma_score_bounds(n, current, target, steps);
}

} // verus!
