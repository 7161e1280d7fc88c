//! The `3n + 1` sequence on signed 32-bit integers, and the number of steps
//! that it takes from a start value down to 1.

use vstd::prelude::*;

verus! {

/// The signed 32-bit value that two's-complement arithmetic keeps of `x`: the
/// one value in the range of `i32` that differs from `x` by a multiple of 2^32.
pub open spec fn wrap_i32(x: int) -> i32 {
    let low = x % 0x1_0000_0000;
    if low > i32::MAX {
        (low - 0x1_0000_0000) as i32
    } else {
        low as i32
    }
}

/// One step of the sequence from a value above 1: an even value is halved, an
/// odd value `n` becomes `3n + 1`, wrapped into 32 bits where it does not fit.
pub open spec fn next_value(n: i32) -> i32 {
    if n % 2 == 0 {
        (n / 2) as i32
    } else {
        wrap_i32(3 * n + 1)
    }
}

/// The value that the sequence from `n` holds after `k` steps.
pub open spec fn value_after(n: i32, k: nat) -> i32
    decreases k,
{
    if k == 0 {
        n
    } else {
        next_value(value_after(n, (k - 1) as nat))
    }
}

/// The sequence from `n` is above 1 for its first `k` values and no longer
/// above 1 after `k` steps: counting stops at `k`.
pub open spec fn stops_at(n: i32, k: nat) -> bool {
    &&& value_after(n, k) <= 1
    &&& forall|j: nat| j < k ==> value_after(n, j) > 1
}

/// The number of steps after which counting from `n` stops, where it ever
/// stops.
pub open spec fn step_count(n: i32) -> Option<nat> {
    if exists|k: nat| stops_at(n, k) {
        Some(choose|k: nat| stops_at(n, k))
    } else {
        None
    }
}

/// Counting from one start value stops at one number of steps only, which is
/// then the step count.
pub proof fn lemma_stop_is_step_count(n: i32, k: nat)
    requires
        stops_at(n, k),
    ensures
        step_count(n) == Some(k),
{
    let chosen = choose|k: nat| stops_at(n, k);
    if chosen < k {
        assert(value_after(n, chosen) > 1);
    } else if k < chosen {
        assert(value_after(n, k) > 1);
    }
}

/// A step of the sequence from `n`, and `k` steps from there, are `k + 1`
/// steps from `n`.
pub proof fn lemma_value_after_first_step(n: i32, k: nat)
    ensures
        value_after(n, k + 1) == value_after(next_value(n), k),
    decreases k,
{
    reveal_with_fuel(value_after, 2);
    if k > 0 {
        lemma_value_after_first_step(n, (k - 1) as nat);
    }
}

/// From a value that is not above 1 no step is counted.
pub proof fn lemma_step_count_at_end(n: i32)
    requires
        n <= 1,
    ensures
        step_count(n) == Some(0nat),
{
    lemma_stop_is_step_count(n, 0);
}

/// From a value above 1 the count is one more than the count from the value
/// that follows it, and there is none where there is none from that value.
pub proof fn lemma_step_count_unfolds(n: i32)
    requires
        n > 1,
    ensures
        step_count(n) == match step_count(next_value(n)) {
            Some(k) => Some(k + 1),
            None => None,
        },
{
    let next = next_value(n);
    if exists|k: nat| stops_at(next, k) {
        let k = choose|k: nat| stops_at(next, k);
        assert forall|j: nat| j < k + 1 implies value_after(n, j) > 1 by {
            if j > 0 {
                lemma_value_after_first_step(n, (j - 1) as nat);
                assert(value_after(next, (j - 1) as nat) > 1);
            }
        }
        lemma_value_after_first_step(n, k);
        lemma_stop_is_step_count(n, k + 1);
    } else if exists|k: nat| stops_at(n, k) {
        let k = choose|k: nat| stops_at(n, k);
        assert(k > 0);
        let rest = (k - 1) as nat;
        assert forall|j: nat| j < rest implies value_after(next, j) > 1 by {
            lemma_value_after_first_step(n, j);
            assert(value_after(n, j + 1) > 1);
        }
        lemma_value_after_first_step(n, rest);
        assert(stops_at(next, rest));
    }
}

/// One step of the sequence on the integers, where nothing wraps.
pub open spec fn exact_next_value(n: int) -> int {
    if n % 2 == 0 {
        n / 2
    } else {
        3 * n + 1
    }
}

/// The value that the sequence on the integers from `n` holds after `k` steps.
pub open spec fn exact_value_after(n: int, k: nat) -> int
    decreases k,
{
    if k == 0 {
        n
    } else {
        exact_next_value(exact_value_after(n, (k - 1) as nat))
    }
}

/// While the sequence on the integers from `n` stays above 1 and within the
/// range of `i32`, the sequence on 32-bit values holds the same values.
pub proof fn lemma_same_values_without_overflow(n: i32, k: nat)
    requires
        forall|j: nat| j < k ==> 1 < #[trigger] exact_value_after(n as int, j) <= i32::MAX,
        exact_value_after(n as int, k) <= i32::MAX,
    ensures
        value_after(n, k) == exact_value_after(n as int, k),
    decreases k,
{
    if k > 0 {
        let before = (k - 1) as nat;
        assert(1 < exact_value_after(n as int, before) <= i32::MAX);
        lemma_same_values_without_overflow(n, before);
    }
}

/// Where the sequence on the integers from `n` comes to 1 after `k` steps and
/// not before, and holds no value above `i32::MAX` on the way, the step count
/// of `n` is `k`: nothing has wrapped.
pub proof fn lemma_step_count_without_overflow(n: i32, k: nat)
    requires
        forall|j: nat| j < k ==> 1 < #[trigger] exact_value_after(n as int, j) <= i32::MAX,
        exact_value_after(n as int, k) == 1,
    ensures
        step_count(n) == Some(k),
{
    assert forall|j: nat| j < k implies value_after(n, j) > 1 by {
        assert forall|i: nat| i < j implies
            1 < #[trigger] exact_value_after(n as int, i) <= i32::MAX
        by {}
        lemma_same_values_without_overflow(n, j);
    }
    lemma_same_values_without_overflow(n, k);
    lemma_stop_is_step_count(n, k);
}

/// Counts the steps of the sequence from `n` until its value is no longer
/// above 1.
///
/// The start value must be positive: the sequence from a value below 1 never
/// comes to 1. Overflow of `3n + 1` wraps, and a value that wrapped to below 1
/// ends the count as 1 does. Whether every start value ends the count is not
/// known, so the count is given up where it does not fit the result type: the
/// result is then -1.
pub fn collatz_steps(n: i32) -> (steps: i32)
    requires
        n >= 1,
    ensures
        match step_count(n) {
            Some(k) => if k <= i32::MAX { steps == k } else { steps == -1 },
            None => steps == -1,
        },
{
    let mut value: i32 = n;
    let mut steps: i32 = 0;
    while value > 1 && steps < i32::MAX
        invariant
            0 <= steps,
            value == value_after(n, steps as nat),
            forall|j: nat| j < steps ==> value_after(n, j) > 1,
        decreases i32::MAX - steps,
    {
        if value % 2 == 0 {
            value = value / 2;
        } else {
            value = value.wrapping_mul(3).wrapping_add(1);
        }
        steps += 1;
    }
    if value > 1 {
        proof {
            if let Some(k) = step_count(n) {
                assert(stops_at(n, k));
                assert(k <= steps ==> value_after(n, k) > 1);
            }
        }
        -1
    } else {
        proof {
            lemma_stop_is_step_count(n, steps as nat);
        }
        steps
    }
}

} // verus!
