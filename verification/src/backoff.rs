//! The waits between attempts to connect to an endpoint.

use vstd::arithmetic::power2::pow2;
use vstd::prelude::*;

verus! {

/// The longest span of time that a wait can be, in nanoseconds: what
/// `std::time::Duration` can hold.
pub const LONGEST_WAIT: u128 = 18_446_744_073_709_551_615_999_999_999;

/// The wait that follows `wait` after one more failed attempt: twice as long,
/// but no longer than `max`.
pub open spec fn next_wait(wait: nat, max: nat) -> nat {
    if 2 * wait <= max {
        2 * wait
    } else {
        max
    }
}

/// The wait after a failed attempt that `failures` failed attempts preceded.
pub open spec fn nth_wait(initial: nat, max: nat, failures: nat) -> nat
    decreases failures,
{
    if failures == 0 {
        initial
    } else {
        next_wait(nth_wait(initial, max, (failures - 1) as nat), max)
    }
}

/// The waits double from the first one on, up to the longest.
pub proof fn law_waits_double_up_to_max(initial: nat, max: nat, failures: nat)
    requires
        failures >= 1,
    ensures
        nth_wait(initial, max, failures) == (if initial * pow2(failures) <= max {
            initial * pow2(failures)
        } else {
            max
        }),
    decreases failures,
{
    vstd::arithmetic::power2::lemma_pow2_unfold(failures);
    let before = (failures - 1) as nat;
    let p = pow2(before);
    assert(initial * (2 * p) == 2 * (initial * p)) by (nonlinear_arith);
    vstd::arithmetic::power2::lemma2_to64();
    if failures == 1 {
        assert(initial * 1 == initial);
        reveal_with_fuel(nth_wait, 2);
    } else {
        law_waits_double_up_to_max(initial, max, before);
    }
}

/// After a failed attempt the next wait is the smaller of twice the last one and the
/// bound.
pub proof fn law_next_wait_doubles_up_to_max(wait: nat, max: nat)
    ensures
        next_wait(wait, max) <= max,
        next_wait(wait, max) <= 2 * wait,
        next_wait(wait, max) == max || next_wait(wait, max) == 2 * wait,
{
}

/// The longest wait is that of all seconds that 64 bits can count, and of all but one
/// of the nanoseconds of one more.
pub proof fn law_longest_wait_is_that_of_a_duration()
    ensures
        LONGEST_WAIT == u64::MAX * 1_000_000_000 + 999_999_999,
{
}

/// The waits between attempts to connect: exponential, with an upper bound.
pub struct ConnectBackoff {
    wait: u128,
    max: u128,
}

impl View for ConnectBackoff {
    type V = (nat, nat);

    closed spec fn view(&self) -> (nat, nat) {
        (self.wait as nat, self.max as nat)
    }
}

impl ConnectBackoff {
    /// Waits that start with `initial` and grow up to `max` nanoseconds.
    pub fn new(initial: u128, max: u128) -> (r: Self)
        ensures
            r@ == (initial as nat, max as nat),
    {
        ConnectBackoff { wait: initial, max }
    }

    /// How long the wait after the next failed attempt will be, in nanoseconds.
    pub fn wait(&self) -> (r: u128)
        ensures
            r == self@.0,
    {
        self.wait
    }

    /// Takes note of a failed attempt: returns how long to wait before the next
    /// one, in nanoseconds, and doubles the wait after that up to the bound.
    pub fn failed(&mut self) -> (r: u128)
        requires
            2 * old(self)@.0 <= LONGEST_WAIT,
        ensures
            r == old(self)@.0,
            final(self)@ == (next_wait(old(self)@.0, old(self)@.1), old(self)@.1),
    {
        let wait: u128 = self.wait;
        let doubled: u128 = wait * 2;
        self.wait = if doubled <= self.max {
            doubled
        } else {
            self.max
        };
        wait
    }
}

/// After `k` failed attempts the next wait is the one of [`nth_wait`]: the first
/// failed attempt is followed by the initial wait, and each later one by the wait
/// that follows it. `states` are those that a backoff passes through.
pub proof fn law_failed_attempts_wait_in_turn(
    states: Seq<(nat, nat)>,
    initial: nat,
    max: nat,
    k: int,
)
    requires
        0 <= k < states.len(),
        states[0] == (initial, max),
        forall|j: int|
            0 <= j < states.len() - 1 ==> (#[trigger] states[j + 1]) == (
                next_wait(states[j].0, states[j].1),
                states[j].1,
            ),
    ensures
        states[k] == (nth_wait(initial, max, k as nat), max),
    decreases k,
{
    if k > 0 {
        law_failed_attempts_wait_in_turn(states, initial, max, k - 1);
        assert(states[k - 1 + 1] == (next_wait(states[k - 1].0, states[k - 1].1), states[k - 1].1));
    }
}

} // verus!
