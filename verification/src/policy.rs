//! Shipped wait policies.
//!
//! A wait policy is any `Fn(u32) -> bool`: the `_with` methods call it
//! after each failed attempt with the attempt count (0-based), and
//! `false` gives up, so the operation returns its usual error only after
//! the policy said so. Pass `|_| false` for a single non-blocking probe.

use vstd::prelude::*;

verus! {

/// Hint the CPU that the caller is spinning.
#[verifier::external_body]
fn spin_hint() {
    core::hint::spin_loop();
}

/// Spin forever: hint the CPU and keep waiting.
///
/// This policy never gives up, so it does not meet `gives_up`, and the
/// `_with` methods take it only where their operation cannot fail. In
/// this library one caller holds the whole region, so a failed attempt
/// would fail forever and the wait would not end: the `_spin` methods
/// (`reserve_slot_spin`, `alloc_spin`) pass it and require that the
/// operation succeed at once.
pub fn spin(_attempt: u32) -> (keep_waiting: bool)
    ensures
        keep_waiting,
{
    spin_hint();
    true
}

/// Every call of `policy` with the attempt count `n` returns `false`: a
/// policy that stops there.
pub open spec fn stops_at<F: Fn(u32) -> bool>(policy: F, n: u32) -> bool {
    forall|keep: bool| call_ensures(policy, (n,), keep) ==> !keep
}

/// The policy, called with the attempt counts 0, 1, 2, … in turn, said
/// to keep waiting at each count below `n` and gave up at `n`.
pub open spec fn gave_up_at<F: Fn(u32) -> bool>(policy: F, n: u32) -> bool {
    &&& call_ensures(policy, (n,), false)
    &&& forall|a: u32| a < n ==> #[trigger] call_ensures(policy, (a,), true)
}

/// The policy gives up at some attempt count. A caller that holds the
/// region waits on no one, so every retry fails as the first did, and
/// only such a policy ends the wait.
pub open spec fn gives_up<F: Fn(u32) -> bool>(policy: F) -> bool {
    exists|n: u32| #[trigger] stops_at(policy, n)
}

/// Consult `policy` after failed attempts, counting them from 0, until
/// it returns `false`; it returns only then.
pub fn wait_until_given_up(policy: &impl Fn(u32) -> bool)
    requires
        forall|a: u32| call_requires(*policy, (a,)),
        gives_up(*policy),
    ensures
        exists|n: u32| gave_up_at(*policy, n),
{
    let ghost n = choose|n: u32| stops_at(*policy, n);
    let mut attempt: u32 = 0;
    loop
        invariant
            forall|a: u32| call_requires(*policy, (a,)),
            stops_at(*policy, n),
            attempt <= n,
            forall|a: u32| a < attempt ==> #[trigger] call_ensures(*policy, (a,), true),
        decreases n - attempt,
    {
        let keep = policy(attempt);
        if !keep {
            assert(gave_up_at(*policy, attempt));
            return;
        }
        attempt = attempt + 1;
    }
}

} // verus!
