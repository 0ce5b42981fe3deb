//! The guard that keeps the toggle notifications of check items from
//! feeding back into themselves.
//!
//! A check item may be shown by many native widgets. When the user toggles
//! one of them, every other one is set to the new value, and each of those
//! settings fires a toggle notification of its own. The guard lets only the
//! first notification of a pass through; the ones that the pass itself
//! causes are ignored.
use vstd::prelude::*;

verus! {

/// What the guard does with one toggle notification, given whether a pass
/// is under way: the new state, and whether the notification starts a pass
/// (and so will be reported to the application once).
pub open spec fn notify(syncing: bool) -> (bool, bool) {
    if syncing {
        (true, false)
    } else {
        (true, true)
    }
}

/// The number of application events that `n` notifications give, fired one
/// after the other while no pass is finished, from the state `syncing`.
pub open spec fn events_of(syncing: bool, n: nat) -> nat
    decreases n,
{
    if n == 0 {
        0
    } else {
        let (s, dispatch) = notify(syncing);
        (if dispatch { 1nat } else { 0nat }) + events_of(s, (n - 1) as nat)
    }
}

/// The guard's state after `n` notifications from the state `syncing`.
pub open spec fn state_after(syncing: bool, n: nat) -> bool
    decreases n,
{
    if n == 0 {
        syncing
    } else {
        state_after(notify(syncing).0, (n - 1) as nat)
    }
}

/// One user toggle followed by the notifications of all `k` peers, fired
/// while the pass is under way, gives exactly one event, and the pass is
/// still under way until it is finished.
pub proof fn lemma_one_event_per_toggle(k: nat)
    ensures
        events_of(false, k + 1) == 1,
        state_after(false, k + 1),
{
    lemma_syncing_is_silent(k);
}

/// While a pass is under way, any number of notifications give no event and
/// leave the pass under way.
pub proof fn lemma_syncing_is_silent(n: nat)
    ensures
        events_of(true, n) == 0,
        state_after(true, n),
    decreases n,
{
    if n > 0 {
        lemma_syncing_is_silent((n - 1) as nat);
    }
}

/// The guard's atomic step: tries to go from idle to syncing. Returns
/// whether it did, which is whether this notification starts a pass.
pub fn try_begin(syncing: &mut bool) -> (started: bool)
    ensures
        (*final(syncing), started) == notify(*old(syncing)),
{
    if *syncing {
        false
    } else {
        *syncing = true;
        true
    }
}

} // verus!
