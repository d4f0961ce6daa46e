//! Timing and size limits of the supervisor, and the arithmetic over them.
use vstd::prelude::*;

verus! {

/// A log file is rotated once it grows past this many bytes.
pub const MAX_LOG_BYTES: u64 = 10485760;

/// Crashes are counted over this trailing window, in milliseconds.
pub const FAILURE_WINDOW_MS: u64 = 300000;

/// This many crashes inside the window mark a service as degraded.
pub const MAX_FAILURES: usize = 5;

/// Delay before the first respawn after a reset, in milliseconds.
pub const INITIAL_BACKOFF_MS: u64 = 1000;

/// The respawn delay never grows past this, in milliseconds.
pub const MAX_BACKOFF_MS: u64 = 60000;

/// Time a freshly spawned service spends in `Starting`, in milliseconds.
pub const STARTUP_GRACE_MS: u64 = 3000;

/// Whether a log file of `len` bytes is due for rotation.
pub fn needs_rotation(len: u64) -> (r: bool)
    ensures
        r <==> len > MAX_LOG_BYTES,
{
    len > MAX_LOG_BYTES
}

} // verus!

verus! {

/// Whether a crash at time `t` still counts at time `now`: it happened less
/// than the failure window ago.
pub open spec fn within_window(now: u64) -> spec_fn(u64) -> bool {
    |t: u64| t as int > now as int - FAILURE_WINDOW_MS as int
}

/// The crash times that count after a crash at `now` is added to `failures`.
pub open spec fn recent_failures(failures: Seq<u64>, now: u64) -> Seq<u64> {
    failures.push(now).filter(within_window(now))
}

/// The respawn delay that follows a delay of `b`: twice as long, but no
/// longer than the cap.
pub open spec fn next_backoff(b: u64) -> u64 {
    if b * 2 <= MAX_BACKOFF_MS {
        (b * 2) as u64
    } else {
        MAX_BACKOFF_MS
    }
}

/// Doubles a respawn delay, capped at `MAX_BACKOFF_MS`.
pub fn backoff_after(b: u64) -> (r: u64)
    ensures
        r == next_backoff(b),
{
    if b <= MAX_BACKOFF_MS / 2 {
        b * 2
    } else {
        MAX_BACKOFF_MS
    }
}

/// Keeps the crash times of `failures`, followed by `now`, that fall inside
/// the failure window ending at `now`.
pub fn prune_failures(failures: &Vec<u64>, now: u64) -> (r: Vec<u64>)
    ensures
        r@ == recent_failures(failures@, now),
{
    let mut kept: Vec<u64> = Vec::new();
    let mut i: usize = 0;
    let ghost pred = within_window(now);
    while i < failures.len()
        invariant
            i <= failures@.len(),
            pred == within_window(now),
            kept@ == failures@.take(i as int).filter(pred),
        decreases failures@.len() - i,
    {
        let t = failures[i];
        let keep = if now >= FAILURE_WINDOW_MS { t > now - FAILURE_WINDOW_MS } else { true };
        proof {
            failures@.take(i as int).lemma_filter_push(t, pred);
            assert(failures@.take(i as int).push(t) =~= failures@.take(i + 1));
        }
        if keep {
            kept.push(t);
        }
        i = i + 1;
    }
    proof {
        assert(failures@.take(failures@.len() as int) =~= failures@);
        failures@.lemma_filter_push(now, pred);
    }
    kept.push(now);
    kept
}

} // verus!
