//! Properties of the supervisor that span several of its operations.
use vstd::prelude::*;

use vstd::arithmetic::power2::{pow2, lemma_pow2, lemma_pow2_unfold};
use crate::policy::{
    FAILURE_WINDOW_MS, INITIAL_BACKOFF_MS, MAX_BACKOFF_MS, MAX_FAILURES, next_backoff,
    recent_failures, within_window,
};
use crate::service::{ServiceDefView, ServiceState};
use crate::supervisor::{ExitAction, RuntimeView, exit_outcome, exit_respawns, fresh_runtime, initial_table, on_schedule};
use crate::text::{all_digits, decimal, digit_char, digits_value, is_digit, parsed_u16, replaced};

verus! {

/// The delay before the `k`-th respawn since a reset, counting from zero.
pub open spec fn backoff_schedule(k: nat) -> u64
    decreases k,
{
    if k == 0 {
        INITIAL_BACKOFF_MS
    } else {
        next_backoff(backoff_schedule((k - 1) as nat))
    }
}

/// The respawn delays since a reset grow as 1 s, 2 s, 4 s, 8 s, ... up to
/// 60 s: the `k`-th is 1000 * 2^k milliseconds, capped at 60000.
pub proof fn lemma_backoff_schedule(k: nat)
    ensures
        backoff_schedule(k) == if INITIAL_BACKOFF_MS * pow2(k) <= MAX_BACKOFF_MS {
            INITIAL_BACKOFF_MS * pow2(k)
        } else {
            MAX_BACKOFF_MS as int
        },
    decreases k,
{
    if k == 0 {
        reveal(vstd::arithmetic::power::pow);
        lemma_pow2(0);
    } else {
        lemma_backoff_schedule((k - 1) as nat);
        lemma_pow2_unfold(k);
    }
}

/// A respawn delay on the schedule stays on it once doubled and capped, and
/// every delay on the schedule lies between one second and one minute.
pub proof fn lemma_backoff_stays_on_schedule(b: u64)
    requires
        on_schedule(b),
    ensures
        on_schedule(next_backoff(b)),
        INITIAL_BACKOFF_MS <= b <= next_backoff(b) <= MAX_BACKOFF_MS,
{
}

/// The delays on the schedule are exactly those the schedule reaches.
pub proof fn lemma_on_schedule_reached(k: nat)
    ensures
        on_schedule(backoff_schedule(k)),
    decreases k,
{
    if k > 0 {
        lemma_on_schedule_reached((k - 1) as nat);
    }
}

/// A crash answered by a respawn waits for the current delay of the schedule
/// and moves the service to the next delay.
pub proof fn lemma_respawn_follows_schedule(rt: RuntimeView, pid: u32, now: u64, k: nat)
    requires
        rt.backoff_ms == backoff_schedule(k),
        rt.restarts < u32::MAX,
        exit_respawns(rt, pid, now),
    ensures
        exit_outcome(rt, pid, now).1 == ExitAction::Respawn(backoff_schedule(k)),
        exit_outcome(rt, pid, now).0.backoff_ms == backoff_schedule(k + 1),
        exit_outcome(rt, pid, now).0.state == ServiceState::Crashed,
        exit_outcome(rt, pid, now).0.restarts == rt.restarts + 1,
        exit_outcome(rt, pid, now).0.child is None,
{
}

/// Crash times that still count: the crash at `now` is the last of them,
/// each of them lies inside the failure window ending at `now`, and every
/// earlier crash inside that window is kept.
pub proof fn lemma_recent_failures_window(failures: Seq<u64>, now: u64)
    ensures
        recent_failures(failures, now).len() > 0,
        recent_failures(failures, now).last() == now,
        forall|i: int| 0 <= i < recent_failures(failures, now).len() ==>
            #[trigger] recent_failures(failures, now)[i] > now - FAILURE_WINDOW_MS,
        forall|i: int| 0 <= i < failures.len() && failures[i] > now - FAILURE_WINDOW_MS ==>
            recent_failures(failures, now).contains(#[trigger] failures[i]),
        recent_failures(failures, now).len() <= failures.len() + 1,
{
    let p = within_window(now);
    failures.lemma_filter_push(now, p);
    let f = recent_failures(failures, now);
    assert(f == failures.filter(p).push(now));
    assert forall|i: int| 0 <= i < f.len() implies #[trigger] f[i] > now - FAILURE_WINDOW_MS by {
        if i < f.len() - 1 {
            failures.lemma_filter_pred(p, i);
            assert(f[i] == failures.filter(p)[i]);
        }
    }
    assert forall|i: int| 0 <= i < failures.len() && failures[i] > now - FAILURE_WINDOW_MS implies f.contains(
        #[trigger] failures[i],
    ) by {
        failures.lemma_filter_contains(p, i);
        let j = choose|j: int| 0 <= j < failures.filter(p).len() && failures.filter(p)[j] == failures[i];
        assert(f[j] == failures[i]);
    }
    failures.lemma_filter_len(p);
}

/// A crash of the live child, not part of a requested stop, degrades the
/// service exactly when, with it, the failure window holds at least
/// `MAX_FAILURES` crashes; a degraded service is not respawned.
pub proof fn lemma_degraded_iff_too_many_crashes(rt: RuntimeView, pid: u32, now: u64)
    requires
        rt.child == Some(pid),
        !rt.shutdown_flag,
    ensures
        (exit_outcome(rt, pid, now).1 is Degraded) <==> recent_failures(rt.failures, now).len()
            >= MAX_FAILURES,
        (exit_outcome(rt, pid, now).1 is Degraded) ==> exit_outcome(rt, pid, now).0.state
            == ServiceState::Degraded,
        (exit_outcome(rt, pid, now).1 is Respawn) <==> !(exit_outcome(rt, pid, now).1 is Degraded),
{
}

/// The index of the last definition named `k` among the first `n` of `defs`.
pub open spec fn last_with_name(defs: Seq<ServiceDefView>, k: Seq<char>, i: int) -> bool {
    &&& 0 <= i < defs.len()
    &&& defs[i].name == k
    &&& forall|j: int| i < j < defs.len() ==> #[trigger] defs[j].name != k
}

/// The table built from a list of definitions names exactly the services of
/// the list; each of them is registered fresh (stopped, no child, no crashes,
/// no restarts, initial delay), with the last definition that carries its name.
pub proof fn lemma_initial_table(defs: Seq<ServiceDefView>)
    ensures
        forall|k: Seq<char>| #[trigger] initial_table(defs).contains_key(k) <==> exists|i: int|
            0 <= i < defs.len() && defs[i].name == k,
        forall|k: Seq<char>, i: int| #[trigger] last_with_name(defs, k, i) ==> initial_table(defs)[k]
            == fresh_runtime(defs[i]),
    decreases defs.len(),
{
    if defs.len() > 0 {
        let p = defs.drop_last();
        lemma_initial_table(p);
        assert forall|k: Seq<char>| #[trigger] initial_table(defs).contains_key(k) <==> exists|i: int|
            0 <= i < defs.len() && defs[i].name == k by {
            if initial_table(defs).contains_key(k) && k != defs.last().name {
                let i = choose|i: int| 0 <= i < p.len() && p[i].name == k;
                assert(defs[i] == p[i]);
            }
            if exists|i: int| 0 <= i < defs.len() && defs[i].name == k {
                let i = choose|i: int| 0 <= i < defs.len() && defs[i].name == k;
                if i < p.len() {
                    assert(p[i] == defs[i]);
                }
            }
        }
        assert forall|k: Seq<char>, i: int| #[trigger] last_with_name(defs, k, i) implies initial_table(
            defs,
        )[k] == fresh_runtime(defs[i]) by {
            if i < defs.len() - 1 {
                assert(defs[defs.len() - 1].name != k);
                assert forall|j: int| i < j < p.len() implies #[trigger] p[j].name != k by {
                    assert(p[j] == defs[j]);
                }
                assert(p[i] == defs[i]);
                assert(last_with_name(p, k, i));
            }
        }
    }
}

/// A decimal numeral is a non-empty string of digits denoting its number.
pub proof fn lemma_decimal_digits(n: nat)
    ensures
        decimal(n).len() > 0,
        all_digits(decimal(n)),
        digits_value(decimal(n)) == n,
    decreases n,
{
    if n < 10 {
        let c = digit_char(n);
        assert(c as int == 48 + n);
        assert(decimal(n).drop_last() =~= Seq::<char>::empty());
        assert(digits_value(Seq::<char>::empty()) == 0);
        assert(decimal(n).last() == c);
    } else {
        lemma_decimal_digits(n / 10);
        let d = decimal(n);
        let c = digit_char(n % 10);
        assert(c as int == 48 + n % 10);
        assert(d.drop_last() =~= decimal(n / 10));
        assert(d.last() == c);
        assert(n == (n / 10) * 10 + n % 10);
        assert forall|i: int| 0 <= i < d.len() implies is_digit(#[trigger] d[i]) by {
            if i < d.len() - 1 {
                assert(d[i] == decimal(n / 10)[i]);
            }
        }
    }
}

/// A port number written in decimal parses back to itself.
pub proof fn lemma_port_round_trip(p: u16)
    ensures
        parsed_u16(decimal(p as nat)) == Some(p),
{
    lemma_decimal_digits(p as nat);
    assert(is_digit(decimal(p as nat)[0]));
}

/// Replacing a pattern that does not occur leaves a string unchanged.
pub proof fn lemma_replaced_absent(s: Seq<char>, pat: Seq<char>, rep: Seq<char>)
    requires
        pat.len() > 0,
        forall|i: int| 0 <= i && i + pat.len() <= s.len() ==> #[trigger] s.subrange(i, i + pat.len()) != pat,
    ensures
        replaced(s, pat, rep) == s,
    decreases s.len(),
{
    if s.len() > 0 {
        if pat.len() <= s.len() {
            assert(s.take(pat.len() as int) =~= s.subrange(0, pat.len() as int));
        }
        let t = s.skip(1);
        assert forall|i: int| 0 <= i && i + pat.len() <= t.len() implies #[trigger] t.subrange(
            i,
            i + pat.len(),
        ) != pat by {
            assert(t.subrange(i, i + pat.len()) =~= s.subrange(i + 1, i + 1 + pat.len()));
        }
        lemma_replaced_absent(t, pat, rep);
        if pat.len() <= s.len() {
            let z: int = 0;
            assert(s.subrange(z, z + pat.len()) != pat);
            assert(s.subrange(z, z + pat.len()) =~= s.subrange(0, pat.len() as int));
            assert(s.take(pat.len() as int) != pat);
        }
        assert(replaced(s, pat, rep) == seq![s[0]] + replaced(t, pat, rep));
        assert(seq![s[0]] + t =~= s);
    }
}

} // verus!
