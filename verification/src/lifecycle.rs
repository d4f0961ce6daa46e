//! Properties of whole runs of the supervisor: what holds after any sequence
//! of launches, spawns, grace periods, exits, stops and restarts.
use vstd::prelude::*;

use crate::laws::{last_with_name, lemma_initial_table};
use crate::policy::INITIAL_BACKOFF_MS;
use crate::service::{ServiceDefView, ServiceState};
use crate::supervisor::{
    Event, ExitAction, RuntimeView, SpawnAction, after_event, after_grace, event_allowed,
    exit_outcome, fresh_runtime, initial_table, launched, may_launch, record_ok, reset,
    snapshot_of, spawn_outcome,
};

verus! {

/// The table after the events `es`, in order.
pub open spec fn run(t: Map<Seq<char>, RuntimeView>, es: Seq<Event>) -> Map<Seq<char>, RuntimeView>
    decreases es.len(),
{
    if es.len() == 0 {
        t
    } else {
        after_event(run(t, es.drop_last()), es.last())
    }
}

/// Whether each event of `es` may happen to the table the earlier ones left.
pub open spec fn run_allowed(t: Map<Seq<char>, RuntimeView>, es: Seq<Event>) -> bool {
    forall|i: int| 0 <= i < es.len() ==> event_allowed(run(t, es.take(i)), #[trigger] es[i])
}

/// Whether every record of `t` is consistent.
pub open spec fn table_ok(t: Map<Seq<char>, RuntimeView>) -> bool {
    forall|k: Seq<char>| #[trigger] t.contains_key(k) ==> record_ok(t[k])
}

/// Whether no event of `es` is a restart of `k`.
pub open spec fn no_restart_of(es: Seq<Event>, k: Seq<char>) -> bool {
    forall|i: int| 0 <= i < es.len() ==> #[trigger] es[i] != Event::Restart(k)
}

/// An allowed run without its last event is allowed, and the last event is
/// allowed after it.
proof fn lemma_run_allowed_prefix(t: Map<Seq<char>, RuntimeView>, es: Seq<Event>)
    requires
        run_allowed(t, es),
        es.len() > 0,
    ensures
        run_allowed(t, es.drop_last()),
        event_allowed(run(t, es.drop_last()), es.last()),
{
    let p = es.drop_last();
    assert forall|i: int| 0 <= i < p.len() implies event_allowed(run(t, p.take(i)), #[trigger] p[i]) by {
        assert(p.take(i) =~= es.take(i));
        assert(p[i] == es[i]);
        assert(event_allowed(run(t, es.take(i)), es[i]));
    }
    assert(es.take(es.len() - 1) =~= p);
    assert(event_allowed(run(t, es.take(es.len() - 1)), es[es.len() - 1]));
}

/// One allowed event keeps every record consistent, keeps the set of services
/// and their definitions, and never lowers a restart count.
pub proof fn lemma_event_keeps(t: Map<Seq<char>, RuntimeView>, e: Event)
    requires
        table_ok(t),
        event_allowed(t, e),
    ensures
        table_ok(after_event(t, e)),
        after_event(t, e).dom() == t.dom(),
        forall|k: Seq<char>| #[trigger] t.contains_key(k) ==> after_event(t, e)[k].def == t[k].def
            && after_event(t, e)[k].restarts >= t[k].restarts,
{
    let a = after_event(t, e);
    match e {
        Event::StopAll => {
            assert(a.dom() =~= t.dom());
        },
        Event::Launch(k) => {
            if t.contains_key(k) {
                assert(a.dom() =~= t.dom());
            }
        },
        Event::Spawned(k, pid) => {
            if t.contains_key(k) {
                assert(a.dom() =~= t.dom());
            }
        },
        Event::Grace(k, pid) => {
            if t.contains_key(k) {
                assert(a.dom() =~= t.dom());
            }
        },
        Event::Exit(k, pid, now) => {
            if t.contains_key(k) {
                assert(a.dom() =~= t.dom());
                assert(record_ok(t[k]));
                crate::laws::lemma_recent_failures_window(t[k].failures, now);
            }
        },
        Event::Restart(k) => {
            if t.contains_key(k) {
                assert(a.dom() =~= t.dom());
            }
        },
    }
}

/// Over any allowed run, every record stays consistent (in particular its
/// respawn delay stays one of 1, 2, 4, 8, 16, 32 or 60 seconds), the set of
/// services and their definitions never change, and no restart count falls.
pub proof fn lemma_run_keeps(t: Map<Seq<char>, RuntimeView>, es: Seq<Event>)
    requires
        table_ok(t),
        run_allowed(t, es),
    ensures
        table_ok(run(t, es)),
        run(t, es).dom() == t.dom(),
        forall|k: Seq<char>| #[trigger] t.contains_key(k) ==> run(t, es)[k].def == t[k].def
            && run(t, es)[k].restarts >= t[k].restarts,
    decreases es.len(),
{
    if es.len() > 0 {
        lemma_run_allowed_prefix(t, es);
        lemma_run_keeps(t, es.drop_last());
        lemma_event_keeps(run(t, es.drop_last()), es.last());
    }
}

/// Once a stop is requested for a service, and until it is restarted, it has
/// no live child and no launch under way, every launch of it is refused, a
/// spawn is never watched, and no exit is answered by a respawn.
pub proof fn lemma_stop_holds_until_restart(t: Map<Seq<char>, RuntimeView>, es: Seq<Event>, k: Seq<char>)
    requires
        table_ok(t),
        run_allowed(t, es),
        t.contains_key(k),
        t[k].shutdown_flag,
        no_restart_of(es, k),
    ensures
        run(t, es).contains_key(k),
        run(t, es)[k].shutdown_flag,
        run(t, es)[k].child is None,
        !run(t, es)[k].launch_pending,
        !may_launch(run(t, es)[k]),
        forall|pid: Option<u32>| spawn_outcome(run(t, es)[k], pid).1 != SpawnAction::Watch,
        forall|pid: u32, now: u64| exit_outcome(run(t, es)[k], pid, now).1 == ExitAction::Ignored,
    decreases es.len(),
{
    if es.len() > 0 {
        let p = es.drop_last();
        lemma_run_allowed_prefix(t, es);
        assert(no_restart_of(p, k)) by {
            assert forall|i: int| 0 <= i < p.len() implies #[trigger] p[i] != Event::Restart(k) by {
                assert(p[i] == es[i]);
            }
        }
        lemma_stop_holds_until_restart(t, p, k);
        lemma_run_keeps(t, p);
        assert(es.last() == es[es.len() - 1]);
        assert(record_ok(run(t, p)[k]));
    } else {
        assert(record_ok(t[k]));
    }
}

/// A stop of all services holds until an explicit restart: after it, no
/// sequence of events without a restart of `k` lets `k` be launched, watched
/// or respawned.
pub proof fn lemma_stop_all_holds(t: Map<Seq<char>, RuntimeView>, es: Seq<Event>, k: Seq<char>)
    requires
        table_ok(t),
        t.contains_key(k),
        run_allowed(after_event(t, Event::StopAll), es),
        no_restart_of(es, k),
    ensures
        run(after_event(t, Event::StopAll), es)[k].shutdown_flag,
        run(after_event(t, Event::StopAll), es)[k].child is None,
        !may_launch(run(after_event(t, Event::StopAll), es)[k]),
        forall|pid: u32, now: u64| exit_outcome(run(after_event(t, Event::StopAll), es)[k], pid, now).1
            == ExitAction::Ignored,
{
    lemma_event_keeps(t, Event::StopAll);
    lemma_stop_holds_until_restart(after_event(t, Event::StopAll), es, k);
}

/// A degraded service stays degraded, with no live child and no launch under
/// way, and every launch of it is refused, until it is restarted.
pub proof fn lemma_degraded_until_restart(t: Map<Seq<char>, RuntimeView>, es: Seq<Event>, k: Seq<char>)
    requires
        table_ok(t),
        run_allowed(t, es),
        t.contains_key(k),
        t[k].state == ServiceState::Degraded,
        no_restart_of(es, k),
    ensures
        run(t, es).contains_key(k),
        run(t, es)[k].state == ServiceState::Degraded,
        run(t, es)[k].child is None,
        !run(t, es)[k].launch_pending,
        !may_launch(run(t, es)[k]),
    decreases es.len(),
{
    if es.len() > 0 {
        let p = es.drop_last();
        lemma_run_allowed_prefix(t, es);
        assert(no_restart_of(p, k)) by {
            assert forall|i: int| 0 <= i < p.len() implies #[trigger] p[i] != Event::Restart(k) by {
                assert(p[i] == es[i]);
            }
        }
        lemma_degraded_until_restart(t, p, k);
        lemma_run_keeps(t, p);
        assert(es.last() == es[es.len() - 1]);
    }
}

/// At most one live process per service: a launch is accepted only when the
/// service has no live child and no launch under way, and a spawn becomes the
/// live child only when a launch was waiting for it (so there was none).
pub proof fn lemma_one_live_child(rt: RuntimeView, pid: Option<u32>)
    requires
        record_ok(rt),
    ensures
        may_launch(rt) ==> rt.child is None && !rt.launch_pending,
        spawn_outcome(rt, pid).1 == SpawnAction::Watch ==> rt.child is None && rt.launch_pending
            && spawn_outcome(rt, pid).0.child == pid,
{
}

/// The live child of a service stays recorded, so that a stop or a restart
/// hands it out, until its own exit is recorded or a stop or a restart of the
/// service happens.
pub proof fn lemma_live_child_kept(t: Map<Seq<char>, RuntimeView>, e: Event, k: Seq<char>, p: u32)
    requires
        table_ok(t),
        t.contains_key(k),
        t[k].child == Some(p),
        !(e is StopAll),
        e != Event::Restart(k),
        forall|now: u64| e != Event::Exit(k, p, now),
    ensures
        after_event(t, e)[k].child == Some(p),
{
    assert(record_ok(t[k]));
}

/// The grace period counts from the current spawn: a grace step promotes a
/// service to running only for its live child while it is still starting;
/// the grace step of any other process changes nothing.
pub proof fn lemma_grace_only_current_spawn(rt: RuntimeView, pid: u32)
    ensures
        after_grace(rt, pid) != rt ==> rt.child == Some(pid) && rt.state == ServiceState::Starting
            && after_grace(rt, pid).state == ServiceState::Running,
        rt.child != Some(pid) ==> after_grace(rt, pid) == rt,
{
}

/// A manual restart followed by a launch, its spawn and the crash of that
/// process is answered by a respawn after the initial delay, whatever the
/// service's history; the exit of the process handed out by the restart is
/// ignored.
pub proof fn lemma_restart_then_crash_respawns(rt: RuntimeView, old_pid: u32, pid: u32, now: u64)
    requires
        record_ok(rt),
        !rt.launch_pending,
    ensures
        exit_outcome(reset(rt), old_pid, now).1 == ExitAction::Ignored,
        may_launch(reset(rt)),
        spawn_outcome(launched(reset(rt)), Some(pid)).1 == SpawnAction::Watch,
        exit_outcome(spawn_outcome(launched(reset(rt)), Some(pid)).0, pid, now).1
            == ExitAction::Respawn(INITIAL_BACKOFF_MS),
{
    let r = spawn_outcome(launched(reset(rt)), Some(pid)).0;
    assert(r.failures == Seq::<u64>::empty());
    let pr = crate::policy::within_window(now);
    Seq::<u64>::empty().lemma_filter_push(now, pr);
    reveal(Seq::filter);
    assert(Seq::<u64>::empty().filter(pr) =~= Seq::<u64>::empty());
    assert(crate::policy::recent_failures(r.failures, now) =~= seq![now]);
}

/// Every record of a freshly built table is consistent.
pub proof fn lemma_initial_table_ok(defs: Seq<ServiceDefView>)
    ensures
        table_ok(initial_table(defs)),
    decreases defs.len(),
{
    if defs.len() > 0 {
        lemma_initial_table_ok(defs.drop_last());
        assert(record_ok(fresh_runtime(defs.last())));
    }
}

/// After the table is built from `defs` and any allowed run, the services are
/// exactly those named in `defs`, and each keeps the definition (so the name
/// and port) of the last definition that carries its name.
pub proof fn lemma_names_and_ports(defs: Seq<ServiceDefView>, es: Seq<Event>)
    requires
        run_allowed(initial_table(defs), es),
    ensures
        forall|k: Seq<char>| #[trigger] run(initial_table(defs), es).contains_key(k) <==> exists|i: int|
            0 <= i < defs.len() && defs[i].name == k,
        forall|k: Seq<char>, i: int| #[trigger] last_with_name(defs, k, i) ==> run(initial_table(defs), es)[k].def
            == defs[i] && run(initial_table(defs), es)[k].def.port == defs[i].port,
{
    lemma_initial_table_ok(defs);
    lemma_initial_table(defs);
    lemma_run_keeps(initial_table(defs), es);
    assert forall|k: Seq<char>, i: int| #[trigger] last_with_name(defs, k, i) implies run(initial_table(defs), es)[k].def
        == defs[i] by {
        assert(initial_table(defs).contains_key(k));
        assert(initial_table(defs)[k] == fresh_runtime(defs[i]));
    }
}

/// Two status snapshots of the same table list the same entries, possibly in
/// another order: each is a permutation of the other.
pub proof fn lemma_snapshots_agree(
    t: Map<Seq<char>, RuntimeView>,
    a: Seq<(Seq<char>, ServiceState, u32, Option<u16>)>,
    b: Seq<(Seq<char>, ServiceState, u32, Option<u16>)>,
)
    requires
        snapshot_of(t, a),
        snapshot_of(t, b),
    ensures
        a.to_multiset() == b.to_multiset(),
        a.len() == b.len(),
{
    broadcast use vstd::seq_lib::group_to_multiset_ensures;
    assert(a.no_duplicates()) by {
        assert forall|m: int, n: int| 0 <= m < a.len() && 0 <= n < a.len() && m != n implies a[m] != a[n] by {
            assert(a[m].0 != a[n].0);
        }
    }
    assert(b.no_duplicates()) by {
        assert forall|m: int, n: int| 0 <= m < b.len() && 0 <= n < b.len() && m != n implies b[m] != b[n] by {
            assert(b[m].0 != b[n].0);
        }
    }
    assert forall|x: (Seq<char>, ServiceState, u32, Option<u16>)| a.contains(x) <==> b.contains(x) by {
        if a.contains(x) {
            let m = choose|m: int| 0 <= m < a.len() && a[m] == x;
            assert(t.contains_key(a[m].0));
            let n = choose|n: int| 0 <= n < b.len() && b[n].0 == x.0;
            assert(b[n] == x);
        }
        if b.contains(x) {
            let n = choose|n: int| 0 <= n < b.len() && b[n] == x;
            assert(t.contains_key(b[n].0));
            let m = choose|m: int| 0 <= m < a.len() && a[m].0 == x.0;
            assert(a[m] == x);
        }
    }
    a.lemma_multiset_has_no_duplicates();
    b.lemma_multiset_has_no_duplicates();
    assert forall|x: (Seq<char>, ServiceState, u32, Option<u16>)| a.to_multiset().count(x) == b.to_multiset().count(x) by {
        if a.contains(x) {
            assert(a.to_multiset().count(x) > 0);
            assert(b.to_multiset().count(x) > 0);
        } else {
            assert(!b.contains(x));
        }
    }
    assert(a.to_multiset() =~= b.to_multiset());
}

} // verus!
