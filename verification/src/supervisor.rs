//! The supervisor's table of services and the decisions it takes on it.
//!
//! The table is a map from service name to runtime record. Launching a
//! process, waiting for it, sleeping between retries and killing processes are
//! left to the caller: each function here takes the outcome of such a step as
//! an argument, or returns what the caller has to do next.
//!
//! A record keeps the process id of its live child from the moment the spawn
//! is recorded until that child's exit is recorded, or until a stop or a
//! restart hands it out to be killed. While a child lives, or a launch is under
//! way, no second launch of the service is accepted; after a stop, no launch is
//! accepted until an explicit restart.
use vstd::prelude::*;

use crate::policy::{INITIAL_BACKOFF_MS, MAX_BACKOFF_MS, MAX_FAILURES, backoff_after, next_backoff, prune_failures, recent_failures};
use crate::service::{ServiceDef, ServiceDefView, ServiceState};

verus! {

/// What the supervisor holds about one service.
pub struct ServiceRuntime {
    def: ServiceDef,
    /// Process id of the live child, if the service has one.
    child: Option<u32>,
    /// Set from the start of a launch until its spawn is recorded.
    launch_pending: bool,
    state: ServiceState,
    restarts: u32,
    /// Times of recent crashes, in milliseconds of a monotonic clock.
    failures: Vec<u64>,
    backoff_ms: u64,
    /// Set when a stop was requested: no launch is accepted and no exit is
    /// answered by a respawn until an explicit restart.
    shutdown_flag: bool,
}

/// The mathematical content of a `ServiceRuntime`.
pub struct RuntimeView {
    pub def: ServiceDefView,
    pub child: Option<u32>,
    pub launch_pending: bool,
    pub state: ServiceState,
    pub restarts: u32,
    pub failures: Seq<u64>,
    pub backoff_ms: u64,
    pub shutdown_flag: bool,
}

impl View for ServiceRuntime {
    type V = RuntimeView;

    closed spec fn view(&self) -> RuntimeView {
        RuntimeView {
            def: self.def@,
            child: self.child,
            launch_pending: self.launch_pending,
            state: self.state,
            restarts: self.restarts,
            failures: self.failures@,
            backoff_ms: self.backoff_ms,
            shutdown_flag: self.shutdown_flag,
        }
    }
}

impl ServiceRuntime {
    /// The definition is well formed and the record is consistent.
    pub closed spec fn wf(&self) -> bool {
        &&& self.def.wf()
        &&& record_ok(self@)
    }
}

/// Whether a respawn delay is one of the delays of the backoff schedule:
/// 1, 2, 4, 8, 16 or 32 seconds, or the cap of one minute.
pub open spec fn on_schedule(b: u64) -> bool {
    b == 1000 || b == 2000 || b == 4000 || b == 8000 || b == 16000 || b == 32000 || b == 60000
}

/// Whether a respawn delay lies between its initial value and its cap.
pub open spec fn backoff_in_range(b: u64) -> bool {
    INITIAL_BACKOFF_MS <= b <= MAX_BACKOFF_MS
}

/// The consistency of a record: its delay is on the schedule; a pending
/// launch has no live child yet; a service that was asked to stop, or is
/// degraded, has neither a live child nor a pending launch.
pub open spec fn record_ok(rt: RuntimeView) -> bool {
    &&& on_schedule(rt.backoff_ms)
    &&& rt.launch_pending ==> rt.child is None
    &&& rt.shutdown_flag ==> rt.child is None && !rt.launch_pending
    &&& rt.state == ServiceState::Degraded ==> rt.child is None && !rt.launch_pending
}

/// The record of a service that was just registered.
pub open spec fn fresh_runtime(d: ServiceDefView) -> RuntimeView {
    RuntimeView {
        def: d,
        child: None,
        launch_pending: false,
        state: ServiceState::Stopped,
        restarts: 0,
        failures: Seq::empty(),
        backoff_ms: INITIAL_BACKOFF_MS,
        shutdown_flag: false,
    }
}
/// The table built from a list of definitions: each name maps to a fresh
/// record of the last definition that carries it.
pub open spec fn initial_table(defs: Seq<ServiceDefView>) -> Map<Seq<char>, RuntimeView>
    decreases defs.len(),
{
    if defs.len() == 0 {
        Map::empty()
    } else {
        initial_table(defs.drop_last()).insert(defs.last().name, fresh_runtime(defs.last()))
    }
}

/// The views of a sequence of definitions.
pub open spec fn defs_view(defs: Seq<ServiceDef>) -> Seq<ServiceDefView> {
    defs.map_values(|d: ServiceDef| d@)
}

/// Whether the services of `s` have pairwise different names.
spec fn names_distinct(s: Seq<ServiceRuntime>) -> bool {
    forall|i: int, j: int|
        0 <= i < s.len() && 0 <= j < s.len() && i != j ==> #[trigger] s[i].def.name@
            != #[trigger] s[j].def.name@
}

/// Whether some service of `s` is named `k`.
spec fn has_name(s: Seq<ServiceRuntime>, k: Seq<char>) -> bool {
    exists|i: int| 0 <= i < s.len() && #[trigger] s[i].def.name@ == k
}

/// The position of the service named `k`.
spec fn name_index(s: Seq<ServiceRuntime>, k: Seq<char>) -> int {
    choose|i: int| 0 <= i < s.len() && #[trigger] s[i].def.name@ == k
}

/// The table that a sequence of records with distinct names stands for.
spec fn table_of(s: Seq<ServiceRuntime>) -> Map<Seq<char>, RuntimeView> {
    Map::new(|k: Seq<char>| has_name(s, k), |k: Seq<char>| s[name_index(s, k)]@)
}

/// A record of a sequence with distinct names is what the table holds under its name.
proof fn lemma_table_at(s: Seq<ServiceRuntime>, i: int)
    requires
        names_distinct(s),
        0 <= i < s.len(),
    ensures
        table_of(s).contains_key(s[i].def.name@),
        table_of(s)[s[i].def.name@] == s[i]@,
{
    assert(has_name(s, s[i].def.name@));
    let j = name_index(s, s[i].def.name@);
    assert(s[j].def.name@ == s[i].def.name@);
}

/// Replacing a record by one of the same name replaces the table entry.
proof fn lemma_table_update(s: Seq<ServiceRuntime>, i: int, r: ServiceRuntime)
    requires
        names_distinct(s),
        0 <= i < s.len(),
        r.def.name@ == s[i].def.name@,
    ensures
        names_distinct(s.update(i, r)),
        table_of(s.update(i, r)) == table_of(s).insert(r.def.name@, r@),
{
    let t = s.update(i, r);
    assert forall|a: int, b: int|
        0 <= a < t.len() && 0 <= b < t.len() && a != b implies #[trigger] t[a].def.name@
        != #[trigger] t[b].def.name@ by {
        assert(t[a].def.name@ == s[a].def.name@);
        assert(t[b].def.name@ == s[b].def.name@);
    }
    assert forall|k: Seq<char>| has_name(t, k) <==> has_name(s, k) by {
        if has_name(s, k) {
            let j = name_index(s, k);
            assert(t[j].def.name@ == k);
        }
        if has_name(t, k) {
            let j = name_index(t, k);
            assert(s[j].def.name@ == k);
        }
    }
    assert forall|k: Seq<char>| #[trigger] table_of(t).contains_key(k) implies table_of(t)[k]
        == table_of(s).insert(r.def.name@, r@)[k] by {
        let j = name_index(t, k);
        if k == r.def.name@ {
            assert(t[i].def.name@ == k);
            assert(j == i);
        } else {
            lemma_table_at(s, j);
        }
    }
    assert(table_of(t) =~= table_of(s).insert(r.def.name@, r@));
}

/// Appending a record under a new name adds that name to the table.
proof fn lemma_table_push(s: Seq<ServiceRuntime>, r: ServiceRuntime)
    requires
        names_distinct(s),
        !has_name(s, r.def.name@),
    ensures
        names_distinct(s.push(r)),
        table_of(s.push(r)) == table_of(s).insert(r.def.name@, r@),
{
    let t = s.push(r);
    assert forall|a: int, b: int|
        0 <= a < t.len() && 0 <= b < t.len() && a != b implies #[trigger] t[a].def.name@
        != #[trigger] t[b].def.name@ by {
        if a < s.len() && b < s.len() {
            assert(t[a] == s[a] && t[b] == s[b]);
        } else if a < s.len() {
            assert(t[a] == s[a]);
        } else {
            assert(t[b] == s[b]);
        }
    }
    assert forall|k: Seq<char>| has_name(t, k) <==> (has_name(s, k) || k == r.def.name@) by {
        if has_name(s, k) {
            let j = name_index(s, k);
            assert(t[j].def.name@ == k);
        }
        if has_name(t, k) {
            let j = name_index(t, k);
            if j < s.len() {
                assert(s[j].def.name@ == k);
            }
        }
        if k == r.def.name@ {
            assert(t[s.len() as int].def.name@ == k);
        }
    }
    assert forall|k: Seq<char>| #[trigger] table_of(t).contains_key(k) implies table_of(t)[k]
        == table_of(s).insert(r.def.name@, r@)[k] by {
        let j = name_index(t, k);
        if k == r.def.name@ {
            assert(j == s.len());
        } else {
            assert(j < s.len());
            assert(t[j] == s[j]);
            lemma_table_at(s, j);
        }
    }
    assert(table_of(t) =~= table_of(s).insert(r.def.name@, r@));
}


/// Whether a launch of a service in record `rt` is accepted: it has no live
/// child, no launch under way, no requested stop, and is not degraded.
pub open spec fn may_launch(rt: RuntimeView) -> bool {
    &&& rt.child is None
    &&& !rt.launch_pending
    &&& !rt.shutdown_flag
    &&& rt.state != ServiceState::Degraded
}

/// The record of a service whose launch has begun.
pub open spec fn launched(rt: RuntimeView) -> RuntimeView {
    RuntimeView { state: ServiceState::Starting, launch_pending: true, ..rt }
}

/// What the caller does with the process it just spawned (or failed to spawn).
#[derive(Clone, Copy, Debug, PartialEq, Eq, Structural)]
pub enum SpawnAction {
    /// Watch the process: it is now the service's live child.
    Watch,
    /// Kill and reap the process at once: no launch was waiting for it.
    Kill,
    /// Nothing was spawned; nothing to do.
    Nothing,
}

/// The record of a service once a spawn attempt gave `pid` (or failed), and
/// what the caller does with the process.
pub open spec fn spawn_outcome(rt: RuntimeView, pid: Option<u32>) -> (RuntimeView, SpawnAction) {
    if !rt.launch_pending || rt.shutdown_flag {
        (
            RuntimeView { launch_pending: false, ..rt },
            if pid is Some { SpawnAction::Kill } else { SpawnAction::Nothing },
        )
    } else {
        match pid {
            Some(_) => (
                RuntimeView { launch_pending: false, child: pid, ..rt },
                SpawnAction::Watch,
            ),
            None => (
                RuntimeView { launch_pending: false, state: ServiceState::Crashed, ..rt },
                SpawnAction::Nothing,
            ),
        }
    }
}

/// The record of a service once the start-up grace period of the spawn with
/// process id `pid` is over: if that spawn is still the live child and still
/// starting, it is now running.
pub open spec fn after_grace(rt: RuntimeView, pid: u32) -> RuntimeView {
    if rt.child == Some(pid) && rt.state == ServiceState::Starting {
        RuntimeView { state: ServiceState::Running, ..rt }
    } else {
        rt
    }
}

/// What the watcher of a service is told to do once its child exited.
#[derive(Clone, Copy, Debug, PartialEq, Eq, Structural)]
pub enum ExitAction {
    /// The exit is not that of the service's live child (no such service, or
    /// the child was already handed out by a stop or a restart).
    Ignored,
    /// A stop was requested; the service stays down.
    Stopped,
    /// Too many recent crashes (the count is given); only a manual restart revives it.
    Degraded(usize),
    /// Launch the service again after this many milliseconds.
    Respawn(u64),
}

/// Whether the exit at `now` of process `pid` of a service in record `rt` is
/// answered by a respawn.
pub open spec fn exit_respawns(rt: RuntimeView, pid: u32, now: u64) -> bool {
    &&& rt.child == Some(pid)
    &&& !rt.shutdown_flag
    &&& recent_failures(rt.failures, now).len() < MAX_FAILURES
}

/// The record of a service after process `pid` exited at `now`, and what to do next.
pub open spec fn exit_outcome(rt: RuntimeView, pid: u32, now: u64) -> (RuntimeView, ExitAction) {
    if rt.child != Some(pid) {
        (rt, ExitAction::Ignored)
    } else if rt.shutdown_flag {
        (RuntimeView { child: None, state: ServiceState::Stopped, ..rt }, ExitAction::Stopped)
    } else {
        let f = recent_failures(rt.failures, now);
        if f.len() >= MAX_FAILURES {
            (
                RuntimeView { child: None, state: ServiceState::Degraded, failures: f, ..rt },
                ExitAction::Degraded(f.len() as usize),
            )
        } else {
            (
                RuntimeView {
                    child: None,
                    state: ServiceState::Crashed,
                    failures: f,
                    backoff_ms: next_backoff(rt.backoff_ms),
                    restarts: (rt.restarts + 1) as u32,
                    ..rt
                },
                ExitAction::Respawn(rt.backoff_ms),
            )
        }
    }
}

/// The record of a service after a stop of all services: a stop is requested,
/// its live child (handed out to be killed) and any pending launch are
/// forgotten. A service that had either is stopped; any other keeps its state.
pub open spec fn stopped(rt: RuntimeView) -> RuntimeView {
    RuntimeView {
        shutdown_flag: true,
        child: None,
        launch_pending: false,
        state: if rt.child is Some || rt.launch_pending { ServiceState::Stopped } else { rt.state },
        ..rt
    }
}

/// The record of a service reset for a manual restart: its live child (handed
/// out to be killed) is forgotten, so are its recent crashes; its delay is
/// back to the initial one and a requested stop is cleared. Unless a launch is
/// under way, it is stopped.
pub open spec fn reset(rt: RuntimeView) -> RuntimeView {
    RuntimeView {
        child: None,
        failures: Seq::empty(),
        backoff_ms: INITIAL_BACKOFF_MS,
        shutdown_flag: false,
        state: if rt.launch_pending { rt.state } else { ServiceState::Stopped },
        ..rt
    }
}

/// One thing that happens to the table.
pub enum Event {
    /// A launch of the named service is requested.
    Launch(Seq<char>),
    /// A spawn of the named service gave this process id, or failed.
    Spawned(Seq<char>, Option<u32>),
    /// The grace period of the given process of the named service is over.
    Grace(Seq<char>, u32),
    /// The given process of the named service exited at the given time.
    Exit(Seq<char>, u32, u64),
    /// A stop of all services is requested.
    StopAll,
    /// A manual restart of the named service is requested.
    Restart(Seq<char>),
}

/// The table after event `e`.
pub open spec fn after_event(t: Map<Seq<char>, RuntimeView>, e: Event) -> Map<Seq<char>, RuntimeView> {
    match e {
        Event::Launch(k) => if t.contains_key(k) && may_launch(t[k]) {
            t.insert(k, launched(t[k]))
        } else {
            t
        },
        Event::Spawned(k, pid) => if t.contains_key(k) {
            t.insert(k, spawn_outcome(t[k], pid).0)
        } else {
            t
        },
        Event::Grace(k, pid) => if t.contains_key(k) {
            t.insert(k, after_grace(t[k], pid))
        } else {
            t
        },
        Event::Exit(k, pid, now) => if t.contains_key(k) {
            t.insert(k, exit_outcome(t[k], pid, now).0)
        } else {
            t
        },
        Event::StopAll => t.map_values(|rt: RuntimeView| stopped(rt)),
        Event::Restart(k) => if t.contains_key(k) {
            t.insert(k, reset(t[k]))
        } else {
            t
        },
    }
}

/// Whether event `e` may happen to table `t`: a respawn must not push the
/// restart count past its limit.
pub open spec fn event_allowed(t: Map<Seq<char>, RuntimeView>, e: Event) -> bool {
    match e {
        Event::Exit(k, pid, now) => t.contains_key(k) && exit_respawns(t[k], pid, now)
            ==> t[k].restarts < u32::MAX,
        _ => true,
    }
}

/// The table of a sequence with distinct names has one key per record.
proof fn lemma_table_len(s: Seq<ServiceRuntime>)
    requires
        names_distinct(s),
    ensures
        table_of(s).dom().finite(),
        table_of(s).dom().len() == s.len(),
    decreases s.len(),
{
    if s.len() == 0 {
        assert(table_of(s).dom() =~= Set::<Seq<char>>::empty());
    } else {
        let p = s.drop_last();
        let e = s.last();
        assert(names_distinct(p)) by {
            assert forall|a: int, b: int|
                0 <= a < p.len() && 0 <= b < p.len() && a != b implies #[trigger] p[a].def.name@
                != #[trigger] p[b].def.name@ by {
                assert(p[a] == s[a] && p[b] == s[b]);
            }
        }
        lemma_table_len(p);
        assert(!has_name(p, e.def.name@)) by {
            if has_name(p, e.def.name@) {
                let j = name_index(p, e.def.name@);
                assert(s[j] == p[j]);
                assert(s[s.len() - 1] == e);
            }
        }
        lemma_table_push(p, e);
        assert(p.push(e) =~= s);
        assert(!table_of(p).dom().contains(e.def.name@));
        assert(table_of(s).dom() =~= table_of(p).dom().insert(e.def.name@));
    }
}

/// Records changed in place, names kept, by `stopped` give the table mapped by `stopped`.
proof fn lemma_table_map_stopped(a: Seq<ServiceRuntime>, b: Seq<ServiceRuntime>)
    requires
        names_distinct(a),
        a.len() == b.len(),
        forall|j: int| 0 <= j < a.len() ==> (#[trigger] b[j]).def.name@ == a[j].def.name@ && b[j]@ == stopped(a[j]@),
    ensures
        names_distinct(b),
        table_of(b) == table_of(a).map_values(|rt: RuntimeView| stopped(rt)),
{
    assert forall|x: int, y: int|
        0 <= x < b.len() && 0 <= y < b.len() && x != y implies #[trigger] b[x].def.name@
        != #[trigger] b[y].def.name@ by {
        assert(b[x].def.name@ == a[x].def.name@ && b[y].def.name@ == a[y].def.name@);
    }
    assert forall|k: Seq<char>| has_name(a, k) <==> has_name(b, k) by {
        if has_name(a, k) {
            let j = name_index(a, k);
            assert(b[j].def.name@ == k);
        }
        if has_name(b, k) {
            let j = name_index(b, k);
            assert(a[j].def.name@ == k);
        }
    }
    assert forall|k: Seq<char>| #[trigger] table_of(b).contains_key(k) implies table_of(b)[k]
        == table_of(a).map_values(|rt: RuntimeView| stopped(rt))[k] by {
        let j = name_index(b, k);
        lemma_table_at(b, j);
        assert(a[j].def.name@ == k);
        lemma_table_at(a, j);
    }
    assert(table_of(b) =~= table_of(a).map_values(|rt: RuntimeView| stopped(rt)));
}

/// The supervisor's table of services, keyed by service name.
pub struct Supervisor {
    services: Vec<ServiceRuntime>,
}

impl View for Supervisor {
    type V = Map<Seq<char>, RuntimeView>;

    closed spec fn view(&self) -> Map<Seq<char>, RuntimeView> {
        table_of(self.services@)
    }
}

impl Supervisor {
    /// Names never repeat and every record is well formed.
    pub closed spec fn wf(&self) -> bool {
        &&& names_distinct(self.services@)
        &&& forall|i: int| 0 <= i < self.services@.len() ==> #[trigger] self.services@[i].wf()
    }

    /// Every record of a well-formed table is consistent and names itself.
    pub proof fn lemma_wf_entries(&self)
        requires
            self.wf(),
        ensures
            forall|k: Seq<char>| #[trigger] self@.contains_key(k) ==> record_ok(self@[k])
                && backoff_in_range(self@[k].backoff_ms) && self@[k].def.name == k,
    {
        assert forall|k: Seq<char>| #[trigger] self@.contains_key(k) implies record_ok(self@[k])
            && backoff_in_range(self@[k].backoff_ms) && self@[k].def.name == k by {
            let j = name_index(self.services@, k);
            lemma_table_at(self.services@, j);
            assert(self.services@[j].wf());
        }
    }

    /// The position of the record named `name`, if there is one.
    fn position(&self, name: &String) -> (r: Option<usize>)
        requires
            self.wf(),
        ensures
            match r {
                Some(i) => i < self.services@.len() && self.services@[i as int].def.name@ == name@
                    && self@.contains_key(name@) && self@[name@] == self.services@[i as int]@,
                None => !self@.contains_key(name@),
            },
    {
        let mut i: usize = 0;
        while i < self.services.len()
            invariant
                self.wf(),
                i <= self.services@.len(),
                forall|j: int| 0 <= j < i ==> #[trigger] self.services@[j].def.name@ != name@,
            decreases self.services@.len() - i,
        {
            if self.services[i].def.name == *name {
                proof { lemma_table_at(self.services@, i as int); }
                return Some(i);
            }
            i = i + 1;
        }
        None
    }

    /// Adds a fresh record for `def`, replacing any record of the same name.
    fn register(&mut self, def: ServiceDef)
        requires
            old(self).wf(),
            def.wf(),
        ensures
            final(self).wf(),
            final(self)@ == old(self)@.insert(def.name@, fresh_runtime(def@)),
    {
        let rt = ServiceRuntime {
            def,
            child: None,
            launch_pending: false,
            state: ServiceState::Stopped,
            restarts: 0,
            failures: Vec::new(),
            backoff_ms: INITIAL_BACKOFF_MS,
            shutdown_flag: false,
        };
        assert(rt@.failures =~= Seq::<u64>::empty());
        let ghost s = self.services@;
        match self.position(&rt.def.name) {
            Some(i) => {
                proof { lemma_table_update(s, i as int, rt); }
                self.services.set(i, rt);
            },
            None => {
                proof { lemma_table_push(s, rt); }
                self.services.push(rt);
            },
        }
    }

    /// A table with one fresh record per service name; where two definitions
    /// share a name, the later one wins.
    pub fn new(defs: Vec<ServiceDef>) -> (s: Supervisor)
        requires
            forall|i: int| 0 <= i < defs@.len() ==> (#[trigger] defs@[i]).wf(),
        ensures
            s.wf(),
            s@ == initial_table(defs_view(defs@)),
    {
        let mut s = Supervisor { services: Vec::new() };
        assert(s@ =~= Map::<Seq<char>, RuntimeView>::empty());
        let mut i: usize = 0;
        while i < defs.len()
            invariant
                i <= defs@.len(),
                forall|j: int| 0 <= j < defs@.len() ==> (#[trigger] defs@[j]).wf(),
                s.wf(),
                s@ == initial_table(defs_view(defs@).take(i as int)),
            decreases defs@.len() - i,
        {
            let d = defs[i].clone();
            proof {
                let dv = defs_view(defs@);
                assert(dv.take(i + 1).drop_last() =~= dv.take(i as int));
                assert(dv.take(i + 1).last() == defs@[i as int]@);
            }
            s.register(d);
            i = i + 1;
        }
        assert(defs_view(defs@).take(defs@.len() as int) =~= defs_view(defs@));
        s
    }
}


impl Supervisor {
    /// Shows that replacing the record at `i` by the one now held there keeps
    /// the table well formed and updates it under that name.
    proof fn lemma_replaced(&self, old_services: Seq<ServiceRuntime>, i: int)
        requires
            names_distinct(old_services),
            forall|j: int| 0 <= j < old_services.len() ==> #[trigger] old_services[j].wf(),
            0 <= i < old_services.len(),
            self.services@ == old_services.update(i, self.services@[i]),
            self.services@[i].def == old_services[i].def,
            record_ok(old_services[i]@) ==> record_ok(self.services@[i]@),
        ensures
            self.wf(),
            self@ == table_of(old_services).insert(old_services[i].def.name@, self.services@[i]@),
    {
        assert(old_services[i].wf());
        lemma_table_update(old_services, i, self.services@[i]);
        assert forall|j: int| 0 <= j < self.services@.len() implies #[trigger] self.services@[j].wf() by {
            if j != i {
                assert(self.services@[j] == old_services[j]);
            }
        }
    }

    /// Begins a launch of the service `name` and hands back its definition to
    /// spawn from. Refused (and nothing changes) where the service is unknown,
    /// has a live child or a launch under way, was asked to stop, or is degraded.
    pub fn begin_launch(&mut self, name: &String) -> (r: Option<ServiceDef>)
        requires
            old(self).wf(),
        ensures
            final(self).wf(),
            final(self)@ == after_event(old(self)@, Event::Launch(name@)),
            r is Some <==> (old(self)@.contains_key(name@) && may_launch(old(self)@[name@])),
            r is Some ==> r->0.wf() && r->0@ == old(self)@[name@].def,
    {
        let ghost s = self.services@;
        match self.position(name) {
            None => None,
            Some(i) => {
                proof { assert(s[i as int].wf()); }
                if self.services[i].child.is_some() || self.services[i].launch_pending
                    || self.services[i].shutdown_flag
                    || self.services[i].state == ServiceState::Degraded {
                    return None;
                }
                self.services[i].state = ServiceState::Starting;
                self.services[i].launch_pending = true;
                proof {
                    assert(self.services@ =~= s.update(i as int, self.services@[i as int]));
                    self.lemma_replaced(s, i as int);
                }
                let d = self.services[i].def.clone();
                Some(d)
            },
        }
    }

    /// Records the outcome of a spawn of `name`: the new process's id, or
    /// `None` when the spawn failed. The process becomes the live child if a
    /// launch of the service was waiting for it; otherwise (the service is
    /// unknown, was stopped or restarted meanwhile) the caller kills it.
    pub fn record_spawn(&mut self, name: &String, pid: Option<u32>) -> (r: SpawnAction)
        requires
            old(self).wf(),
        ensures
            final(self).wf(),
            final(self)@ == after_event(old(self)@, Event::Spawned(name@, pid)),
            r == if old(self)@.contains_key(name@) {
                spawn_outcome(old(self)@[name@], pid).1
            } else if pid is Some {
                SpawnAction::Kill
            } else {
                SpawnAction::Nothing
            },
    {
        let ghost s = self.services@;
        match self.position(name) {
            None => if pid.is_some() { SpawnAction::Kill } else { SpawnAction::Nothing },
            Some(i) => {
                proof { assert(s[i as int].wf()); }
                let r = if !self.services[i].launch_pending || self.services[i].shutdown_flag {
                    if pid.is_some() { SpawnAction::Kill } else { SpawnAction::Nothing }
                } else {
                    match pid {
                        Some(_) => {
                            self.services[i].child = pid;
                            SpawnAction::Watch
                        },
                        None => {
                            self.services[i].state = ServiceState::Crashed;
                            SpawnAction::Nothing
                        },
                    }
                };
                self.services[i].launch_pending = false;
                proof {
                    assert(self.services@ =~= s.update(i as int, self.services@[i as int]));
                    self.lemma_replaced(s, i as int);
                }
                r
            },
        }
    }

    /// Ends the start-up grace period of the spawn of `name` with process id
    /// `pid`: if that process is still the live child and the service is still
    /// starting, it is now running; otherwise nothing changes.
    pub fn grace_elapsed(&mut self, name: &String, pid: u32)
        requires
            old(self).wf(),
        ensures
            final(self).wf(),
            final(self)@ == after_event(old(self)@, Event::Grace(name@, pid)),
    {
        let ghost s = self.services@;
        match self.position(name) {
            None => {},
            Some(i) => {
                if self.services[i].child == Some(pid) && self.services[i].state == ServiceState::Starting {
                    self.services[i].state = ServiceState::Running;
                }
                proof {
                    assert(self.services@ =~= s.update(i as int, self.services@[i as int]));
                    self.lemma_replaced(s, i as int);
                }
            },
        }
    }

    /// Decides what follows the exit, at time `now` (milliseconds of a monotonic
    /// clock), of process `pid` of `name`. The exit of a process that is not the
    /// live child is ignored. Otherwise a requested stop leaves the service
    /// stopped; if not, the crash is recorded, crashes older than the failure
    /// window are forgotten, and the service is degraded if enough crashes
    /// remain; if not, it is respawned after the current delay, which then
    /// doubles up to its cap.
    pub fn on_exit(&mut self, name: &String, pid: u32, now: u64) -> (r: ExitAction)
        requires
            old(self).wf(),
            event_allowed(old(self)@, Event::Exit(name@, pid, now)),
        ensures
            final(self).wf(),
            final(self)@ == after_event(old(self)@, Event::Exit(name@, pid, now)),
            r == if old(self)@.contains_key(name@) {
                exit_outcome(old(self)@[name@], pid, now).1
            } else {
                ExitAction::Ignored
            },
    {
        let ghost s = self.services@;
        match self.position(name) {
            None => ExitAction::Ignored,
            Some(i) => {
                proof {
                    assert(s[i as int].wf());
                    assert(self.services@ =~= s.update(i as int, self.services@[i as int]));
                }
                if self.services[i].child != Some(pid) {
                    proof { self.lemma_replaced(s, i as int); }
                    return ExitAction::Ignored;
                }
                self.services[i].child = None;
                if self.services[i].shutdown_flag {
                    self.services[i].state = ServiceState::Stopped;
                    proof {
                        assert(self.services@ =~= s.update(i as int, self.services@[i as int]));
                        self.lemma_replaced(s, i as int);
                    }
                    return ExitAction::Stopped;
                }
                let kept = prune_failures(&self.services[i].failures, now);
                let count = kept.len();
                self.services[i].failures = kept;
                if count >= MAX_FAILURES {
                    self.services[i].state = ServiceState::Degraded;
                    proof {
                        assert(self.services@ =~= s.update(i as int, self.services@[i as int]));
                        self.lemma_replaced(s, i as int);
                    }
                    return ExitAction::Degraded(count);
                }
                self.services[i].state = ServiceState::Crashed;
                let delay = self.services[i].backoff_ms;
                self.services[i].backoff_ms = backoff_after(delay);
                self.services[i].restarts = self.services[i].restarts + 1;
                proof {
                    assert(self.services@ =~= s.update(i as int, self.services@[i as int]));
                    self.lemma_replaced(s, i as int);
                }
                ExitAction::Respawn(delay)
            },
        }
    }
}

impl Supervisor {
    /// Whether recording the exit at `now` of process `pid` of `name` would
    /// respawn the service with its restart count already at its limit, so
    /// that the exit may not be recorded.
    pub fn restart_limit_reached(&self, name: &String, pid: u32, now: u64) -> (r: bool)
        requires
            self.wf(),
        ensures
            r == !event_allowed(self@, Event::Exit(name@, pid, now)),
    {
        match self.position(name) {
            None => false,
            Some(i) => {
                let t = &self.services[i];
                t.child == Some(pid) && !t.shutdown_flag && t.restarts == u32::MAX
                    && prune_failures(&t.failures, now).len() < MAX_FAILURES
            },
        }
    }
}

/// The mathematical content of an entry of a status snapshot.
pub open spec fn entry_view(e: (String, ServiceState, u32, Option<u16>)) -> (Seq<char>, ServiceState, u32, Option<u16>) {
    (e.0@, e.1, e.2, e.3)
}

/// The mathematical content of a status snapshot.
pub open spec fn snapshot_view(r: Seq<(String, ServiceState, u32, Option<u16>)>) -> Seq<(Seq<char>, ServiceState, u32, Option<u16>)> {
    r.map_values(|e: (String, ServiceState, u32, Option<u16>)| entry_view(e))
}

/// Whether `v` is a status snapshot of table `t`: one entry per service, each
/// with the service's name, state, restart count and port.
pub open spec fn snapshot_of(
    t: Map<Seq<char>, RuntimeView>,
    v: Seq<(Seq<char>, ServiceState, u32, Option<u16>)>,
) -> bool {
    &&& v.len() == t.dom().len()
    &&& forall|m: int, n: int| 0 <= m < v.len() && 0 <= n < v.len() && m != n ==> (#[trigger] v[m]).0 != (#[trigger] v[n]).0
    &&& forall|m: int| 0 <= m < v.len() ==> t.contains_key(#[trigger] v[m].0) && v[m] == (
        v[m].0,
        t[v[m].0].state,
        t[v[m].0].restarts,
        t[v[m].0].def.port,
    )
    &&& forall|k: Seq<char>| #[trigger] t.contains_key(k) ==> exists|m: int| 0 <= m < v.len() && v[m].0 == k
}

/// The character sequences of a vector of strings.
pub open spec fn names_view(v: Seq<String>) -> Seq<Seq<char>> {
    v.map_values(|s: String| s@)
}

impl Supervisor {
    /// Requests a stop of every service: no service is launched again until
    /// it is restarted explicitly, and pending launches are cancelled. A
    /// service that had a live child or a pending launch is now stopped; any
    /// other keeps its state. Returns the names of the services that had a
    /// live child; the caller kills and reaps those children.
    pub fn stop_all(&mut self) -> (r: Vec<String>)
        requires
            old(self).wf(),
        ensures
            final(self).wf(),
            final(self)@ == after_event(old(self)@, Event::StopAll),
            final(self)@.dom() == old(self)@.dom(),
            forall|k: Seq<char>| #[trigger] old(self)@.contains_key(k) ==> {
                let (o, n) = (old(self)@[k], final(self)@[k]);
                &&& n.shutdown_flag
                &&& n.child is None
                &&& !n.launch_pending
                &&& n.def == o.def && n.restarts == o.restarts && n.failures == o.failures
                    && n.backoff_ms == o.backoff_ms
                &&& n.state == if o.child is Some || o.launch_pending { ServiceState::Stopped } else { o.state }
            },
            names_view(r@).no_duplicates(),
            forall|k: Seq<char>|
                names_view(r@).contains(k) <==> (old(self)@.contains_key(k) && old(
                    self,
                )@[k].child is Some),
    {
        let ghost s = self.services@;
        let mut r: Vec<String> = Vec::new();
        let ghost mut idx: Seq<int> = Seq::empty();
        let mut i: usize = 0;
        while i < self.services.len()
            invariant
                names_distinct(s),
                forall|j: int| 0 <= j < s.len() ==> #[trigger] s[j].wf(),
                self.services@.len() == s.len(),
                i <= s.len(),
                forall|j: int| 0 <= j < i ==> (#[trigger] self.services@[j]).def == s[j].def && self.services@[j]@ == stopped(s[j]@),
                forall|j: int| i <= j < s.len() ==> #[trigger] self.services@[j] == s[j],
                idx.len() == r@.len(),
                forall|m: int| 0 <= m < idx.len() ==> 0 <= #[trigger] idx[m] < i && s[idx[m]].child is Some
                    && r@[m]@ == s[idx[m]].def.name@,
                forall|m: int, n: int| 0 <= m < n < idx.len() ==> #[trigger] idx[m] < #[trigger] idx[n],
                forall|j: int| 0 <= j < i && (#[trigger] s[j]).child is Some ==> exists|m: int| 0 <= m < idx.len() && idx[m] == j,
            decreases s.len() - i,
        {
            let ghost idx0 = idx;
            if self.services[i].child.is_some() || self.services[i].launch_pending {
                self.services[i].state = ServiceState::Stopped;
            }
            self.services[i].shutdown_flag = true;
            self.services[i].launch_pending = false;
            if self.services[i].child.is_some() {
                self.services[i].child = None;
                let n = self.services[i].def.name.clone();
                r.push(n);
                proof {
                    idx = idx.push(i as int);
                    assert(idx[idx.len() - 1] == i as int);
                }
            }
            proof {
                assert forall|j: int| 0 <= j < i + 1 && (#[trigger] s[j]).child is Some implies exists|m: int| 0 <= m < idx.len() && idx[m] == j by {
                    if j < i {
                        let m = choose|m: int| 0 <= m < idx0.len() && idx0[m] == j;
                        assert(idx[m] == j);
                    } else {
                        assert(idx[idx.len() - 1] == j);
                    }
                }
            }
            i = i + 1;
        }
        proof {
            lemma_table_map_stopped(s, self.services@);
            assert forall|j: int| 0 <= j < self.services@.len() implies #[trigger] self.services@[j].wf() by {
                assert(s[j].wf());
            }
            let nv = names_view(r@);
            assert forall|m: int, n: int| 0 <= m < nv.len() && 0 <= n < nv.len() && m != n implies nv[m] != nv[n] by {
                if m < n {
                    assert(idx[m] < idx[n]);
                } else {
                    assert(idx[n] < idx[m]);
                }
            }
            assert forall|k: Seq<char>| nv.contains(k) <==> (table_of(s).contains_key(k) && table_of(s)[k].child is Some) by {
                if nv.contains(k) {
                    let m = choose|m: int| 0 <= m < nv.len() && nv[m] == k;
                    lemma_table_at(s, idx[m]);
                }
                if table_of(s).contains_key(k) && table_of(s)[k].child is Some {
                    let j = name_index(s, k);
                    lemma_table_at(s, j);
                    let m = choose|m: int| 0 <= m < idx.len() && idx[m] == j;
                    assert(nv[m] == k);
                }
            }
        }
        r
    }

    /// Prepares a manual restart of `name`: forgets its recent crashes, resets
    /// its respawn delay and clears a requested stop. Returns the service's
    /// live child, which the caller kills and reaps before launching again.
    pub fn reset_for_restart(&mut self, name: &String) -> (r: Option<u32>)
        requires
            old(self).wf(),
        ensures
            final(self).wf(),
            final(self)@ == after_event(old(self)@, Event::Restart(name@)),
            r == if old(self)@.contains_key(name@) { old(self)@[name@].child } else { None },
    {
        let ghost s = self.services@;
        match self.position(name) {
            None => None,
            Some(i) => {
                let c = self.services[i].child;
                self.services[i].child = None;
                self.services[i].failures.clear();
                self.services[i].backoff_ms = INITIAL_BACKOFF_MS;
                self.services[i].shutdown_flag = false;
                if !self.services[i].launch_pending {
                    self.services[i].state = ServiceState::Stopped;
                }
                proof {
                    assert(self.services@[i as int].failures@ =~= Seq::<u64>::empty());
                    assert(self.services@ =~= s.update(i as int, self.services@[i as int]));
                    self.lemma_replaced(s, i as int);
                }
                c
            },
        }
    }

    /// The name, state, restart count and port of every service, each once.
    pub fn status_snapshot(&self) -> (r: Vec<(String, ServiceState, u32, Option<u16>)>)
        requires
            self.wf(),
        ensures
            r@.len() == self@.dom().len(),
            forall|m: int, n: int| 0 <= m < r@.len() && 0 <= n < r@.len() && m != n ==> (#[trigger] r@[m]).0@ != (#[trigger] r@[n]).0@,
            forall|m: int| 0 <= m < r@.len() ==> {
                let e = #[trigger] r@[m];
                &&& self@.contains_key(e.0@)
                &&& e.1 == self@[e.0@].state
                &&& e.2 == self@[e.0@].restarts
                &&& e.3 == self@[e.0@].def.port
            },
            forall|k: Seq<char>| #[trigger] self@.contains_key(k) ==> exists|m: int| 0 <= m < r@.len() && r@[m].0@ == k,
            snapshot_of(self@, snapshot_view(r@)),
    {
        let mut r: Vec<(String, ServiceState, u32, Option<u16>)> = Vec::new();
        let mut i: usize = 0;
        while i < self.services.len()
            invariant
                self.wf(),
                i <= self.services@.len(),
                r@.len() == i,
                forall|m: int| 0 <= m < i ==> {
                    let e = #[trigger] r@[m];
                    let t = self.services@[m];
                    &&& e.0@ == t.def.name@
                    &&& e.1 == t.state
                    &&& e.2 == t.restarts
                    &&& e.3 == t.def.port
                },
            decreases self.services@.len() - i,
        {
            let t = &self.services[i];
            r.push((t.def.name.clone(), t.state, t.restarts, t.def.port));
            i = i + 1;
        }
        proof {
            let s = self.services@;
            lemma_table_len(s);
            assert forall|m: int| 0 <= m < r@.len() implies {
                let e = #[trigger] r@[m];
                &&& self@.contains_key(e.0@)
                &&& e.1 == self@[e.0@].state
                &&& e.2 == self@[e.0@].restarts
                &&& e.3 == self@[e.0@].def.port
            } by {
                lemma_table_at(s, m);
            }
            assert forall|k: Seq<char>| #[trigger] self@.contains_key(k) implies exists|m: int| 0 <= m < r@.len() && r@[m].0@ == k by {
                let j = name_index(s, k);
                assert(r@[j].0@ == k);
            }
            let v = snapshot_view(r@);
            assert forall|k: Seq<char>| #[trigger] self@.contains_key(k) implies exists|m: int| 0 <= m < v.len() && v[m].0 == k by {
                let m = choose|m: int| 0 <= m < r@.len() && r@[m].0@ == k;
                assert(v[m].0 == k);
            }
            assert forall|m: int| 0 <= m < v.len() implies self@.contains_key(#[trigger] v[m].0) && v[m] == (
                v[m].0,
                self@[v[m].0].state,
                self@[v[m].0].restarts,
                self@[v[m].0].def.port,
            ) by {
                assert(v[m] == entry_view(r@[m]));
            }
            assert forall|m: int, n: int| 0 <= m < v.len() && 0 <= n < v.len() && m != n implies (#[trigger] v[m]).0 != (#[trigger] v[n]).0 by {
                assert(v[m] == entry_view(r@[m]));
                assert(v[n] == entry_view(r@[n]));
            }
        }
        r
    }

    /// The names of all services, each once.
    pub fn service_names(&self) -> (r: Vec<String>)
        requires
            self.wf(),
        ensures
            names_view(r@).no_duplicates(),
            forall|k: Seq<char>| names_view(r@).contains(k) <==> self@.contains_key(k),
    {
        let mut r: Vec<String> = Vec::new();
        let mut i: usize = 0;
        while i < self.services.len()
            invariant
                self.wf(),
                i <= self.services@.len(),
                r@.len() == i,
                forall|m: int| 0 <= m < i ==> (#[trigger] r@[m])@ == self.services@[m].def.name@,
            decreases self.services@.len() - i,
        {
            r.push(self.services[i].def.name.clone());
            i = i + 1;
        }
        proof {
            let s = self.services@;
            let nv = names_view(r@);
            assert forall|k: Seq<char>| nv.contains(k) <==> self@.contains_key(k) by {
                if nv.contains(k) {
                    let m = choose|m: int| 0 <= m < nv.len() && nv[m] == k;
                    lemma_table_at(s, m);
                }
                if self@.contains_key(k) {
                    let j = name_index(s, k);
                    assert(nv[j] == k);
                }
            }
        }
        r
    }

    /// The record of `name`, if the service is known.
    pub fn runtime(&self, name: &String) -> (r: Option<&ServiceRuntime>)
        requires
            self.wf(),
        ensures
            r is Some <==> self@.contains_key(name@),
            r is Some ==> r->0@ == self@[name@] && r->0.wf(),
    {
        match self.position(name) {
            None => None,
            Some(i) => {
                proof { assert(self.services@[i as int].wf()); }
                Some(&self.services[i])
            },
        }
    }

    /// The number of services.
    pub fn len(&self) -> (n: usize)
        requires
            self.wf(),
        ensures
            n == self@.dom().len(),
    {
        proof { lemma_table_len(self.services@); }
        self.services.len()
    }
}

impl ServiceRuntime {
    /// How the service is launched.
    pub fn def(&self) -> (d: &ServiceDef)
        ensures
            d@ == self@.def,
    {
        &self.def
    }

    /// The process id of the child the supervisor holds, if any.
    pub fn child(&self) -> (c: Option<u32>)
        ensures
            c == self@.child,
    {
        self.child
    }

    /// The life phase of the service.
    pub fn state(&self) -> (s: ServiceState)
        ensures
            s == self@.state,
    {
        self.state
    }

    /// How often the service was respawned after a crash.
    pub fn restarts(&self) -> (n: u32)
        ensures
            n == self@.restarts,
    {
        self.restarts
    }

    /// Times of the crashes that still count.
    pub fn failures(&self) -> (f: &Vec<u64>)
        ensures
            f@ == self@.failures,
    {
        &self.failures
    }

    /// The delay before the next respawn, in milliseconds.
    pub fn backoff_ms(&self) -> (b: u64)
        ensures
            b == self@.backoff_ms,
    {
        self.backoff_ms
    }

    /// Whether a launch is under way.
    pub fn launch_pending(&self) -> (b: bool)
        ensures
            b == self@.launch_pending,
    {
        self.launch_pending
    }

    /// Whether a stop was requested.
    pub fn shutdown_requested(&self) -> (b: bool)
        ensures
            b == self@.shutdown_flag,
    {
        self.shutdown_flag
    }
}

} // verus!
