use anchor_tray_app::env_map::EnvMap;
use anchor_tray_app::policy::{FAILURE_WINDOW_MS, INITIAL_BACKOFF_MS, MAX_BACKOFF_MS};
use anchor_tray_app::service::{ServiceDef, ServiceState};
use anchor_tray_app::supervisor::{ExitAction, SpawnAction, Supervisor};

fn def(name: &str, cmd: &str, port: Option<u16>) -> ServiceDef {
    ServiceDef {
        name: name.to_string(),
        cmd: cmd.to_string(),
        args: vec!["run".to_string()],
        env: EnvMap::new(),
        port,
    }
}

fn s(x: &str) -> String {
    x.to_string()
}

fn three() -> Supervisor {
    Supervisor::new(vec![
        def("anchor-backend", "node", Some(3001)),
        def("anchor-admin-backend", "node", Some(3002)),
        def("anchor-security", "node", Some(3004)),
    ])
}

/// Launches `name` and records a successful spawn as process `pid`.
fn start(sup: &mut Supervisor, name: &String, pid: u32) {
    assert!(sup.begin_launch(name).is_some());
    assert_eq!(sup.record_spawn(name, Some(pid)), SpawnAction::Watch);
}

#[test]
fn new_registers_each_service_fresh() {
    let sup = three();
    assert_eq!(sup.len(), 3);
    for n in ["anchor-backend", "anchor-admin-backend", "anchor-security"] {
        let rt = sup.runtime(&s(n)).unwrap();
        assert_eq!(rt.state(), ServiceState::Stopped);
        assert_eq!(rt.restarts(), 0);
        assert_eq!(rt.backoff_ms(), INITIAL_BACKOFF_MS);
        assert!(rt.failures().is_empty());
        assert_eq!(rt.child(), None);
        assert!(!rt.launch_pending());
        assert!(!rt.shutdown_requested());
        assert_eq!(rt.def().name, n);
    }
    assert!(sup.runtime(&s("other")).is_none());
}

#[test]
fn new_keeps_last_definition_of_a_name() {
    let sup = Supervisor::new(vec![def("a", "first", None), def("b", "x", None), def("a", "second", Some(9))]);
    assert_eq!(sup.len(), 2);
    let rt = sup.runtime(&s("a")).unwrap();
    assert_eq!(rt.def().cmd, "second");
    assert_eq!(rt.def().port, Some(9));
}

#[test]
fn begin_launch_marks_starting_and_hands_back_definition() {
    let mut sup = three();
    let d = sup.begin_launch(&s("anchor-security")).unwrap();
    assert_eq!(d.name, "anchor-security");
    assert_eq!(d.cmd, "node");
    assert_eq!(d.args, vec!["run".to_string()]);
    assert_eq!(d.port, Some(3004));
    let rt = sup.runtime(&s("anchor-security")).unwrap();
    assert_eq!(rt.state(), ServiceState::Starting);
    assert!(rt.launch_pending());
}

#[test]
fn begin_launch_of_unknown_service_does_nothing() {
    let mut sup = three();
    assert!(sup.begin_launch(&s("nope")).is_none());
    assert_eq!(sup.len(), 3);
}

#[test]
fn no_second_launch_while_a_launch_is_under_way() {
    let mut sup = three();
    let name = s("anchor-backend");
    assert!(sup.begin_launch(&name).is_some());
    assert!(sup.begin_launch(&name).is_none());
}

#[test]
fn no_second_launch_while_the_child_lives() {
    let mut sup = three();
    let name = s("anchor-backend");
    start(&mut sup, &name, 4242);
    assert!(sup.begin_launch(&name).is_none());
    sup.grace_elapsed(&name, 4242);
    assert!(sup.begin_launch(&name).is_none());
    assert_eq!(sup.runtime(&name).unwrap().child(), Some(4242));
    assert_eq!(sup.runtime(&name).unwrap().state(), ServiceState::Running);
}

#[test]
fn failed_spawn_marks_crashed() {
    let mut sup = three();
    let name = s("anchor-backend");
    sup.begin_launch(&name);
    assert_eq!(sup.record_spawn(&name, None), SpawnAction::Nothing);
    let rt = sup.runtime(&name).unwrap();
    assert_eq!(rt.state(), ServiceState::Crashed);
    assert_eq!(rt.child(), None);
    assert!(!rt.launch_pending());
}

#[test]
fn a_spawn_nobody_waits_for_is_killed() {
    let mut sup = three();
    assert_eq!(sup.record_spawn(&s("ghost"), Some(3)), SpawnAction::Kill);
    assert_eq!(sup.record_spawn(&s("ghost"), None), SpawnAction::Nothing);
    assert_eq!(sup.record_spawn(&s("anchor-backend"), Some(3)), SpawnAction::Kill);
    assert_eq!(sup.runtime(&s("anchor-backend")).unwrap().child(), None);
}

#[test]
fn grace_period_promotes_only_the_current_spawn() {
    let mut sup = three();
    let a = s("anchor-backend");
    start(&mut sup, &a, 1);
    assert_eq!(sup.on_exit(&a, 1, 100), ExitAction::Respawn(1000));
    start(&mut sup, &a, 2);
    // The grace step of the first, crashed, spawn does not promote the second.
    sup.grace_elapsed(&a, 1);
    assert_eq!(sup.runtime(&a).unwrap().state(), ServiceState::Starting);
    sup.grace_elapsed(&a, 2);
    assert_eq!(sup.runtime(&a).unwrap().state(), ServiceState::Running);
    let c = s("anchor-admin-backend");
    sup.grace_elapsed(&c, 7);
    assert_eq!(sup.runtime(&c).unwrap().state(), ServiceState::Stopped);
}

#[test]
fn crashes_far_apart_follow_the_backoff_schedule() {
    let mut sup = three();
    let a = s("anchor-backend");
    let expected = [1000u64, 2000, 4000, 8000, 16000, 32000, 60000, 60000, 60000];
    let mut now: u64 = 1_000_000;
    for (k, d) in expected.iter().enumerate() {
        let pid = 100 + k as u32;
        start(&mut sup, &a, pid);
        assert_eq!(sup.on_exit(&a, pid, now), ExitAction::Respawn(*d));
        let rt = sup.runtime(&a).unwrap();
        assert_eq!(rt.state(), ServiceState::Crashed);
        assert_eq!(rt.child(), None);
        assert_eq!(rt.restarts(), k as u32 + 1);
        assert_eq!(rt.failures(), &vec![now]);
        now += FAILURE_WINDOW_MS + 1;
    }
    assert_eq!(sup.runtime(&a).unwrap().backoff_ms(), MAX_BACKOFF_MS);
}

#[test]
fn five_crashes_within_the_window_degrade_the_service() {
    let mut sup = three();
    let a = s("anchor-backend");
    for (i, t) in [10_000u64, 20_000, 30_000, 40_000].iter().enumerate() {
        start(&mut sup, &a, i as u32);
        assert!(matches!(sup.on_exit(&a, i as u32, *t), ExitAction::Respawn(_)));
    }
    start(&mut sup, &a, 9);
    assert_eq!(sup.on_exit(&a, 9, 50_000), ExitAction::Degraded(5));
    let rt = sup.runtime(&a).unwrap();
    assert_eq!(rt.state(), ServiceState::Degraded);
    assert_eq!(rt.restarts(), 4);
    assert_eq!(rt.failures(), &vec![10_000, 20_000, 30_000, 40_000, 50_000]);
    // A degraded service stays down until it is restarted.
    assert!(sup.begin_launch(&a).is_none());
    assert_eq!(sup.runtime(&a).unwrap().state(), ServiceState::Degraded);
}

#[test]
fn crashes_older_than_the_window_no_longer_count() {
    let mut sup = three();
    let a = s("anchor-backend");
    for t in [0u64, 1, 2, 3] {
        start(&mut sup, &a, t as u32);
        sup.on_exit(&a, t as u32, t);
    }
    start(&mut sup, &a, 50);
    // A crash exactly one window after the first one: the first has expired.
    assert_eq!(sup.on_exit(&a, 50, FAILURE_WINDOW_MS), ExitAction::Respawn(16000));
    assert_eq!(sup.runtime(&a).unwrap().failures(), &vec![1, 2, 3, FAILURE_WINDOW_MS]);
}

#[test]
fn exit_of_an_unknown_service_or_process_is_ignored() {
    let mut sup = three();
    let a = s("anchor-backend");
    assert_eq!(sup.on_exit(&s("ghost"), 1, 5), ExitAction::Ignored);
    assert_eq!(sup.on_exit(&a, 1, 5), ExitAction::Ignored);
    start(&mut sup, &a, 8);
    assert_eq!(sup.on_exit(&a, 7, 5), ExitAction::Ignored);
    assert_eq!(sup.runtime(&a).unwrap().child(), Some(8));
    assert!(sup.runtime(&a).unwrap().failures().is_empty());
}

#[test]
fn stop_all_hands_out_every_live_child_and_prevents_relaunch() {
    let mut sup = three();
    let a = s("anchor-backend");
    let b = s("anchor-security");
    let c = s("anchor-admin-backend");
    start(&mut sup, &a, 11);
    start(&mut sup, &b, 12);
    sup.grace_elapsed(&b, 12);
    sup.begin_launch(&c);
    let mut killed = sup.stop_all();
    killed.sort();
    assert_eq!(killed, vec![a.clone(), b.clone()]);
    for n in [&a, &b, &c] {
        let rt = sup.runtime(n).unwrap();
        assert_eq!(rt.state(), ServiceState::Stopped);
        assert_eq!(rt.child(), None);
        assert!(!rt.launch_pending());
        assert!(rt.shutdown_requested());
    }
    // A service with neither a child nor a pending launch keeps its state.
    let mut sup2 = three();
    start(&mut sup2, &a, 1);
    sup2.on_exit(&a, 1, 1);
    sup2.stop_all();
    assert_eq!(sup2.runtime(&a).unwrap().state(), ServiceState::Crashed);
    assert_eq!(sup2.runtime(&c).unwrap().state(), ServiceState::Stopped);
    assert!(sup2.begin_launch(&a).is_none());
    // The killed children's exits are not counted, the pending spawn is killed,
    // and a watcher waking from its backoff cannot launch again.
    assert_eq!(sup.on_exit(&b, 12, 1), ExitAction::Ignored);
    assert_eq!(sup.record_spawn(&c, Some(13)), SpawnAction::Kill);
    assert!(sup.begin_launch(&a).is_none());
    assert!(sup.begin_launch(&b).is_none());
    assert!(sup.runtime(&a).unwrap().failures().is_empty());
}

#[test]
fn manual_restart_hands_out_the_live_child_and_forgets_crashes() {
    let mut sup = three();
    let a = s("anchor-backend");
    for t in [1u64, 2, 3] {
        start(&mut sup, &a, t as u32);
        sup.on_exit(&a, t as u32, t);
    }
    start(&mut sup, &a, 5);
    assert_eq!(sup.reset_for_restart(&a), Some(5));
    let rt = sup.runtime(&a).unwrap();
    assert!(rt.failures().is_empty());
    assert_eq!(rt.backoff_ms(), INITIAL_BACKOFF_MS);
    assert!(!rt.shutdown_requested());
    assert_eq!(rt.child(), None);
    assert_eq!(rt.state(), ServiceState::Stopped);
    assert_eq!(rt.restarts(), 3);
    // The old process's exit is not a crash; the new one is the live child.
    start(&mut sup, &a, 6);
    assert_eq!(sup.on_exit(&a, 5, 7), ExitAction::Ignored);
    assert_eq!(sup.runtime(&a).unwrap().child(), Some(6));
    assert_eq!(sup.on_exit(&a, 6, 8), ExitAction::Respawn(INITIAL_BACKOFF_MS));
    assert_eq!(sup.reset_for_restart(&s("ghost")), None);
}

#[test]
fn restart_revives_a_degraded_or_stopped_service() {
    let mut sup = three();
    let a = s("anchor-backend");
    for t in [1u64, 2, 3, 4, 5] {
        start(&mut sup, &a, t as u32);
        sup.on_exit(&a, t as u32, t);
    }
    assert_eq!(sup.runtime(&a).unwrap().state(), ServiceState::Degraded);
    assert_eq!(sup.reset_for_restart(&a), None);
    assert_eq!(sup.runtime(&a).unwrap().state(), ServiceState::Stopped);
    start(&mut sup, &a, 20);
    sup.stop_all();
    assert_eq!(sup.reset_for_restart(&a), None);
    start(&mut sup, &a, 21);
    assert_eq!(sup.on_exit(&a, 21, 10), ExitAction::Respawn(INITIAL_BACKOFF_MS));
}

#[test]
fn a_restart_during_a_pending_launch_keeps_that_launch() {
    let mut sup = three();
    let a = s("anchor-backend");
    sup.begin_launch(&a);
    assert_eq!(sup.reset_for_restart(&a), None);
    assert!(sup.begin_launch(&a).is_none());
    assert_eq!(sup.record_spawn(&a, Some(4)), SpawnAction::Watch);
    assert_eq!(sup.runtime(&a).unwrap().state(), ServiceState::Starting);
}

#[test]
fn status_snapshot_lists_every_service_once() {
    let mut sup = three();
    let a = s("anchor-backend");
    start(&mut sup, &a, 1);
    sup.on_exit(&a, 1, 1);
    let mut snap = sup.status_snapshot();
    snap.sort_by(|x, y| x.0.cmp(&y.0));
    assert_eq!(
        snap,
        vec![
            (s("anchor-admin-backend"), ServiceState::Stopped, 0, Some(3002)),
            (s("anchor-backend"), ServiceState::Crashed, 1, Some(3001)),
            (s("anchor-security"), ServiceState::Stopped, 0, Some(3004)),
        ]
    );
    let mut again = sup.status_snapshot();
    again.sort_by(|x, y| x.0.cmp(&y.0));
    assert_eq!(snap, again);
}

#[test]
fn service_names_lists_every_service_once() {
    let sup = three();
    let mut names = sup.service_names();
    names.sort();
    assert_eq!(names, vec![s("anchor-admin-backend"), s("anchor-backend"), s("anchor-security")]);
}

#[test]
fn restart_limit_is_reported_only_for_a_respawning_exit() {
    let mut sup = three();
    let a = s("anchor-backend");
    assert!(!sup.restart_limit_reached(&a, 1, 10));
    start(&mut sup, &a, 1);
    assert!(!sup.restart_limit_reached(&a, 1, 10));
    assert!(!sup.restart_limit_reached(&s("ghost"), 1, 10));
}
