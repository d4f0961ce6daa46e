use anchor_tray_app::policy::{backoff_after, needs_rotation, prune_failures, MAX_LOG_BYTES};

#[test]
fn log_rotation_starts_past_ten_megabytes() {
    assert_eq!(MAX_LOG_BYTES, 10 * 1024 * 1024);
    assert!(!needs_rotation(0));
    assert!(!needs_rotation(10 * 1024 * 1024));
    assert!(needs_rotation(10 * 1024 * 1024 + 1));
    assert!(needs_rotation(u64::MAX));
}

#[test]
fn backoff_doubles_up_to_one_minute() {
    assert_eq!(backoff_after(1000), 2000);
    assert_eq!(backoff_after(16000), 32000);
    assert_eq!(backoff_after(30000), 60000);
    assert_eq!(backoff_after(32000), 60000);
    assert_eq!(backoff_after(60000), 60000);
    assert_eq!(backoff_after(0), 0);
    assert_eq!(backoff_after(u64::MAX), 60000);
    for b in [0u64, 1, 29_999, 30_000, 30_001, 1 << 40] {
        assert_eq!(backoff_after(b), b.saturating_mul(2).min(60_000));
    }
}

#[test]
fn pruning_keeps_recent_crashes_and_adds_the_new_one() {
    assert_eq!(prune_failures(&vec![], 5), vec![5]);
    assert_eq!(prune_failures(&vec![0, 100, 200], 300), vec![0, 100, 200, 300]);
    assert_eq!(prune_failures(&vec![0, 100, 200], 300_100), vec![200, 300_100]);
    assert_eq!(prune_failures(&vec![1, 2], 10_000_000), vec![10_000_000]);
}
