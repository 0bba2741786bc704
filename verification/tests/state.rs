use ffxiv_market_overlay::state::SyncGate;

#[test]
fn only_one_sync_runs_at_a_time() {
    let mut gate = SyncGate::new();

    let guard = gate.begin_sync().unwrap();
    assert_eq!(
        gate.begin_sync().unwrap_err().kind(),
        "invalid",
        "a second concurrent sync is refused"
    );

    gate.end_sync(guard);
    assert!(gate.begin_sync().is_ok(), "the flag clears when the sync ends");
}

#[test]
fn a_refused_sync_names_the_one_running() {
    let mut gate = SyncGate::new();
    assert!(!gate.is_running());
    let _guard = gate.begin_sync().unwrap();
    assert!(gate.is_running());
    assert_eq!(gate.begin_sync().unwrap_err().to_string(), "a catalog sync is already running");
    assert!(gate.is_running());
}
