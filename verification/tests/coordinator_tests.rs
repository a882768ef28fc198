use dedup_cache::coordinator::SaveAction;
use dedup_cache::coordinator::SaveCoordinator;

#[test]
fn signal_while_idle_begins_a_save() {
    let mut c = SaveCoordinator::new();
    assert_eq!(c.notify_dirty(), SaveAction::BeginSave);
}

#[test]
fn signals_during_a_save_coalesce_into_one_follow_up() {
    let mut c = SaveCoordinator::new();
    assert_eq!(c.notify_dirty(), SaveAction::BeginSave);
    // ten more mutations arrive while that save runs
    let mut begun = 0;
    for _ in 0..10 {
        if c.notify_dirty() == SaveAction::BeginSave {
            begun += 1;
        }
    }
    assert_eq!(begun, 0);
    // the completion of the running save starts exactly one more cycle,
    // snapshotting the state after the last signal
    assert_eq!(c.save_completed(), SaveAction::BeginSave);
    // nothing further is queued behind it
    assert_eq!(c.save_completed(), SaveAction::Stand);
}

#[test]
fn completion_without_pending_signal_returns_to_idle() {
    let mut c = SaveCoordinator::new();
    assert_eq!(c.notify_dirty(), SaveAction::BeginSave);
    assert_eq!(c.save_completed(), SaveAction::Stand);
    // idle again: the next signal starts a fresh save
    assert_eq!(c.notify_dirty(), SaveAction::BeginSave);
}

#[test]
fn each_burst_is_saved_at_least_once() {
    let mut c = SaveCoordinator::new();
    // burst one
    let mut saves = 0;
    for _ in 0..5 {
        if c.notify_dirty() == SaveAction::BeginSave {
            saves += 1;
        }
    }
    assert_eq!(saves, 1);
    // burst two, while the first save still runs
    for _ in 0..5 {
        assert_eq!(c.notify_dirty(), SaveAction::Stand);
    }
    assert_eq!(c.save_completed(), SaveAction::BeginSave);
    assert_eq!(c.save_completed(), SaveAction::Stand);
}
