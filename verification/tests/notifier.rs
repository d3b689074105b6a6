use qmkonnect::notifier::{
    classification_cache_clear, classification_cache_get, classification_cache_insert,
    classify_cached, classify_device_status, classify_reply, configured_filter,
    device_matches_filter, device_status, dispatch_plan, handshake_action,
    handshake_warm_eligible, host_capable, host_context_command, invalidate_absent_cache_entries,
    is_device_error_message, kind_label, narrowed_filter, perform_handshake,
    perform_handshake_with, presence_tick_decision, record_probe, reprobe_needed,
    reset_handshake_state, send_retry_step, sweep_cap, tier1_paths, warm_cache_from_handshake,
    window_message, board_has_rules, callback_names, Candidate, ClassificationCache,
    ClassifiedDevice, CommandResponse, DebounceState, DeviceKind, DeviceStatus, DispatchPlan,
    HandshakeAction, HandshakeOptions, HandshakeOutcome, HandshakeState, HandshakeStep,
    HostContext, HostOs, PendingMessage, PresenceTracker, RetryStep, RunCommand, WindowInfo,
    WorkerStep,
};
use qmkonnect::config::Config;
use qmkonnect::keyed::StrKeyMap;
use qmkonnect::notifier::{rules_invalid_notice, startup_probe_message, unknown_callback_names, DeviceFilter};

#[test]
fn test_handshake_action_transitions() {
    assert_eq!(handshake_action(None, true), HandshakeAction::Gain);
    assert_eq!(handshake_action(None, false), HandshakeAction::NoChange);
    assert_eq!(handshake_action(Some(false), true), HandshakeAction::Gain);
    assert_eq!(handshake_action(Some(true), false), HandshakeAction::Loss);
    assert_eq!(handshake_action(Some(true), true), HandshakeAction::NoChange);
    assert_eq!(handshake_action(Some(false), false), HandshakeAction::NoChange);
}

#[test]
fn test_handshake_action_loss_on_seeded_true_to_false() {
    assert_eq!(handshake_action(Some(true), false), HandshakeAction::Loss);
}

#[test]
fn test_presence_tick_capable_unplug_with_non_capable_remaining_is_loss() {
    let (action, capable) = presence_tick_decision(true, true, true, Some(false));
    assert_eq!(action, HandshakeAction::Loss);
    assert!(!capable);
}

#[test]
fn test_presence_tick_capable_replug_different_board_is_gain() {
    let (action, capable) = presence_tick_decision(false, true, true, Some(true));
    assert_eq!(action, HandshakeAction::Gain);
    assert!(capable);
}

#[test]
fn test_presence_tick_stable_bus_no_reprobe_no_action() {
    assert_eq!(
        presence_tick_decision(true, false, true, None),
        (HandshakeAction::NoChange, true)
    );
    assert_eq!(
        presence_tick_decision(false, false, true, None),
        (HandshakeAction::NoChange, false)
    );
}

#[test]
fn test_presence_tick_all_unplugged_forces_loss() {
    assert_eq!(
        presence_tick_decision(true, true, false, None),
        (HandshakeAction::Loss, false)
    );
    assert_eq!(
        presence_tick_decision(false, false, false, None),
        (HandshakeAction::NoChange, false)
    );
}

#[test]
fn test_presence_tick_boot_reprobe_capable_is_none_when_already_capable() {
    assert_eq!(
        presence_tick_decision(true, true, true, Some(true)),
        (HandshakeAction::NoChange, true)
    );
}

#[test]
fn test_presence_tick_reprobe_not_capable_after_not_capable_is_none() {
    assert_eq!(
        presence_tick_decision(false, true, true, Some(false)),
        (HandshakeAction::NoChange, false)
    );
}

#[test]
fn test_reprobe_needed_on_path_change() {
    assert!(reprobe_needed(true, true, false, 0));
    assert!(reprobe_needed(true, true, true, 0));
}

#[test]
fn test_reprobe_needed_grace_window_for_unconfirmed_present_board() {
    assert!(reprobe_needed(false, true, false, 3));
    assert!(!reprobe_needed(false, true, false, 0));
    assert!(!reprobe_needed(false, true, true, 3));
}

#[test]
fn test_reprobe_needed_no_board_present() {
    assert!(!reprobe_needed(true, false, false, 6));
    assert!(!reprobe_needed(false, false, false, 6));
}

#[test]
fn test_hot_swap_transient_miss_then_capable_is_gain() {
    let (action1, capable1) = presence_tick_decision(true, true, true, Some(false));
    assert_eq!(action1, HandshakeAction::Loss);
    assert!(!capable1);
    let (action2, capable2) = presence_tick_decision(false, true, true, Some(true));
    assert_eq!(action2, HandshakeAction::Gain);
    assert!(capable2);
}

#[test]
fn test_classify_device_status_truth_table() {
    assert_eq!(classify_device_status(false, false), DeviceStatus::Disconnected);
    assert_eq!(classify_device_status(false, true), DeviceStatus::Disconnected);
    assert_eq!(classify_device_status(true, false), DeviceStatus::NoModule);
    assert_eq!(classify_device_status(true, true), DeviceStatus::Connected);
}

fn capable_sample() -> DeviceKind {
    DeviceKind::Capable {
        proto_ver: 2,
        feature_flags: 1,
        callback_count: 4,
        board_rules_present: true,
    }
}

#[test]
fn kind_label_matches_spec() {
    let capable = DeviceKind::Capable {
        proto_ver: 2,
        feature_flags: 1,
        callback_count: 0,
        board_rules_present: false,
    };
    assert_eq!(kind_label(&capable), "qmk_notifier");
    assert_eq!(kind_label(&DeviceKind::NotQmkNotifier), "qmk-only");
}

#[test]
fn test_classification_cache_insert_then_get() {
    let mut cache = ClassificationCache::new();
    classification_cache_clear(&mut cache);
    let kind = capable_sample();
    classification_cache_insert(&mut cache, "p-capable", kind.clone(), 1000);
    let got = classification_cache_get(&cache, "p-capable", 1000);
    assert_eq!(got, Some(kind));
}

#[test]
fn test_classification_cache_miss() {
    let mut cache = ClassificationCache::new();
    classification_cache_clear(&mut cache);
    assert_eq!(classification_cache_get(&cache, "never-inserted", 0), None);
    classification_cache_insert(&mut cache, "p-a", capable_sample(), 0);
    assert_eq!(classification_cache_get(&cache, "p-b", 0), None);
}

#[test]
fn test_classification_cache_clear() {
    let mut cache = ClassificationCache::new();
    classification_cache_clear(&mut cache);
    classification_cache_insert(&mut cache, "p-clear", capable_sample(), 0);
    assert!(classification_cache_get(&cache, "p-clear", 0).is_some());
    classification_cache_clear(&mut cache);
    assert_eq!(classification_cache_get(&cache, "p-clear", 0), None);
}

#[test]
fn test_classification_cache_overwrite() {
    let mut cache = ClassificationCache::new();
    classification_cache_clear(&mut cache);
    classification_cache_insert(&mut cache, "p-ow", capable_sample(), 0);
    classification_cache_insert(&mut cache, "p-ow", DeviceKind::NotQmkNotifier, 0);
    assert_eq!(
        classification_cache_get(&cache, "p-ow", 0),
        Some(DeviceKind::NotQmkNotifier)
    );
}

#[test]
fn test_classification_cache_ttl_expiry() {
    let mut cache = ClassificationCache::new();
    classification_cache_clear(&mut cache);
    classification_cache_insert(&mut cache, "p-ttl", capable_sample(), 10_000);
    assert!(classification_cache_get(&cache, "p-ttl", 10_000).is_some());
    classification_cache_insert(&mut cache, "p-ttl", capable_sample(), 10_000 - 5_000 - 1);
    assert_eq!(classification_cache_get(&cache, "p-ttl", 10_000), None);
}

#[test]
fn test_classification_cache_notqmk_variant() {
    let mut cache = ClassificationCache::new();
    classification_cache_clear(&mut cache);
    let kind = DeviceKind::NotQmkNotifier;
    classification_cache_insert(&mut cache, "p-nq", kind.clone(), 0);
    assert_eq!(classification_cache_get(&cache, "p-nq", 0), Some(kind));
}

#[test]
fn test_devicekind_classifieddevice_derives() {
    let cap_a = capable_sample();
    let cap_b = capable_sample();
    assert_eq!(cap_a, cap_b);
    assert_eq!(cap_a.clone(), cap_b);
    assert_eq!(
        DeviceKind::NotQmkNotifier,
        DeviceKind::NotQmkNotifier.clone()
    );
    assert_ne!(cap_a, DeviceKind::NotQmkNotifier);
    let dev_a = ClassifiedDevice {
        path: "p-dev".to_string(),
        vendor_id: 0xFEED,
        product_id: 0x0000,
        product_name: Some("Dactyl".to_string()),
        usage_page: 0xFF60,
        usage: 0x61,
        kind: cap_a.clone(),
    };
    assert_eq!(dev_a, dev_a.clone());
    assert_eq!(dev_a.kind, cap_b);
}

#[test]
fn test_handshake_warm_eligible_single_board_only() {
    assert!(handshake_warm_eligible(0));
    assert!(handshake_warm_eligible(1));
    assert!(!handshake_warm_eligible(2));
    assert!(!handshake_warm_eligible(3));
}

// ---- classification of replies ----

fn info(proto_ver: u8, feature_flags: u8, callback_count: u8, brp: bool) -> Result<CommandResponse, String> {
    Ok(CommandResponse::Info {
        proto_ver,
        feature_flags,
        callback_count,
        board_rules_present: brp,
    })
}

#[test]
fn classify_reply_proto2_is_capable_even_without_feature_bit() {
    assert_eq!(
        classify_reply(&info(2, 0x01, 3, true)),
        DeviceKind::Capable {
            proto_ver: 2,
            feature_flags: 0x01,
            callback_count: 3,
            board_rules_present: true
        }
    );
    assert_eq!(
        classify_reply(&info(2, 0x00, 0, false)),
        DeviceKind::Capable {
            proto_ver: 2,
            feature_flags: 0,
            callback_count: 0,
            board_rules_present: false
        }
    );
}

#[test]
fn classify_reply_everything_else_is_not_qmk_notifier() {
    assert_eq!(classify_reply(&info(1, 0x01, 3, true)), DeviceKind::NotQmkNotifier);
    assert_eq!(
        classify_reply(&Ok(CommandResponse::Legacy { matched: true })),
        DeviceKind::NotQmkNotifier
    );
    assert_eq!(
        classify_reply(&Ok(CommandResponse::Timeout)),
        DeviceKind::NotQmkNotifier
    );
    assert_eq!(
        classify_reply(&Ok(CommandResponse::Ack { ok: true })),
        DeviceKind::NotQmkNotifier
    );
    assert_eq!(
        classify_reply(&Err("No device found".to_string())),
        DeviceKind::NotQmkNotifier
    );
}

// ---- handshake state machine ----

fn name_reply(index: u8, name: Option<&str>) -> Result<CommandResponse, String> {
    Ok(CommandResponse::CallbackName {
        index,
        name: name.map(|n| n.to_string()),
    })
}

fn done(step: HandshakeStep) -> qmkonnect::notifier::HandshakeReport {
    match step {
        HandshakeStep::Done(r) => r,
        other => panic!("expected Done, got {other:?}"),
    }
}

#[test]
fn handshake_capable_full_sweep_populates_state() {
    let mut st = HandshakeState::new();
    let (run, step) = perform_handshake(&mut st, HostOs::Linux).unwrap();
    assert_eq!(step, HandshakeStep::Send(RunCommand::QueryInfo));
    assert!(st.has_handshaked);
    let (run, step) = run.on_reply(&mut st, info(2, 0x01, 2, true), false);
    assert_eq!(step, HandshakeStep::Send(RunCommand::SetOs(HostOs::Linux)));
    let (run, step) = run.on_reply(&mut st, Ok(CommandResponse::Ack { ok: true }), false);
    assert_eq!(step, HandshakeStep::Send(RunCommand::QueryCallback(0)));
    let (run, step) = run.on_reply(&mut st, name_reply(0, Some("vim_lazy")), false);
    assert_eq!(step, HandshakeStep::Send(RunCommand::QueryCallback(1)));
    assert!(!host_capable(&st));
    let (_run, step) = run.on_reply(&mut st, name_reply(1, Some("disable_vim")), false);
    let report = done(step);
    assert_eq!(report.outcome, HandshakeOutcome::Capable);
    assert!(report.validate_rules);
    assert!(!report.unmapped_warning);
    assert_eq!(report.stopped_at, None);
    assert_eq!(
        report.warm_kind,
        DeviceKind::Capable {
            proto_ver: 2,
            feature_flags: 1,
            callback_count: 2,
            board_rules_present: true
        }
    );
    assert!(host_capable(&st));
    assert!(board_has_rules(&st));
    let names = callback_names(&st);
    assert_eq!(names.get("vim_lazy"), Some(0));
    assert_eq!(names.get("disable_vim"), Some(1));
    assert_eq!(names.len(), 2);
}

#[test]
fn handshake_validation_mode_skips_set_os() {
    let mut st = HandshakeState::new();
    let (run, _) = perform_handshake_with(&mut st, HandshakeOptions::validation(), HostOs::Linux).unwrap();
    let (run, step) = run.on_reply(&mut st, info(2, 0x01, 1, false), false);
    assert_eq!(step, HandshakeStep::Send(RunCommand::QueryCallback(0)));
    let (_, step) = run.on_reply(&mut st, name_reply(0, Some("a")), false);
    let report = done(step);
    assert!(!report.validate_rules);
    assert!(host_capable(&st));
    assert!(!board_has_rules(&st));
}

#[test]
fn handshake_timeout_and_error_release_the_guard() {
    for reply in [Ok(CommandResponse::Timeout), Err("boom".to_string())] {
        let mut st = HandshakeState::new();
        let (run, _) = perform_handshake(&mut st, HostOs::Macos).unwrap();
        let (_, step) = run.on_reply(&mut st, reply, false);
        let report = done(step);
        assert_eq!(report.outcome, HandshakeOutcome::Transient);
        assert_eq!(report.warm_kind, DeviceKind::NotQmkNotifier);
        assert!(!st.has_handshaked);
        assert!(!host_capable(&st));
        assert!(perform_handshake(&mut st, HostOs::Macos).is_some());
    }
}

#[test]
fn handshake_legacy_or_no_feature_bit_keeps_the_guard() {
    for reply in [
        info(1, 0x01, 3, true),
        info(2, 0x00, 3, true),
        Ok(CommandResponse::Legacy { matched: false }),
    ] {
        let mut st = HandshakeState::new();
        let (run, _) = perform_handshake(&mut st, HostOs::Linux).unwrap();
        let (_, step) = run.on_reply(&mut st, reply, false);
        assert_eq!(done(step).outcome, HandshakeOutcome::NotCapable);
        assert!(st.has_handshaked);
        assert!(!host_capable(&st));
        assert!(callback_names(&st).is_empty());
        assert!(perform_handshake(&mut st, HostOs::Linux).is_none());
    }
}

#[test]
fn handshake_dedup_and_reset() {
    let mut st = HandshakeState::new();
    assert!(perform_handshake(&mut st, HostOs::Linux).is_some());
    assert!(perform_handshake(&mut st, HostOs::Linux).is_none());
    reset_handshake_state(&mut st);
    assert!(!st.has_handshaked);
    assert!(perform_handshake(&mut st, HostOs::Linux).is_some());
}

#[test]
fn handshake_sweep_retries_misread_once_and_skips_anonymous() {
    let mut st = HandshakeState::new();
    let (run, _) = perform_handshake_with(&mut st, HandshakeOptions::validation(), HostOs::Linux).unwrap();
    let (run, _) = run.on_reply(&mut st, info(2, 0x01, 3, false), false);
    let (run, step) = run.on_reply(&mut st, Ok(CommandResponse::Ack { ok: true }), false);
    assert_eq!(step, HandshakeStep::Send(RunCommand::QueryCallback(0)));
    let (run, step) = run.on_reply(&mut st, name_reply(0, Some("a")), false);
    assert_eq!(step, HandshakeStep::Send(RunCommand::QueryCallback(1)));
    let (run, step) = run.on_reply(&mut st, Ok(CommandResponse::Ack { ok: true }), false);
    assert_eq!(step, HandshakeStep::Send(RunCommand::QueryCallback(1)));
    let (run, step) = run.on_reply(&mut st, Ok(CommandResponse::Ack { ok: true }), false);
    assert_eq!(step, HandshakeStep::Send(RunCommand::QueryCallback(2)));
    let (_, step) = run.on_reply(&mut st, name_reply(2, None), false);
    done(step);
    let names = callback_names(&st);
    assert_eq!(names.get("a"), Some(0));
    assert_eq!(names.len(), 1);
}

#[test]
fn handshake_sweep_caps_and_stops_at_deadline() {
    assert_eq!(sweep_cap(200), 64);
    assert_eq!(sweep_cap(3), 3);
    let mut st = HandshakeState::new();
    let (run, _) = perform_handshake_with(&mut st, HandshakeOptions::validation(), HostOs::Linux).unwrap();
    let (run, _) = run.on_reply(&mut st, info(2, 0x01, 200, false), false);
    let (_, step) = run.on_reply(&mut st, Err("x".to_string()), true);
    let report = done(step);
    assert_eq!(report.stopped_at, Some(1));
    assert!(report.unmapped_warning);
    assert!(host_capable(&st));
}

#[test]
fn handshake_zero_callbacks_finishes_without_sweep() {
    let mut st = HandshakeState::new();
    let (run, _) = perform_handshake_with(&mut st, HandshakeOptions::validation(), HostOs::Linux).unwrap();
    let (_, step) = run.on_reply(&mut st, info(2, 0x03, 0, true), false);
    let report = done(step);
    assert_eq!(report.outcome, HandshakeOutcome::Capable);
    assert!(!report.unmapped_warning);
    assert!(board_has_rules(&st));
}

#[test]
fn device_status_follows_handshake_state() {
    let mut st = HandshakeState::new();
    assert_eq!(device_status(&st, false), DeviceStatus::Disconnected);
    assert_eq!(device_status(&st, true), DeviceStatus::NoModule);
    st.host_capable = true;
    assert_eq!(device_status(&st, true), DeviceStatus::Connected);
    assert_eq!(device_status(&st, false), DeviceStatus::Disconnected);
}

// ---- filters, candidates, cache plumbing ----

fn candidate(path: &str, vid: u16, pid: u16) -> Candidate {
    Candidate {
        path: path.to_string(),
        vendor_id: vid,
        product_id: pid,
        product_name: None,
        usage_page: 0xFF60,
        usage: 0x61,
    }
}

#[test]
fn configured_filter_defaults_and_overrides() {
    let f = configured_filter(None);
    assert_eq!((f.vendor_id, f.product_id, f.usage_page, f.usage), (None, None, 0xFF60, 0x61));
    let c = Config {
        vendor_id: Some(0xfeed),
        usage_page: Some(0xff61),
        ..Config::default()
    };
    let f = configured_filter(Some(c));
    assert_eq!((f.vendor_id, f.product_id, f.usage_page, f.usage), (Some(0xfeed), None, 0xff61, 0x61));
    assert!(device_matches_filter(&f, 0xfeed, 0x1234, 0xff61, 0x61));
    assert!(!device_matches_filter(&f, 0xbeef, 0x1234, 0xff61, 0x61));
    assert!(!device_matches_filter(&f, 0xfeed, 0x1234, 0xff60, 0x61));
}

#[test]
fn probe_and_cache_candidates() {
    let mut cache = ClassificationCache::new();
    let c = candidate("p1", 0x1111, 0x2222);
    let f = narrowed_filter(&c);
    assert_eq!((f.vendor_id, f.product_id), (Some(0x1111), Some(0x2222)));
    let miss = classify_cached(&cache, c.clone(), 0);
    let c = miss.unwrap_err();
    let dev = record_probe(&mut cache, c.clone(), &info(2, 1, 0, false), 0);
    assert!(matches!(dev.kind, DeviceKind::Capable { .. }));
    let hit = classify_cached(&cache, c.clone(), 100).unwrap();
    assert_eq!(hit, dev);
    assert!(classify_cached(&cache, c, 6000).is_err());
}

#[test]
fn invalidate_drops_absent_paths() {
    let mut cache = ClassificationCache::new();
    classification_cache_insert(&mut cache, "keep", capable_sample(), 0);
    classification_cache_insert(&mut cache, "gone", capable_sample(), 0);
    invalidate_absent_cache_entries(&mut cache, &vec![candidate("keep", 1, 2)]);
    assert!(classification_cache_get(&cache, "keep", 0).is_some());
    assert!(classification_cache_get(&cache, "gone", 0).is_none());
    let paths = tier1_paths(&vec![candidate("a", 1, 2), candidate("b", 3, 4)]);
    assert_eq!(paths, vec!["a".to_string(), "b".to_string()]);
}

#[test]
fn warm_cache_only_for_a_single_board() {
    let mut cache = ClassificationCache::new();
    warm_cache_from_handshake(&mut cache, &vec!["x".to_string(), "y".to_string()], capable_sample(), 0);
    assert!(classification_cache_get(&cache, "x", 0).is_none());
    warm_cache_from_handshake(&mut cache, &vec!["x".to_string()], capable_sample(), 0);
    assert_eq!(classification_cache_get(&cache, "x", 0), Some(capable_sample()));
}

// ---- presence tracker ----

#[test]
fn presence_tracker_capable_unplug_and_replug() {
    let p = |v: &[&str]| v.iter().map(|s| s.to_string()).collect::<Vec<_>>();
    let mut t = PresenceTracker::new(p(&["a", "b"]), true);
    assert!(!t.wants_reprobe(&p(&["a", "b"])));
    assert_eq!(t.tick(p(&["a", "b"]), None), HandshakeAction::NoChange);
    assert!(t.wants_reprobe(&p(&["b"])));
    assert_eq!(t.tick(p(&["b"]), Some(false)), HandshakeAction::Loss);
    assert!(t.wants_reprobe(&p(&["b"])));
    assert_eq!(t.tick(p(&["b", "c"]), Some(true)), HandshakeAction::Gain);
    assert!(!t.wants_reprobe(&p(&["b", "c"])));
    assert_eq!(t.tick(p(&[]), None), HandshakeAction::Loss);
}

#[test]
fn presence_tracker_grace_budget_runs_out() {
    let p = |v: &[&str]| v.iter().map(|s| s.to_string()).collect::<Vec<_>>();
    let mut t = PresenceTracker::new(p(&["a"]), false);
    for _ in 0..6 {
        assert!(t.wants_reprobe(&p(&["a"])));
        assert_eq!(t.tick(p(&["a"]), Some(false)), HandshakeAction::NoChange);
    }
    assert!(!t.wants_reprobe(&p(&["a"])));
    assert_eq!(t.tick(p(&["a"]), Some(true)), HandshakeAction::NoChange);
}

// ---- sends ----

#[test]
fn window_message_joins_class_and_title() {
    let w = WindowInfo {
        app_class: "firefox".to_string(),
        title: "Docs".to_string(),
    };
    assert_eq!(window_message(&w), "firefox\u{1D}Docs");
}

#[test]
fn dispatch_plan_orders_string_and_context() {
    assert_eq!(
        dispatch_plan(&None),
        DispatchPlan { send_string: true, send_context: false }
    );
    let stack = HostContext { layer: Some(10), callback_ids: vec![1, 2], clear_board: false };
    assert_eq!(
        dispatch_plan(&Some(stack.clone())),
        DispatchPlan { send_string: true, send_context: true }
    );
    let replace = HostContext { layer: None, callback_ids: vec![], clear_board: true };
    assert_eq!(
        dispatch_plan(&Some(replace)),
        DispatchPlan { send_string: false, send_context: true }
    );
    assert_eq!(
        host_context_command(&stack),
        RunCommand::ApplyHostContext { layer: Some(10), callbacks: vec![1, 2], clear_board: false }
    );
}

#[test]
fn device_errors_are_retried_then_given_up() {
    assert!(is_device_error_message("No device found with VID"));
    assert!(is_device_error_message("PERMISSION DENIED"));
    assert!(is_device_error_message("hid: Failed to open device"));
    assert!(!is_device_error_message("invalid response"));
    assert_eq!(send_retry_step(1, true), RetryStep::Retry { delay_ms: 100 });
    assert_eq!(send_retry_step(2, true), RetryStep::Retry { delay_ms: 200 });
    assert_eq!(send_retry_step(3, true), RetryStep::GiveUp);
    assert_eq!(send_retry_step(1, false), RetryStep::Fail);
}

fn pending(text: &str) -> PendingMessage {
    PendingMessage {
        payload: text.to_string(),
        window_info: WindowInfo { app_class: text.to_string(), title: String::new() },
    }
}

#[test]
fn debounce_burst_collapses_to_latest_message() {
    let mut d = DebounceState::new();
    assert!(d.on_notify(1000, 50, false, pending("a")));
    assert_eq!(d.worker_step(1000, 50), WorkerStep::WaitForMessage);
    assert!(!d.on_notify(1010, 50, true, pending("b")));
    assert!(!d.on_notify(1020, 50, true, pending("c")));
    assert_eq!(d.worker_step(1030, 50), WorkerStep::WaitMs(20));
    assert_eq!(d.worker_step(1050, 50), WorkerStep::Flush(pending("c"), true));
    assert_eq!(d.last_sent_ms, Some(1050));
    assert_eq!(d.worker_step(1060, 50), WorkerStep::WaitForMessage);
    assert!(d.on_notify(1100, 50, false, pending("d")));
}

#[test]
fn debounce_interval_override_and_zero_window() {
    let mut d = DebounceState::new();
    assert_eq!(d.interval(50), 50);
    d.interval_override_ms = Some(5);
    assert_eq!(d.interval(50), 5);
    assert!(d.on_notify(0, 0, false, pending("a")));
    assert!(d.on_notify(0, 0, false, pending("b")));
}

#[test]
fn unknown_callback_names_sorted_deduped() {
    let mut known: StrKeyMap<u8> = StrKeyMap::new();
    known.insert("vim_lazy".to_string(), 0);
    let referenced: Vec<String> = ["zeta", "vim_lazy", "alpha", "zeta", "Beta", "alpha"]
        .iter()
        .map(|s| s.to_string())
        .collect();
    assert_eq!(
        unknown_callback_names(&referenced, &known),
        vec!["Beta".to_string(), "alpha".to_string(), "zeta".to_string()]
    );
    assert!(unknown_callback_names(&vec![], &known).is_empty());
    assert!(unknown_callback_names(&vec!["vim_lazy".to_string()], &known).is_empty());
}

#[test]
fn startup_probe_messages() {
    let f = DeviceFilter { vendor_id: Some(0xfeed), product_id: None, usage_page: 0xFF60, usage: 0x61 };
    assert_eq!(startup_probe_message(&f, true, false), None);
    assert_eq!(
        startup_probe_message(&f, true, true).unwrap(),
        "Found QMK device 0xfeed:any (raw HID 0xff60:0x0061)"
    );
    assert_eq!(
        startup_probe_message(&f, false, false).unwrap(),
        "No device matching 0xfeed:any (raw HID usage page 0xff60, usage 0x0061) found.\n\
Leave vendor_id/product_id unset in config.toml for auto-discovery,\n\
or set them to disambiguate among multiple QMK keyboards.\n\
Run `qmkonnect --list-devices` to see connected HID devices."
    );
}

#[test]
fn rules_invalid_notice_once_per_broken_state() {

    let mut flag = false;
    assert!(rules_invalid_notice(&mut flag, false));
    assert!(!rules_invalid_notice(&mut flag, false));
    assert!(!rules_invalid_notice(&mut flag, true));
    assert!(!flag);
    assert!(rules_invalid_notice(&mut flag, false));
}
