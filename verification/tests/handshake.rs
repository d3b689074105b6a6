//! The handshake, candidate classification and window dispatch driven
//! against a scripted keyboard: each step the library asks for is answered
//! from a queue (an `Ack` when the queue is empty), and every command and
//! filter is recorded.

use qmkonnect::keyed::StrKeyMap;
use qmkonnect::notifier::{
    board_has_rules, callback_names, classification_cache_clear, classification_cache_get,
    classification_cache_insert, classify_cached, classify_reply, dispatch_plan, host_capable,
    host_context_command, invalidate_absent_cache_entries, narrowed_filter, perform_handshake,
    perform_handshake_with, record_probe, reset_handshake_state, unknown_callback_names,
    window_message, Candidate, ClassificationCache, ClassifiedDevice, CommandResponse,
    DeviceFilter, DeviceKind, HandshakeOptions, HandshakeState, HandshakeStep, HostContext,
    HostOs, RunCommand, WindowInfo, MAX_HOST_CALLBACKS, QUERY_CALLBACK_MAX_ATTEMPTS,
};
use std::collections::{BTreeSet, VecDeque};

#[derive(Default)]
struct Board {
    responses: VecDeque<CommandResponse>,
    errors: VecDeque<String>,
    calls: Vec<RunCommand>,
    filters: Vec<(Option<u16>, Option<u16>, u16, u16)>,
    messages: Vec<String>,
}

impl Board {
    fn with(responses: Vec<CommandResponse>) -> Self {
        Board {
            responses: responses.into(),
            ..Board::default()
        }
    }

    fn send(&mut self, command: RunCommand, filter: &DeviceFilter) -> Result<CommandResponse, String> {
        self.calls.push(command);
        self.filters
            .push((filter.vendor_id, filter.product_id, filter.usage_page, filter.usage));
        if let Some(e) = self.errors.pop_front() {
            return Err(e);
        }
        Ok(self.responses.pop_front().unwrap_or(CommandResponse::Ack { ok: true }))
    }
}

fn filter() -> DeviceFilter {
    DeviceFilter {
        vendor_id: Some(0x1234),
        product_id: Some(0x5678),
        usage_page: 0xFF60,
        usage: 0x61,
    }
}

fn drive(st: &mut HandshakeState, board: &mut Board, opts: HandshakeOptions) {
    let (mut run, mut step) = match perform_handshake_with(st, opts, HostOs::Linux) {
        Some(s) => s,
        None => return,
    };
    loop {
        let command = match step {
            HandshakeStep::Done(_) => return,
            HandshakeStep::Send(c) => c,
        };
        let reply = board.send(command, &filter());
        let next = run.on_reply(st, reply, false);
        run = next.0;
        step = next.1;
    }
}

fn handshake(st: &mut HandshakeState, board: &mut Board) {
    drive(st, board, HandshakeOptions::full());
}

fn info(proto_ver: u8, feature_flags: u8, callback_count: u8, board_rules_present: bool) -> CommandResponse {
    CommandResponse::Info {
        proto_ver,
        feature_flags,
        callback_count,
        board_rules_present,
    }
}

fn name(index: u8, n: Option<&str>) -> CommandResponse {
    CommandResponse::CallbackName {
        index,
        name: n.map(|s| s.to_string()),
    }
}

#[test]
fn test_handshake_capable_populates_state() {
    let mut st = HandshakeState::new();
    let mut board = Board::with(vec![
        info(2, 0x01, 2, true),
        CommandResponse::Ack { ok: true },
        name(0, Some("vim_lazy")),
        name(1, Some("disable_vim")),
    ]);
    handshake(&mut st, &mut board);
    assert!(host_capable(&st));
    let names = callback_names(&st);
    assert_eq!(names.get("vim_lazy"), Some(0));
    assert_eq!(names.get("disable_vim"), Some(1));
    assert_eq!(board.calls.len(), 4);
    assert_eq!(board.calls[0], RunCommand::QueryInfo);
    assert!(matches!(board.calls[1], RunCommand::SetOs(_)));
    assert_eq!(board.calls[2], RunCommand::QueryCallback(0));
    assert_eq!(board.calls[3], RunCommand::QueryCallback(1));
}

#[test]
fn test_handshake_legacy_proto_v1_string_only() {
    let mut st = HandshakeState::new();
    let mut board = Board::with(vec![info(1, 0x00, 0, true)]);
    handshake(&mut st, &mut board);
    assert!(!host_capable(&st));
    assert!(callback_names(&st).is_empty());
    assert_eq!(board.calls.len(), 1);
    assert_eq!(board.calls[0], RunCommand::QueryInfo);
}

#[test]
fn test_handshake_no_feature_flag_string_only() {
    let mut st = HandshakeState::new();
    let mut board = Board::with(vec![info(2, 0x00, 3, true)]);
    handshake(&mut st, &mut board);
    assert!(!host_capable(&st));
    assert_eq!(board.calls.len(), 1);
}

#[test]
fn test_handshake_timeout_string_only() {
    let mut st = HandshakeState::new();
    let mut board = Board::with(vec![CommandResponse::Timeout]);
    handshake(&mut st, &mut board);
    assert!(!host_capable(&st));
    assert_eq!(board.calls.len(), 1);
}

#[test]
fn test_handshake_timeout_releases_dedup_token() {
    let mut st = HandshakeState::new();
    let mut board = Board::with(vec![CommandResponse::Timeout]);
    handshake(&mut st, &mut board);
    assert!(!host_capable(&st));
    assert_eq!(board.calls.len(), 1);
    board.responses.extend([info(2, 0x01, 0, false), CommandResponse::Ack { ok: true }]);
    handshake(&mut st, &mut board);
    assert!(host_capable(&st));
    assert!(board.calls.len() > 1);
}

#[test]
fn test_handshake_device_error_releases_dedup_token() {
    let mut st = HandshakeState::new();
    let mut board = Board::default();
    board.errors.push_back("failed to open device".to_string());
    handshake(&mut st, &mut board);
    assert!(!host_capable(&st));
    assert_eq!(board.calls.len(), 1);
    board.responses.extend([info(2, 0x01, 0, false), CommandResponse::Ack { ok: true }]);
    handshake(&mut st, &mut board);
    assert!(host_capable(&st));
    assert!(board.calls.len() > 1);
}

#[test]
fn test_handshake_legacy_reply_keeps_dedup_token() {
    let mut st = HandshakeState::new();
    let mut board = Board::with(vec![info(1, 0x00, 0, false)]);
    handshake(&mut st, &mut board);
    assert!(!host_capable(&st));
    let after_first = board.calls.len();
    handshake(&mut st, &mut board);
    assert_eq!(
        board.calls.len(),
        after_first,
        "legacy reply must keep the dedup token consumed"
    );
}

#[test]
fn test_handshake_dedup_idempotent() {
    let mut st = HandshakeState::new();
    let mut board = Board::with(vec![
        info(2, 0x01, 1, true),
        CommandResponse::Ack { ok: true },
        name(0, Some("x")),
    ]);
    handshake(&mut st, &mut board);
    assert!(host_capable(&st));
    let after_first = board.calls.len();
    handshake(&mut st, &mut board);
    let after_second = board.calls.len();
    assert_eq!(
        after_first, after_second,
        "dedup: second perform_handshake must not re-send"
    );
    assert!(host_capable(&st));
}

#[test]
fn test_handshake_reset_allows_rerun() {
    let mut st = HandshakeState::new();
    let mut board = Board::with(vec![
        info(2, 0x01, 1, true),
        CommandResponse::Ack { ok: true },
        name(0, Some("x")),
    ]);
    handshake(&mut st, &mut board);
    assert!(host_capable(&st));
    reset_handshake_state(&mut st);
    assert!(!host_capable(&st));
    assert!(callback_names(&st).is_empty());
    board.responses.extend([
        info(2, 0x01, 1, true),
        CommandResponse::Ack { ok: true },
        name(0, Some("y")),
    ]);
    handshake(&mut st, &mut board);
    assert!(host_capable(&st));
    assert_eq!(callback_names(&st).get("y"), Some(0));
}

#[test]
fn test_handshake_skips_anonymous_callback() {
    let mut st = HandshakeState::new();
    let mut board = Board::with(vec![
        info(2, 0x01, 2, true),
        CommandResponse::Ack { ok: true },
        name(0, None),
        name(1, Some("named")),
    ]);
    handshake(&mut st, &mut board);
    assert!(host_capable(&st));
    let names = callback_names(&st);
    assert_eq!(names.len(), 1);
    assert_eq!(names.get("named"), Some(1));
}

#[test]
fn test_unknown_callback_names_helper() {
    let referenced: Vec<String> = ["known_a", "ghost", "known_b", "phantom"]
        .iter()
        .map(|s| s.to_string())
        .collect();
    let mut known: StrKeyMap<u8> = StrKeyMap::new();
    known.insert("known_a".to_string(), 0u8);
    known.insert("known_b".to_string(), 1u8);
    let unknown = unknown_callback_names(&referenced, &known);
    assert_eq!(unknown, vec!["ghost".to_string(), "phantom".to_string()]);
}

#[test]
fn test_handshake_validation_mode_skips_set_os() {
    let mut st = HandshakeState::new();
    let mut board = Board::with(vec![info(2, 0x01, 0, true)]);
    drive(&mut st, &mut board, HandshakeOptions::validation());
    assert!(host_capable(&st));
    assert_eq!(board.calls.len(), 1, "validation mode must send only QUERY_INFO");
    assert_eq!(board.calls[0], RunCommand::QueryInfo);
    assert!(
        !board.calls.iter().any(|c| matches!(c, RunCommand::SetOs(_))),
        "validation mode must NOT send SET_OS"
    );
}

#[test]
fn test_handshake_full_mode_sends_set_os() {
    let mut st = HandshakeState::new();
    let mut board = Board::with(vec![info(2, 0x01, 0, true), CommandResponse::Ack { ok: true }]);
    drive(&mut st, &mut board, HandshakeOptions::full());
    assert!(host_capable(&st));
    assert_eq!(board.calls.len(), 2);
    assert_eq!(board.calls[0], RunCommand::QueryInfo);
    assert!(matches!(board.calls[1], RunCommand::SetOs(_)));
}

#[test]
fn test_handshake_sweep_caps_at_max() {
    let mut st = HandshakeState::new();
    let mut board = Board::with(vec![info(2, 0x01, 70, true), CommandResponse::Ack { ok: true }]);
    handshake(&mut st, &mut board);
    assert!(host_capable(&st));
    let query_callbacks = board
        .calls
        .iter()
        .filter(|c| matches!(c, RunCommand::QueryCallback(_)))
        .count();
    assert!(
        query_callbacks <= (MAX_HOST_CALLBACKS as usize) * (QUERY_CALLBACK_MAX_ATTEMPTS as usize),
        "sweep+retry must stay bounded, got {}",
        query_callbacks
    );
    let distinct_indices = board
        .calls
        .iter()
        .filter_map(|c| match c {
            RunCommand::QueryCallback(i) => Some(*i),
            _ => None,
        })
        .collect::<BTreeSet<_>>();
    assert_eq!(
        distinct_indices.len(),
        MAX_HOST_CALLBACKS as usize,
        "sweep must clamp to MAX_HOST_CALLBACKS distinct indices, not trust callback_count"
    );
}

#[test]
fn test_handshake_sweep_retries_transient_callback_misparse() {
    let mut st = HandshakeState::new();
    let mut board = Board::with(vec![
        info(2, 0x01, 1, true),
        CommandResponse::Ack { ok: true },
        CommandResponse::Ack { ok: true },
        name(0, Some("vim_lazy")),
    ]);
    handshake(&mut st, &mut board);
    assert!(host_capable(&st));
    assert_eq!(callback_names(&st).get("vim_lazy"), Some(0));
    let cb0_calls = board
        .calls
        .iter()
        .filter(|c| matches!(c, RunCommand::QueryCallback(0)))
        .count();
    assert_eq!(cb0_calls, QUERY_CALLBACK_MAX_ATTEMPTS as usize);
}

#[test]
fn test_handshake_sweep_small_count_uncapped() {
    let mut st = HandshakeState::new();
    let mut board = Board::with(vec![
        info(2, 0x01, 3, true),
        CommandResponse::Ack { ok: true },
        name(0, Some("a")),
        name(1, Some("b")),
        name(2, Some("c")),
    ]);
    handshake(&mut st, &mut board);
    let query_callbacks = board
        .calls
        .iter()
        .filter(|c| matches!(c, RunCommand::QueryCallback(_)))
        .count();
    assert_eq!(query_callbacks, 3);
}

#[test]
fn test_handshake_sets_board_has_rules_from_reported_bit() {
    let mut st = HandshakeState::new();
    let mut board = Board::with(vec![info(2, 0x01, 0, true), CommandResponse::Ack { ok: true }]);
    assert!(!board_has_rules(&st));
    handshake(&mut st, &mut board);
    assert!(host_capable(&st));
    assert!(board_has_rules(&st));
}

#[test]
fn handshake_skipped_entirely_when_already_run() {
    let mut st = HandshakeState::new();
    let mut board = Board::with(vec![info(2, 0x01, 0, false)]);
    drive(&mut st, &mut board, HandshakeOptions::validation());
    assert!(perform_handshake(&mut st, HostOs::Windows).is_none());
}

// ---- classify_reply ----

fn reply(r: CommandResponse) -> Result<CommandResponse, String> {
    Ok(r)
}

#[test]
fn test_classify_reply_info_proto2_capable() {
    assert_eq!(
        classify_reply(&reply(info(2, 0x01, 3, true))),
        DeviceKind::Capable {
            proto_ver: 2,
            feature_flags: 0x01,
            callback_count: 3,
            board_rules_present: true,
        }
    );
}

#[test]
fn test_classify_reply_info_proto2_no_feature_bit_still_capable() {
    assert_eq!(
        classify_reply(&reply(info(2, 0x00, 0, false))),
        DeviceKind::Capable {
            proto_ver: 2,
            feature_flags: 0x00,
            callback_count: 0,
            board_rules_present: false,
        }
    );
}

#[test]
fn test_classify_reply_info_proto1_notqmk() {
    assert_eq!(classify_reply(&reply(info(1, 0, 0, false))), DeviceKind::NotQmkNotifier);
}

#[test]
fn test_classify_reply_legacy_notqmk() {
    assert_eq!(
        classify_reply(&reply(CommandResponse::Legacy { matched: true })),
        DeviceKind::NotQmkNotifier
    );
}

#[test]
fn test_classify_reply_timeout_notqmk() {
    assert_eq!(classify_reply(&reply(CommandResponse::Timeout)), DeviceKind::NotQmkNotifier);
}

#[test]
fn test_classify_reply_ack_notqmk() {
    assert_eq!(
        classify_reply(&reply(CommandResponse::Ack { ok: true })),
        DeviceKind::NotQmkNotifier
    );
}

#[test]
fn test_classify_reply_err_notqmk() {
    assert_eq!(classify_reply(&Err("device error".to_string())), DeviceKind::NotQmkNotifier);
}

// ---- classify candidates ----

fn candidate(path: &str, vid: u16, pid: u16) -> Candidate {
    Candidate {
        path: path.to_string(),
        vendor_id: vid,
        product_id: pid,
        product_name: None,
        usage_page: 0xFF60,
        usage: 0x61,
    }
}

fn classify_candidates(
    cache: &mut ClassificationCache,
    board: &mut Board,
    candidates: Vec<Candidate>,
    now_ms: u64,
) -> Vec<ClassifiedDevice> {
    let mut out = Vec::new();
    for c in candidates {
        match classify_cached(cache, c, now_ms) {
            Ok(d) => out.push(d),
            Err(c) => {
                let r = board.send(RunCommand::QueryInfo, &narrowed_filter(&c));
                out.push(record_probe(cache, c, &r, now_ms));
            }
        }
    }
    out
}

#[test]
fn test_classify_candidates_capable() {
    let mut cache = ClassificationCache::new();
    classification_cache_clear(&mut cache);
    let mut board = Board::with(vec![info(2, 0x01, 2, true)]);
    let result = classify_candidates(&mut cache, &mut board, vec![candidate("p-cap", 0x1234, 0x5678)], 0);
    assert_eq!(result.len(), 1);
    assert_eq!(
        result[0].kind,
        DeviceKind::Capable {
            proto_ver: 2,
            feature_flags: 0x01,
            callback_count: 2,
            board_rules_present: true,
        }
    );
    assert_eq!(board.calls.len(), 1);
    assert_eq!(board.calls[0], RunCommand::QueryInfo);
    assert_eq!(board.filters.len(), 1);
    assert_eq!(board.filters[0], (Some(0x1234u16), Some(0x5678u16), 0xFF60u16, 0x61u16));
}

#[test]
fn test_classify_candidates_mixed() {
    let mut cache = ClassificationCache::new();
    let cands = vec![
        candidate("p-a", 0x1111, 0x2222),
        candidate("p-b", 0x3333, 0x4444),
        candidate("p-c", 0x5555, 0x6666),
    ];
    let mut board = Board::with(vec![
        info(2, 0x01, 0, false),
        CommandResponse::Legacy { matched: true },
        CommandResponse::Timeout,
    ]);
    let result = classify_candidates(&mut cache, &mut board, cands, 0);
    assert_eq!(result.len(), 3);
    assert_eq!(
        result[0].kind,
        DeviceKind::Capable {
            proto_ver: 2,
            feature_flags: 0x01,
            callback_count: 0,
            board_rules_present: false,
        }
    );
    assert_eq!(result[1].kind, DeviceKind::NotQmkNotifier);
    assert_eq!(result[2].kind, DeviceKind::NotQmkNotifier);
    assert_eq!(board.calls.len(), 3);
    assert_eq!(board.filters[0], (Some(0x1111u16), Some(0x2222u16), 0xFF60u16, 0x61u16));
    assert_eq!(board.filters[1], (Some(0x3333u16), Some(0x4444u16), 0xFF60u16, 0x61u16));
    assert_eq!(board.filters[2], (Some(0x5555u16), Some(0x6666u16), 0xFF60u16, 0x61u16));
}

#[test]
fn test_classify_candidates_cache_hit_skips_ping() {
    let mut cache = ClassificationCache::new();
    let kind = DeviceKind::Capable {
        proto_ver: 2,
        feature_flags: 0x01,
        callback_count: 0,
        board_rules_present: false,
    };
    classification_cache_insert(&mut cache, "p-hit", kind, 100);
    let mut board = Board::default();
    let result = classify_candidates(&mut cache, &mut board, vec![candidate("p-hit", 0x1234, 0x5678)], 100);
    assert_eq!(result[0].kind, kind);
    assert!(board.calls.is_empty());
    assert!(board.filters.is_empty());
}

#[test]
fn test_classify_candidates_cache_miss_pings_and_caches() {
    let mut cache = ClassificationCache::new();
    let mut board = Board::with(vec![info(2, 0x01, 0, false)]);
    let first = classify_candidates(&mut cache, &mut board, vec![candidate("p-miss", 0x1234, 0x5678)], 0);
    assert_eq!(
        first[0].kind,
        DeviceKind::Capable {
            proto_ver: 2,
            feature_flags: 0x01,
            callback_count: 0,
            board_rules_present: false,
        }
    );
    assert_eq!(board.calls.len(), 1);
    let second = classify_candidates(&mut cache, &mut board, vec![candidate("p-miss", 0x1234, 0x5678)], 10);
    assert_eq!(first[0].kind, second[0].kind);
    assert_eq!(board.calls.len(), 1);
}

#[test]
fn test_classify_candidates_ttl_re_ping() {
    let mut cache = ClassificationCache::new();
    let kind = DeviceKind::Capable {
        proto_ver: 2,
        feature_flags: 0x01,
        callback_count: 0,
        board_rules_present: false,
    };
    classification_cache_insert(&mut cache, "p-ttl", kind, 20_000 - 5_000 - 1);
    let mut board = Board::with(vec![CommandResponse::Timeout]);
    let result = classify_candidates(&mut cache, &mut board, vec![candidate("p-ttl", 0x1234, 0x5678)], 20_000);
    assert_eq!(result[0].kind, DeviceKind::NotQmkNotifier);
    assert_eq!(board.calls.len(), 1);
    assert_eq!(classification_cache_get(&cache, "p-ttl", 20_000), Some(DeviceKind::NotQmkNotifier));
}

#[test]
fn test_invalidate_drops_absent_paths() {
    let mut cache = ClassificationCache::new();
    classification_cache_insert(&mut cache, "p1", DeviceKind::NotQmkNotifier, 0);
    classification_cache_insert(&mut cache, "p2", DeviceKind::NotQmkNotifier, 0);
    invalidate_absent_cache_entries(&mut cache, &vec![candidate("p1", 0x1234, 0x5678)]);
    assert!(classification_cache_get(&cache, "p1", 0).is_some());
    assert!(classification_cache_get(&cache, "p2", 0).is_none());
}

// ---- window dispatch ----

fn dispatch(board: &mut Board, message: &str, ctx: Option<HostContext>) {
    let plan = dispatch_plan(&ctx);
    if plan.send_string {
        board.messages.push(message.to_string());
    }
    if let (true, Some(c)) = (plan.send_context, ctx.as_ref()) {
        let _ = board.send(host_context_command(c), &filter());
    }
}

#[test]
fn test_dispatch_legacy_string_only_when_no_host_context() {
    let mut board = Board::default();
    dispatch(&mut board, "App\x1DTitle", None);
    assert_eq!(board.messages.len(), 1);
    assert_eq!(board.messages.last().map(|s| s.as_str()), Some("App\x1DTitle"));
    assert!(board.calls.is_empty());
}

#[test]
fn test_dispatch_stack_sends_string_then_context() {
    let mut board = Board::default();
    let ctx = HostContext {
        layer: Some(224),
        callback_ids: vec![0, 1],
        clear_board: false,
    };
    dispatch(&mut board, "App\x1DTitle", Some(ctx));
    assert_eq!(board.messages.len(), 1);
    assert_eq!(board.messages.last().map(|s| s.as_str()), Some("App\x1DTitle"));
    assert_eq!(board.calls.len(), 1);
    assert!(matches!(
        board.calls[0],
        RunCommand::ApplyHostContext {
            layer: Some(224),
            callbacks: _,
            clear_board: false,
        }
    ));
}

#[test]
fn test_dispatch_replace_sends_context_only() {
    let mut board = Board::default();
    let ctx = HostContext {
        layer: Some(225),
        callback_ids: vec![2],
        clear_board: true,
    };
    dispatch(&mut board, "App\x1DTitle", Some(ctx));
    assert_eq!(board.messages.len(), 0);
    assert_eq!(board.calls.len(), 1);
    assert!(matches!(
        board.calls[0],
        RunCommand::ApplyHostContext {
            layer: Some(225),
            clear_board: true,
            ..
        }
    ));
}

#[test]
fn test_dispatch_no_match_sends_string_then_clear_context() {
    let mut board = Board::default();
    let ctx = HostContext {
        layer: None,
        callback_ids: vec![],
        clear_board: false,
    };
    dispatch(&mut board, "App\x1DTitle", Some(ctx));
    assert_eq!(board.messages.len(), 1);
    assert_eq!(board.calls.len(), 1);
    assert!(matches!(
        board.calls[0],
        RunCommand::ApplyHostContext {
            layer: None,
            callbacks: _,
            clear_board: false,
        }
    ));
}

#[test]
fn notify_payload_is_class_separator_title() {
    let w = WindowInfo {
        app_class: "TestApp".to_string(),
        title: "Test Title".to_string(),
    };
    assert_eq!(window_message(&w), "TestApp\x1DTest Title");
}

fn emits_0x81_first_byte(cmd: &RunCommand) -> bool {
    !matches!(cmd, RunCommand::ListDevices)
}

#[test]
fn r_coex_every_transport_variant_emits_magic_header() {
    let transport_variants: [RunCommand; 5] = [
        RunCommand::SendMessage("x".into()),
        RunCommand::QueryInfo,
        RunCommand::QueryCallback(0),
        RunCommand::SetOs(HostOs::Linux),
        RunCommand::ApplyHostContext {
            layer: Some(224),
            callbacks: vec![],
            clear_board: false,
        },
    ];
    for v in &transport_variants {
        assert!(emits_0x81_first_byte(v), "{:?} must emit 0x81 first", v);
    }
}

#[test]
fn r_coex_list_devices_is_the_lone_wire_silent_variant() {
    assert!(!emits_0x81_first_byte(&RunCommand::ListDevices));
}
