//! Device discovery and the host-rules capability handshake, written as
//! decisions over plain values: the caller performs every HID send and
//! enumeration and hands the results back.
use vstd::prelude::*;
use crate::config::{Config, DEFAULT_USAGE, DEFAULT_USAGE_PAGE};
use crate::keyed::{StrKeyMap, str_eq};
use crate::text::{chars_of, hex_padded, push_char, push_hex_padded, push_str};

verus! {

/// Upper bound on the `QUERY_CALLBACK` sweep; a larger reported count is
/// treated as misbehaving firmware and only this many are swept.
pub const MAX_HOST_CALLBACKS: u8 = 64;

/// Wall-clock budget (ms) of the `QUERY_CALLBACK` sweep.
pub const CALLBACK_SWEEP_DEADLINE_MS: u64 = 5000;

/// Attempts for one `QUERY_CALLBACK` index before giving up on it.
pub const QUERY_CALLBACK_MAX_ATTEMPTS: u8 = 2;

/// Lifetime (ms) of a classification cache entry.
pub const CLASSIFICATION_TTL_MS: u64 = 5000;

/// Extra re-probes a present, not yet confirmed capable board gets after it
/// appears.
pub const PRESENCE_REPROBE_BUDGET: u32 = 6;

/// Protocol version of host-rules capable firmware.
pub const HOST_RULES_PROTO_VERSION: u8 = 2;

/// Feature bit advertising `APPLY_HOST_CONTEXT`.
pub const APPLY_HOST_CONTEXT_FLAG: u8 = 0x01;

/// Host operating system, as sent with `SET_OS`.
#[derive(Clone, Copy, Debug, PartialEq, Eq)]
pub enum HostOs {
    Linux,
    Windows,
    Macos,
    Unsure,
}

/// A typed command for the keyboard.
#[derive(Clone, Debug, PartialEq, Eq)]
pub enum RunCommand {
    SendMessage(String),
    QueryInfo,
    QueryCallback(u8),
    SetOs(HostOs),
    ApplyHostContext { layer: Option<u8>, callbacks: Vec<u8>, clear_board: bool },
    ListDevices,
}

/// A parsed reply of the keyboard.
#[derive(Clone, Debug, PartialEq, Eq)]
pub enum CommandResponse {
    Info { proto_ver: u8, feature_flags: u8, callback_count: u8, board_rules_present: bool },
    CallbackName { index: u8, name: Option<String> },
    Legacy { matched: bool },
    Ack { ok: bool },
    Timeout,
}

/// The transport to the keyboard (a unit value; the sends are made by the
/// caller).
pub struct QmkNotifier;

/// Device match criteria: VID/PID optional (`None` = any), usage page and
/// usage always set.
#[derive(Clone, Copy, Debug, PartialEq, Eq)]
pub struct DeviceFilter {
    pub vendor_id: Option<u16>,
    pub product_id: Option<u16>,
    pub usage_page: u16,
    pub usage: u16,
}

/// The filter of the configuration that was read, QMK Raw HID defaults for
/// unset usage page and usage, and any VID/PID when none could be read.
pub open spec fn filter_of(config: Option<Config>) -> DeviceFilter {
    match config {
        Some(c) => DeviceFilter {
            vendor_id: c.vendor_id,
            product_id: c.product_id,
            usage_page: match c.usage_page {
                Some(u) => u,
                None => DEFAULT_USAGE_PAGE,
            },
            usage: match c.usage {
                Some(u) => u,
                None => DEFAULT_USAGE,
            },
        },
        None => DeviceFilter {
            vendor_id: None,
            product_id: None,
            usage_page: DEFAULT_USAGE_PAGE,
            usage: DEFAULT_USAGE,
        },
    }
}

/// Resolve the device match criteria from the configuration that was read.
pub fn configured_filter(config: Option<Config>) -> (f: DeviceFilter)
    ensures
        f == filter_of(config),
{
    match config {
        Some(c) => DeviceFilter {
            vendor_id: c.vendor_id,
            product_id: c.product_id,
            usage_page: match c.usage_page {
                Some(u) => u,
                None => DEFAULT_USAGE_PAGE,
            },
            usage: match c.usage {
                Some(u) => u,
                None => DEFAULT_USAGE,
            },
        },
        None => DeviceFilter {
            vendor_id: None,
            product_id: None,
            usage_page: DEFAULT_USAGE_PAGE,
            usage: DEFAULT_USAGE,
        },
    }
}

/// A HID interface matches the filter: same usage page and usage, and the
/// VID/PID when the filter sets them.
pub open spec fn matches_filter(f: DeviceFilter, vendor_id: u16, product_id: u16, usage_page: u16, usage: u16) -> bool {
    &&& usage_page == f.usage_page
    &&& usage == f.usage
    &&& (f.vendor_id matches Some(v) ==> v == vendor_id)
    &&& (f.product_id matches Some(p) ==> p == product_id)
}

/// Whether a HID interface with these identifiers matches `filter`.
pub fn device_matches_filter(filter: &DeviceFilter, vendor_id: u16, product_id: u16, usage_page: u16, usage: u16) -> (r: bool)
    ensures
        r == matches_filter(*filter, vendor_id, product_id, usage_page, usage),
{
    usage_page == filter.usage_page && usage == filter.usage && match filter.vendor_id {
        Some(v) => v == vendor_id,
        None => true,
    } && match filter.product_id {
        Some(p) => p == product_id,
        None => true,
    }
}

/// A device is picked only where it agrees with every identifier that the
/// filter sets: a different usage page or usage, or a VID/PID other than
/// the one the filter names, rejects it; a device that carries the filter's
/// usage page and usage and the VID/PID it names (any, where it names none)
/// is accepted.
pub proof fn law_filter_ids_must_agree(f: DeviceFilter, vendor_id: u16, product_id: u16, usage_page: u16, usage: u16)
    ensures
        f.product_id == Some(product_id) || f.product_id is None || !matches_filter(
            f,
            vendor_id,
            product_id,
            usage_page,
            usage,
        ),
        f.vendor_id == Some(vendor_id) || f.vendor_id is None || !matches_filter(
            f,
            vendor_id,
            product_id,
            usage_page,
            usage,
        ),
        usage_page != f.usage_page ==> !matches_filter(f, vendor_id, product_id, usage_page, usage),
        usage != f.usage ==> !matches_filter(f, vendor_id, product_id, usage_page, usage),
        (f.vendor_id == Some(vendor_id) || f.vendor_id is None) && (f.product_id == Some(product_id)
            || f.product_id is None) ==> matches_filter(f, vendor_id, product_id, f.usage_page, f.usage),
{
}

/// The resolved filter carries the configured identifiers unchanged, and
/// the QMK Raw HID usage page `0xFF60` and usage `0x61` where the
/// configuration sets none; with no configuration it matches any VID/PID.
pub proof fn law_filter_carries_configured_ids(config: Option<Config>)
    ensures
        config matches Some(c) ==> {
            &&& filter_of(config).vendor_id == c.vendor_id
            &&& filter_of(config).product_id == c.product_id
            &&& (c.usage_page matches Some(x) ==> filter_of(config).usage_page == x)
            &&& (c.usage_page is None ==> filter_of(config).usage_page == 0xFF60)
            &&& (c.usage matches Some(x) ==> filter_of(config).usage == x)
            &&& (c.usage is None ==> filter_of(config).usage == 0x61)
        },
        config is None ==> filter_of(config) == (DeviceFilter {
            vendor_id: None,
            product_id: None,
            usage_page: 0xFF60,
            usage: 0x61,
        }),
{
}

/// With a configured PID, a board that shares the configured VID but has
/// another PID is not picked; with a configured VID, a board of another
/// vendor is not picked.
pub proof fn law_configured_board_only(c: Config, vendor_id: u16, product_id: u16, usage_page: u16, usage: u16)
    ensures
        c.product_id matches Some(p) && p != product_id ==> !matches_filter(
            filter_of(Some(c)),
            vendor_id,
            product_id,
            usage_page,
            usage,
        ),
        c.vendor_id matches Some(v) && v != vendor_id ==> !matches_filter(
            filter_of(Some(c)),
            vendor_id,
            product_id,
            usage_page,
            usage,
        ),
{
}

/// Per-device capability classification.
#[derive(Clone, Copy, Debug, PartialEq, Eq)]
pub enum DeviceKind {
    /// Replied to `QUERY_INFO` with protocol version 2.
    Capable { proto_ver: u8, feature_flags: u8, callback_count: u8, board_rules_present: bool },
    /// A QMK Raw HID interface that is not running the qmk_notifier module.
    NotQmkNotifier,
}

/// One enumerated QMK Raw HID interface and its classification.
#[derive(Clone, Debug, PartialEq, Eq)]
pub struct ClassifiedDevice {
    pub path: String,
    pub vendor_id: u16,
    pub product_id: u16,
    pub product_name: Option<String>,
    pub usage_page: u16,
    pub usage: u16,
    pub kind: DeviceKind,
}

/// One enumerated QMK Raw HID interface before classification.
#[derive(Clone, Debug, PartialEq, Eq)]
pub struct Candidate {
    pub path: String,
    pub vendor_id: u16,
    pub product_id: u16,
    pub product_name: Option<String>,
    pub usage_page: u16,
    pub usage: u16,
}

/// The `--list-devices` kind column label of a classified device.
pub open spec fn kind_text(kind: DeviceKind) -> Seq<char> {
    match kind {
        DeviceKind::Capable { .. } => "qmk_notifier"@,
        DeviceKind::NotQmkNotifier => "qmk-only"@,
    }
}

/// The `--list-devices` kind label: `qmk_notifier` for a capable board,
/// `qmk-only` for a QMK board without the module.
pub fn kind_label(kind: &DeviceKind) -> (r: &'static str)
    ensures
        r@ == kind_text(*kind),
{
    match kind {
        DeviceKind::Capable { .. } => "qmk_notifier",
        DeviceKind::NotQmkNotifier => "qmk-only",
    }
}

/// Three-state device status of the tray status line.
#[derive(Clone, Copy, Debug, PartialEq, Eq)]
pub enum DeviceStatus {
    /// A capable board is present.
    Connected,
    /// A QMK Raw HID board is present, none capable.
    NoModule,
    /// No QMK Raw HID board is present.
    Disconnected,
}

/// The status for a present flag and a capable flag; absence dominates.
pub open spec fn status_of(present: bool, capable: bool) -> DeviceStatus {
    if !present {
        DeviceStatus::Disconnected
    } else if capable {
        DeviceStatus::Connected
    } else {
        DeviceStatus::NoModule
    }
}

/// Three-state classifier behind the tray status line.
pub fn classify_device_status(present: bool, capable: bool) -> (r: DeviceStatus)
    ensures
        r == status_of(present, capable),
{
    if !present {
        DeviceStatus::Disconnected
    } else if capable {
        DeviceStatus::Connected
    } else {
        DeviceStatus::NoModule
    }
}

/// Whether a `QUERY_INFO` reply is the capable one (protocol version 2).
pub open spec fn reply_kind(reply: Result<CommandResponse, String>) -> DeviceKind {
    match reply {
        Ok(CommandResponse::Info { proto_ver, feature_flags, callback_count, board_rules_present }) => if proto_ver == HOST_RULES_PROTO_VERSION {
            DeviceKind::Capable { proto_ver, feature_flags, callback_count, board_rules_present }
        } else {
            DeviceKind::NotQmkNotifier
        },
        _ => DeviceKind::NotQmkNotifier,
    }
}

/// Classify a `QUERY_INFO` reply: protocol version 2 is capable (the
/// feature bits are recorded, not checked); every other reply and every
/// error is not.
pub fn classify_reply(reply: &Result<CommandResponse, String>) -> (k: DeviceKind)
    ensures
        k == reply_kind(*reply),
{
    match reply {
        Ok(CommandResponse::Info { proto_ver, feature_flags, callback_count, board_rules_present }) => {
            if *proto_ver == HOST_RULES_PROTO_VERSION {
                DeviceKind::Capable {
                    proto_ver: *proto_ver,
                    feature_flags: *feature_flags,
                    callback_count: *callback_count,
                    board_rules_present: *board_rules_present,
                }
            } else {
                DeviceKind::NotQmkNotifier
            }
        },
        _ => DeviceKind::NotQmkNotifier,
    }
}

/// Knobs of the handshake: the live connect sends `SET_OS` and validates
/// the default rules file; the read-only lint does neither.
#[derive(Clone, Copy, Debug, PartialEq, Eq)]
pub struct HandshakeOptions {
    pub set_os: bool,
    pub validate_default_rules: bool,
}

impl HandshakeOptions {
    /// Full live-connect handshake.
    pub fn full() -> (o: Self)
        ensures
            o.set_os && o.validate_default_rules,
    {
        HandshakeOptions { set_os: true, validate_default_rules: true }
    }

    /// Read-only validation handshake: no `SET_OS`, no default-rules check.
    pub fn validation() -> (o: Self)
        ensures
            !o.set_os && !o.validate_default_rules,
    {
        HandshakeOptions { set_os: false, validate_default_rules: false }
    }
}

/// Lifecycle action for a device-presence transition.
#[derive(Clone, Copy, Debug, PartialEq, Eq)]
pub enum HandshakeAction {
    /// Nothing to do.
    NoChange,
    /// A device became present: run the handshake.
    Gain,
    /// A device went away: reset the handshake state.
    Loss,
}

/// The action for a transition from `prev` to `now`.
pub open spec fn action_of(prev: Option<bool>, now: bool) -> HandshakeAction {
    if prev == Some(true) && !now {
        HandshakeAction::Loss
    } else if now && prev != Some(true) {
        HandshakeAction::Gain
    } else {
        HandshakeAction::NoChange
    }
}

/// Classify a device-presence transition: present after not (or unknown)
/// is `Gain`, absent after present is `Loss`, anything else `None`.
pub fn handshake_action(prev: Option<bool>, now: bool) -> (a: HandshakeAction)
    ensures
        a == action_of(prev, now),
{
    match prev {
        Some(true) => if now {
            HandshakeAction::NoChange
        } else {
            HandshakeAction::Loss
        },
        _ => if now {
            HandshakeAction::Gain
        } else {
            HandshakeAction::NoChange
        },
    }
}

/// The capable flag after a poll tick: false with no board present, the
/// re-probe result (false when absent) when the caller re-probed, else the
/// last known flag.
pub open spec fn tick_capable(last_capable: bool, reprobed_this_tick: bool, tier1_present: bool, reprobed: Option<bool>) -> bool {
    if !tier1_present {
        false
    } else if reprobed_this_tick {
        reprobed == Some(true)
    } else {
        last_capable
    }
}

/// Decide a poll tick's handshake action and new capable flag.
pub fn presence_tick_decision(
    last_capable: bool,
    paths_changed: bool,
    tier1_present: bool,
    reprobed_capable: Option<bool>,
) -> (r: (HandshakeAction, bool))
    ensures
        r.1 == tick_capable(last_capable, paths_changed, tier1_present, reprobed_capable),
        r.0 == action_of(Some(last_capable), r.1),
{
    let capable = if !tier1_present {
        false
    } else if paths_changed {
        match reprobed_capable {
            Some(c) => c,
            None => false,
        }
    } else {
        last_capable
    };
    (handshake_action(Some(last_capable), capable), capable)
}

/// Whether a poll tick re-probes: a board is present and either the path
/// set changed or the board is unconfirmed with budget left.
pub open spec fn reprobe_wanted(paths_changed: bool, tier1_present: bool, last_capable: bool, budget: u32) -> bool {
    tier1_present && (paths_changed || (budget > 0 && !last_capable))
}

/// Should this poll tick re-probe capable presence?
pub fn reprobe_needed(paths_changed: bool, tier1_present: bool, last_capable: bool, budget: u32) -> (r: bool)
    ensures
        r == reprobe_wanted(paths_changed, tier1_present, last_capable, budget),
{
    tier1_present && (paths_changed || (budget > 0 && !last_capable))
}

/// Whether the broadcast handshake result may be stamped into the per-path
/// cache: only when at most one board is present.
pub fn handshake_warm_eligible(candidate_count: usize) -> (r: bool)
    ensures
        r == (candidate_count <= 1),
{
    candidate_count <= 1
}

/// Host-rules handshake state of the connection: the capability flag,
/// whether the board runs its own rules, the board's callback registry
/// (`name -> id`), and the once-per-boot guard.
pub struct HandshakeState {
    pub host_capable: bool,
    pub board_has_rules: bool,
    pub callback_names: StrKeyMap<u8>,
    pub has_handshaked: bool,
}

/// The state with nothing known: not capable, no rules, no callbacks, and
/// the handshake not yet run.
pub open spec fn is_cleared(s: HandshakeState) -> bool {
    &&& !s.host_capable
    &&& !s.board_has_rules
    &&& s.callback_names@ == Map::<Seq<char>, u8>::empty()
    &&& !s.has_handshaked
}

impl HandshakeState {
    /// The state at start-up.
    pub fn new() -> (s: Self)
        ensures
            is_cleared(s),
    {
        HandshakeState {
            host_capable: false,
            board_has_rules: false,
            callback_names: StrKeyMap::new(),
            has_handshaked: false,
        }
    }
}

/// Is the connected keyboard host-rules capable?
pub fn host_capable(state: &HandshakeState) -> (r: bool)
    ensures
        r == state.host_capable,
{
    state.host_capable
}

/// Does the connected keyboard's keymap declare board rules?
pub fn board_has_rules(state: &HandshakeState) -> (r: bool)
    ensures
        r == state.board_has_rules,
{
    state.board_has_rules
}

/// A copy of the keyboard's `name -> id` callback map.
pub fn callback_names(state: &HandshakeState) -> (r: StrKeyMap<u8>)
    ensures
        r@ == state.callback_names@,
{
    state.callback_names.duplicate()
}

/// Clear all handshake state so the next handshake runs again.
pub fn reset_handshake_state(state: &mut HandshakeState)
    ensures
        is_cleared(*final(state)),
{
    state.host_capable = false;
    state.board_has_rules = false;
    state.callback_names.clear();
    state.has_handshaked = false;
}

/// The tray status for a presence result and the handshake state.
pub fn device_status(state: &HandshakeState, connected: bool) -> (r: DeviceStatus)
    ensures
        r == status_of(connected, state.host_capable),
{
    classify_device_status(connected, state.host_capable)
}

/// Where a handshake stands.
#[derive(Clone, Copy, Debug, PartialEq, Eq)]
pub enum HandshakePhase {
    /// `QUERY_INFO` was sent.
    AwaitInfo,
    /// `SET_OS` was sent.
    AwaitSetOs,
    /// `QUERY_CALLBACK(index)` was sent, as attempt number `attempt` (from 0).
    Sweep { index: u8, attempt: u8 },
    /// The handshake is over.
    Finished,
}

/// How a handshake ended.
#[derive(Clone, Copy, Debug, PartialEq, Eq)]
pub enum HandshakeOutcome {
    /// The board is host-rules capable; its registry was swept.
    Capable,
    /// The board answered but is not capable (legacy, or no feature bit).
    NotCapable,
    /// No answer (timeout) or a device error: the guard is released so the
    /// handshake is retried.
    Transient,
}

/// What the caller learns when a handshake ends.
#[derive(Clone, Copy, Debug, PartialEq, Eq)]
pub struct HandshakeReport {
    pub outcome: HandshakeOutcome,
    /// Run the callback-name validation of the default rules file.
    pub validate_rules: bool,
    /// The classification to warm the per-path cache with.
    pub warm_kind: DeviceKind,
    /// The firmware reported callbacks but none could be mapped.
    pub unmapped_warning: bool,
    /// The sweep stopped at this index because its time budget ran out.
    pub stopped_at: Option<u8>,
}

/// The next thing the caller does.
#[derive(Clone, Debug, PartialEq, Eq)]
pub enum HandshakeStep {
    /// Send this command and report the reply with `HandshakeRun::on_reply`.
    Send(RunCommand),
    /// The handshake is over.
    Done(HandshakeReport),
}

/// A handshake in progress.
pub struct HandshakeRun {
    opts: HandshakeOptions,
    host: HostOs,
    phase: HandshakePhase,
    feature_flags: u8,
    callback_count: u8,
    board_rules_present: bool,
    local: StrKeyMap<u8>,
}

/// Number of callback indices swept for a reported count.
pub open spec fn sweep_cap_of(count: u8) -> u8 {
    if count < MAX_HOST_CALLBACKS {
        count
    } else {
        MAX_HOST_CALLBACKS
    }
}

/// Number of callback indices swept for a reported count: the count,
/// capped at [`MAX_HOST_CALLBACKS`].
pub fn sweep_cap(count: u8) -> (r: u8)
    ensures
        r == sweep_cap_of(count),
{
    if count < MAX_HOST_CALLBACKS {
        count
    } else {
        MAX_HOST_CALLBACKS
    }
}

/// A `QUERY_INFO` reply that makes the board capable: protocol version 2
/// with the `APPLY_HOST_CONTEXT` feature bit.
pub open spec fn is_capable_info(reply: Result<CommandResponse, String>) -> bool {
    reply matches Ok(CommandResponse::Info { proto_ver, feature_flags, .. }) && proto_ver
        == HOST_RULES_PROTO_VERSION && feature_flags & APPLY_HOST_CONTEXT_FLAG != 0
}

/// A `QUERY_INFO` outcome that releases the once-per-boot guard: a timeout
/// or a device error.
pub open spec fn is_transient_reply(reply: Result<CommandResponse, String>) -> bool {
    reply is Err || reply matches Ok(CommandResponse::Timeout)
}

/// The callback a `QUERY_CALLBACK` reply maps, if it names one.
pub open spec fn mapped_callback(reply: Result<CommandResponse, String>) -> Option<(Seq<char>, u8)> {
    match reply {
        Ok(CommandResponse::CallbackName { index, name: Some(n) }) => Some((n@, index)),
        _ => None,
    }
}

/// A `QUERY_CALLBACK` reply that is worth one more attempt: a reply other
/// than `CallbackName` (a transient mis-read).
pub open spec fn is_misread(reply: Result<CommandResponse, String>) -> bool {
    reply is Ok && !(reply->Ok_0 is CallbackName)
}

/// Whether a `QUERY_INFO` reply makes the board capable (protocol version 2
/// with the `APPLY_HOST_CONTEXT` feature bit).
pub fn info_is_capable(reply: &Result<CommandResponse, String>) -> (r: bool)
    ensures
        r == is_capable_info(*reply),
{
    match reply {
        Ok(CommandResponse::Info { proto_ver, feature_flags, .. }) => *proto_ver == HOST_RULES_PROTO_VERSION
            && *feature_flags & APPLY_HOST_CONTEXT_FLAG != 0,
        _ => false,
    }
}

/// Whether the callback sweep has used up its time budget after
/// `elapsed_ms` milliseconds.
pub fn sweep_deadline_passed(elapsed_ms: u64) -> (r: bool)
    ensures
        r == (elapsed_ms > CALLBACK_SWEEP_DEADLINE_MS),
{
    elapsed_ms > CALLBACK_SWEEP_DEADLINE_MS
}

/// The phase after index `next - 1` of the sweep is done.
pub open spec fn phase_after(next: int, cap: u8, deadline_passed: bool) -> HandshakePhase {
    if next >= cap || deadline_passed {
        HandshakePhase::Finished
    } else {
        HandshakePhase::Sweep { index: next as u8, attempt: 0 }
    }
}

/// The index at which the time budget stopped the sweep, if it did.
pub open spec fn stop_index(next: int, cap: u8, deadline_passed: bool) -> Option<u8> {
    if next < cap && deadline_passed {
        Some(next as u8)
    } else {
        None
    }
}

impl HandshakeRun {
    pub closed spec fn options(&self) -> HandshakeOptions {
        self.opts
    }

    pub closed spec fn host_os(&self) -> HostOs {
        self.host
    }

    pub closed spec fn phase_of(&self) -> HandshakePhase {
        self.phase
    }

    /// The `QUERY_INFO` reply fields kept for the rest of the handshake.
    pub closed spec fn info(&self) -> (u8, u8, bool) {
        (self.feature_flags, self.callback_count, self.board_rules_present)
    }

    /// The callbacks mapped so far.
    pub closed spec fn mapped(&self) -> Map<Seq<char>, u8> {
        self.local@
    }

    #[verifier::type_invariant]
    closed spec fn inv(&self) -> bool {
        self.phase matches HandshakePhase::Sweep { index, attempt } ==> index < sweep_cap_of(
            self.callback_count,
        ) && attempt < QUERY_CALLBACK_MAX_ATTEMPTS
    }

    /// The step that goes with this run's phase.
    pub open spec fn step_fits(&self, step: HandshakeStep) -> bool {
        match self.phase_of() {
            HandshakePhase::AwaitInfo => step == HandshakeStep::Send(RunCommand::QueryInfo),
            HandshakePhase::AwaitSetOs => step == HandshakeStep::Send(RunCommand::SetOs(self.host_os())),
            HandshakePhase::Sweep { index, .. } => step == HandshakeStep::Send(RunCommand::QueryCallback(index)),
            HandshakePhase::Finished => step is Done,
        }
    }

    /// The report of a capable handshake that swept `mapped`.
    pub open spec fn capable_report(&self, mapped: Map<Seq<char>, u8>, stopped_at: Option<u8>) -> HandshakeReport {
        HandshakeReport {
            outcome: HandshakeOutcome::Capable,
            validate_rules: self.options().validate_default_rules,
            warm_kind: DeviceKind::Capable {
                proto_ver: HOST_RULES_PROTO_VERSION,
                feature_flags: self.info().0,
                callback_count: self.info().1,
                board_rules_present: self.info().2,
            },
            unmapped_warning: self.info().1 > 0 && mapped == Map::<Seq<char>, u8>::empty(),
            stopped_at,
        }
    }

    fn step_for(&self) -> (step: HandshakeStep)
        requires
            !(self.phase_of() is Finished),
        ensures
            self.step_fits(step),
    {
        match self.phase {
            HandshakePhase::AwaitInfo => HandshakeStep::Send(RunCommand::QueryInfo),
            HandshakePhase::AwaitSetOs => HandshakeStep::Send(RunCommand::SetOs(self.host)),
            HandshakePhase::Sweep { index, .. } => HandshakeStep::Send(RunCommand::QueryCallback(index)),
            HandshakePhase::Finished => HandshakeStep::Send(RunCommand::QueryInfo),
        }
    }
}

/// `r` is a run freshly started with `opts` and `host`, together with its
/// first step, `QUERY_INFO`.
pub open spec fn is_fresh_start(r: Option<(HandshakeRun, HandshakeStep)>, opts: HandshakeOptions, host: HostOs) -> bool {
    match r {
        Some((run, step)) => {
            &&& run.phase_of() == HandshakePhase::AwaitInfo
            &&& run.options() == opts
            &&& run.host_os() == host
            &&& run.mapped() == Map::<Seq<char>, u8>::empty()
            &&& step == HandshakeStep::Send(RunCommand::QueryInfo)
        },
        None => false,
    }
}

/// `after` is `before` with the once-per-boot guard set.
pub open spec fn guard_taken(before: HandshakeState, after: HandshakeState) -> bool {
    &&& after.has_handshaked
    &&& after.host_capable == before.host_capable
    &&& after.board_has_rules == before.board_has_rules
    &&& after.callback_names == before.callback_names
}

/// What beginning a handshake does: with the guard already taken nothing
/// happens and nothing is sent; otherwise the guard is taken and a fresh run
/// starts with `QUERY_INFO`.
pub open spec fn begin_post(
    before: HandshakeState,
    opts: HandshakeOptions,
    host: HostOs,
    r: Option<(HandshakeRun, HandshakeStep)>,
    after: HandshakeState,
) -> bool {
    &&& before.has_handshaked ==> r is None && after == before
    &&& !before.has_handshaked ==> is_fresh_start(r, opts, host)
    &&& !before.has_handshaked ==> guard_taken(before, after)
}

/// Begin a handshake with `opts`, at most once per board boot: when the
/// guard is already set nothing happens (`None`); otherwise the guard is set
/// and the run starts by sending `QUERY_INFO`.
pub fn perform_handshake_with(state: &mut HandshakeState, opts: HandshakeOptions, host: HostOs) -> (r: Option<(HandshakeRun, HandshakeStep)>)
    ensures
        begin_post(*old(state), opts, host, r, *final(state)),
{
    if state.has_handshaked {
        return None;
    }
    state.has_handshaked = true;
    let run = HandshakeRun {
        opts,
        host,
        phase: HandshakePhase::AwaitInfo,
        feature_flags: 0,
        callback_count: 0,
        board_rules_present: false,
        local: StrKeyMap::new(),
    };
    Some((run, HandshakeStep::Send(RunCommand::QueryInfo)))
}

/// The options of the full live-connect handshake.
pub open spec fn full_options() -> HandshakeOptions {
    HandshakeOptions { set_os: true, validate_default_rules: true }
}

/// Begin the full live-connect handshake (`SET_OS` and default-rules
/// validation included).
pub fn perform_handshake(state: &mut HandshakeState, host: HostOs) -> (r: Option<(HandshakeRun, HandshakeStep)>)
    ensures
        begin_post(*old(state), full_options(), host, r, *final(state)),
{
    perform_handshake_with(state, HandshakeOptions::full(), host)
}

/// The `(feature_flags, callback_count, board_rules_present)` of an `Info`
/// reply.
pub open spec fn info_fields(reply: Result<CommandResponse, String>) -> (u8, u8, bool) {
    match reply {
        Ok(CommandResponse::Info { feature_flags, callback_count, board_rules_present, .. }) => (
            feature_flags,
            callback_count,
            board_rules_present,
        ),
        _ => (0, 0, false),
    }
}

/// Where a run goes on a reply: its next phase, the kept `QUERY_INFO`
/// fields, the callbacks mapped, and the index at which the time budget
/// stopped the sweep (if it did).
pub open spec fn transition(run: HandshakeRun, reply: Result<CommandResponse, String>, deadline_passed: bool) -> (
    HandshakePhase,
    (u8, u8, bool),
    Map<Seq<char>, u8>,
    Option<u8>,
) {
    let cap = sweep_cap_of(run.info().1);
    match run.phase_of() {
        HandshakePhase::AwaitInfo => if is_capable_info(reply) {
            let info = info_fields(reply);
            let cap = sweep_cap_of(info.1);
            if run.options().set_os {
                (HandshakePhase::AwaitSetOs, info, run.mapped(), None)
            } else {
                (phase_after(0, cap, deadline_passed), info, run.mapped(), stop_index(0, cap, deadline_passed))
            }
        } else {
            (HandshakePhase::Finished, run.info(), run.mapped(), None)
        },
        HandshakePhase::AwaitSetOs => (
            phase_after(0, cap, deadline_passed),
            run.info(),
            run.mapped(),
            stop_index(0, cap, deadline_passed),
        ),
        HandshakePhase::Sweep { index, attempt } => {
            let mapped = match mapped_callback(reply) {
                Some((n, i)) => run.mapped().insert(n, i),
                None => run.mapped(),
            };
            if is_misread(reply) && attempt + 1 < QUERY_CALLBACK_MAX_ATTEMPTS {
                (HandshakePhase::Sweep { index, attempt: (attempt + 1) as u8 }, run.info(), mapped, None)
            } else {
                (
                    phase_after(index + 1, cap, deadline_passed),
                    run.info(),
                    mapped,
                    stop_index(index + 1, cap, deadline_passed),
                )
            }
        },
        HandshakePhase::Finished => (HandshakePhase::Finished, run.info(), run.mapped(), None),
    }
}

/// The report of a handshake whose `QUERY_INFO` did not make the board
/// capable.
pub open spec fn failed_report(reply: Result<CommandResponse, String>) -> HandshakeReport {
    HandshakeReport {
        outcome: if is_transient_reply(reply) {
            HandshakeOutcome::Transient
        } else {
            HandshakeOutcome::NotCapable
        },
        validate_rules: false,
        warm_kind: DeviceKind::NotQmkNotifier,
        unmapped_warning: false,
        stopped_at: None,
    }
}

/// What feeding `reply` to `run` does: the next run and step, and how the
/// handshake state `before` becomes `after`.
pub open spec fn reply_post(
    run: HandshakeRun,
    before: HandshakeState,
    reply: Result<CommandResponse, String>,
    deadline_passed: bool,
    r: (HandshakeRun, HandshakeStep),
    after: HandshakeState,
) -> bool {
    let failed = run.phase_of() is AwaitInfo && !is_capable_info(reply);
    &&& r.0.options() == run.options()
    &&& r.0.host_os() == run.host_os()
    &&& (r.0.phase_of(), r.0.info(), r.0.mapped()) == ({
        let t = transition(run, reply, deadline_passed);
        (t.0, t.1, t.2)
    })
    &&& r.0.step_fits(r.1)
    &&& !(r.0.phase_of() is Finished) ==> after == before
    &&& failed ==> r.1 == HandshakeStep::Done(failed_report(reply))
    &&& failed ==> !after.host_capable && after.callback_names@ == Map::<Seq<char>, u8>::empty()
        && after.board_has_rules == before.board_has_rules && after.has_handshaked == (
    before.has_handshaked && !is_transient_reply(reply))
    &&& r.0.phase_of() is Finished && !failed ==> r.1 == HandshakeStep::Done(
        r.0.capable_report(r.0.mapped(), transition(run, reply, deadline_passed).3),
    )
    &&& r.0.phase_of() is Finished && !failed ==> after.host_capable && after.board_has_rules
        == r.0.info().2 && after.callback_names@ == r.0.mapped() && after.has_handshaked
        == before.has_handshaked
}

/// A timeout or device error on `QUERY_INFO` ends the handshake at once
/// (only `QUERY_INFO` was sent), leaves the board not capable with no
/// callbacks, and releases the once-per-boot guard: the next begin starts a
/// fresh run.
pub proof fn law_transient_reply_releases_guard(
    run: HandshakeRun,
    before: HandshakeState,
    reply: Result<CommandResponse, String>,
    deadline_passed: bool,
    r: (HandshakeRun, HandshakeStep),
    after: HandshakeState,
    opts: HandshakeOptions,
    host: HostOs,
    again: Option<(HandshakeRun, HandshakeStep)>,
    after_again: HandshakeState,
)
    requires
        run.phase_of() is AwaitInfo,
        is_transient_reply(reply),
        reply_post(run, before, reply, deadline_passed, r, after),
        begin_post(after, opts, host, again, after_again),
    ensures
        r.1 == HandshakeStep::Done(failed_report(reply)),
        failed_report(reply).outcome == HandshakeOutcome::Transient,
        !after.host_capable,
        after.callback_names@ == Map::<Seq<char>, u8>::empty(),
        !after.has_handshaked,
        is_fresh_start(again, opts, host),
        guard_taken(after, after_again),
{
}

/// Once the guard is taken, any reply but a timeout or device error on
/// `QUERY_INFO` keeps it: a later begin sends nothing and changes no state
/// (capability, board rules and callbacks stay as they are).
pub proof fn law_guard_kept_after_answer(
    run: HandshakeRun,
    before: HandshakeState,
    reply: Result<CommandResponse, String>,
    deadline_passed: bool,
    r: (HandshakeRun, HandshakeStep),
    after: HandshakeState,
    opts: HandshakeOptions,
    host: HostOs,
    again: Option<(HandshakeRun, HandshakeStep)>,
    after_again: HandshakeState,
)
    requires
        before.has_handshaked,
        !(run.phase_of() is AwaitInfo && is_transient_reply(reply)),
        reply_post(run, before, reply, deadline_passed, r, after),
        begin_post(after, opts, host, again, after_again),
    ensures
        after.has_handshaked,
        again is None,
        after_again == after,
{
}

/// A run of a handshake: `runs[i]` receives `replies[i]` (with the budget
/// flag `deadlines[i]`) in state `states[i]`, giving `runs[i + 1]`, its step
/// `steps[i + 1]` and the state `states[i + 1]`; no reply reaches a finished
/// run.
pub open spec fn is_handshake_trace(
    runs: Seq<HandshakeRun>,
    states: Seq<HandshakeState>,
    steps: Seq<HandshakeStep>,
    replies: Seq<Result<CommandResponse, String>>,
    deadlines: Seq<bool>,
) -> bool {
    let n = replies.len();
    &&& runs.len() == n + 1
    &&& states.len() == n + 1
    &&& steps.len() == n + 1
    &&& deadlines.len() == n
    &&& forall|i: int|
        0 <= i < n ==> !(runs[i].phase_of() is Finished) && #[trigger] reply_post(
            runs[i],
            states[i],
            replies[i],
            deadlines[i],
            (runs[i + 1], steps[i + 1]),
            states[i + 1],
        )
}

proof fn lemma_trace_after_capable_info(
    runs: Seq<HandshakeRun>,
    states: Seq<HandshakeState>,
    steps: Seq<HandshakeStep>,
    replies: Seq<Result<CommandResponse, String>>,
    deadlines: Seq<bool>,
    i: int,
)
    requires
        is_handshake_trace(runs, states, steps, replies, deadlines),
        runs[0].phase_of() is AwaitInfo,
        replies.len() > 0,
        is_capable_info(replies[0]),
        1 <= i <= replies.len(),
    ensures
        !(runs[i].phase_of() is AwaitInfo),
        runs[i].info() == info_fields(replies[0]),
    decreases i,
{
    let j = i - 1;
    assert(reply_post(runs[j], states[j], replies[j], deadlines[j], (runs[j + 1], steps[j + 1]), states[j + 1]));
    if i > 1 {
        lemma_trace_after_capable_info(runs, states, steps, replies, deadlines, i - 1);
    }
}

/// A handshake whose `QUERY_INFO` is answered capable (as after a released
/// guard, when the board answers this time) ends, whatever the later
/// replies, with the board capable, its board-rules bit as reported, and the
/// callbacks the run mapped published.
pub proof fn law_capable_answer_ends_capable(
    runs: Seq<HandshakeRun>,
    states: Seq<HandshakeState>,
    steps: Seq<HandshakeStep>,
    replies: Seq<Result<CommandResponse, String>>,
    deadlines: Seq<bool>,
)
    requires
        is_handshake_trace(runs, states, steps, replies, deadlines),
        runs[0].phase_of() is AwaitInfo,
        replies.len() > 0,
        is_capable_info(replies[0]),
        runs[replies.len() as int].phase_of() is Finished,
    ensures
        ({
            let n = replies.len() as int;
            &&& states[n].host_capable
            &&& states[n].board_has_rules == info_fields(replies[0]).2
            &&& states[n].callback_names@ == runs[n].mapped()
            &&& steps[n] matches HandshakeStep::Done(rep) && rep.outcome == HandshakeOutcome::Capable
        }),
{
    let n = replies.len() as int;
    lemma_trace_after_capable_info(runs, states, steps, replies, deadlines, n);
    if n > 1 {
        lemma_trace_after_capable_info(runs, states, steps, replies, deadlines, n - 1);
    }
    let j = n - 1;
    assert(reply_post(runs[j], states[j], replies[j], deadlines[j], (runs[j + 1], steps[j + 1]), states[j + 1]));
}

impl HandshakeRun {
    fn advance(
        opts: HandshakeOptions,
        host: HostOs,
        feature_flags: u8,
        callback_count: u8,
        board_rules_present: bool,
        local: StrKeyMap<u8>,
        next: u8,
        deadline_passed: bool,
        state: &mut HandshakeState,
    ) -> (r: (HandshakeRun, HandshakeStep))
        requires
            next <= sweep_cap_of(callback_count),
        ensures
            r.0.options() == opts,
            r.0.host_os() == host,
            r.0.info() == (feature_flags, callback_count, board_rules_present),
            r.0.mapped() == local@,
            r.0.phase_of() == phase_after(next as int, sweep_cap_of(callback_count), deadline_passed),
            r.0.step_fits(r.1),
            !(r.0.phase_of() is Finished) ==> *final(state) == *old(state),
            r.0.phase_of() is Finished ==> r.1 == HandshakeStep::Done(
                r.0.capable_report(local@, stop_index(next as int, sweep_cap_of(callback_count), deadline_passed)),
            ),
            r.0.phase_of() is Finished ==> final(state).host_capable && final(state).board_has_rules
                == board_rules_present && final(state).callback_names@ == local@
                && final(state).has_handshaked == old(state).has_handshaked,
    {
        let cap = sweep_cap(callback_count);
        if next >= cap || deadline_passed {
            let stopped_at = if next < cap && deadline_passed {
                Some(next)
            } else {
                None
            };
            let unmapped_warning = callback_count > 0 && local.is_empty();
            state.callback_names = local.duplicate();
            state.board_has_rules = board_rules_present;
            state.host_capable = true;
            let report = HandshakeReport {
                outcome: HandshakeOutcome::Capable,
                validate_rules: opts.validate_default_rules,
                warm_kind: DeviceKind::Capable {
                    proto_ver: HOST_RULES_PROTO_VERSION,
                    feature_flags,
                    callback_count,
                    board_rules_present,
                },
                unmapped_warning,
                stopped_at,
            };
            let run = HandshakeRun {
                opts,
                host,
                phase: HandshakePhase::Finished,
                feature_flags,
                callback_count,
                board_rules_present,
                local,
            };
            (run, HandshakeStep::Done(report))
        } else {
            let run = HandshakeRun {
                opts,
                host,
                phase: HandshakePhase::Sweep { index: next, attempt: 0 },
                feature_flags,
                callback_count,
                board_rules_present,
                local,
            };
            let step = run.step_for();
            (run, step)
        }
    }

    /// Feed the reply to the command last sent, with whether the sweep's
    /// time budget has run out by now, and get the next step.
    ///
    /// `QUERY_INFO`: a capable reply continues with `SET_OS` (when the
    /// options ask for it) and the callback sweep; a timeout or device error
    /// clears the capability and callbacks and releases the once-per-boot
    /// guard; any other reply clears them and keeps the guard. Each
    /// `QUERY_CALLBACK` reply that names a callback adds it to the map; a
    /// mis-read is retried once on the same index. When the sweep is over
    /// (all indices, or the budget ran out) the map is published and the
    /// board is marked capable.
    pub fn on_reply(self, state: &mut HandshakeState, reply: Result<CommandResponse, String>, deadline_passed: bool) -> (r: (HandshakeRun, HandshakeStep))
        requires
            !(self.phase_of() is Finished),
        ensures
            reply_post(self, *old(state), reply, deadline_passed, r, *final(state)),
    {
        proof {
            use_type_invariant(&self);
        }
        let HandshakeRun { opts, host, phase, feature_flags, callback_count, board_rules_present, local } = self;
        match phase {
            HandshakePhase::AwaitInfo => {
                let capable = match &reply {
                    Ok(CommandResponse::Info { proto_ver, feature_flags: ff, callback_count: cc, board_rules_present: brp }) => {
                        if *proto_ver == HOST_RULES_PROTO_VERSION && *ff & APPLY_HOST_CONTEXT_FLAG != 0 {
                            Some((*ff, *cc, *brp))
                        } else {
                            None
                        }
                    },
                    _ => None,
                };
                match capable {
                    Some((ff, cc, brp)) => {
                        if opts.set_os {
                            let run = HandshakeRun {
                                opts,
                                host,
                                phase: HandshakePhase::AwaitSetOs,
                                feature_flags: ff,
                                callback_count: cc,
                                board_rules_present: brp,
                                local,
                            };
                            let step = run.step_for();
                            (run, step)
                        } else {
                            Self::advance(opts, host, ff, cc, brp, local, 0, deadline_passed, state)
                        }
                    },
                    None => {
                        let transient = match &reply {
                            Err(_) => true,
                            Ok(CommandResponse::Timeout) => true,
                            _ => false,
                        };
                        state.host_capable = false;
                        state.callback_names.clear();
                        if transient {
                            state.has_handshaked = false;
                        }
                        let report = HandshakeReport {
                            outcome: if transient {
                                HandshakeOutcome::Transient
                            } else {
                                HandshakeOutcome::NotCapable
                            },
                            validate_rules: false,
                            warm_kind: DeviceKind::NotQmkNotifier,
                            unmapped_warning: false,
                            stopped_at: None,
                        };
                        let run = HandshakeRun {
                            opts,
                            host,
                            phase: HandshakePhase::Finished,
                            feature_flags,
                            callback_count,
                            board_rules_present,
                            local,
                        };
                        (run, HandshakeStep::Done(report))
                    },
                }
            },
            HandshakePhase::AwaitSetOs => {
                Self::advance(opts, host, feature_flags, callback_count, board_rules_present, local, 0, deadline_passed, state)
            },
            HandshakePhase::Sweep { index, attempt } => {
                let mut local = local;
                let misread = match &reply {
                    Ok(CommandResponse::CallbackName { index: idx, name }) => {
                        match name {
                            Some(n) => {
                                local.insert(n.clone(), *idx);
                            },
                            None => {},
                        }
                        false
                    },
                    Ok(_) => true,
                    Err(_) => false,
                };
                if misread && attempt + 1 < QUERY_CALLBACK_MAX_ATTEMPTS {
                    let run = HandshakeRun {
                        opts,
                        host,
                        phase: HandshakePhase::Sweep { index, attempt: attempt + 1 },
                        feature_flags,
                        callback_count,
                        board_rules_present,
                        local,
                    };
                    let step = run.step_for();
                    (run, step)
                } else {
                    Self::advance(
                        opts,
                        host,
                        feature_flags,
                        callback_count,
                        board_rules_present,
                        local,
                        index + 1,
                        deadline_passed,
                        state,
                    )
                }
            },
            HandshakePhase::Finished => {
                let run = HandshakeRun {
                    opts,
                    host,
                    phase: HandshakePhase::Finished,
                    feature_flags,
                    callback_count,
                    board_rules_present,
                    local,
                };
                (run, HandshakeStep::Send(RunCommand::QueryInfo))
            },
        }
    }
}

/// How long ago `stamp` is at `now` (zero when `now` is earlier).
pub open spec fn elapsed_ms(stamp: u64, now: u64) -> int {
    if now >= stamp {
        now - stamp
    } else {
        0
    }
}

/// Per-path classification cache: each path's kind and the time (ms) it
/// was classified.
pub struct ClassificationCache {
    entries: StrKeyMap<(DeviceKind, u64)>,
}

impl View for ClassificationCache {
    type V = Map<Seq<char>, (DeviceKind, u64)>;

    closed spec fn view(&self) -> Map<Seq<char>, (DeviceKind, u64)> {
        self.entries@
    }
}

/// The kind cached for `path` if it was classified less than
/// [`CLASSIFICATION_TTL_MS`] before `now`.
pub open spec fn fresh_kind(cache: Map<Seq<char>, (DeviceKind, u64)>, path: Seq<char>, now: u64) -> Option<DeviceKind> {
    if cache.contains_key(path) && elapsed_ms(cache[path].1, now) < CLASSIFICATION_TTL_MS {
        Some(cache[path].0)
    } else {
        None
    }
}

impl ClassificationCache {
    /// An empty cache.
    pub fn new() -> (c: Self)
        ensures
            c@ == Map::<Seq<char>, (DeviceKind, u64)>::empty(),
    {
        ClassificationCache { entries: StrKeyMap::new() }
    }
}

/// The cached kind of the device at `path`, or `None` when absent or older
/// than the TTL (the stale entry is left in place).
pub fn classification_cache_get(cache: &ClassificationCache, path: &str, now_ms: u64) -> (r: Option<DeviceKind>)
    ensures
        r == fresh_kind(cache@, path@, now_ms),
{
    match cache.entries.get(path) {
        Some((kind, stamped)) => {
            let elapsed = if now_ms >= stamped {
                now_ms - stamped
            } else {
                0
            };
            if elapsed < CLASSIFICATION_TTL_MS {
                Some(kind)
            } else {
                None
            }
        },
        None => None,
    }
}

/// Record (or refresh) the classification of the device at `path`,
/// stamped `now_ms`.
pub fn classification_cache_insert(cache: &mut ClassificationCache, path: &str, kind: DeviceKind, now_ms: u64)
    ensures
        final(cache)@ == old(cache)@.insert(path@, (kind, now_ms)),
{
    cache.entries.insert(path.to_owned(), (kind, now_ms));
}

/// Drop every cached entry.
pub fn classification_cache_clear(cache: &mut ClassificationCache)
    ensures
        final(cache)@ == Map::<Seq<char>, (DeviceKind, u64)>::empty(),
{
    cache.entries.clear();
}

/// The character sequences of a list of strings.
pub open spec fn string_views(v: Seq<String>) -> Seq<Seq<char>> {
    v.map_values(|s: String| s@)
}

/// The paths of the candidates, in order.
pub fn tier1_paths(candidates: &Vec<Candidate>) -> (r: Vec<String>)
    ensures
        r.len() == candidates.len(),
        forall|i: int| 0 <= i < r.len() ==> (#[trigger] r[i])@ == candidates[i].path@,
{
    let mut out: Vec<String> = Vec::new();
    let mut i: usize = 0;
    while i < candidates.len()
        invariant
            i <= candidates.len(),
            out.len() == i,
            forall|j: int| 0 <= j < i ==> (#[trigger] out[j])@ == candidates[j].path@,
        decreases candidates.len() - i,
    {
        out.push(candidates[i].path.clone());
        i += 1;
    }
    out
}

/// The candidate paths as a set.
pub open spec fn candidate_paths(candidates: Seq<Candidate>) -> Set<Seq<char>> {
    Set::new(|k: Seq<char>| exists|i: int| 0 <= i < candidates.len() && candidates[i].path@ == k)
}

/// Drop the cache entries of paths that are no longer enumerated.
pub fn invalidate_absent_cache_entries(cache: &mut ClassificationCache, candidates: &Vec<Candidate>)
    ensures
        final(cache)@ == old(cache)@.restrict(candidate_paths(candidates@)),
{
    let paths = tier1_paths(candidates);
    cache.entries.retain_keys(&paths);
    proof {
        assert(crate::keyed::key_set(paths@) =~= candidate_paths(candidates@)) by {
            assert forall|k: Seq<char>| crate::keyed::key_set(paths@).contains(k) implies candidate_paths(candidates@).contains(k) by {
                let i = choose|i: int| 0 <= i < paths@.len() && paths@[i]@ == k;
                assert(paths[i]@ == candidates[i].path@);
            }
            assert forall|k: Seq<char>| candidate_paths(candidates@).contains(k) implies crate::keyed::key_set(paths@).contains(k) by {
                let i = choose|i: int| 0 <= i < candidates@.len() && candidates@[i].path@ == k;
                assert(paths[i]@ == candidates[i].path@);
            }
        }
    }
}

/// The classified row of a candidate with `kind`.
pub open spec fn classified(c: Candidate, kind: DeviceKind) -> ClassifiedDevice {
    ClassifiedDevice {
        path: c.path,
        vendor_id: c.vendor_id,
        product_id: c.product_id,
        product_name: c.product_name,
        usage_page: c.usage_page,
        usage: c.usage,
        kind,
    }
}

/// The candidate classified from the cache, or `None` on a miss (then it
/// has to be probed).
pub fn classify_cached(cache: &ClassificationCache, candidate: Candidate, now_ms: u64) -> (r: Result<ClassifiedDevice, Candidate>)
    ensures
        match fresh_kind(cache@, candidate.path@, now_ms) {
            Some(k) => r == Ok::<ClassifiedDevice, Candidate>(classified(candidate, k)),
            None => r == Err::<ClassifiedDevice, Candidate>(candidate),
        },
{
    match classification_cache_get(cache, candidate.path.as_str(), now_ms) {
        Some(kind) => Ok(
            ClassifiedDevice {
                path: candidate.path,
                vendor_id: candidate.vendor_id,
                product_id: candidate.product_id,
                product_name: candidate.product_name,
                usage_page: candidate.usage_page,
                usage: candidate.usage,
                kind,
            },
        ),
        None => Err(candidate),
    }
}

/// The filter that probes one candidate: its VID/PID, usage page and usage.
pub fn narrowed_filter(candidate: &Candidate) -> (f: DeviceFilter)
    ensures
        f == (DeviceFilter {
            vendor_id: Some(candidate.vendor_id),
            product_id: Some(candidate.product_id),
            usage_page: candidate.usage_page,
            usage: candidate.usage,
        }),
{
    DeviceFilter {
        vendor_id: Some(candidate.vendor_id),
        product_id: Some(candidate.product_id),
        usage_page: candidate.usage_page,
        usage: candidate.usage,
    }
}

/// Classify a probed candidate from its `QUERY_INFO` reply and cache the
/// result, stamped `now_ms`.
pub fn record_probe(
    cache: &mut ClassificationCache,
    candidate: Candidate,
    reply: &Result<CommandResponse, String>,
    now_ms: u64,
) -> (d: ClassifiedDevice)
    ensures
        d == classified(candidate, reply_kind(*reply)),
        final(cache)@ == old(cache)@.insert(candidate.path@, (reply_kind(*reply), now_ms)),
{
    let kind = classify_reply(reply);
    classification_cache_insert(cache, candidate.path.as_str(), kind, now_ms);
    ClassifiedDevice {
        path: candidate.path,
        vendor_id: candidate.vendor_id,
        product_id: candidate.product_id,
        product_name: candidate.product_name,
        usage_page: candidate.usage_page,
        usage: candidate.usage,
        kind,
    }
}

/// Stamp the handshake's result into the cache for the enumerated paths,
/// only when at most one board is present (a broadcast reply cannot be
/// attributed among several).
pub fn warm_cache_from_handshake(cache: &mut ClassificationCache, paths: &Vec<String>, kind: DeviceKind, now_ms: u64)
    ensures
        paths.len() == 1 ==> final(cache)@ == old(cache)@.insert(paths[0]@, (kind, now_ms)),
        paths.len() != 1 ==> final(cache)@ == old(cache)@,
{
    if !handshake_warm_eligible(paths.len()) {
        return;
    }
    if paths.len() == 1 {
        classification_cache_insert(cache, paths[0].as_str(), kind, now_ms);
    }
}

/// Whether two lists of strings are equal.
pub fn string_lists_equal(a: &Vec<String>, b: &Vec<String>) -> (r: bool)
    ensures
        r == (string_views(a@) == string_views(b@)),
{
    if a.len() != b.len() {
        proof {
            assert(string_views(a@).len() != string_views(b@).len());
        }
        return false;
    }
    let mut i: usize = 0;
    while i < a.len()
        invariant
            a.len() == b.len(),
            i <= a.len(),
            forall|j: int| 0 <= j < i ==> a[j]@ == b[j]@,
        decreases a.len() - i,
    {
        if a[i] != b[i] {
            proof {
                assert(string_views(a@)[i as int] != string_views(b@)[i as int]);
            }
            return false;
        }
        i += 1;
    }
    proof {
        assert(string_views(a@) =~= string_views(b@));
    }
    true
}

/// Tracks capable-board presence across poll ticks, re-probing only when
/// the set of QMK Raw HID paths changes, or while a present board has not
/// been confirmed capable and grace re-probes remain.
pub struct PresenceTracker {
    last_paths: Vec<String>,
    last_capable: bool,
    reprobe_budget: u32,
}

impl PresenceTracker {
    pub closed spec fn paths_of(&self) -> Seq<Seq<char>> {
        string_views(self.last_paths@)
    }

    pub closed spec fn capable_of(&self) -> bool {
        self.last_capable
    }

    pub closed spec fn budget_of(&self) -> u32 {
        self.reprobe_budget
    }

    /// The grace budget never exceeds [`PRESENCE_REPROBE_BUDGET`] and is
    /// spent once a capable board is confirmed.
    #[verifier::type_invariant]
    closed spec fn inv(&self) -> bool {
        self.reprobe_budget <= PRESENCE_REPROBE_BUDGET && (self.last_capable ==> self.reprobe_budget == 0)
    }

    /// The budget in force on a tick that sees `paths`.
    pub open spec fn budget_for(&self, paths: Seq<Seq<char>>) -> u32 {
        if paths != self.paths_of() {
            if paths.len() > 0 {
                PRESENCE_REPROBE_BUDGET
            } else {
                0
            }
        } else {
            self.budget_of()
        }
    }

    /// Whether a tick that sees `paths` re-probes.
    pub open spec fn reprobes_on(&self, paths: Seq<Seq<char>>) -> bool {
        reprobe_wanted(paths != self.paths_of(), paths.len() > 0, self.capable_of(), self.budget_for(paths))
    }

    /// Seed from the present paths and the start-up handshake result; a
    /// present board that is not confirmed capable gets the grace budget.
    pub fn new(paths: Vec<String>, capable: bool) -> (t: Self)
        ensures
            t.paths_of() == string_views(paths@),
            t.capable_of() == capable,
            t.budget_of() == (if paths.len() > 0 && !capable {
                PRESENCE_REPROBE_BUDGET
            } else {
                0
            }),
            t.budget_of() <= PRESENCE_REPROBE_BUDGET,
            t.capable_of() ==> t.budget_of() == 0,
    {
        let reprobe_budget = if paths.len() > 0 && !capable {
            PRESENCE_REPROBE_BUDGET
        } else {
            0
        };
        PresenceTracker { last_paths: paths, last_capable: capable, reprobe_budget }
    }

    /// Whether the next tick with `paths` re-probes (the caller then runs
    /// the classification and passes its `any(Capable)` to `tick`).
    pub fn wants_reprobe(&self, paths: &Vec<String>) -> (r: bool)
        ensures
            r == self.reprobes_on(string_views(paths@)),
    {
        let present = paths.len() > 0;
        let changed = !string_lists_equal(paths, &self.last_paths);
        let budget = if changed {
            if present {
                PRESENCE_REPROBE_BUDGET
            } else {
                0
            }
        } else {
            self.reprobe_budget
        };
        proof {
            assert(present == (string_views(paths@).len() > 0));
        }
        reprobe_needed(changed, present, self.last_capable, budget)
    }

    /// One poll tick with the present `paths` and, when this tick re-probes,
    /// whether a capable board was found (`None` counts as not capable).
    /// Returns the action to apply.
    pub fn tick(&mut self, paths: Vec<String>, reprobed: Option<bool>) -> (a: HandshakeAction)
        ensures
            ({
                let p = string_views(paths@);
                let re = old(self).reprobes_on(p);
                let capable = tick_capable(old(self).capable_of(), re, p.len() > 0, if re { reprobed } else { None });
                &&& final(self).capable_of() == capable
                &&& a == action_of(Some(old(self).capable_of()), capable)
                &&& final(self).paths_of() == p
                &&& final(self).budget_of() == (if capable {
                    0
                } else if re {
                    (old(self).budget_for(p) - 1) as u32
                } else {
                    old(self).budget_for(p)
                })
            }),
            final(self).budget_of() <= PRESENCE_REPROBE_BUDGET,
            final(self).capable_of() ==> final(self).budget_of() == 0,
            string_views(paths@).len() == 0 ==> !final(self).capable_of(),
    {
        proof {
            use_type_invariant(&*self);
        }
        let present = paths.len() > 0;
        let changed = !string_lists_equal(&paths, &self.last_paths);
        proof {
            assert(present == (string_views(paths@).len() > 0));
        }
        let mut budget = self.reprobe_budget;
        if changed {
            budget = if present {
                PRESENCE_REPROBE_BUDGET
            } else {
                0
            };
        }
        let reprobe_this_tick = reprobe_needed(changed, present, self.last_capable, budget);
        let fresh = if reprobe_this_tick {
            if budget > 0 {
                budget = budget - 1;
            }
            reprobed
        } else {
            None
        };
        let (action, capable) = presence_tick_decision(self.last_capable, reprobe_this_tick, present, fresh);
        if capable {
            budget = 0;
        }
        *self = PresenceTracker { last_paths: paths, last_capable: capable, reprobe_budget: budget };
        action
    }
}

/// On a stable bus (the same non-empty paths) with the board confirmed
/// capable or the grace budget spent, a tick does not re-probe (no ping)
/// and keeps the capable flag, so no action follows.
pub proof fn law_stable_bus_no_ping(t: PresenceTracker, paths: Seq<Seq<char>>, reprobed: Option<bool>)
    requires
        paths == t.paths_of(),
        paths.len() > 0,
        t.capable_of() || t.budget_of() == 0,
    ensures
        !t.reprobes_on(paths),
        tick_capable(t.capable_of(), false, true, None) == t.capable_of(),
        action_of(Some(t.capable_of()), t.capable_of()) == HandshakeAction::NoChange,
{
}

/// The focused window as the window monitor reports it.
#[derive(Clone, Debug, PartialEq, Eq)]
pub struct WindowInfo {
    pub app_class: String,
    pub title: String,
}

/// Group separator between class and title in the legacy string payload.
pub const FIELD_SEPARATOR: char = '\u{1D}';

/// The legacy string payload of a window: class, separator, title.
pub open spec fn window_payload(w: WindowInfo) -> Seq<char> {
    w.app_class@ + seq![FIELD_SEPARATOR] + w.title@
}

/// The legacy string payload of a window: its class and title joined by the
/// group separator.
pub fn window_message(window: &WindowInfo) -> (m: String)
    ensures
        m@ == window_payload(*window),
{
    let mut m = window.app_class.clone();
    push_char(&mut m, FIELD_SEPARATOR);
    push_str(&mut m, window.title.as_str());
    m
}

/// A debounced window change awaiting its flush.
#[derive(Clone, Debug, PartialEq, Eq)]
pub struct PendingMessage {
    pub payload: String,
    pub window_info: WindowInfo,
}

/// Debounce state shared by the notification path and the flushing
/// worker; times are milliseconds on a monotonic clock.
pub struct DebounceState {
    /// When the last notification was sent; `None` before the first.
    pub last_sent_ms: Option<u64>,
    /// The newest message queued for a debounced send.
    pub pending: Option<PendingMessage>,
    pub verbose: bool,
    /// Pinned debounce window, used instead of the configured one.
    pub interval_override_ms: Option<u64>,
}

/// What the debounce worker does next.
#[derive(Clone, Debug, PartialEq, Eq)]
pub enum WorkerStep {
    /// Nothing is queued: wait for a message.
    WaitForMessage,
    /// Wait this long, then ask again.
    WaitMs(u64),
    /// Send this message now (with the verbosity in force).
    Flush(PendingMessage, bool),
}

/// A notification at `now` is due (sent at once) when nothing was sent yet
/// or the window has passed since the last send.
pub open spec fn is_due(last_sent: Option<u64>, now: u64, interval: u64) -> bool {
    match last_sent {
        Some(t) => elapsed_ms(t, now) >= interval,
        None => true,
    }
}

impl DebounceState {
    /// Nothing sent, nothing pending.
    pub fn new() -> (d: Self)
        ensures
            d.last_sent_ms is None,
            d.pending is None,
            !d.verbose,
            d.interval_override_ms is None,
    {
        DebounceState { last_sent_ms: None, pending: None, verbose: false, interval_override_ms: None }
    }

    /// The debounce window: the pinned one if set, else the configured one.
    pub fn interval(&self, configured_ms: u64) -> (r: u64)
        ensures
            r == match self.interval_override_ms {
                Some(v) => v,
                None => configured_ms,
            },
    {
        match self.interval_override_ms {
            Some(v) => v,
            None => configured_ms,
        }
    }

    /// A window change at `now`: when due, record the send and drop any
    /// pending message (returns `true`: send it now); otherwise queue it,
    /// replacing an older pending one, without moving the last-send time
    /// (returns `false`).
    pub fn on_notify(&mut self, now_ms: u64, interval_ms: u64, verbose: bool, message: PendingMessage) -> (send_now: bool)
        ensures
            send_now == is_due(old(self).last_sent_ms, now_ms, interval_ms),
            final(self).verbose == verbose,
            final(self).interval_override_ms == old(self).interval_override_ms,
            send_now ==> final(self).last_sent_ms == Some(now_ms) && final(self).pending is None,
            !send_now ==> final(self).last_sent_ms == old(self).last_sent_ms && final(self).pending == Some(message),
            (send_now, *final(self)) == notify_step(*old(self), now_ms, interval_ms, verbose, message),
    {
        self.verbose = verbose;
        let due = match self.last_sent_ms {
            Some(t) => {
                let elapsed = if now_ms >= t {
                    now_ms - t
                } else {
                    0
                };
                elapsed >= interval_ms
            },
            None => true,
        };
        if due {
            self.last_sent_ms = Some(now_ms);
            self.pending = None;
            true
        } else {
            self.pending = Some(message);
            false
        }
    }

    /// The worker's decision at `now`: wait for a message when none is
    /// queued; otherwise flush it once the window since the last send (or
    /// now, before any send) has passed, recording the send, else wait for
    /// the rest of the window.
    pub fn worker_step(&mut self, now_ms: u64, interval_ms: u64) -> (step: WorkerStep)
        ensures
            ({
                let last = match old(self).last_sent_ms {
                    Some(t) => t,
                    None => now_ms,
                };
                let target = if last + interval_ms > u64::MAX {
                    u64::MAX as int
                } else {
                    last + interval_ms
                };
                match old(self).pending {
                    None => step == WorkerStep::WaitForMessage && *final(self) == *old(self),
                    Some(pm) => if now_ms >= target {
                        &&& step == WorkerStep::Flush(pm, old(self).verbose)
                        &&& final(self).pending is None
                        &&& final(self).last_sent_ms == Some(now_ms)
                        &&& final(self).verbose == old(self).verbose
                        &&& final(self).interval_override_ms == old(self).interval_override_ms
                    } else {
                        step == WorkerStep::WaitMs((target - now_ms) as u64) && *final(self) == *old(self)
                    },
                }
            }),
            (step, *final(self)) == worker_next(*old(self), now_ms, interval_ms),
    {
        if self.pending.is_none() {
            return WorkerStep::WaitForMessage;
        }
        let last = match self.last_sent_ms {
            Some(t) => t,
            None => now_ms,
        };
        let target = last.saturating_add(interval_ms);
        if now_ms >= target {
            let pm = self.pending.take();
            self.last_sent_ms = Some(now_ms);
            match pm {
                Some(pm) => WorkerStep::Flush(pm, self.verbose),
                None => WorkerStep::WaitForMessage,
            }
        } else {
            WorkerStep::WaitMs(target - now_ms)
        }
    }
}

/// A window change at `now`: whether it is sent at once, and the state
/// after it (see [`DebounceState::on_notify`]).
pub open spec fn notify_step(d: DebounceState, now: u64, interval: u64, verbose: bool, m: PendingMessage) -> (bool, DebounceState) {
    if is_due(d.last_sent_ms, now, interval) {
        (
            true,
            DebounceState { last_sent_ms: Some(now), pending: None, verbose, interval_override_ms: d.interval_override_ms },
        )
    } else {
        (
            false,
            DebounceState { last_sent_ms: d.last_sent_ms, pending: Some(m), verbose, interval_override_ms: d.interval_override_ms },
        )
    }
}

/// The worker's step at `now` and the state after it (see
/// [`DebounceState::worker_step`]).
pub open spec fn worker_next(d: DebounceState, now: u64, interval: u64) -> (WorkerStep, DebounceState) {
    let last = match d.last_sent_ms {
        Some(t) => t,
        None => now,
    };
    let target = if last + interval > u64::MAX {
        u64::MAX as int
    } else {
        last + interval
    };
    match d.pending {
        None => (WorkerStep::WaitForMessage, d),
        Some(pm) => if now >= target {
            (
                WorkerStep::Flush(pm, d.verbose),
                DebounceState { last_sent_ms: Some(now), pending: None, verbose: d.verbose, interval_override_ms: d.interval_override_ms },
            )
        } else {
            (WorkerStep::WaitMs((target - now) as u64), d)
        },
    }
}

/// The state after the window changes `msgs` at the times `times`, in
/// order.
pub open spec fn notify_all(d: DebounceState, times: Seq<u64>, msgs: Seq<PendingMessage>, interval: u64, verbose: bool) -> DebounceState
    decreases msgs.len(),
{
    if msgs.len() == 0 || times.len() != msgs.len() {
        d
    } else {
        notify_all(notify_step(d, times[0], interval, verbose, msgs[0]).1, times.drop_first(), msgs.drop_first(), interval, verbose)
    }
}

/// How many of the window changes `msgs` at `times` are sent at once.
pub open spec fn sends_at_once(d: DebounceState, times: Seq<u64>, msgs: Seq<PendingMessage>, interval: u64, verbose: bool) -> nat
    decreases msgs.len(),
{
    if msgs.len() == 0 || times.len() != msgs.len() {
        0
    } else {
        let (sent, d1) = notify_step(d, times[0], interval, verbose, msgs[0]);
        (if sent {
            1nat
        } else {
            0nat
        }) + sends_at_once(d1, times.drop_first(), msgs.drop_first(), interval, verbose)
    }
}

proof fn lemma_burst_queues(d: DebounceState, t0: u64, times: Seq<u64>, msgs: Seq<PendingMessage>, interval: u64, verbose: bool)
    requires
        d.last_sent_ms == Some(t0),
        times.len() == msgs.len(),
        forall|i: int| 0 <= i < times.len() ==> t0 <= #[trigger] times[i] < t0 + interval,
    ensures
        sends_at_once(d, times, msgs, interval, verbose) == 0,
        notify_all(d, times, msgs, interval, verbose).last_sent_ms == Some(t0),
        notify_all(d, times, msgs, interval, verbose).interval_override_ms == d.interval_override_ms,
        msgs.len() > 0 ==> notify_all(d, times, msgs, interval, verbose).pending == Some(msgs.last()),
        msgs.len() > 0 ==> notify_all(d, times, msgs, interval, verbose).verbose == verbose,
    decreases msgs.len(),
{
    if msgs.len() > 0 {
        assert(t0 <= times[0] < t0 + interval);
        let d1 = notify_step(d, times[0], interval, verbose, msgs[0]).1;
        assert forall|i: int| 0 <= i < times.drop_first().len() implies t0 <= #[trigger] times.drop_first()[i] < t0 + interval by {
            assert(times.drop_first()[i] == times[i + 1]);
        }
        lemma_burst_queues(d1, t0, times.drop_first(), msgs.drop_first(), interval, verbose);
        if msgs.len() > 1 {
            assert(msgs.drop_first().last() == msgs.last());
        }
    }
}

/// A burst of window changes collapses: on a fresh state the first change is
/// sent at once; changes within the debounce window after it are not sent
/// at once and leave the newest one pending (the last-send time stays that
/// of the first); once the window has passed the worker flushes exactly that
/// newest message.
pub proof fn law_burst_sends_first_then_newest(
    d: DebounceState,
    t0: u64,
    first: PendingMessage,
    times: Seq<u64>,
    msgs: Seq<PendingMessage>,
    interval: u64,
    verbose: bool,
    flush_at: u64,
)
    requires
        d.last_sent_ms is None,
        times.len() == msgs.len(),
        msgs.len() > 0,
        forall|i: int| 0 <= i < times.len() ==> t0 <= #[trigger] times[i] < t0 + interval,
        t0 + interval <= flush_at,
    ensures
        notify_step(d, t0, interval, verbose, first).0,
        ({
            let d1 = notify_step(d, t0, interval, verbose, first).1;
            let d2 = notify_all(d1, times, msgs, interval, verbose);
            &&& sends_at_once(d1, times, msgs, interval, verbose) == 0
            &&& d2.pending == Some(msgs.last())
            &&& worker_next(d2, flush_at, interval).0 == WorkerStep::Flush(msgs.last(), verbose)
            &&& worker_next(d2, flush_at, interval).1.pending is None
        }),
{
    let d1 = notify_step(d, t0, interval, verbose, first).1;
    lemma_burst_queues(d1, t0, times, msgs, interval, verbose);
}

/// What the host rules produced for one window.
#[derive(Clone, Debug, PartialEq, Eq)]
pub struct HostContext {
    pub layer: Option<u8>,
    pub callback_ids: Vec<u8>,
    pub clear_board: bool,
}

/// Which sends a window change makes, in order: the legacy string first,
/// then the host context.
#[derive(Clone, Copy, Debug, PartialEq, Eq)]
pub struct DispatchPlan {
    pub send_string: bool,
    pub send_context: bool,
}

/// Host rules disabled: string only. A context that keeps the board's own
/// rules (stack, or no match): string, then context. A replacing context:
/// context only.
pub fn dispatch_plan(ctx: &Option<HostContext>) -> (p: DispatchPlan)
    ensures
        p == (match ctx {
            None => DispatchPlan { send_string: true, send_context: false },
            Some(c) => DispatchPlan { send_string: !c.clear_board, send_context: true },
        }),
{
    match ctx {
        None => DispatchPlan { send_string: true, send_context: false },
        Some(c) => DispatchPlan { send_string: !c.clear_board, send_context: true },
    }
}

/// The `APPLY_HOST_CONTEXT` command for a host context.
pub fn host_context_command(ctx: &HostContext) -> (c: RunCommand)
    ensures
        c matches RunCommand::ApplyHostContext { layer, callbacks, clear_board } && layer == ctx.layer
            && callbacks@ == ctx.callback_ids@ && clear_board == ctx.clear_board,
{
    let mut callbacks: Vec<u8> = Vec::new();
    let mut i: usize = 0;
    while i < ctx.callback_ids.len()
        invariant
            i <= ctx.callback_ids.len(),
            callbacks@ == ctx.callback_ids@.take(i as int),
        decreases ctx.callback_ids.len() - i,
    {
        callbacks.push(ctx.callback_ids[i]);
        proof {
            assert(ctx.callback_ids@.take(i + 1) =~= ctx.callback_ids@.take(i as int).push(ctx.callback_ids@[i as int]));
        }
        i += 1;
    }
    proof {
        assert(ctx.callback_ids@.take(ctx.callback_ids.len() as int) =~= ctx.callback_ids@);
    }
    RunCommand::ApplyHostContext { layer: ctx.layer, callbacks, clear_board: ctx.clear_board }
}

/// Attempts of a send before a device error is given up on.
pub const SEND_MAX_ATTEMPTS: u32 = 3;

/// What to do after a failed send attempt.
#[derive(Clone, Copy, Debug, PartialEq, Eq)]
pub enum RetryStep {
    /// Sleep this long, then try again.
    Retry { delay_ms: u64 },
    /// Device unavailable after every attempt: log and carry on.
    GiveUp,
    /// Not a device error: fail at once.
    Fail,
}

/// After failed attempt `attempt` (from 1): device errors are retried with
/// a growing delay (100 ms times the attempt) until the last attempt, then
/// given up on; other errors fail at once.
pub fn send_retry_step(attempt: u32, device_error: bool) -> (r: RetryStep)
    requires
        1 <= attempt <= SEND_MAX_ATTEMPTS,
    ensures
        r == (if !device_error {
            RetryStep::Fail
        } else if attempt < SEND_MAX_ATTEMPTS {
            RetryStep::Retry { delay_ms: (100 * attempt) as u64 }
        } else {
            RetryStep::GiveUp
        }),
{
    if !device_error {
        RetryStep::Fail
    } else if attempt < SEND_MAX_ATTEMPTS {
        RetryStep::Retry { delay_ms: 100 * attempt as u64 }
    } else {
        RetryStep::GiveUp
    }
}

/// What `str::to_lowercase` returns for a string (Unicode lower-casing, a
/// function of the string alone).
pub uninterp spec fn lowercase(s: Seq<char>) -> Seq<char>;

/// `str::to_lowercase`; its result is named [`lowercase`].
#[verifier::external_body]
fn to_lowercase(s: &str) -> (r: String)
    ensures
        r@ == lowercase(s@),
{
    s.to_lowercase()
}

/// `needle` occurs in `hay` as a contiguous run.
pub open spec fn occurs_in(hay: Seq<char>, needle: Seq<char>) -> bool {
    exists|i: int| 0 <= i && i + needle.len() <= hay.len() && #[trigger] hay.subrange(i, i + needle.len()) == needle
}

/// Whether `needle` occurs in `hay`.
pub fn contains_chars(hay: &Vec<char>, needle: &Vec<char>) -> (r: bool)
    ensures
        r == occurs_in(hay@, needle@),
{
    if needle.len() > hay.len() {
        return false;
    }
    let last = hay.len() - needle.len();
    let mut i: usize = 0;
    while i <= last
        invariant
            last == hay.len() - needle.len(),
            needle.len() <= hay.len(),
            i <= last + 1,
            forall|j: int| 0 <= j < i ==> #[trigger] hay@.subrange(j, j + needle.len()) != needle@,
        decreases last + 1 - i,
    {
        let mut k: usize = 0;
        let mut same = true;
        while k < needle.len()
            invariant
                i + needle.len() <= hay.len(),
                k <= needle.len(),
                same == (forall|m: int| 0 <= m < k ==> hay@[i + m] == needle@[m]),
            decreases needle.len() - k,
        {
            if hay[i + k] != needle[k] {
                same = false;
            }
            k += 1;
        }
        if same {
            proof {
                assert(hay@.subrange(i as int, i + needle.len()) =~= needle@);
            }
            return true;
        }
        proof {
            let m = choose|m: int| 0 <= m < needle.len() && hay@[i + m] != needle@[m];
            assert(hay@.subrange(i as int, i + needle.len())[m] != needle@[m]);
        }
        i += 1;
    }
    false
}

/// A send error whose lower-cased text names an unavailable device: no
/// device found, permission denied, or failed to open.
pub open spec fn is_device_error_text(message: Seq<char>) -> bool {
    let l = lowercase(message);
    occurs_in(l, "no device found"@) || occurs_in(l, "permission denied"@) || occurs_in(l, "failed to open"@)
}

/// Whether a send error is a device error (worth retrying).
pub fn is_device_error_message(message: &str) -> (r: bool)
    ensures
        r == is_device_error_text(message@),
{
    let lower = chars_of(to_lowercase(message).as_str());
    contains_chars(&lower, &chars_of("no device found")) || contains_chars(&lower, &chars_of("permission denied"))
        || contains_chars(&lower, &chars_of("failed to open"))
}

/// A classification just recorded is read back until the TTL runs out,
/// and not from then on; other paths are unaffected.
pub proof fn law_cache_get_after_insert(
    cache: Map<Seq<char>, (DeviceKind, u64)>,
    path: Seq<char>,
    kind: DeviceKind,
    stamped: u64,
    now: u64,
    other: Seq<char>,
)
    requires
        other != path,
    ensures
        stamped <= now < stamped + CLASSIFICATION_TTL_MS ==> fresh_kind(cache.insert(path, (kind, stamped)), path, now)
            == Some(kind),
        now >= stamped + CLASSIFICATION_TTL_MS ==> fresh_kind(cache.insert(path, (kind, stamped)), path, now) is None,
        fresh_kind(cache.insert(path, (kind, stamped)), other, now) == fresh_kind(cache, other, now),
{
}

/// An emptied cache finds nothing.
pub proof fn law_cache_clear_misses(path: Seq<char>, now: u64)
    ensures
        fresh_kind(Map::<Seq<char>, (DeviceKind, u64)>::empty(), path, now) is None,
{
}

/// After invalidation only enumerated paths can hit, and an enumerated
/// path's entry is kept as it was.
pub proof fn law_invalidate_keeps_present_only(
    cache: Map<Seq<char>, (DeviceKind, u64)>,
    candidates: Seq<Candidate>,
    path: Seq<char>,
    now: u64,
)
    ensures
        !candidate_paths(candidates).contains(path) ==> fresh_kind(cache.restrict(candidate_paths(candidates)), path, now) is None,
        candidate_paths(candidates).contains(path) ==> fresh_kind(cache.restrict(candidate_paths(candidates)), path, now)
            == fresh_kind(cache, path, now),
{
}

/// No board present dominates: the status is `Disconnected` whatever the
/// capability flag says.
pub proof fn law_absent_board_is_disconnected(capable: bool)
    ensures
        status_of(false, capable) == DeviceStatus::Disconnected,
{
}

/// A transition that keeps the presence flag is never an action, and the
/// action is `Gain` exactly when presence is gained and `Loss` exactly when
/// it is lost.
pub proof fn law_action_tracks_changes(prev: bool, now: bool)
    ensures
        prev == now ==> action_of(Some(prev), now) == HandshakeAction::NoChange,
        (action_of(Some(prev), now) == HandshakeAction::Gain) == (!prev && now),
        (action_of(Some(prev), now) == HandshakeAction::Loss) == (prev && !now),
{
}

/// On a stable bus without re-probing the capable flag and the action are
/// unchanged; with every board gone the flag drops, a `Loss` when it was
/// set.
pub proof fn law_presence_stable_and_empty_bus(last_capable: bool, reprobed: Option<bool>, reprobed_this_tick: bool)
    ensures
        tick_capable(last_capable, false, true, None) == last_capable,
        action_of(Some(last_capable), tick_capable(last_capable, false, true, None)) == HandshakeAction::NoChange,
        !tick_capable(last_capable, reprobed_this_tick, false, reprobed),
        last_capable ==> action_of(Some(last_capable), tick_capable(last_capable, reprobed_this_tick, false, reprobed))
            == HandshakeAction::Loss,
{
}

/// The sweep never queries more than [`MAX_HOST_CALLBACKS`] indices, and
/// sweeps every reported index up to that bound.
pub proof fn law_sweep_is_bounded(count: u8)
    ensures
        sweep_cap_of(count) <= MAX_HOST_CALLBACKS,
        count <= MAX_HOST_CALLBACKS ==> sweep_cap_of(count) == count,
{
}

/// Lexicographic order of character sequences by code point (the order
/// of `str`, whose UTF-8 bytes compare the same way).
pub open spec fn chars_lt(a: Seq<char>, b: Seq<char>) -> bool
    decreases a.len(),
{
    if a.len() == 0 {
        b.len() > 0
    } else if b.len() == 0 {
        false
    } else if a[0] != b[0] {
        (a[0] as int) < (b[0] as int)
    } else {
        chars_lt(a.drop_first(), b.drop_first())
    }
}

proof fn lemma_chars_lt_irreflexive(a: Seq<char>)
    ensures
        !chars_lt(a, a),
    decreases a.len(),
{
    if a.len() > 0 {
        lemma_chars_lt_irreflexive(a.drop_first());
    }
}

proof fn lemma_chars_lt_total(a: Seq<char>, b: Seq<char>)
    ensures
        a != b ==> chars_lt(a, b) || chars_lt(b, a),
        !(chars_lt(a, b) && chars_lt(b, a)),
    decreases a.len(),
{
    if a.len() > 0 && b.len() > 0 {
        if a[0] == b[0] {
            lemma_chars_lt_total(a.drop_first(), b.drop_first());
            if a != b {
                assert(a =~= seq![a[0]] + a.drop_first());
                assert(b =~= seq![b[0]] + b.drop_first());
            }
        } else {
            assert((a[0] as int) != (b[0] as int));
        }
    } else if a.len() == 0 && b.len() == 0 {
        assert(a =~= b);
    }
}

proof fn lemma_chars_lt_transitive(a: Seq<char>, b: Seq<char>, c: Seq<char>)
    requires
        chars_lt(a, b),
        chars_lt(b, c),
    ensures
        chars_lt(a, c),
    decreases a.len(),
{
    if a.len() > 0 && b.len() > 0 && c.len() > 0 {
        if a[0] == b[0] && b[0] == c[0] {
            lemma_chars_lt_transitive(a.drop_first(), b.drop_first(), c.drop_first());
        } else {
            assert((a[0] as int) != (b[0] as int) || (b[0] as int) != (c[0] as int));
        }
    }
}

/// Compare two strings in [`chars_lt`] order.
fn string_lt(a: &Vec<char>, b: &Vec<char>) -> (r: bool)
    ensures
        r == chars_lt(a@, b@),
{
    let mut i: usize = 0;
    proof {
        assert(a@.skip(0) =~= a@);
        assert(b@.skip(0) =~= b@);
        assert(a@.take(0) =~= b@.take(0));
    }
    while i < a.len() && i < b.len()
        invariant
            i <= a.len(),
            i <= b.len(),
            a@.take(i as int) == b@.take(i as int),
            chars_lt(a@, b@) == chars_lt(a@.skip(i as int), b@.skip(i as int)),
        decreases a.len() - i,
    {
        proof {
            assert(a@.skip(i as int)[0] == a@[i as int]);
            assert(b@.skip(i as int)[0] == b@[i as int]);
            assert(a@.skip(i as int).drop_first() =~= a@.skip(i + 1));
            assert(b@.skip(i as int).drop_first() =~= b@.skip(i + 1));
        }
        if a[i] != b[i] {
            return a[i] < b[i];
        }
        proof {
            assert(a@.take(i + 1) =~= a@.take(i as int).push(a@[i as int]));
            assert(b@.take(i + 1) =~= b@.take(i as int).push(b@[i as int]));
        }
        i += 1;
    }
    proof {
        assert(a@.skip(i as int).len() == 0 || b@.skip(i as int).len() == 0);
    }
    i < b.len()
}

/// The callback names referenced but not registered on the keyboard.
pub open spec fn unknown_names(referenced: Seq<Seq<char>>, known: Map<Seq<char>, u8>) -> Set<Seq<char>> {
    Set::new(|n: Seq<char>| referenced.contains(n) && !known.contains_key(n))
}

/// Strictly ascending in [`chars_lt`] order (so without repeats).
pub open spec fn strictly_sorted(v: Seq<Seq<char>>) -> bool {
    forall|i: int, j: int| 0 <= i < j < v.len() ==> chars_lt(v[i], v[j])
}

/// Callback names referenced by the rules but absent from the keyboard's
/// registry, each once and in ascending order.
pub fn unknown_callback_names(referenced: &Vec<String>, known: &StrKeyMap<u8>) -> (r: Vec<String>)
    ensures
        strictly_sorted(string_views(r@)),
        string_views(r@).to_set() == unknown_names(string_views(referenced@), known@),
{
    let mut out: Vec<String> = Vec::new();
    let mut out_chars: Vec<Vec<char>> = Vec::new();
    let mut idx: usize = 0;
    let ghost refs = string_views(referenced@);
    while idx < referenced.len()
        invariant
            idx <= referenced.len(),
            refs == string_views(referenced@),
            out.len() == out_chars.len(),
            forall|k: int| 0 <= k < out.len() ==> (#[trigger] out_chars[k])@ == out[k]@,
            strictly_sorted(string_views(out@)),
            string_views(out@).to_set() == unknown_names(refs.take(idx as int), known@),
        decreases referenced.len() - idx,
    {
        let name = &referenced[idx];
        proof {
            assert(refs.take(idx + 1) =~= refs.take(idx as int).push(name@));
        }
        if known.get(name.as_str()).is_some() {
            proof {
                assert(unknown_names(refs.take(idx + 1), known@) =~= unknown_names(refs.take(idx as int), known@));
            }
        } else {
            let nc = chars_of(name.as_str());
            let mut i: usize = 0;
            while i < out.len() && string_lt(&out_chars[i], &nc)
                invariant
                    i <= out.len(),
                    out.len() == out_chars.len(),
                    nc@ == name@,
                    forall|k: int| 0 <= k < out.len() ==> (#[trigger] out_chars[k])@ == out[k]@,
                    forall|k: int| 0 <= k < i ==> chars_lt(#[trigger] out[k]@, name@),
                decreases out.len() - i,
            {
                i += 1;
            }
            let ghost old_views = string_views(out@);
            let present = i < out.len() && out[i] == *name;
            if !present {
                proof {
                    if i < out.len() {
                        lemma_chars_lt_total(out[i as int]@, name@);
                        assert(chars_lt(name@, old_views[i as int]));
                    }
                }
                out.insert(i, name.clone());
                out_chars.insert(i, nc);
                proof {
                    let nv = string_views(out@);
                    assert(nv =~= old_views.insert(i as int, name@));
                    assert forall|a: int, b: int| 0 <= a < b < nv.len() implies chars_lt(nv[a], nv[b]) by {
                        if a < i && b == i {
                        } else if a < i && b > i {
                            assert(chars_lt(old_views[a], name@));
                            if (i as int) < old_views.len() {
                                assert(chars_lt(name@, old_views[i as int]));
                                if b - 1 > i {
                                    assert(chars_lt(old_views[i as int], old_views[b - 1]));
                                    lemma_chars_lt_transitive(name@, old_views[i as int], old_views[b - 1]);
                                }
                            }
                            lemma_chars_lt_transitive(old_views[a], name@, nv[b]);
                        } else if a == i && b > i {
                            assert(chars_lt(name@, old_views[i as int]));
                            if b - 1 > i {
                                lemma_chars_lt_transitive(name@, old_views[i as int], old_views[b - 1]);
                            }
                        } else if a > i {
                            assert(nv[a] == old_views[a - 1]);
                            assert(nv[b] == old_views[b - 1]);
                        } else {
                            assert(nv[a] == old_views[a]);
                            assert(nv[b] == old_views[b]);
                        }
                    }
                    assert(nv.to_set() =~= old_views.to_set().insert(name@)) by {
                        assert forall|x: Seq<char>| nv.to_set().contains(x) <==> old_views.to_set().insert(name@).contains(x) by {
                            if nv.contains(x) {
                                let j = choose|j: int| 0 <= j < nv.len() && nv[j] == x;
                                if j < i {
                                    assert(old_views[j] == x);
                                } else if j > i {
                                    assert(old_views[j - 1] == x);
                                }
                            }
                            if old_views.contains(x) {
                                let j = choose|j: int| 0 <= j < old_views.len() && old_views[j] == x;
                                if j < i {
                                    assert(nv[j] == x);
                                } else {
                                    assert(nv[j + 1] == x);
                                }
                            }
                            if x == name@ {
                                assert(nv[i as int] == x);
                            }
                        }
                    }
                    assert forall|n: Seq<char>| #[trigger] refs.take(idx + 1).contains(n) <==> (refs.take(idx as int).contains(n) || n == name@) by {
                        let t = refs.take(idx as int);
                        let t1 = refs.take(idx + 1);
                        if t1.contains(n) {
                            let j = choose|j: int| 0 <= j < t1.len() && t1[j] == n;
                            if j < t.len() {
                                assert(t[j] == n);
                            }
                        }
                        if t.contains(n) {
                            let j = choose|j: int| 0 <= j < t.len() && t[j] == n;
                            assert(refs.take(idx + 1)[j] == n);
                        }
                        if n == name@ {
                            assert(refs.take(idx + 1)[idx as int] == n);
                        }
                    }
                    assert(unknown_names(refs.take(idx + 1), known@) =~= unknown_names(refs.take(idx as int), known@).insert(name@));
                    assert forall|k: int| 0 <= k < out.len() implies (#[trigger] out_chars[k])@ == out[k]@ by {
                        if k < i {
                        } else if k > i {
                        }
                    }
                }
            } else {
                proof {
                    assert(old_views[i as int] == name@);
                    assert(old_views.to_set().contains(name@));
                    assert(unknown_names(refs.take(idx + 1), known@) =~= unknown_names(refs.take(idx as int), known@));
                }
            }
        }
        idx += 1;
    }
    proof {
        assert(refs.take(referenced.len() as int) =~= refs);
    }
    out
}

/// `{:#06x}` of a 16-bit value: `0x` and four lower-case hex digits.
pub open spec fn hex16(v: u16) -> Seq<char> {
    "0x"@ + hex_padded(v as nat, 4)
}

/// A VID/PID of the filter as the probe reports it: hex, or `any`.
pub open spec fn id_text(v: Option<u16>) -> Seq<char> {
    match v {
        Some(x) => hex16(x),
        None => "any"@,
    }
}

fn push_hex16(s: &mut String, v: u16)
    ensures
        final(s)@ == old(s)@ + hex16(v),
{
    push_str(s, "0x");
    push_hex_padded(s, v as u64, 4);
    assert(final(s)@ =~= old(s)@ + hex16(v));
}

fn push_id(s: &mut String, v: Option<u16>)
    ensures
        final(s)@ == old(s)@ + id_text(v),
{
    match v {
        Some(x) => push_hex16(s, x),
        None => push_str(s, "any"),
    }
}

/// What the start-up probe prints: nothing when the device was found
/// quietly; the found line when verbose; else the not-found explanation.
pub open spec fn probe_text(f: DeviceFilter, found: bool, verbose: bool) -> Option<Seq<char>> {
    if found {
        if verbose {
            Some(
                "Found QMK device "@ + id_text(f.vendor_id) + ":"@ + id_text(f.product_id) + " (raw HID "@
                    + hex16(f.usage_page) + ":"@ + hex16(f.usage) + ")"@,
            )
        } else {
            None
        }
    } else {
        Some(
            "No device matching "@ + id_text(f.vendor_id) + ":"@ + id_text(f.product_id)
                + " (raw HID usage page "@ + hex16(f.usage_page) + ", usage "@ + hex16(f.usage)
                + ") found.\nLeave vendor_id/product_id unset in config.toml for auto-discovery,\nor set them to disambiguate among multiple QMK keyboards.\nRun `qmkonnect --list-devices` to see connected HID devices."@,
        )
    }
}

/// The start-up probe's report for the configured filter and whether a
/// matching device was enumerated.
pub fn startup_probe_message(filter: &DeviceFilter, found: bool, verbose: bool) -> (r: Option<String>)
    ensures
        match r {
            Some(m) => probe_text(*filter, found, verbose) == Some(m@),
            None => probe_text(*filter, found, verbose) is None,
        },
{
    if found {
        if !verbose {
            return None;
        }
        let mut s = String::new();
        push_str(&mut s, "Found QMK device ");
        push_id(&mut s, filter.vendor_id);
        push_str(&mut s, ":");
        push_id(&mut s, filter.product_id);
        push_str(&mut s, " (raw HID ");
        push_hex16(&mut s, filter.usage_page);
        push_str(&mut s, ":");
        push_hex16(&mut s, filter.usage);
        push_str(&mut s, ")");
        proof {
            assert(s@ =~= probe_text(*filter, found, verbose)->Some_0);
        }
        Some(s)
    } else {
        let mut s = String::new();
        push_str(&mut s, "No device matching ");
        push_id(&mut s, filter.vendor_id);
        push_str(&mut s, ":");
        push_id(&mut s, filter.product_id);
        push_str(&mut s, " (raw HID usage page ");
        push_hex16(&mut s, filter.usage_page);
        push_str(&mut s, ", usage ");
        push_hex16(&mut s, filter.usage);
        push_str(&mut s, ") found.\nLeave vendor_id/product_id unset in config.toml for auto-discovery,\nor set them to disambiguate among multiple QMK keyboards.\nRun `qmkonnect --list-devices` to see connected HID devices.");
        proof {
            assert(s@ =~= probe_text(*filter, found, verbose)->Some_0);
        }
        Some(s)
    }
}

/// The "rules file invalid" desktop notice fires once per broken state: a
/// failed parse raises it only when the previous parse did not already fail
/// (the flag is then set), and a good parse clears the flag so a later
/// breakage raises it again.
pub fn rules_invalid_notice(notified: &mut bool, parse_ok: bool) -> (raise: bool)
    ensures
        raise == (!parse_ok && !*old(notified)),
        *final(notified) == !parse_ok,
{
    if parse_ok {
        *notified = false;
        false
    } else {
        let raise = !*notified;
        *notified = true;
        raise
    }
}

} // verus!
