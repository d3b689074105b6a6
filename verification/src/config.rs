//! The user's `config.toml` model, its defaults, the text renderers for the
//! seeded and saved config files and the seeded `rules.toml`, and the
//! (path, mtime, size)-keyed cache for hot config reads.
use vstd::prelude::*;
use crate::text::{decimal, hex_padded, push_hex_padded, push_digits, push_str};

verus! {

/// Default debounce window (ms).
pub const DEFAULT_DEBOUNCE_MS: u64 = 50;

/// Default Hyprland poll interval (ms); 0 disables polling.
pub const DEFAULT_POLL_INTERVAL_MS: u64 = 0;

/// QMK Raw HID usage page used when the config sets none.
pub const DEFAULT_USAGE_PAGE: u16 = 0xFF60;

/// QMK Raw HID usage used when the config sets none.
pub const DEFAULT_USAGE: u16 = 0x61;

/// The user's configuration. Device-identifying fields are optional: `None`
/// means "match any" (auto-discovery by usage page and usage).
#[derive(Clone, Copy, Debug, PartialEq, Eq)]
pub struct Config {
    /// USB vendor ID. `None` = match any.
    pub vendor_id: Option<u16>,
    /// USB product ID. `None` = match any.
    pub product_id: Option<u16>,
    /// HID usage page. `None` = the QMK Raw HID default.
    pub usage_page: Option<u16>,
    /// HID usage. `None` = the QMK Raw HID default.
    pub usage: Option<u16>,
    /// Debounce window (ms); 0 sends every change immediately.
    pub debounce_ms: u64,
    /// (Hyprland only) active-window poll interval (ms); 0 disables.
    pub poll_interval_ms: u64,
}

/// The zero-config state: auto-discovery and the default timings.
pub open spec fn default_config() -> Config {
    Config {
        vendor_id: None,
        product_id: None,
        usage_page: None,
        usage: None,
        debounce_ms: DEFAULT_DEBOUNCE_MS,
        poll_interval_ms: DEFAULT_POLL_INTERVAL_MS,
    }
}

impl Default for Config {
    fn default() -> (c: Self)
        ensures
            c == default_config(),
    {
        Config {
            vendor_id: None,
            product_id: None,
            usage_page: None,
            usage: None,
            debounce_ms: DEFAULT_DEBOUNCE_MS,
            poll_interval_ms: DEFAULT_POLL_INTERVAL_MS,
        }
    }
}

/// The debounce default, as an absent `debounce_ms` field takes it.
pub fn default_debounce_ms() -> (r: u64)
    ensures
        r == DEFAULT_DEBOUNCE_MS,
{
    DEFAULT_DEBOUNCE_MS
}

/// The poll-interval default, as an absent `poll_interval_ms` field takes it.
pub fn default_poll_interval_ms() -> (r: u64)
    ensures
        r == DEFAULT_POLL_INTERVAL_MS,
{
    DEFAULT_POLL_INTERVAL_MS
}

/// Both timing knobs (debounce ms, poll interval ms) of the configuration
/// that was read, or the defaults when none could be read.
pub fn configured_timing(config: Option<Config>) -> (r: (u64, u64))
    ensures
        r == match config {
            Some(c) => (c.debounce_ms, c.poll_interval_ms),
            None => (DEFAULT_DEBOUNCE_MS, DEFAULT_POLL_INTERVAL_MS),
        },
{
    match config {
        Some(c) => (c.debounce_ms, c.poll_interval_ms),
        None => (DEFAULT_DEBOUNCE_MS, DEFAULT_POLL_INTERVAL_MS),
    }
}

/// The debounce window (ms) of the configuration that was read, or the
/// default.
pub fn configured_debounce_ms(config: Option<Config>) -> (r: u64)
    ensures
        r == configured_timing_spec(config).0,
{
    configured_timing(config).0
}

/// Specification of [`configured_timing`].
pub open spec fn configured_timing_spec(config: Option<Config>) -> (u64, u64) {
    match config {
        Some(c) => (c.debounce_ms, c.poll_interval_ms),
        None => (DEFAULT_DEBOUNCE_MS, DEFAULT_POLL_INTERVAL_MS),
    }
}

/// The seeded zero-config template.
pub open spec fn default_config_template() -> Seq<char> {
    "# QMKonnect Configuration\n#\n# All fields are OPTIONAL. By default QMKonnect auto-discovers any QMK\n# keyboard using the standard Raw HID usage page (0xFF60 / 0x61). Set\n# vendor_id/product_id only to disambiguate among multiple QMK\n# keyboards, or usage_page/usage to target a board that overrode\n# RAW_USAGE_PAGE/RAW_USAGE_ID in its firmware.\n#\n# usage_page = 0xff60\n# usage      = 0x61\n#\n# Debounce window (ms) for coalescing rapid window-change bursts before\n# sending to the keyboard. 0 disables debouncing entirely. Default 50.\n# debounce_ms = 50\n#\n# (Hyprland only) periodic active-window poll interval (ms).\n# 0 disables. Default 0.\n# poll_interval_ms = 0\n\n# vendor_id  = 0x????   # unset: auto-discover any QMK keyboard (recommended)\n# product_id = 0x????   # unset: auto-discover any QMK keyboard (recommended)\n"@
}

/// Render the fully-commented zero-config `config.toml` template: every
/// field is a commented-out hint, so the seeded file parses to the defaults.
pub fn render_default_config_template() -> (r: String)
    ensures
        r@ == default_config_template(),
{
    "# QMKonnect Configuration\n#\n# All fields are OPTIONAL. By default QMKonnect auto-discovers any QMK\n# keyboard using the standard Raw HID usage page (0xFF60 / 0x61). Set\n# vendor_id/product_id only to disambiguate among multiple QMK\n# keyboards, or usage_page/usage to target a board that overrode\n# RAW_USAGE_PAGE/RAW_USAGE_ID in its firmware.\n#\n# usage_page = 0xff60\n# usage      = 0x61\n#\n# Debounce window (ms) for coalescing rapid window-change bursts before\n# sending to the keyboard. 0 disables debouncing entirely. Default 50.\n# debounce_ms = 50\n#\n# (Hyprland only) periodic active-window poll interval (ms).\n# 0 disables. Default 0.\n# poll_interval_ms = 0\n\n# vendor_id  = 0x????   # unset: auto-discover any QMK keyboard (recommended)\n# product_id = 0x????   # unset: auto-discover any QMK keyboard (recommended)\n".to_owned()
}

/// Opening comment block of a saved `config.toml`.
pub open spec fn config_body_header() -> Seq<char> {
    "# QMKonnect Configuration\n#\n# All fields are OPTIONAL. By default QMKonnect auto-discovers any QMK\n# keyboard using the standard Raw HID usage page (0xFF60 / 0x61). Set\n# vendor_id/product_id only to disambiguate among multiple QMK\n# keyboards, or usage_page/usage to target a board that overrode\n# RAW_USAGE_PAGE/RAW_USAGE_ID in its firmware.\n"@
}

/// A `key = 0x..` line when the field is set, else the commented hint.
pub open spec fn optional_hex_line(v: Option<u16>, prefix: Seq<char>, width: nat, hint: Seq<char>) -> Seq<char> {
    match v {
        Some(x) => prefix + hex_padded(x as nat, width),
        None => hint,
    }
}

/// The saved `config.toml` body for `c`: set device fields explicitly,
/// unset ones as commented hints, and both timing fields with their values.
pub open spec fn config_body(c: Config) -> Seq<char> {
    config_body_header()
        + optional_hex_line(c.vendor_id, "vendor_id  = 0x"@, 4, "# vendor_id  = 0x????   # unset: auto-discover any QMK keyboard (recommended)"@)
        + "\n"@
        + optional_hex_line(c.product_id, "product_id = 0x"@, 4, "# product_id = 0x????   # unset: auto-discover any QMK keyboard (recommended)"@)
        + "\n"@
        + optional_hex_line(c.usage_page, "usage_page = 0x"@, 4, "# usage_page = 0xff60"@)
        + "\n"@
        + optional_hex_line(c.usage, "usage      = 0x"@, 2, "# usage      = 0x61"@)
        + "\n\n# Debounce window (ms) for coalescing rapid window-change bursts before\n# sending to the keyboard. 0 disables debouncing entirely. Default 50.\ndebounce_ms = "@
        + decimal(c.debounce_ms as nat)
        + "\n\n# (Hyprland only) periodic active-window poll interval (ms).\n# 0 disables. Default 0.\npoll_interval_ms = "@
        + decimal(c.poll_interval_ms as nat)
        + "\n"@
}

fn push_optional_hex_line(s: &mut String, v: Option<u16>, prefix: &str, width: usize, hint: &str)
    ensures
        final(s)@ == old(s)@ + optional_hex_line(v, prefix@, width as nat, hint@),
{
    match v {
        Some(x) => {
            push_str(s, prefix);
            push_hex_padded(s, x as u64, width);
            assert(final(s)@ =~= old(s)@ + (prefix@ + hex_padded(x as nat, width as nat)));
        },
        None => {
            push_str(s, hint);
        },
    }
}

/// Render a `config.toml` body that keeps every field of `config`: set
/// device fields as `0x`-hex values, unset ones as commented auto-discovery
/// hints, and the timing fields with their values.
pub fn render_config_body(config: &Config) -> (r: String)
    ensures
        r@ == config_body(*config),
{
    let mut s = String::new();
    push_str(&mut s, "# QMKonnect Configuration\n#\n# All fields are OPTIONAL. By default QMKonnect auto-discovers any QMK\n# keyboard using the standard Raw HID usage page (0xFF60 / 0x61). Set\n# vendor_id/product_id only to disambiguate among multiple QMK\n# keyboards, or usage_page/usage to target a board that overrode\n# RAW_USAGE_PAGE/RAW_USAGE_ID in its firmware.\n");
    push_optional_hex_line(&mut s, config.vendor_id, "vendor_id  = 0x", 4, "# vendor_id  = 0x????   # unset: auto-discover any QMK keyboard (recommended)");
    push_str(&mut s, "\n");
    push_optional_hex_line(&mut s, config.product_id, "product_id = 0x", 4, "# product_id = 0x????   # unset: auto-discover any QMK keyboard (recommended)");
    push_str(&mut s, "\n");
    push_optional_hex_line(&mut s, config.usage_page, "usage_page = 0x", 4, "# usage_page = 0xff60");
    push_str(&mut s, "\n");
    push_optional_hex_line(&mut s, config.usage, "usage      = 0x", 2, "# usage      = 0x61");
    push_str(&mut s, "\n\n# Debounce window (ms) for coalescing rapid window-change bursts before\n# sending to the keyboard. 0 disables debouncing entirely. Default 50.\ndebounce_ms = ");
    push_digits(&mut s, config.debounce_ms, 10);
    push_str(&mut s, "\n\n# (Hyprland only) periodic active-window poll interval (ms).\n# 0 disables. Default 0.\npoll_interval_ms = ");
    push_digits(&mut s, config.poll_interval_ms, 10);
    push_str(&mut s, "\n");
    assert(s@ =~= config_body(*config));
    s
}

/// The seeded, fully-commented `rules.toml` template.
pub open spec fn rules_template() -> Seq<char> {
    "# QMKonnect Host Rules (rules.toml)\n#\n# Host rules map the active window to a keyboard layer + callback set.\n# See the HOST_RULES guide for the full schema. Everything here is commented\n# out: uncomment and edit to enable host rules. As-is, this file parses to\n# an all-default ruleset (host rules disabled) and a fresh install behaves\n# identically to today.\n#\n# Callback names come from your keyboard's registry \u{2014} run\n# `qmkonnect --list-callbacks` with the keyboard connected to see them.\n\n# Global default for whether the board runs its own config (false = stack)\n# or is replaced by the host layer (true = replace). Per-rule overrides win.\n# On no match the host layer is always cleared and all host callbacks\n# disabled.\n# [host]\n# disable_firmware_config = false\n\n# Rules: one [[rule]] per (app \u{d7} behavior). For each matching rule, `layer` is\n# first-match-wins (one host layer active \u{2014} exclusive); `enable`/`disable`\n# accumulate across ALL matches (all-match). A rule MUST set at least one of\n# `layer` / `enable` / `disable`; it may set layer only, callbacks only, or both.\n# `layer` is a RAW QMK layer index (no reserved range): must be != 255 (the\n# wire \"clear\" sentinel) and fit your layer_state width (<=15 default, <=31\n# with LAYER_STATE_32BIT); pick one above your highest board layer so it wins.\n# Patterns use shell-style globs: `*` is a wildcard, `^`/`$` anchor. A\n# catch-all is `match = \"*\"` \u{2014} an empty `match = \"\"` matches ONLY windows\n# whose class is empty, not every window.\n# [[rule]]\n# match = \"alacritty\"                       # class-only pattern\n# layer = 10\n# disable_firmware_config = true           # optional override (inherits [host])\n#\n# [[rule]]\n# match = [\"*chrome*\", \"*youtube*\"]         # [class_pattern, title_pattern]\n# layer = 11\n# case_sensitive = false                    # optional, default false\n#\n# [[rule]]\n# match = \"neovide\"\n# enable = [\"vim_lazy\", \"disable_vim\"]      # run on focus-in\n# disable = [\"vim_lazy\"]                    # optional: force-off override\n#\n# [[rule]]\n# match = [\"*chrome*\", \"*mail*\"]\n# enable = [\"vim_lazy\", \"disable_vim\"]\n# disable_firmware_config = true           # skip the string -> board can't match\n"@
}

/// Render the fully-commented `rules.toml` template: the host-rules schema
/// with every active line commented out, so it parses to an inert ruleset.
pub fn render_rules_body() -> (r: String)
    ensures
        r@ == rules_template(),
{
    "# QMKonnect Host Rules (rules.toml)\n#\n# Host rules map the active window to a keyboard layer + callback set.\n# See the HOST_RULES guide for the full schema. Everything here is commented\n# out: uncomment and edit to enable host rules. As-is, this file parses to\n# an all-default ruleset (host rules disabled) and a fresh install behaves\n# identically to today.\n#\n# Callback names come from your keyboard's registry \u{2014} run\n# `qmkonnect --list-callbacks` with the keyboard connected to see them.\n\n# Global default for whether the board runs its own config (false = stack)\n# or is replaced by the host layer (true = replace). Per-rule overrides win.\n# On no match the host layer is always cleared and all host callbacks\n# disabled.\n# [host]\n# disable_firmware_config = false\n\n# Rules: one [[rule]] per (app \u{d7} behavior). For each matching rule, `layer` is\n# first-match-wins (one host layer active \u{2014} exclusive); `enable`/`disable`\n# accumulate across ALL matches (all-match). A rule MUST set at least one of\n# `layer` / `enable` / `disable`; it may set layer only, callbacks only, or both.\n# `layer` is a RAW QMK layer index (no reserved range): must be != 255 (the\n# wire \"clear\" sentinel) and fit your layer_state width (<=15 default, <=31\n# with LAYER_STATE_32BIT); pick one above your highest board layer so it wins.\n# Patterns use shell-style globs: `*` is a wildcard, `^`/`$` anchor. A\n# catch-all is `match = \"*\"` \u{2014} an empty `match = \"\"` matches ONLY windows\n# whose class is empty, not every window.\n# [[rule]]\n# match = \"alacritty\"                       # class-only pattern\n# layer = 10\n# disable_firmware_config = true           # optional override (inherits [host])\n#\n# [[rule]]\n# match = [\"*chrome*\", \"*youtube*\"]         # [class_pattern, title_pattern]\n# layer = 11\n# case_sensitive = false                    # optional, default false\n#\n# [[rule]]\n# match = \"neovide\"\n# enable = [\"vim_lazy\", \"disable_vim\"]      # run on focus-in\n# disable = [\"vim_lazy\"]                    # optional: force-off override\n#\n# [[rule]]\n# match = [\"*chrome*\", \"*mail*\"]\n# enable = [\"vim_lazy\", \"disable_vim\"]\n# disable_firmware_config = true           # skip the string -> board can't match\n".to_owned()
}

/// What identifies one version of a file on disk: its resolved path, its
/// modification time (nanoseconds from the Unix epoch, negative before it)
/// and its size in bytes.
pub struct FileStamp {
    pub path: String,
    pub modified_nanos: i128,
    pub size: u64,
}

impl View for FileStamp {
    type V = (Seq<char>, i128, u64);

    open spec fn view(&self) -> (Seq<char>, i128, u64) {
        (self.path@, self.modified_nanos, self.size)
    }
}

/// Whether two stamps identify the same version of the same file.
fn stamps_equal(a: &FileStamp, b: &FileStamp) -> (r: bool)
    ensures
        r == (a@ == b@),
{
    a.modified_nanos == b.modified_nanos && a.size == b.size && a.path == b.path
}

/// Single-entry cache of a parsed file, keyed by the file's [`FileStamp`]:
/// a hit needs the same path, modification time and size, so an edited or
/// relocated file never serves a stale value.
pub struct MtimeCache<T> {
    entry: Option<(FileStamp, T)>,
}

impl<T> MtimeCache<T> {
    /// The stamp and value held, if any.
    pub closed spec fn held(&self) -> Option<((Seq<char>, i128, u64), T)> {
        match self.entry {
            Some((s, v)) => Some((s@, v)),
            None => None,
        }
    }

    /// An empty cache.
    pub fn new() -> (c: Self)
        ensures
            c.held() == None::<((Seq<char>, i128, u64), T)>,
    {
        MtimeCache { entry: None }
    }

    /// The value cached for exactly this stamp; `None` on a miss.
    pub fn lookup(&self, stamp: &FileStamp) -> (r: Option<&T>)
        ensures
            match r {
                Some(v) => cache_lookup(self.held(), stamp@) == Some(*v),
                None => cache_lookup(self.held(), stamp@) is None,
            },
    {
        match &self.entry {
            Some((s, v)) => {
                if stamps_equal(s, stamp) {
                    Some(v)
                } else {
                    None
                }
            },
            None => None,
        }
    }

    /// Replace the cached entry with `value` parsed from the file at `stamp`.
    pub fn store(&mut self, stamp: FileStamp, value: T)
        ensures
            final(self).held() == Some((stamp@, value)),
    {
        self.entry = Some((stamp, value));
    }
}

/// `config.toml` through the cache: on a hit (same path, modification time
/// and size) the stored value, without calling `parse`; on a miss the result
/// of `parse`, stored only when it succeeds (a failure is not cached, so a
/// later call reads the file again).
pub fn cached_config_at<E, F: FnOnce() -> Result<Config, E>>(cache: &mut MtimeCache<Config>, stamp: FileStamp, parse: F) -> (r: Result<Config, E>)
    requires
        parse.requires(()),
    ensures
        match cache_lookup(old(cache).held(), stamp@) {
            Some(v) => r == Ok::<Config, E>(v) && final(cache).held() == old(cache).held(),
            None => parse.ensures((), r) && match r {
                Ok(v) => final(cache).held() == Some((stamp@, v)),
                Err(_) => final(cache).held() == old(cache).held(),
            },
        },
{
    match cache.lookup(&stamp) {
        Some(v) => {
            let v = *v;
            return Ok(v);
        },
        None => {},
    }
    let parsed = parse();
    match parsed {
        Ok(v) => {
            cache.store(stamp, v);
            Ok(v)
        },
        Err(e) => Err(e),
    }
}

/// What a lookup with `probe` finds in a cache holding `held`.
pub open spec fn cache_lookup<T>(held: Option<((Seq<char>, i128, u64), T)>, probe: (Seq<char>, i128, u64)) -> Option<T> {
    match held {
        Some((s, v)) => if s == probe {
            Some(v)
        } else {
            None
        },
        None => None,
    }
}

/// After a store, a lookup with an equal stamp finds the stored value and a
/// lookup with any other stamp misses.
pub proof fn law_cache_lookup_after_store<T>(
    stored: (Seq<char>, i128, u64),
    value: T,
    probe: (Seq<char>, i128, u64),
)
    ensures
        cache_lookup(Some((stored, value)), probe) == if probe == stored {
            Some(value)
        } else {
            None
        },
{
}

} // verus!
