use qmkonnect::config::{
    cached_config_at,
    configured_debounce_ms, configured_timing, default_debounce_ms, default_poll_interval_ms,
    render_config_body, render_default_config_template, render_rules_body, Config, FileStamp,
    MtimeCache,
};

#[test]
fn template_has_no_0xfeed_literal() {
    let seeded = render_default_config_template();
    assert!(
        !seeded.contains("0xfeed"),
        "seeded template still has 0xfeed: {seeded:?}"
    );
    assert!(
        seeded.contains("0x????"),
        "seeded template missing the 0x???? hint: {seeded:?}"
    );
    let saved = render_config_body(&Config::default());
    assert!(
        !saved.contains("0xfeed"),
        "save-renderer None body still has 0xfeed: {saved:?}"
    );
    assert!(
        saved.contains("0x????"),
        "save-renderer None body missing 0x????: {saved:?}"
    );
}

#[test]
fn test_render_rules_body_fully_commented() {
    let body = render_rules_body();
    for (i, line) in body.lines().enumerate() {
        let trimmed = line.trim_start();
        if trimmed.is_empty() {
            continue;
        }
        assert!(
            trimmed.starts_with('#'),
            "line {} is not commented: {line:?}",
            i + 1
        );
    }
    assert!(body.contains("[host]"));
    assert!(body.contains("[[rule]]"));
    assert!(body.contains("disable_firmware_config"));
}

#[test]
fn default_config_is_auto_discovery_with_default_timing() {
    let c = Config::default();
    assert_eq!(c.vendor_id, None);
    assert_eq!(c.product_id, None);
    assert_eq!(c.usage_page, None);
    assert_eq!(c.usage, None);
    assert_eq!(c.debounce_ms, 50);
    assert_eq!(c.poll_interval_ms, 0);
    assert_eq!(default_debounce_ms(), 50);
    assert_eq!(default_poll_interval_ms(), 0);
}

#[test]
fn configured_timing_falls_back_to_defaults() {
    assert_eq!(configured_timing(None), (50, 0));
    let c = Config {
        debounce_ms: 120,
        poll_interval_ms: 250,
        ..Config::default()
    };
    assert_eq!(configured_timing(Some(c)), (120, 250));
    assert_eq!(configured_debounce_ms(Some(c)), 120);
    assert_eq!(configured_debounce_ms(None), 50);
}

#[test]
fn render_config_body_default_exact_text() {
    let body = render_config_body(&Config::default());
    let expected = "# QMKonnect Configuration\n\
#\n\
# All fields are OPTIONAL. By default QMKonnect auto-discovers any QMK\n\
# keyboard using the standard Raw HID usage page (0xFF60 / 0x61). Set\n\
# vendor_id/product_id only to disambiguate among multiple QMK\n\
# keyboards, or usage_page/usage to target a board that overrode\n\
# RAW_USAGE_PAGE/RAW_USAGE_ID in its firmware.\n\
# vendor_id  = 0x????   # unset: auto-discover any QMK keyboard (recommended)\n\
# product_id = 0x????   # unset: auto-discover any QMK keyboard (recommended)\n\
# usage_page = 0xff60\n\
# usage      = 0x61\n\
\n\
# Debounce window (ms) for coalescing rapid window-change bursts before\n\
# sending to the keyboard. 0 disables debouncing entirely. Default 50.\n\
debounce_ms = 50\n\
\n\
# (Hyprland only) periodic active-window poll interval (ms).\n\
# 0 disables. Default 0.\n\
poll_interval_ms = 0\n";
    assert_eq!(body, expected);
}

#[test]
fn render_config_body_writes_every_set_field() {
    let c = Config {
        vendor_id: Some(0x1234),
        product_id: Some(0x0000),
        usage_page: Some(0xff61),
        usage: Some(0x61),
        debounce_ms: 120,
        poll_interval_ms: 250,
    };
    let body = render_config_body(&c);
    assert!(body.contains("\nvendor_id  = 0x1234\n"));
    assert!(body.contains("\nproduct_id = 0x0000\n"));
    assert!(body.contains("\nusage_page = 0xff61\n"));
    assert!(body.contains("\nusage      = 0x61\n"));
    assert!(body.contains("\ndebounce_ms = 120\n"));
    assert!(body.ends_with("\npoll_interval_ms = 250\n"));
    assert!(!body.contains("0x????"));
}

#[test]
fn render_config_body_pads_small_and_widens_large_hex() {
    let c = Config {
        vendor_id: Some(0xfeed),
        usage: Some(0x1ab),
        ..Config::default()
    };
    let body = render_config_body(&c);
    assert!(body.contains("vendor_id  = 0xfeed"));
    assert!(body.contains("usage      = 0x1ab"));
    let c = Config {
        usage: Some(0x5),
        ..Config::default()
    };
    assert!(render_config_body(&c).contains("usage      = 0x05\n"));
}

#[test]
fn default_template_first_and_last_lines() {
    let t = render_default_config_template();
    assert!(t.starts_with("# QMKonnect Configuration\n#\n"));
    assert!(t.ends_with(
        "# product_id = 0x????   # unset: auto-discover any QMK keyboard (recommended)\n"
    ));
    assert!(t.lines().all(|l| l.is_empty() || l.starts_with('#')));
}

fn stamp(path: &str, nanos: i128, size: u64) -> FileStamp {
    FileStamp {
        path: path.to_string(),
        modified_nanos: nanos,
        size,
    }
}

#[test]
fn mtime_cache_hits_only_on_identical_stamp() {
    let mut cache: MtimeCache<Config> = MtimeCache::new();
    assert!(cache.lookup(&stamp("/c/config.toml", 10, 5)).is_none());
    let cfg = Config {
        debounce_ms: 7,
        ..Config::default()
    };
    cache.store(stamp("/c/config.toml", 10, 5), cfg);
    assert_eq!(
        cache.lookup(&stamp("/c/config.toml", 10, 5)).map(|c| c.debounce_ms),
        Some(7)
    );
    assert!(cache.lookup(&stamp("/c/config.toml", 11, 5)).is_none());
    assert!(cache.lookup(&stamp("/c/config.toml", 10, 6)).is_none());
    assert!(cache.lookup(&stamp("/d/config.toml", 10, 5)).is_none());
    cache.store(stamp("/c/config.toml", 11, 5), Config::default());
    assert!(cache.lookup(&stamp("/c/config.toml", 10, 5)).is_none());
    assert_eq!(
        cache.lookup(&stamp("/c/config.toml", 11, 5)).map(|c| c.debounce_ms),
        Some(50)
    );
}

/// Read a rendered body back the way `config.toml` is read: absent device
/// fields are `None`, absent timing fields take their defaults.
fn parse(body: &str) -> Config {
    let t: toml::Table = body.parse().expect("rendered config must be valid TOML");
    let int = |k: &str| t.get(k).map(|v| v.as_integer().expect("integer field"));
    Config {
        vendor_id: int("vendor_id").map(|v| v as u16),
        product_id: int("product_id").map(|v| v as u16),
        usage_page: int("usage_page").map(|v| v as u16),
        usage: int("usage").map(|v| v as u16),
        debounce_ms: int("debounce_ms").map(|v| v as u64).unwrap_or(default_debounce_ms()),
        poll_interval_ms: int("poll_interval_ms")
            .map(|v| v as u64)
            .unwrap_or(default_poll_interval_ms()),
    }
}

#[test]
fn render_default_config_template_round_trips_to_defaults() {
    let body = render_default_config_template();
    let cfg = parse(&body);
    assert_eq!(cfg.vendor_id, None);
    assert_eq!(cfg.product_id, None);
    assert_eq!(cfg.usage_page, None);
    assert_eq!(cfg.usage, None);
    assert_eq!(cfg.debounce_ms, 50);
    assert_eq!(cfg.poll_interval_ms, 0);
}

#[test]
fn render_config_body_round_trips() {
    let body = render_config_body(&Config::default());
    let cfg = parse(&body);
    assert_eq!(cfg.vendor_id, None);
    assert_eq!(cfg.product_id, None);
    assert_eq!(cfg.usage_page, None);
    assert_eq!(cfg.usage, None);
    assert_eq!(cfg.debounce_ms, 50);
    assert_eq!(cfg.poll_interval_ms, 0);
    let body = render_config_body(&Config {
        vendor_id: Some(0xfeed),
        product_id: Some(0x1234),
        ..Config::default()
    });
    let cfg = parse(&body);
    assert_eq!(cfg.vendor_id, Some(0xfeed));
    assert_eq!(cfg.product_id, Some(0x1234));
}

#[test]
fn render_config_body_preserves_non_vidpid_fields() {
    let original = Config {
        vendor_id: Some(0x1234),
        product_id: Some(0x5678),
        usage_page: Some(0xff61),
        usage: Some(0x61),
        debounce_ms: 120,
        poll_interval_ms: 250,
    };
    let parsed = parse(&render_config_body(&original));
    assert_eq!(parsed.vendor_id, original.vendor_id);
    assert_eq!(parsed.product_id, original.product_id);
    assert_eq!(parsed.usage_page, original.usage_page);
    assert_eq!(parsed.usage, original.usage);
    assert_eq!(parsed.debounce_ms, original.debounce_ms);
    assert_eq!(parsed.poll_interval_ms, original.poll_interval_ms);
}

#[test]
fn test_render_rules_body_parses_to_default_ruleset() {
    let body = render_rules_body();
    let t: toml::Table = body
        .parse()
        .expect("render_rules_body must parse to a valid all-default ruleset");
    assert!(t.get("rule").is_none());
    assert!(t.get("host").is_none());
}

#[test]
fn cached_config_at_parses_once_and_never_caches_errors() {
    let mut cache: MtimeCache<Config> = MtimeCache::new();
    let mut calls = 0;
    let r: Result<Config, String> = cached_config_at(&mut cache, stamp("/c", 1, 1), || {
        calls += 1;
        Err("bad toml".to_string())
    });
    assert!(r.is_err());
    assert!(cache.lookup(&stamp("/c", 1, 1)).is_none());
    let cfg = Config { debounce_ms: 9, ..Config::default() };
    let r: Result<Config, String> = cached_config_at(&mut cache, stamp("/c", 1, 1), || {
        calls += 1;
        Ok(cfg)
    });
    assert_eq!(r.unwrap().debounce_ms, 9);
    let r: Result<Config, String> = cached_config_at(&mut cache, stamp("/c", 1, 1), || {
        calls += 1;
        Ok(Config::default())
    });
    assert_eq!(r.unwrap().debounce_ms, 9);
    assert_eq!(calls, 2);
}
