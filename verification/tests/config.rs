use rift::config::{
    BehaviorConfig, Config, ConfigError, GapsConfig, LayoutConfig, WindowRule, MAX_MASTER_RATIO,
    MIN_MASTER_RATIO,
};
use rift::ipc::LayoutKind;

fn valid() -> Config {
    Config::default()
}

#[test]
fn rule_matches_on_class_and_title() {
    let class_only = WindowRule {
        class: Some("kitty".into()),
        title: None,
        float: true,
    };
    assert!(class_only.matches(Some("kitty"), None));
    assert!(class_only.matches(Some("org.kitty"), Some("anything")));
    assert!(!class_only.matches(Some("konsole"), None));
    assert!(!class_only.matches(None, None));

    let both = WindowRule {
        class: Some("firefox".into()),
        title: Some("Picture-in-Picture".into()),
        float: true,
    };
    assert!(both.matches(Some("firefox"), Some("Picture-in-Picture")));
    assert!(!both.matches(Some("firefox"), Some("Mozilla Firefox")));
}

#[test]
fn rule_without_fields_never_matches() {
    let empty = WindowRule { class: None, title: None, float: true };
    assert!(!empty.matches(Some("kitty"), Some("kitty")));
    let title_only = WindowRule { class: None, title: Some("Picture".into()), float: false };
    assert!(title_only.matches(None, Some("Picture-in-Picture")));
    assert!(!title_only.matches(Some("Picture"), None));
}

#[test]
fn tiling_enabled_defaults_true_and_can_be_disabled() {
    assert!(LayoutConfig::default().tiling_enabled);
    let mut cfg = valid();
    cfg.layout.tiling_enabled = false;
    assert_eq!(cfg.validate(), Ok(()));
    assert!(!cfg.layout.tiling_enabled);
}

#[test]
fn defaults_are_valid_and_documented() {
    let cfg = Config::default();
    assert_eq!(cfg.validate(), Ok(()));
    assert_eq!(cfg.layout.default, LayoutKind::Tile);
    assert_eq!(cfg.layout.master_ratio, 600_000);
    assert_eq!(cfg.layout.master_count, 1);
    assert_eq!(cfg.gaps, GapsConfig { inner: 8, outer: 12 });
    assert_eq!(
        cfg.behavior,
        BehaviorConfig { per_desktop: true, per_activity: true, focus_follows_mouse: false }
    );
    assert!(cfg.rules.is_empty());
    assert!(cfg.keys.is_empty());
}

#[test]
fn out_of_range_ratio_is_rejected() {
    // master_ratio = 9.0
    let mut cfg = valid();
    cfg.layout.master_ratio = 9_000_000;
    assert!(cfg.validate().is_err());
    assert_eq!(cfg.validate(), Err(ConfigError::MasterRatioOutOfRange(9_000_000)));
}

#[test]
fn ratio_bounds_are_inclusive() {
    let mut cfg = valid();
    cfg.layout.master_ratio = MIN_MASTER_RATIO;
    assert_eq!(cfg.validate(), Ok(()));
    cfg.layout.master_ratio = MAX_MASTER_RATIO;
    assert_eq!(cfg.validate(), Ok(()));
    cfg.layout.master_ratio = MIN_MASTER_RATIO - 1;
    assert_eq!(cfg.validate(), Err(ConfigError::MasterRatioOutOfRange(MIN_MASTER_RATIO - 1)));
    cfg.layout.master_ratio = MAX_MASTER_RATIO + 1;
    assert_eq!(cfg.validate(), Err(ConfigError::MasterRatioOutOfRange(MAX_MASTER_RATIO + 1)));
}

#[test]
fn zero_master_count_is_rejected() {
    let mut cfg = valid();
    cfg.layout.master_count = 0;
    assert!(cfg.validate().is_err());
    assert_eq!(cfg.validate(), Err(ConfigError::MasterCountZero));
}

#[test]
fn negative_gaps_are_rejected() {
    let mut cfg = valid();
    cfg.gaps.inner = -1;
    assert_eq!(cfg.validate(), Err(ConfigError::NegativeInnerGap(-1)));
    let mut cfg = valid();
    cfg.gaps.outer = -3;
    assert_eq!(cfg.validate(), Err(ConfigError::NegativeOuterGap(-3)));
}

#[test]
fn rule_without_match_field_is_rejected() {
    let mut cfg = valid();
    cfg.rules = vec![WindowRule { class: None, title: None, float: true }];
    assert!(cfg.validate().is_err());
    assert_eq!(cfg.validate(), Err(ConfigError::RuleWithoutMatch(0)));
}

#[test]
fn first_bad_rule_is_reported() {
    let mut cfg = valid();
    cfg.rules = vec![
        WindowRule { class: Some("pavucontrol".into()), title: None, float: true },
        WindowRule { class: None, title: None, float: false },
        WindowRule { class: None, title: None, float: true },
    ];
    assert_eq!(cfg.validate(), Err(ConfigError::RuleWithoutMatch(1)));
}

#[test]
fn unknown_key_id_is_rejected() {
    let mut cfg = valid();
    cfg.keys = vec![("rift_focus_sideways".to_string(), "Meta+X".to_string())];
    assert!(cfg.validate().is_err());
    assert_eq!(
        cfg.validate(),
        Err(ConfigError::UnknownKeyId("rift_focus_sideways".to_string()))
    );
}

#[test]
fn empty_key_override_is_rejected() {
    let mut cfg = valid();
    cfg.keys = vec![("rift_focus_left".to_string(), "".to_string())];
    assert!(cfg.validate().is_err());
    assert_eq!(cfg.validate(), Err(ConfigError::EmptyKey("rift_focus_left".to_string())));
    cfg.keys = vec![("rift_focus_left".to_string(), " \t".to_string())];
    assert_eq!(cfg.validate(), Err(ConfigError::EmptyKey("rift_focus_left".to_string())));
}

#[test]
fn known_key_overrides_are_accepted() {
    let mut cfg = valid();
    cfg.keys = vec![
        ("rift_focus_left".to_string(), "Meta+Left".to_string()),
        ("rift_layout_tile".to_string(), "Meta+T".to_string()),
    ];
    assert_eq!(cfg.validate(), Ok(()));
}

#[test]
fn checks_run_in_documented_order() {
    let cfg = Config {
        layout: LayoutConfig {
            default: LayoutKind::Tile,
            master_ratio: 600_000,
            master_count: 0,
            tiling_enabled: true,
        },
        gaps: GapsConfig { inner: -1, outer: -1 },
        behavior: BehaviorConfig::default(),
        rules: vec![WindowRule { class: None, title: None, float: true }],
        keys: vec![("bogus".to_string(), "".to_string())],
    };
    assert_eq!(cfg.validate(), Err(ConfigError::MasterCountZero));
}
