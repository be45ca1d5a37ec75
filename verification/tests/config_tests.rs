use waraner_client::config::{parse_u32, GameConfig, UserConfig, WaranerConfig};
use waraner_client::engine_state::{HotReloadState, SettingError};

fn args(list: &[&str]) -> Vec<String> {
    list.iter().map(|s| s.to_string()).collect()
}

#[test]
fn defaults() {
    let c = WaranerConfig::default();
    assert_eq!(c.window_title, "Waraner Engine");
    assert_eq!((c.window_width, c.window_height), (1280, 720));
    assert!(!c.fullscreen);
    assert!(c.vsync);
    assert_eq!(c.asset_archives.len(), 4);
    assert_eq!(c.asset_archives[0], "pak_0000.wpak");
    assert_eq!(c.main_script, "main");
}

#[test]
fn args_override_settings() {
    let mut c = WaranerConfig::default();
    c.apply_args(&args(&[
        "waraner", "--width", "800", "--height", "oops", "--title", "Demo", "--fullscreen",
        "--no-vsync", "--data-path", "/data", "--unknown",
    ]));
    assert_eq!(c.window_width, 800);
    assert_eq!(c.window_height, 720);
    assert_eq!(c.window_title, "Demo");
    assert!(c.fullscreen);
    assert!(!c.vsync);
    assert_eq!(c.data_path, "/data");
}

#[test]
fn program_name_is_skipped_and_trailing_flag_ignored() {
    let mut c = WaranerConfig::default();
    c.apply_args(&args(&["--fullscreen", "--width"]));
    assert!(!c.fullscreen);
    assert_eq!(c.window_width, 1280);
}

#[test]
fn parse_u32_cases() {
    assert_eq!(parse_u32("0"), Some(0));
    assert_eq!(parse_u32("4294967295"), Some(u32::MAX));
    assert_eq!(parse_u32("4294967296"), None);
    assert_eq!(parse_u32("+7"), Some(7));
    assert_eq!(parse_u32(""), None);
    assert_eq!(parse_u32("-1"), None);
    assert_eq!(parse_u32("12a"), None);
}

#[test]
fn game_and_user_config_apply() {
    let mut c = WaranerConfig::default();
    c.apply_game_config(GameConfig {
        window_title: Some("Game".to_string()),
        log_level: None,
        main_script: Some("boot".to_string()),
        asset_archives: Some(vec!["a.wpak".to_string()]),
        data_path: None,
    });
    c.apply_user_config(UserConfig {
        window_width: Some(1920),
        window_height: None,
        fullscreen: Some(true),
        vsync: None,
    });
    assert_eq!(c.window_title, "Game");
    assert_eq!(c.log_level, "info");
    assert_eq!(c.main_script, "boot");
    assert_eq!(c.asset_archives, vec!["a.wpak".to_string()]);
    assert_eq!(c.window_width, 1920);
    assert_eq!(c.window_height, 720);
    assert!(c.fullscreen);
    assert_eq!(
        c.user_config(),
        UserConfig { window_width: Some(1920), window_height: Some(720), fullscreen: Some(true), vsync: Some(true) }
    );
}

#[test]
fn config_get_and_set() {
    let mut c = WaranerConfig::default();
    assert_eq!(c.config_get("window_width").as_deref(), Some("1280"));
    assert_eq!(c.config_get("vsync").as_deref(), Some("true"));
    assert_eq!(c.config_get("nope"), None);
    assert_eq!(c.config_set("window_width", "640"), Ok(()));
    assert_eq!(c.config_get("window_width").as_deref(), Some("640"));
    assert_eq!(c.config_set("window_height", "tall"), Err(SettingError::InvalidNumber));
    assert_eq!(c.window_height, 720);
    assert_eq!(c.config_set("fullscreen", "TRUE"), Ok(()));
    assert!(c.fullscreen);
    assert_eq!(c.config_set("vsync", "yes"), Ok(()));
    assert!(!c.vsync);
    assert_eq!(c.config_set("vsync", "1"), Ok(()));
    assert!(c.vsync);
    assert_eq!(c.config_get("fullscreen").as_deref(), Some("true"));
    assert_eq!(c.config_set("gamma", "2"), Err(SettingError::UnknownKey));
}

#[test]
fn hot_reload_detects_changes() {
    let mut h = HotReloadState::new("scripts".to_string());
    assert_eq!(h.script_dir(), "scripts");
    assert!(!h.observe("main".to_string(), 10));
    assert!(!h.observe("main".to_string(), 10));
    assert!(h.observe("main".to_string(), 11));
    assert!(!h.observe("door".to_string(), 5));
    let changed = h.observe_all(vec![("door".to_string(), 5), ("main".to_string(), 11)]);
    assert!(!changed);
    let changed = h.observe_all(vec![("door".to_string(), 6), ("new".to_string(), 1)]);
    assert!(changed);
}
