use gain::config::{Config, ConfigError, Connection, General, LoadedConfig, SliderMappings, VolumeTarget};
use gain::event::Slider;
use gain::router::{contains_text, route, select_sessions, AudioSession, VolumeCommand};

fn apps(names: &[&str]) -> VolumeTarget {
    VolumeTarget::Apps(names.iter().map(|s| s.to_string()).collect())
}

fn loaded(slider: Vec<SliderMappings>, step: u32) -> LoadedConfig {
    let cfg = Config {
        connection: Connection::default(),
        general: General { volume_step: step, invert_direction: false },
        slider,
    };
    LoadedConfig::new(cfg, 0, 0).unwrap()
}

fn sessions(list: &[(u32, &str)]) -> Vec<AudioSession> {
    list.iter().map(|&(pid, name)| AudioSession { pid, name: name.to_string() }).collect()
}

#[test]
fn named_apps_get_the_level() {
    let cfg = loaded(vec![SliderMappings { id: 2, target: apps(&["chrome"]) }], 100_000);
    let ss = sessions(&[(10, "chrome.exe"), (11, "explorer.exe")]);
    let r = route(Slider { id: 2, value: 505 }, &cfg, &ss);
    assert_eq!(r, Some(VolumeCommand::SetSessions { level: 500_000, pids: vec![10] }));
}

#[test]
fn names_match_without_regard_to_case() {
    let cfg = loaded(vec![SliderMappings { id: 2, target: apps(&["CHROME", "Zoom"]) }], 100_000);
    let ss = sessions(&[(10, "Chrome.EXE"), (11, "explorer.exe"), (12, "zoom.exe"), (13, "Chromium.exe"), (14, "MyChromeHelper")]);
    let r = route(Slider { id: 2, value: 1023 }, &cfg, &ss);
    assert_eq!(r, Some(VolumeCommand::SetSessions { level: 1_000_000, pids: vec![10, 12, 14] }));
}

#[test]
fn unmapped_skips_every_named_app() {
    let cfg = loaded(
        vec![
            SliderMappings { id: 1, target: apps(&["spotify"]) },
            SliderMappings { id: 3, target: VolumeTarget::Unmapped },
        ],
        100_000,
    );
    let ss = sessions(&[(20, "spotify.exe"), (21, "game.exe"), (22, "Spotify Helper")]);
    let r = route(Slider { id: 3, value: 0 }, &cfg, &ss);
    assert_eq!(r, Some(VolumeCommand::SetSessions { level: 0, pids: vec![21] }));
}

#[test]
fn master_and_current_app() {
    let cfg = loaded(
        vec![
            SliderMappings { id: 0, target: VolumeTarget::Master },
            SliderMappings { id: 1, target: VolumeTarget::CurrentApp },
        ],
        10_000,
    );
    assert_eq!(route(Slider { id: 0, value: 1023 }, &cfg, &vec![]), Some(VolumeCommand::SetMaster(1_000_000)));
    assert_eq!(route(Slider { id: 1, value: 512 }, &cfg, &vec![]), Some(VolumeCommand::SetCurrentApp(500_000)));
}

#[test]
fn unknown_slider_is_a_no_op() {
    let cfg = loaded(vec![SliderMappings { id: 0, target: VolumeTarget::Master }], 10_000);
    assert_eq!(route(Slider { id: 9, value: 700 }, &cfg, &sessions(&[(1, "a")])), None);
}

#[test]
fn failed_reload_keeps_routing() {
    let mut cfg = loaded(vec![SliderMappings { id: 2, target: apps(&["chrome"]) }], 100_000);
    let ss = sessions(&[(10, "chrome.exe"), (11, "explorer.exe")]);
    let before = route(Slider { id: 2, value: 505 }, &cfg, &ss);
    assert_eq!(cfg.reload_with(Err(ConfigError::Malformed("bad".to_string())), 99), Err(ConfigError::Malformed("bad".to_string())));
    assert_eq!(cfg.last_modified, 0);
    let bad_step = Config { connection: Connection::default(), general: General { volume_step: 0, invert_direction: false }, slider: vec![] };
    assert_eq!(cfg.reload_with(Ok(bad_step), 99), Err(ConfigError::InvalidVolumeStep));
    let after = route(Slider { id: 2, value: 505 }, &cfg, &ss);
    assert_eq!(before, after);
    assert_eq!(after, Some(VolumeCommand::SetSessions { level: 500_000, pids: vec![10] }));
}

#[test]
fn substring_search() {
    assert!(contains_text("chrome.exe", "chrome"));
    assert!(contains_text("chrome.exe", ""));
    assert!(contains_text("abc", "abc"));
    assert!(!contains_text("ab", "abc"));
    assert!(!contains_text("explorer.exe", "chrome"));
    assert!(contains_text("naïve.exe", "ïve"));
}

#[test]
fn selection_compares_exactly() {
    let ss = sessions(&[(1, "Chrome"), (2, "chrome")]);
    let pats = vec!["chrome".to_string()];
    assert_eq!(select_sessions(&ss, &pats, false), vec![2]);
    assert_eq!(select_sessions(&ss, &pats, true), vec![1]);
    assert_eq!(select_sessions(&ss, &vec![], true), vec![1, 2]);
}
