use gain::config::{
    Config, ConfigError, Connection, General, LoadedConfig, SliderMappings, VolumeTarget,
    DEFAULT_BAUD_RATE, DEFAULT_VOLUME_STEP,
};

fn apps(names: &[&str]) -> VolumeTarget {
    VolumeTarget::Apps(names.iter().map(|s| s.to_string()).collect())
}

fn config_with(slider: Vec<SliderMappings>, step: u32) -> Config {
    Config {
        connection: Connection::default(),
        general: General { volume_step: step, invert_direction: false },
        slider,
    }
}

#[test]
fn defaults() {
    let g = General::default();
    assert_eq!(g.volume_step, DEFAULT_VOLUME_STEP);
    assert!(!g.invert_direction);
    let c = Connection::default();
    assert_eq!(c.baud_rate, DEFAULT_BAUD_RATE);
    assert!(c.com_port.is_none());
    match VolumeTarget::default() {
        VolumeTarget::Apps(v) => assert!(v.is_empty()),
        _ => panic!("default target is an empty app list"),
    }
}

#[test]
fn last_mapping_for_an_id_wins() {
    let cfg = config_with(
        vec![
            SliderMappings { id: 1, target: apps(&["spotify"]) },
            SliderMappings { id: 2, target: VolumeTarget::Master },
            SliderMappings { id: 1, target: apps(&["discord", "zoom"]) },
        ],
        10_000,
    );
    let loaded = LoadedConfig::new(cfg, 7, 100).unwrap();
    assert_eq!(loaded.mappings.len(), 2);
    match loaded.target_for(1) {
        Some(VolumeTarget::Apps(v)) => assert_eq!(v, &vec!["discord".to_string(), "zoom".to_string()]),
        other => panic!("unexpected {:?}", other),
    }
    assert!(matches!(loaded.target_for(2), Some(VolumeTarget::Master)));
    assert!(loaded.target_for(3).is_none());
    let mut pats = loaded.mapped_apps.clone();
    pats.sort();
    assert_eq!(pats, vec!["discord".to_string(), "zoom".to_string()]);
    assert_eq!(loaded.last_modified, 7);
    assert_eq!(loaded.last_checked, 100);
}

#[test]
fn invalid_step_is_refused() {
    assert_eq!(LoadedConfig::new(config_with(vec![], 0), 0, 0).err(), Some(ConfigError::InvalidVolumeStep));
    assert_eq!(
        LoadedConfig::new(config_with(vec![], 1_000_001), 0, 0).err(),
        Some(ConfigError::InvalidVolumeStep)
    );
    assert!(LoadedConfig::new(config_with(vec![], 1_000_000), 0, 0).is_ok());
}

#[test]
fn staleness_checks_are_throttled() {
    let mut loaded = LoadedConfig::new(config_with(vec![], 10_000), 50, 1000).unwrap();
    assert!(!loaded.should_check(1500));
    assert_eq!(loaded.last_checked, 1000);
    assert!(!loaded.should_check(2999));
    assert!(loaded.should_check(3000));
    assert_eq!(loaded.last_checked, 3000);
    assert!(!loaded.should_check(4000));
    assert!(!loaded.should_check(10));
}

#[test]
fn only_a_newer_document_is_stale() {
    let loaded = LoadedConfig::new(config_with(vec![], 10_000), 50, 0).unwrap();
    assert!(!loaded.is_modified_since_load(None));
    assert!(!loaded.is_modified_since_load(Some(50)));
    assert!(!loaded.is_modified_since_load(Some(49)));
    assert!(loaded.is_modified_since_load(Some(51)));
}

#[test]
fn successful_reload_replaces_the_snapshot() {
    let mut loaded =
        LoadedConfig::new(config_with(vec![SliderMappings { id: 1, target: VolumeTarget::Master }], 10_000), 50, 0)
            .unwrap();
    let next = config_with(vec![SliderMappings { id: 4, target: VolumeTarget::CurrentApp }], 100_000);
    assert_eq!(loaded.reload_with(Ok(next), 60), Ok(true));
    assert!(loaded.target_for(1).is_none());
    assert!(matches!(loaded.target_for(4), Some(VolumeTarget::CurrentApp)));
    assert_eq!(loaded.general.volume_step, 100_000);
    assert_eq!(loaded.last_modified, 60);
}
