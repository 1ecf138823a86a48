use yarw_core::config::{Config, ConfigError, Defaults};

#[test]
fn update_defaults_replaces_values() {
    let mut config = Config::default();
    assert_eq!(config.defaults.wineroot_path, "");
    config.update_defaults(Defaults { wineroot_path: "/opt/wine".to_string() });
    assert_eq!(config.defaults.wineroot_path, "/opt/wine");
}

#[test]
fn config_round_trip() {
    let mut config = Config::default();
    config.update_defaults(Defaults { wineroot_path: "/home/user/.wine".to_string() });
    let bytes = config.serialize();
    let back = Config::from_snapshot(Some(bytes)).unwrap();
    assert_eq!(back, config);
}

#[test]
fn config_without_prior_snapshot_is_default() {
    let config = Config::from_snapshot(None).unwrap();
    assert_eq!(config, Config::default());
}

#[test]
fn malformed_config_record_is_codec_error() {
    let r = Config::deserialize(&[9, 9]);
    assert!(matches!(r, Err(ConfigError::CodecError(_))));
    let mut bytes = Config::default().serialize();
    bytes.push(0);
    let r2 = Config::deserialize(&bytes);
    assert!(matches!(r2, Err(ConfigError::CodecError(_))));
}
