use fractal_worker::config::{Config, ConfigError, ConfigManager, FuncConfig};

#[test]
fn defaults_are_as_documented() {
    assert_eq!(Config::default_width(), 1024);
    assert_eq!(Config::default_height(), 1024);
    assert_eq!(Config::default_chunk_size(), 32);
    assert_eq!(FuncConfig::default_name(), "default");
}

#[test]
fn new_manager_has_no_file_and_default_settings() {
    let m = ConfigManager::new(640, 480, "libfrac.so", "libcolor.so");
    assert_eq!(m.config_path(), None);
    let c = m.config();
    assert_eq!(c.width, 640);
    assert_eq!(c.height, 480);
    assert_eq!(c.chunk_size, 32);
    assert_eq!(c.fractal_config.path, "libfrac.so");
    assert_eq!(c.fractal_config.name, "default");
    assert!(c.fractal_config.options.is_empty());
    assert_eq!(c.color_config.path, "libcolor.so");
    assert_eq!(c.color_config.name, "default");
    assert!(c.color_config.options.is_empty());
}

#[test]
fn save_without_file_is_invalid_path() {
    let m = ConfigManager::new(10, 10, "a", "b");
    let r = m.save();
    assert_eq!(r, Err(ConfigError::InvalidPath));
    assert_eq!(ConfigError::InvalidPath.message(), "invalid path, missing parent");
}

#[test]
fn save_as_success_moves_the_file() {
    let mut m = ConfigManager::new(10, 10, "a", "b");
    let before = m.config().clone();
    let r: Result<(), String> = m.save_as("/tmp/conf.yaml", Ok(()));
    assert_eq!(r, Ok(()));
    assert_eq!(m.config_path(), Some("/tmp/conf.yaml"));
    assert_eq!(m.save(), Ok("/tmp/conf.yaml"));
    assert_eq!(m.config(), &before);
}

#[test]
fn save_as_failure_keeps_the_old_file() {
    let mut m = ConfigManager::new(10, 10, "a", "b");
    let _: Result<(), String> = m.save_as("/tmp/first.yaml", Ok(()));
    let r: Result<(), String> = m.save_as("/tmp/second.yaml", Err("disk full".to_owned()));
    assert_eq!(r, Err("disk full".to_owned()));
    assert_eq!(m.config_path(), Some("/tmp/first.yaml"));
}

#[test]
fn update_changes_config_and_keeps_file() {
    let base = ConfigManager::new(10, 20, "a", "b");
    let mut m = ConfigManager::from_parts(Some("/x.yaml".to_owned()), base.config().clone());
    m.update(|mut c: Config| {
        c.width = 99;
        c
    });
    assert_eq!(m.config().width, 99);
    assert_eq!(m.config().height, 20);
    assert_eq!(m.config_path(), Some("/x.yaml"));
}
