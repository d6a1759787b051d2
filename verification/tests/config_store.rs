use s3_client::config::{AppConfig, ConfigError, LoadedConfig};
use s3_client::models::OssConfig;
use s3_client::settings::{AppSettings, ContextMenuSettings};

fn entry(id: &str, name: &str, sort: i64) -> OssConfig {
    OssConfig {
        id: id.to_string(),
        name: name.to_string(),
        sort,
        ..OssConfig::default()
    }
}

fn loaded(oss: Vec<OssConfig>) -> AppConfig {
    AppConfig::new(Ok(LoadedConfig {
        oss,
        db_path: "/tmp/config.sqlite".to_string(),
        key_path: "/tmp/secret.key".to_string(),
    }))
}

fn ids(config: &AppConfig) -> Vec<String> {
    config.list().unwrap().into_iter().map(|c| c.id).collect()
}

#[test]
fn default_config_uses_cn_north_region() {
    let c = OssConfig::default();
    assert_eq!(c.region, "cn-north-1");
    assert_eq!(c.id, "");
    assert_eq!(c.sort, 0);
}

#[test]
fn loaded_configs_are_listed_by_sort_then_name() {
    let config = loaded(vec![entry("c", "zeta", 2000), entry("a", "beta", 1000), entry("b", "alpha", 2000)]);
    assert_eq!(ids(&config), vec!["a", "b", "c"]);
}

#[test]
fn failed_load_reports_its_error_everywhere() {
    let mut config = AppConfig::new(Err("boom".to_string()));
    assert_eq!(config.get("a").unwrap_err(), ConfigError::Init("boom".to_string()));
    assert_eq!(config.list().unwrap_err(), ConfigError::Init("boom".to_string()));
    assert_eq!(config.update(entry("a", "x", 1)).unwrap_err(), ConfigError::Init("boom".to_string()));
    assert_eq!(config.remove("a").unwrap_err().message(), "boom");
}

#[test]
fn get_finds_by_id_or_reports_not_found() {
    let config = loaded(vec![entry("a", "one", 1000), entry("b", "two", 2000)]);
    assert_eq!(config.get("b").unwrap().name, "two");
    assert_eq!(config.get("z").unwrap_err(), ConfigError::NotFound);
    assert_eq!(ConfigError::NotFound.message(), "未找到该配置");
}

#[test]
fn update_then_get_returns_stored_config() {
    let mut config = loaded(vec![entry("a", "one", 1000), entry("b", "two", 2000)]);
    config.update(entry("c", "three", 0)).unwrap();
    let stored = config.get("c").unwrap();
    assert_eq!(stored.name, "three");
    assert_eq!(stored.sort, 3000);
    assert_eq!(ids(&config), vec!["a", "b", "c"]);
}

#[test]
fn update_replaces_existing_id_and_keeps_sort() {
    let mut config = loaded(vec![entry("a", "one", 1000), entry("b", "two", 2000)]);
    config.update(entry("a", "uno", 5000)).unwrap();
    assert_eq!(config.list().unwrap().len(), 2);
    assert_eq!(config.get("a").unwrap().name, "uno");
    assert_eq!(ids(&config), vec!["b", "a"]);
}

#[test]
fn first_config_is_placed_at_one_thousand() {
    let mut config = loaded(vec![]);
    config.update(entry("a", "one", 0)).unwrap();
    assert_eq!(config.get("a").unwrap().sort, 1000);
}

#[test]
fn remove_drops_the_config_and_rejects_unknown_ids() {
    let mut config = loaded(vec![entry("a", "one", 1000), entry("b", "two", 2000)]);
    assert_eq!(config.remove("z").unwrap_err(), ConfigError::NotFound);
    config.remove("a").unwrap();
    assert_eq!(config.get("a").unwrap_err(), ConfigError::NotFound);
    assert_eq!(ids(&config), vec!["b"]);
}

#[test]
fn sort_order_follows_the_given_ids() {
    let mut config = loaded(vec![entry("a", "one", 1000), entry("b", "two", 2000), entry("c", "three", 3000)]);
    config
        .update_sort_order(vec!["c".to_string(), "a".to_string(), "b".to_string()])
        .unwrap();
    assert_eq!(ids(&config), vec!["c", "a", "b"]);
    assert_eq!(config.get("c").unwrap().sort, 1000);
    assert_eq!(config.get("b").unwrap().sort, 3000);
}

#[test]
fn sort_order_ignores_unknown_ids_and_keeps_unnamed_sorts() {
    let mut config = loaded(vec![entry("a", "one", 1500), entry("b", "two", 2500)]);
    config
        .update_sort_order(vec!["zz".to_string(), "b".to_string()])
        .unwrap();
    assert_eq!(config.get("b").unwrap().sort, 2000);
    assert_eq!(config.get("a").unwrap().sort, 1500);
    assert_eq!(ids(&config), vec!["a", "b"]);
}

#[test]
fn readiness_reports_the_paths() {
    let config = loaded(vec![]);
    let (db, key) = config.ensure_ready().unwrap();
    assert_eq!(db, "/tmp/config.sqlite");
    assert_eq!(key, "/tmp/secret.key");
}

#[test]
fn flags_are_stored_as_one_and_zero() {
    assert_eq!(AppConfig::bool_to_i64(true), 1);
    assert_eq!(AppConfig::bool_to_i64(false), 0);
    assert!(AppConfig::i64_to_bool(7));
    assert!(!AppConfig::i64_to_bool(0));
    assert!(AppConfig::skipped_from_row(Some(1)));
    assert!(!AppConfig::skipped_from_row(Some(0)));
    assert!(!AppConfig::skipped_from_row(None));
}

#[test]
fn settings_round_trip_through_columns() {
    let mut settings = AppSettings::default();
    settings.file_context_menu.share = false;
    settings.directory_context_menu.parquet_to_excel = false;
    let cols = settings.to_columns();
    assert_eq!(cols.len(), 16);
    assert_eq!(cols[4], 0);
    assert_eq!(cols[15], 0);
    assert_eq!(cols[0], 1);
    assert_eq!(AppSettings::from_columns(&cols), settings);
}

#[test]
fn missing_settings_row_gives_defaults() {
    let all = ContextMenuSettings::default();
    assert!(all.download && all.rename && all.move_item && all.duplicate);
    assert!(all.share && all.delete && all.copy_path && all.parquet_to_excel);
    assert_eq!(AppSettings::from_stored_row(None), AppSettings::default());
    let row = vec![0; 16];
    let none = AppSettings::from_stored_row(Some(row));
    assert!(!none.file_context_menu.download && !none.directory_context_menu.delete);
}

#[test]
fn default_store_is_not_initialised() {
    let c = AppConfig::default();
    assert_eq!(c.ensure_ready().err(), Some(ConfigError::DatabaseNotInitialized));
    assert_eq!(c.list().err(), Some(ConfigError::DatabaseNotInitialized));
    assert_eq!(c.get("a").err(), Some(ConfigError::DatabaseNotInitialized));
}
