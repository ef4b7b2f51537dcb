use onlyati_datastore::config::{Builder, Config};

#[test]
fn config_test() {
    let config = Builder::new()
        .enable_hook_manager()
        .set_database_name("asd".to_string())
        .build();

    let config2 = Config {
        db_name: "asd".to_string(),
        start_hook_manager: true,
    };

    assert_eq!(config2, config);
}

#[test]
fn config_defaults() {
    let config = Builder::new().build();
    assert_eq!("root", config.db_name.as_str());
    assert!(!config.start_hook_manager);

    let config = Builder::new()
        .enable_hook_manager()
        .disable_hook_manager()
        .build();
    assert!(!config.start_hook_manager);
}
