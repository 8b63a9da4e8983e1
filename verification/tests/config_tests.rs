use trojan_ui::config::{
    config_dir, config_file_name, is_config_file_name, saved_config_file_name, Config,
};

#[test]
fn default_config() {
    let c = Config::default();
    assert_eq!(c.remarks, "test");
    assert_eq!(c.server, "192.168.1.100");
    assert_eq!(c.server_port, 443);
    assert_eq!(c.client, "127.0.0.1");
    assert_eq!(c.client_port, 1080);
    assert_eq!(c.sni, "example.com");
    assert_eq!(c.password, "123456");
    assert!(c.verify);
}

#[test]
fn config_dir_under_home() {
    assert_eq!(config_dir(Some("/home/me")), Some("/home/me/trui".to_string()));
    assert_eq!(config_dir(Some("/home/me/")), Some("/home/me/trui".to_string()));
    assert_eq!(config_dir(None), None);
}

#[test]
fn config_file_names() {
    assert!(is_config_file_name("client_home.json"));
    assert!(is_config_file_name("client_.json"));
    assert!(!is_config_file_name("client.json"));
    assert!(!is_config_file_name("config-1.json"));
    assert!(!is_config_file_name("client_home.json.bak"));
    assert!(!is_config_file_name("client_home.jsn"));
}

#[test]
fn saved_file_is_found_again() {
    // law: a saved configuration's file name is one that the scan loads
    let name = config_file_name("20240101120000-000001");
    assert_eq!(name, "client_20240101120000-000001.json");
    assert!(is_config_file_name(&name));
    assert!(is_config_file_name(&config_file_name("")));
}

#[test]
fn saved_names_carry_the_utc_stamp() {
    assert_eq!(
        saved_config_file_name(0, 1),
        Some("client_19700101000000-000000001.json".to_string())
    );
    assert_eq!(
        saved_config_file_name(1_700_000_000, 26_490_000),
        Some("client_20231114221320-026490000.json".to_string())
    );
    assert_eq!(saved_config_file_name(i64::MAX, 0), None);
    assert_eq!(saved_config_file_name(0, 2_000_000_000), None);
    assert!(is_config_file_name(&saved_config_file_name(1_700_000_000, 0).unwrap()));
}
