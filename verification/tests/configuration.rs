//! The observer's configuration.
use chainhook_hord::config::{
    generate_config, locate_config, ConfigLocation, EventHandler, EventObserverConfig,
    EventObserverConfigFile, CONFIG_FILE_NAME,
};

#[test]
fn defaults_fill_what_a_file_leaves_open() {
    let config = EventObserverConfig::from_config_file(EventObserverConfigFile::default());
    assert!(config.normalization_enabled);
    assert!(!config.grpc_server_enabled);
    assert!(!config.hooks_enabled);
    assert!(!config.bitcoin_rpc_proxy_enabled);
    assert!(config.event_handlers.is_empty());
    let hooks = config.chainhook_config.unwrap();
    assert!(hooks.stacks_chainhooks.is_empty() && hooks.bitcoin_chainhooks.is_empty());
    assert_eq!(config.ingestion_port, 20455);
    assert_eq!(config.control_port, 20456);
    assert_eq!(config.bitcoin_node_username, "");
    assert_eq!(config.operators.len(), 0);
    assert!(config.display_logs);
    assert_eq!(config.cache_path, "cache");
}

#[test]
fn choices_in_a_file_are_kept() {
    let config = EventObserverConfig::from_config_file(EventObserverConfigFile {
        normalization_enabled: Some(false),
        grpc_server_enabled: Some(true),
        hooks_enabled: Some(true),
        bitcoin_rpc_proxy_enabled: Some(true),
        webhooks: Some(vec![String::from("http://a"), String::from("http://b")]),
        ingestion_port: Some(1),
        control_port: Some(2),
        bitcoin_node_username: String::from("user"),
        bitcoin_node_password: String::from("word"),
        bitcoin_node_rpc_url: String::from("http://c"),
        stacks_node_rpc_url: String::from("http://d"),
        operators: Some(vec![String::from("k1"), String::from("k2"), String::from("k1")]),
        cache_path: Some(String::from("here")),
    });
    assert!(!config.normalization_enabled);
    assert!(config.grpc_server_enabled && config.hooks_enabled && config.bitcoin_rpc_proxy_enabled);
    assert_eq!(config.event_handlers.len(), 2);
    match &config.event_handlers[1] {
        EventHandler::WebHook(address) => assert_eq!(address, "http://b"),
    }
    assert_eq!((config.ingestion_port, config.control_port), (1, 2));
    assert_eq!(config.bitcoin_node_username, "user");
    assert_eq!(config.bitcoin_node_password, "word");
    assert_eq!(config.bitcoin_node_rpc_url, "http://c");
    assert_eq!(config.stacks_node_rpc_url, "http://d");
    assert_eq!(config.operators.len(), 2);
    assert!(config.operators.contains("k1") && config.operators.contains("k2"));
    assert!(!config.operators.contains("k3"));
    assert_eq!(config.cache_path, "here");
}

#[test]
fn configurations_are_located() {
    assert_eq!(CONFIG_FILE_NAME, "Observer.toml");
    let levels = vec![false, true, true];
    assert!(matches!(locate_config(Some(true), &levels), ConfigLocation::Given));
    assert!(matches!(locate_config(Some(false), &levels), ConfigLocation::NotFound));
    assert!(matches!(locate_config(None, &levels), ConfigLocation::Ancestor(1)));
    assert!(matches!(locate_config(None, &vec![true]), ConfigLocation::Ancestor(0)));
    assert!(matches!(locate_config(None, &vec![false]), ConfigLocation::NotFound));
    assert!(matches!(locate_config(None, &vec![]), ConfigLocation::NotFound));
}

#[test]
fn generated_configuration() {
    let conf = generate_config();
    let expected = r#"
[storage]
driver = "redis"
redis_uri = "redis://localhost:6379/"

[chainhooks]
max_stacks_registrations = 500
max_bitcoin_registrations = 500

[network]
mode = "devnet"
bitcoin_node_rpc_url = "http://0.0.0.0:18443"
bitcoin_node_rpc_username = "devnet"
bitcoin_node_rpc_password = "devnet"
stacks_node_rpc_url = "http://0.0.0.0:20443"
"#;
    assert_eq!(conf, expected);
}
