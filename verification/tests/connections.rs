use stryke_mssql::cache::{Cache, Event, Move};
use stryke_mssql::config::{
    config_for, config_from_options, config_from_reading, encryption_level,
    sets_both_trust_options, Encryption,
};
use stryke_mssql::conn::{conn_key, same_key, ConnKey};
use stryke_mssql::json::Json;

fn json(text: &str) -> Json {
    Json::parse(text.as_bytes()).unwrap()
}

fn key(text: &str) -> ConnKey {
    conn_key(&json(text))
}

#[test]
fn conn_key_defaults() {
    let k = key(r#"{"host": "db"}"#);
    assert_eq!(k.host, "db");
    assert_eq!(k.port, 1433);
    assert_eq!(k.encrypt, "required");
    assert!(!k.trust);
}

#[test]
fn a_key_of_defaults_alone() {
    for text in ["{}", "null", "[]", "\"url\""] {
        let k = key(text);
        assert_eq!(k.url, "");
        assert_eq!(k.host, "127.0.0.1");
        assert_eq!(k.port, 1433);
        assert_eq!(k.database, "");
        assert_eq!(k.username, "");
        assert_eq!(k.password, "");
        assert_eq!(k.encrypt, "required");
        assert!(!k.trust);
    }
}

#[test]
fn a_key_takes_every_option() {
    let k = key(
        r#"{"url": "u", "host": "h", "port": 99, "database": "d", "username": "n",
            "password": "p", "encrypt": "off", "trust_cert": true, "sql": "x"}"#,
    );
    assert_eq!(k.url, "u");
    assert_eq!(k.host, "h");
    assert_eq!(k.port, 99);
    assert_eq!(k.database, "d");
    assert_eq!(k.username, "n");
    assert_eq!(k.password, "p");
    assert_eq!(k.encrypt, "off");
    assert!(k.trust);
}

#[test]
fn options_of_the_wrong_type_are_missing() {
    let k = key(r#"{"host": 1, "port": "99", "encrypt": null, "trust_cert": "yes"}"#);
    assert_eq!(k.host, "127.0.0.1");
    assert_eq!(k.port, 1433);
    assert_eq!(k.encrypt, "required");
    assert!(!k.trust);
    assert_eq!(key(r#"{"port": -1}"#).port, 1433);
    assert_eq!(key(r#"{"port": 99.0}"#).port, 1433);
}

#[test]
fn a_certificate_is_trusted_by_true_or_1() {
    assert!(key(r#"{"host": "localhost", "trust_cert": 1}"#).trust);
    assert!(key(r#"{"trust_cert": true}"#).trust);
    assert!(!key(r#"{"trust_cert": -7}"#).trust);
    assert!(!key(r#"{"trust_cert": 2}"#).trust);
    assert!(!key(r#"{"trust_cert": 0}"#).trust);
    assert!(!key(r#"{"trust_cert": false}"#).trust);
    assert!(!key(r#"{"trust_cert": null}"#).trust);
    assert!(!key(r#"{"trust_cert": "1"}"#).trust);
}

#[test]
fn a_port_is_taken_modulo_its_range() {
    assert_eq!(key(r#"{"port": 65535}"#).port, 65535);
    assert_eq!(key(r#"{"port": 65536}"#).port, 0);
    assert_eq!(key(r#"{"port": 70000}"#).port, 4464);
    assert_eq!(key(r#"{"port": 18446744073709551615}"#).port, 65535);
}

#[test]
fn a_key_does_not_depend_on_other_fields() {
    let a = key(r#"{"host": "h", "sql": "SELECT 1"}"#);
    let b = key(r#"{"params": [1], "host": "h"}"#);
    assert!(same_key(&a, &b));
    assert!(!same_key(&a, &key(r#"{"host": "h", "trust_cert": true}"#)));
    assert!(!same_key(&a, &key(r#"{"host": "h", "port": 1}"#)));
}

#[test]
fn encryption_levels() {
    assert_eq!(encryption_level("off"), Encryption::Off);
    assert_eq!(encryption_level("not_supported"), Encryption::NotSupported);
    assert_eq!(encryption_level("required"), Encryption::Required);
    assert_eq!(encryption_level("OFF"), Encryption::Required);
    assert_eq!(encryption_level(""), Encryption::Required);
}

#[test]
fn a_configuration_from_options() {
    let config = config_for(&key(
        r#"{"host": "h", "port": 99, "database": "d", "username": "n", "password": "p",
            "encrypt": "not_supported", "trust_cert": true}"#,
    ))
    .unwrap();
    assert_eq!(config.get_addr(), "h:99");
    let shown = format!("{config:?}");
    assert!(shown.contains("host: Some(\"h\")"), "{shown}");
    assert!(shown.contains("port: Some(99)"), "{shown}");
    assert!(shown.contains("database: Some(\"d\")"), "{shown}");
    assert!(shown.contains("encryption: NotSupported"), "{shown}");
    assert!(shown.contains("trust: TrustAll"), "{shown}");
    assert!(shown.contains("user: \"n\""), "{shown}");
}

#[test]
fn a_configuration_from_defaults() {
    let config = config_for(&key("{}")).unwrap();
    assert_eq!(config.get_addr(), "127.0.0.1:1433");
    let shown = format!("{config:?}");
    assert!(shown.contains("database: None"), "{shown}");
    assert!(shown.contains("encryption: Required"), "{shown}");
    assert!(shown.contains("trust: Default"), "{shown}");
    let off = format!("{:?}", config_for(&key(r#"{"encrypt": "off"}"#)).unwrap());
    assert!(off.contains("encryption: Off"), "{off}");
}

#[test]
fn a_connection_string_replaces_the_options() {
    let config = config_for(&key(
        r#"{"url": "Server=tcp:db,1500;Database=app;User Id=sa;Password=x", "host": "h"}"#,
    ))
    .unwrap();
    assert_eq!(config.get_addr(), "db:1500");
    let shown = format!("{config:?}");
    assert!(shown.contains("database: Some(\"app\")"), "{shown}");
    assert!(shown.contains("user: \"sa\""), "{shown}");
}

#[test]
fn a_connection_string_that_cannot_be_read() {
    let failure = config_for(&key(r#"{"url": "Server=tcp:db,x"}"#)).unwrap_err();
    let message = failure.message();
    assert!(message.starts_with("parse url: "), "{message}");
    assert!(message.len() > "parse url: ".len(), "{message}");
}

#[test]
fn a_reading_becomes_a_configuration_or_a_failure() {
    let config = config_from_options(&key(r#"{"host": "h", "port": 7, "url": "u"}"#));
    assert_eq!(config.get_addr(), "h:7");
    assert_eq!(config_from_reading(Ok(config)).unwrap().get_addr(), "h:7");
    let error = tiberius::error::Error::Utf8;
    let text = error.to_string();
    let failure = config_from_reading(Err(error)).unwrap_err();
    assert_eq!(failure.message(), format!("parse url: {text}"));
}

#[test]
fn connection_strings_with_both_trust_options() {
    assert!(sets_both_trust_options(
        "TrustServerCertificate=true;TrustServerCertificateCA=/ca.pem"
    ));
    assert!(sets_both_trust_options(
        "trustservercertificateca=x;Server=db; TrustServerCertificate = 'Yes' "
    ));
    assert!(!sets_both_trust_options(
        "TrustServerCertificate=false;TrustServerCertificateCA=/ca.pem"
    ));
    assert!(sets_both_trust_options(
        "{TrustServer}Certificate=\"tr\nue\";'TrustServerCertificateCA'=x"
    ));
    assert!(!sets_both_trust_options(
        "TrustServerCertificate=true;Application Name=TrustServerCertificateCA"
    ));
    assert!(!sets_both_trust_options(
        "TrustServerCertificate=true;Application Name=\"a;TrustServerCertificateCA=x\""
    ));
    assert!(!sets_both_trust_options(
        "TrustServerCertificate=yes;TrustServerCertificate=no;TrustServerCertificateCA=x"
    ));
    assert!(sets_both_trust_options(
        "TrustServerCertificate=no;TrustServerCertificate=yes;TrustServerCertificateCA=x"
    ));
    assert!(!sets_both_trust_options(
        "TrustServerCertificate=yes;TrustServerCertificateCA=x;Application Name='a"
    ));
    assert!(!sets_both_trust_options(
        "TrustServerCertificate=yes;TrustServerCertificateCA=\u{e9}"
    ));
    assert!(!sets_both_trust_options("Server=db;TrustServerCertificateCA=true"));
    assert!(!sets_both_trust_options("Server=db;TrustServerCertificate=true"));
    assert!(!sets_both_trust_options("Server=db"));
    assert!(!sets_both_trust_options(""));
}

#[test]
fn a_connection_string_that_only_mentions_an_authority() {
    for name in ["TrustServerCertificateCA", "'a;TrustServerCertificateCA=x'"] {
        let url = format!("Server=db;TrustServerCertificate=true;Application Name={name}");
        let config = config_for(&key(&format!("{{\"url\": \"{url}\"}}"))).unwrap();
        let shown = format!("{config:?}");
        assert!(shown.contains("trust: TrustAll"), "{shown}");
    }
}

#[test]
fn the_last_of_two_options_counts() {
    let url = "TrustServerCertificate=yes;TrustServerCertificate=no;TrustServerCertificateCA=x";
    let config = config_for(&key(&format!("{{\"url\": \"{url}\"}}"))).unwrap();
    let shown = format!("{config:?}");
    assert!(shown.contains("CaCertificateLocation(\"x\")"), "{shown}");
}

#[test]
fn a_connection_string_with_an_authority() {
    let url = "Server=db;TrustServerCertificate=no;TrustServerCertificateCA=/ca.pem;Encrypt=true";
    let config = config_for(&key(&format!("{{\"url\": \"{url}\"}}"))).unwrap();
    let shown = format!("{config:?}");
    assert!(shown.contains("CaCertificateLocation(\"/ca.pem\")"), "{shown}");
    assert!(shown.contains("encryption: Required"), "{shown}");
}

fn two_keys() -> (ConnKey, ConnKey) {
    (key(r#"{"host": "a"}"#), key(r#"{"host": "b"}"#))
}

#[test]
fn a_connection_is_opened_once_and_reused() {
    let mut cache: Cache<u32> = Cache::new();
    let (a, b) = two_keys();
    assert_eq!(cache.advance(&a, Event::Asked), Move::Connect);
    assert_eq!(cache.find(&a), None);
    assert_eq!(cache.advance(&a, Event::Opened(1)), Move::Run);
    assert_eq!(cache.advance(&b, Event::Opened(2)), Move::Run);
    assert_eq!(cache.advance(&a, Event::Ended { failed: false }), Move::Report);
    assert_eq!(cache.advance(&a, Event::Asked), Move::Run);
    assert_eq!(cache.find(&a), Some(&1));
    assert_eq!(cache.find(&b), Some(&2));
    assert_eq!(cache.advance(&a, Event::Opened(3)), Move::Run);
    assert_eq!(cache.find(&a), Some(&3));
    assert_eq!(cache.find(&b), Some(&2));
}

#[test]
fn a_connection_that_failed_is_dropped() {
    let mut cache: Cache<u32> = Cache::new();
    let (a, b) = two_keys();
    cache.advance(&a, Event::Opened(1));
    cache.advance(&b, Event::Opened(2));
    assert_eq!(cache.advance(&a, Event::Ended { failed: true }), Move::Report);
    assert_eq!(cache.find(&a), None);
    assert_eq!(cache.find(&b), Some(&2));
    assert_eq!(cache.advance(&a, Event::Asked), Move::Connect);
    assert_eq!(cache.advance(&a, Event::Ended { failed: true }), Move::Report);
    assert_eq!(cache.find(&b), Some(&2));
}

#[test]
fn a_connection_that_could_not_be_opened_is_tried_again() {
    let mut cache: Cache<u32> = Cache::new();
    let (a, b) = two_keys();
    cache.advance(&b, Event::Opened(2));
    assert_eq!(cache.advance(&a, Event::Refused), Move::Report);
    assert_eq!(cache.advance(&a, Event::Asked), Move::Connect);
    assert_eq!(cache.find(&b), Some(&2));
}

#[test]
fn a_copy_of_a_key_is_equal() {
    let k = key(r#"{"url": "u", "host": "h", "port": 9, "password": "p", "trust_cert": true}"#);
    assert!(same_key(&k.copy(), &k));
}
