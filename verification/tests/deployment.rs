use udp_relay::client::Client;
use udp_relay::command::{check_for_command, Message};
use udp_relay::deployment::Environment;

#[test]
fn production_is_asked_for_by_name() {
    assert_eq!(Environment::from_str("production"), Environment::Production);
}

#[test]
fn every_other_name_is_development() {
    for name in ["development", "", "Production", "PRODUCTION", "production ", "prod", "staging"] {
        assert_eq!(Environment::from_str(name), Environment::Development);
    }
}

#[test]
fn the_address_in_production() {
    assert_eq!(Environment::Production.get_addr("8080"), "fly-global-services:8080");
}

#[test]
fn the_address_under_development() {
    assert_eq!(Environment::Development.get_addr("8080"), "0.0.0.0:8080");
    assert_eq!(Environment::Development.get_addr(""), "0.0.0.0:");
}

#[test]
fn a_client_keeps_what_it_was_given() {
    let c = Client::new(
        "relay.example:8080".to_string(),
        "127.0.0.1:8081".to_string(),
        "cyz".to_string(),
    );
    assert_eq!(c.remote_addr(), "relay.example:8080");
    assert_eq!(c.local_addr(), "127.0.0.1:8081");
    assert_eq!(c.key(), "cyz");
}

#[test]
fn the_connect_request_of_a_client() {
    let c = Client::new("r:1".to_string(), "l:2".to_string(), "cyz".to_string());
    assert_eq!(c.connect_request(), b"CONNECT cyz".to_vec());
    let c = Client::new("r:1".to_string(), "l:2".to_string(), String::new());
    assert_eq!(c.connect_request(), b"CONNECT ".to_vec());
    let c = Client::new("r:1".to_string(), "l:2".to_string(), "\u{fc}ber".to_string());
    assert_eq!(c.connect_request(), "CONNECT \u{fc}ber".as_bytes().to_vec());
}

#[test]
fn a_key_of_two_words_joins_a_session() {
    let c = Client::new("r:1".to_string(), "l:2".to_string(), "S room1".to_string());
    assert_eq!(
        check_for_command(&c.connect_request()),
        Message::Connect { secret: b"S".to_vec(), session: b"room1".to_vec() }
    );
    let c = Client::new("r:1".to_string(), "l:2".to_string(), "cyz".to_string());
    assert_eq!(check_for_command(&c.connect_request()), Message::Data);
}
