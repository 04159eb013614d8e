use conduktor_kafka_proxy::ErrorKind;
use conduktor_kafka_proxy::auth::Authenticator;
use conduktor_kafka_proxy::client::ClientMessage;
use conduktor_kafka_proxy::client::ListenAction;
use conduktor_kafka_proxy::client::ServerMessage;
use conduktor_kafka_proxy::client::challenge_response;
use conduktor_kafka_proxy::client::hello_outcome;
use conduktor_kafka_proxy::client::listen_step;
use conduktor_kafka_proxy::client::CONTROL_PORT;
use conduktor_kafka_proxy::proxy_state::ProxyState;
use conduktor_kafka_proxy::proxy_state::Url;
use conduktor_kafka_proxy::utils::parse_bootstrap_server;
use conduktor_kafka_proxy::utils::parse_port;
use conduktor_kafka_proxy::utils::well_formed_bootstrap;

#[test]
fn url_new_holds_fields() {
    let u = Url::new("kafka-1.internal".to_string(), 9092);
    assert_eq!(u.host, "kafka-1.internal");
    assert_eq!(u.port, 9092);
    assert_eq!(u, Url::new("kafka-1.internal".to_string(), 9092));
    assert_ne!(u, Url::new("kafka-1.internal".to_string(), 9093));
    assert_ne!(u, Url::new("kafka-2.internal".to_string(), 9092));
}

#[test]
fn parse_port_accepts_digit_strings_in_range() {
    assert_eq!(parse_port("0"), Some(0));
    assert_eq!(parse_port("9092"), Some(9092));
    assert_eq!(parse_port("65535"), Some(65535));
    assert_eq!(parse_port("007"), Some(7));
}

#[test]
fn parse_port_rejects_bad_strings() {
    assert_eq!(parse_port(""), None);
    assert_eq!(parse_port("65536"), None);
    assert_eq!(parse_port("99999999999999999999"), None);
    assert_eq!(parse_port("+1"), None);
    assert_eq!(parse_port("12a"), None);
    assert_eq!(parse_port("-1"), None);
    assert_eq!(parse_port(" 80"), None);
}

#[test]
fn well_formed_bootstrap_decides_the_shape() {
    assert!(well_formed_bootstrap("localhost:9092"));
    assert!(well_formed_bootstrap("localhost:0"));
    assert!(well_formed_bootstrap("10.0.0.1:9092:extra"));
    assert!(well_formed_bootstrap(":9092"));
    assert!(!well_formed_bootstrap("localhost"));
    assert!(!well_formed_bootstrap("localhost:"));
    assert!(!well_formed_bootstrap("localhost:port"));
    assert!(!well_formed_bootstrap("localhost:65536"));
    assert!(!well_formed_bootstrap("malformed !$uri$%"));
}

#[test]
fn parse_bootstrap_server_splits_host_and_port() {
    let u = parse_bootstrap_server("localhost:9092".to_string());
    assert_eq!(u.host, "localhost");
    assert_eq!(u.port, 9092);

    let u = parse_bootstrap_server("10.1.2.3:1".to_string());
    assert_eq!(u.host, "10.1.2.3");
    assert_eq!(u.port, 1);

    // The port is what stands between the first colon and the next one.
    let u = parse_bootstrap_server("host:123:junk".to_string());
    assert_eq!(u.host, "host");
    assert_eq!(u.port, 123);
}

#[test]
fn pool_insert_then_lookup() {
    let mut pool = ProxyState::new(None);
    let b1 = Url::new("10.0.0.1".to_string(), 9092);
    assert!(!pool.contains_broker(b1.clone()));
    assert_eq!(pool.get_remote_port(&b1), None);

    assert!(pool.insert_broker(b1.clone(), 40001));
    assert!(pool.contains_broker(b1.clone()));
    assert_eq!(pool.get_remote_port(&b1), Some(40001));
}

#[test]
fn pool_dedup_first_port_wins() {
    let mut pool = ProxyState::new(Some("abc".to_string()));
    let b = Url::new("10.0.0.1".to_string(), 9092);
    assert!(pool.insert_broker(b.clone(), 40001));
    // A second tunnel for the same broker is not recorded.
    assert!(!pool.insert_broker(b.clone(), 40002));
    assert_eq!(pool.get_remote_port(&b), Some(40001));

    // A different port on the same host is a different broker.
    let b2 = Url::new("10.0.0.1".to_string(), 9093);
    assert!(pool.insert_broker(b2.clone(), 40002));
    assert_eq!(pool.get_remote_port(&b2), Some(40002));
    assert_eq!(pool.get_remote_port(&b), Some(40001));
}

#[test]
fn error_kind_messages() {
    assert_eq!(ErrorKind::Decode.message(), "Error decoding message");
    assert_eq!(ErrorKind::Encode.message(), "Error encoding message");
    assert_eq!(ErrorKind::Io.message(), "IoError");
    assert_eq!(ErrorKind::Protocol.message(), "Protocol error");
    assert_eq!(ErrorKind::UnknownBroker.message(), "Unknown broker");
}

#[test]
fn control_port_matches_deployment() {
    assert_eq!(CONTROL_PORT, 7835);
}

#[test]
fn authenticator_answers_with_hmac_hex() {
    let auth = Authenticator::new("abc");
    let challenge: Vec<u8> = vec![
        0x3d, 0x1f, 0x90, 0x00, 0x11, 0x22, 0x33, 0x44, 0x55, 0x66, 0x77, 0x88, 0x99, 0xaa,
        0xbb, 0xcc,
    ];
    let got = String::from_utf8(auth.answer(&challenge)).unwrap();

    let mut mac =
        <hmac::Hmac<sha2::Sha256> as hmac::KeyInit>::new_from_slice(b"abc").unwrap();
    hmac::Mac::update(&mut mac, &challenge);
    let tag = hmac::Mac::finalize(mac).into_bytes();
    let mut expected = String::new();
    for byte in tag.as_slice() {
        expected.push_str(&format!("{:02x}", byte));
    }
    assert_eq!(got.len(), 64);
    assert_eq!(got, expected);
}

#[test]
fn authenticator_answer_depends_on_secret_and_challenge() {
    let challenge: Vec<u8> = vec![0u8; 16];
    let a1 = Authenticator::new("abc").answer(&challenge);
    let a2 = Authenticator::new("my secret").answer(&challenge);
    assert_ne!(a1, a2);
    let other: Vec<u8> = vec![1u8; 16];
    let a3 = Authenticator::new("abc").answer(&other);
    assert_ne!(a1, a3);
}

#[test]
fn challenge_response_answers_challenges_only() {
    let auth = Authenticator::new("abc");
    let challenge: Vec<u8> = vec![7u8; 16];
    match challenge_response(&auth, &ServerMessage::Challenge(challenge.clone())) {
        Ok(ClientMessage::Authenticate(a)) => {
            assert_eq!(a, auth.answer(&challenge));
        }
        other => panic!("expected an authenticate reply, got {:?}", other.is_ok()),
    }
    assert_eq!(
        challenge_response(&auth, &ServerMessage::Hello(5)).unwrap_err(),
        ErrorKind::Protocol
    );
    assert_eq!(
        challenge_response(&auth, &ServerMessage::Heartbeat).unwrap_err(),
        ErrorKind::Protocol
    );
}

#[test]
fn hello_outcome_accepts_only_hello() {
    assert_eq!(hello_outcome(&Some(ServerMessage::Hello(40001))), Ok(40001));
    assert_eq!(
        hello_outcome(&Some(ServerMessage::Error("server error".to_string()))),
        Err(ErrorKind::Protocol)
    );
    assert_eq!(
        hello_outcome(&Some(ServerMessage::Challenge(vec![0u8; 16]))),
        Err(ErrorKind::Protocol)
    );
    assert_eq!(hello_outcome(&Some(ServerMessage::Heartbeat)), Err(ErrorKind::Protocol));
    assert_eq!(hello_outcome(&None), Err(ErrorKind::Protocol));
}

#[test]
fn listen_step_dispatches_each_message() {
    assert!(matches!(listen_step(&Some(ServerMessage::Heartbeat)), ListenAction::Ignore));
    assert!(matches!(
        listen_step(&Some(ServerMessage::Hello(1))),
        ListenAction::LogUnexpected
    ));
    assert!(matches!(
        listen_step(&Some(ServerMessage::Challenge(vec![1u8; 16]))),
        ListenAction::LogUnexpected
    ));
    assert!(matches!(listen_step(&None), ListenAction::Terminate));
    match listen_step(&Some(ServerMessage::Connection(vec![9u8; 16]))) {
        ListenAction::SpawnFlow(id) => assert_eq!(id, vec![9u8; 16]),
        _ => panic!("expected a spawned flow"),
    }
    match listen_step(&Some(ServerMessage::Error("boom".to_string()))) {
        ListenAction::LogError(e) => assert_eq!(e, "boom"),
        _ => panic!("expected a logged error"),
    }
}
