use synac_client::address::Address;
use synac_client::connect::{Connect, ConnectError, Input, Phase, Step};

fn opened(fingerprint: &str) -> Input {
    Input::Opened { fingerprint: fingerprint.to_string() }
}

fn accepted() -> Input {
    Input::Accepted { user: 12, token: "fresh".to_string() }
}

fn with_token() -> Connect {
    Connect::new("ABCD".to_string(), Some("cached".to_string()))
}

fn without_token() -> Connect {
    Connect::new("ABCD".to_string(), None)
}

fn addr() -> Address {
    Address::V4 { ip: 1, port: 2 }
}

#[test]
fn a_wrong_fingerprint_fails_before_the_token_is_sent() {
    let mut connect = with_token();
    assert_eq!(connect.step(opened("EVIL")), Step::Failed(ConnectError::FingerprintMismatch));
    assert_eq!(connect.phase(), &Phase::Failed(ConnectError::FingerprintMismatch));
    assert_eq!(connect.error(), Some(ConnectError::FingerprintMismatch));
    assert!(connect.session(addr(), 10).is_none());
    assert_eq!(connect.step(accepted()), Step::Failed(ConnectError::FingerprintMismatch));
    assert_eq!(connect.step(opened("ABCD")), Step::Failed(ConnectError::FingerprintMismatch));
    assert!(connect.session(addr(), 10).is_none());
}

#[test]
fn a_wrong_fingerprint_fails_without_a_token_too() {
    let mut connect = without_token();
    assert_eq!(connect.step(opened("abcd")), Step::Failed(ConnectError::FingerprintMismatch));
    assert!(connect.session(addr(), 10).is_none());
}

#[test]
fn a_good_token_opens_the_session() {
    let mut connect = with_token();
    assert_eq!(connect.phase(), &Phase::Opening);
    assert_eq!(connect.error(), None);
    assert_eq!(connect.step(opened("ABCD")), Step::LoginWithToken("cached".to_string()));
    assert_eq!(connect.phase(), &Phase::TokenSent);
    assert!(connect.session(addr(), 10).is_none());
    assert_eq!(connect.step(accepted()), Step::Established { user: 12, token: "fresh".to_string() });
    assert_eq!(connect.phase(), &Phase::Established { user: 12, token: "fresh".to_string() });
    let session = connect.session(addr(), 10).expect("a session");
    assert_eq!(session.user, 12);
    assert_eq!(session.addr, addr());
    assert!(session.connected);
    assert_eq!(session.current_channel, None);
    assert_eq!(connect.error(), None);
}

#[test]
fn a_rejected_token_leads_to_the_password() {
    let mut connect = with_token();
    connect.step(opened("ABCD"));
    assert_eq!(connect.step(Input::Rejected), Step::AskPassword);
    assert_eq!(connect.phase(), &Phase::AskingPassword);
    assert_eq!(
        connect.step(Input::Password(Some("hunter2".to_string()))),
        Step::LoginWithPassword("hunter2".to_string())
    );
    assert_eq!(connect.phase(), &Phase::PasswordSent);
    assert_eq!(connect.step(accepted()), Step::Established { user: 12, token: "fresh".to_string() });
}

#[test]
fn without_a_token_the_password_is_asked_for_at_once() {
    let mut connect = without_token();
    assert_eq!(connect.step(opened("ABCD")), Step::AskPassword);
    assert_eq!(
        connect.step(Input::Password(Some("hunter2".to_string()))),
        Step::LoginWithPassword("hunter2".to_string())
    );
    assert_eq!(connect.step(accepted()), Step::Established { user: 12, token: "fresh".to_string() });
}

#[test]
fn a_rejected_password_is_final() {
    let mut connect = without_token();
    connect.step(opened("ABCD"));
    connect.step(Input::Password(Some("wrong".to_string())));
    assert_eq!(connect.step(Input::Rejected), Step::Failed(ConnectError::AuthRejected));
    assert_eq!(connect.error(), Some(ConnectError::AuthRejected));
    assert_eq!(connect.step(accepted()), Step::Failed(ConnectError::AuthRejected));
    assert!(connect.session(addr(), 10).is_none());
}

#[test]
fn a_declined_password_is_a_rejection() {
    let mut connect = without_token();
    connect.step(opened("ABCD"));
    assert_eq!(connect.step(Input::Password(None)), Step::Failed(ConnectError::AuthRejected));
}

#[test]
fn a_broken_transport_fails_every_phase() {
    let mut connect = with_token();
    assert_eq!(connect.step(Input::TransportFailed), Step::Failed(ConnectError::TransportFailure));

    let mut connect = with_token();
    connect.step(opened("ABCD"));
    assert_eq!(connect.step(Input::TransportFailed), Step::Failed(ConnectError::TransportFailure));

    let mut connect = without_token();
    connect.step(opened("ABCD"));
    assert_eq!(connect.step(Input::TransportFailed), Step::Failed(ConnectError::TransportFailure));

    let mut connect = without_token();
    connect.step(opened("ABCD"));
    connect.step(Input::Password(Some("p".to_string())));
    assert_eq!(connect.step(Input::TransportFailed), Step::Failed(ConnectError::TransportFailure));
    assert_eq!(connect.error(), Some(ConnectError::TransportFailure));
}

#[test]
fn what_has_no_place_in_the_handshake_fails_it() {
    let mut connect = with_token();
    assert_eq!(connect.step(accepted()), Step::Failed(ConnectError::ProtocolViolation));

    let mut connect = with_token();
    assert_eq!(connect.step(Input::Malformed), Step::Failed(ConnectError::ProtocolViolation));

    let mut connect = with_token();
    connect.step(opened("ABCD"));
    assert_eq!(connect.step(Input::Malformed), Step::Failed(ConnectError::ProtocolViolation));

    let mut connect = with_token();
    connect.step(opened("ABCD"));
    assert_eq!(connect.step(opened("ABCD")), Step::Failed(ConnectError::ProtocolViolation));

    let mut connect = without_token();
    connect.step(opened("ABCD"));
    assert_eq!(connect.step(Input::Rejected), Step::Failed(ConnectError::ProtocolViolation));

    let mut connect = without_token();
    connect.step(opened("ABCD"));
    connect.step(Input::Password(Some("p".to_string())));
    assert_eq!(
        connect.step(Input::Password(Some("p".to_string()))),
        Step::Failed(ConnectError::ProtocolViolation)
    );
    assert_eq!(connect.error(), Some(ConnectError::ProtocolViolation));
}

#[test]
fn an_open_session_stays_open() {
    let mut connect = with_token();
    connect.step(opened("ABCD"));
    connect.step(accepted());
    assert_eq!(connect.step(Input::Rejected), Step::Established { user: 12, token: "fresh".to_string() });
    assert_eq!(connect.step(Input::TransportFailed), Step::Established { user: 12, token: "fresh".to_string() });
    assert!(connect.session(addr(), 10).is_some());
}
