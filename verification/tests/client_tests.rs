use smtp_relay::client::{
    Address, ClientAction, ClientSession, SendingError, mx_attempt_continues,
};
use smtp_relay::codec::SMTPResponse;
use smtp_relay::imf::{BodyKind, HeaderField};

fn reply(code: u16, lines: &[&str]) -> SMTPResponse {
    let mut resp = SMTPResponse::new(code, lines[0]);
    for line in &lines[1..] {
        resp.add_line(line);
    }
    resp
}

fn session(addresses: Vec<Address>, kind: BodyKind, body: &[u8]) -> ClientSession {
    ClientSession::new(
        "sender@relay.invalid".to_string(),
        addresses,
        "mx.example".to_string(),
        vec![HeaderField { name: "Subject".to_string(), value: "hi".to_string() }],
        kind,
        body.to_vec(),
    )
}

fn addr(local: &str, domain: &str) -> Address {
    Address { local_part: local.to_string(), domain: domain.to_string() }
}

fn line_of(action: ClientAction) -> String {
    match action {
        ClientAction::SendLine(s) => s,
        other => panic!("expected a command line, got {:?}", describe(&other)),
    }
}

fn describe(action: &ClientAction) -> &'static str {
    match action {
        ClientAction::SendLine(_) => "SendLine",
        ClientAction::SendBytes(_) => "SendBytes",
        ClientAction::UpgradeTls(_) => "UpgradeTls",
        ClientAction::Finished => "Finished",
        ClientAction::Fail(_) => "Fail",
    }
}

#[test]
fn banner_classification() {
    let mut s = session(vec![addr("a", "x")], BodyKind::SevenBit, b"hi");
    assert!(matches!(
        s.on_reply(&reply(554, &["go away"])),
        ClientAction::Fail(SendingError::PermanentError(_))
    ));
    let mut s2 = session(vec![addr("a", "x")], BodyKind::SevenBit, b"hi");
    assert!(matches!(
        s2.on_reply(&reply(421, &["later"])),
        ClientAction::Fail(SendingError::TransientError(_))
    ));
    let mut s3 = session(vec![addr("a", "x")], BodyKind::SevenBit, b"hi");
    match s3.on_reply(&reply(299, &["odd"])) {
        ClientAction::Fail(SendingError::PermanentError(text)) => {
            assert_eq!(text, "Bad status code");
        },
        _ => panic!("unknown banner code must fail permanently"),
    }
}

#[test]
fn one_mail_and_two_rcpt_commands_per_group() {
    let mut s = session(vec![addr("a", "x"), addr("b", "x")], BodyKind::SevenBit, b"hi");
    assert_eq!(line_of(s.on_reply(&reply(220, &["banner"]))), "EHLO relay-mx.as207960.net\r\n");
    let mail = line_of(s.on_reply(&reply(250, &["greets"])));
    assert_eq!(mail, "MAIL FROM:<sender@relay.invalid>\r\n");
    let rcpt1 = line_of(s.on_reply(&reply(250, &["ok"])));
    assert_eq!(rcpt1, "RCPT TO:<a@x>\r\n");
    let rcpt2 = line_of(s.on_reply(&reply(250, &["ok"])));
    assert_eq!(rcpt2, "RCPT TO:<b@x>\r\n");
    assert_eq!(line_of(s.on_reply(&reply(251, &["ok"]))), "DATA\r\n");
}

#[test]
fn mail_advertises_8bitmime_when_peer_supports_it() {
    let mut s = session(vec![addr("a", "x")], BodyKind::SevenBit, b"hi");
    s.on_reply(&reply(220, &["banner"]));
    let mail = line_of(s.on_reply(&reply(250, &["greets", "8BITMIME"])));
    assert_eq!(mail, "MAIL FROM:<sender@relay.invalid> BODY=8BITMIME\r\n");
}

#[test]
fn helo_fallback_on_502() {
    let mut s = session(vec![addr("a", "x")], BodyKind::SevenBit, b"hi");
    s.on_reply(&reply(220, &["banner"]));
    assert_eq!(line_of(s.on_reply(&reply(502, &["no ehlo"]))), "HELO relay-mx.as207960.net\r\n");
    let mail = line_of(s.on_reply(&reply(250, &["greets"])));
    assert_eq!(mail, "MAIL FROM:<sender@relay.invalid>\r\n");
}

#[test]
fn starttls_upgrade_renegotiates() {
    let mut s = session(vec![addr("a", "x")], BodyKind::SevenBit, b"hi");
    s.on_reply(&reply(220, &["banner"]));
    assert_eq!(line_of(s.on_reply(&reply(250, &["greets", "STARTTLS"]))), "STARTTLS\r\n");
    match s.on_reply(&reply(220, &["go ahead"])) {
        ClientAction::UpgradeTls(host) => assert_eq!(host, "mx.example"),
        _ => panic!("220 after STARTTLS must upgrade"),
    }
    assert_eq!(line_of(s.tls_started()), "EHLO relay-mx.as207960.net\r\n");
    let mail = line_of(s.on_reply(&reply(250, &["greets"])));
    assert_eq!(mail, "MAIL FROM:<sender@relay.invalid>\r\n");
}

#[test]
fn data_payload_stuffs_dots_and_terminates() {
    let mut s = session(vec![addr("a", "x")], BodyKind::SevenBit, b"line\r\n.dot");
    s.on_reply(&reply(220, &["banner"]));
    s.on_reply(&reply(250, &["greets"]));
    s.on_reply(&reply(250, &["ok"]));
    assert_eq!(line_of(s.on_reply(&reply(250, &["ok"]))), "DATA\r\n");
    match s.on_reply(&reply(354, &["go"])) {
        ClientAction::SendBytes(bytes) => {
            assert_eq!(
                bytes,
                b"Subject: hi\r\n\r\nline\r\n..dot\r\n.\r\n".to_vec()
            );
        },
        _ => panic!("354 must send the payload"),
    }
    assert_eq!(line_of(s.on_reply(&reply(250, &["stored"]))), "QUIT\r\n");
    assert!(matches!(s.on_reply(&reply(221, &["bye"])), ClientAction::Finished));
}

#[test]
fn chunking_peer_gets_bdat() {
    let mut s = session(vec![addr("a", "x")], BodyKind::SevenBit, b"hello");
    s.on_reply(&reply(220, &["banner"]));
    s.on_reply(&reply(250, &["greets", "CHUNKING"]));
    match s.on_reply(&reply(250, &["ok"])) {
        ClientAction::SendLine(rcpt) => assert_eq!(rcpt, "RCPT TO:<a@x>\r\n"),
        _ => panic!("MAIL ok must move to RCPT"),
    }
    match s.on_reply(&reply(250, &["ok"])) {
        ClientAction::SendBytes(bytes) => {
            assert_eq!(bytes, b"BDAT 15\r\nSubject: hi\r\n\r\n".to_vec());
        },
        _ => panic!("chunking peer must get the BDAT header chunk"),
    }
    match s.on_reply(&reply(250, &["ok"])) {
        ClientAction::SendBytes(bytes) => {
            assert_eq!(bytes, b"BDAT 5 LAST\r\nhello".to_vec());
        },
        _ => panic!("then the LAST chunk"),
    }
    assert_eq!(line_of(s.on_reply(&reply(250, &["stored"]))), "QUIT\r\n");
}

#[test]
fn eightbit_body_is_reencoded_for_plain_peer() {
    let mut s = session(vec![addr("a", "x")], BodyKind::EightBit, b"caf\xc3\xa9");
    s.on_reply(&reply(220, &["banner"]));
    s.on_reply(&reply(250, &["greets"]));
    s.on_reply(&reply(250, &["ok"]));
    s.on_reply(&reply(250, &["ok"]));
    match s.on_reply(&reply(354, &["go"])) {
        ClientAction::SendBytes(bytes) => {
            let text = String::from_utf8(bytes).unwrap();
            assert!(text.contains("Content-Transfer-Encoding: quoted-printable\r\n"));
            assert!(text.contains("caf=C3=A9"));
        },
        _ => panic!("354 must send the payload"),
    }
}

#[test]
fn rcpt_transient_code_fails_transiently() {
    let mut s = session(vec![addr("a", "x")], BodyKind::SevenBit, b"hi");
    s.on_reply(&reply(220, &["banner"]));
    s.on_reply(&reply(250, &["greets"]));
    s.on_reply(&reply(250, &["ok"]));
    assert!(matches!(
        s.on_reply(&reply(450, &["try later"])),
        ClientAction::Fail(SendingError::TransientError(_))
    ));
}

#[test]
fn mx_loop_policy() {
    assert!(mx_attempt_continues(&SendingError::ConnectionError("t".to_string())));
    assert!(!mx_attempt_continues(&SendingError::TransientError("t".to_string())));
    assert!(!mx_attempt_continues(&SendingError::PermanentError("t".to_string())));
}
