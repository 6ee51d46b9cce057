use smtp_relay::codec::{SMTPCommand, SMTPResponse};

#[test]
fn single_line_reply_emits() {
    let resp = SMTPResponse::new(250, "hello");
    assert_eq!(resp.to_wire(), "250 hello\r\n");
}

#[test]
fn multi_line_reply_emits() {
    let mut resp = SMTPResponse::new(250, "greeting");
    resp.add_line("8BITMIME");
    resp.add_line("SIZE 0");
    assert_eq!(resp.to_wire(), "250-greeting\r\n250-8BITMIME\r\n250 SIZE 0\r\n");
}

#[test]
fn reply_round_trip_single() {
    let resp = SMTPResponse::new(354, "Feed me your email");
    let wire = resp.to_wire();
    let back = SMTPResponse::parse(wire.as_str()).unwrap();
    assert_eq!(back.code, 354);
    assert_eq!(back.lines, vec!["Feed me your email".to_string()]);
}

#[test]
fn reply_round_trip_multi() {
    let mut resp = SMTPResponse::new(250, "a");
    resp.add_line("b");
    resp.add_line("c");
    let wire = resp.to_wire();
    let back = SMTPResponse::parse(wire.as_str()).unwrap();
    assert_eq!(back.code, 250);
    assert_eq!(back.lines, vec!["a".to_string(), "b".to_string(), "c".to_string()]);
}

#[test]
fn reply_parse_rejects_short_line() {
    assert!(SMTPResponse::parse("25\r\n").is_err());
    assert!(SMTPResponse::parse("").is_err());
    assert!(SMTPResponse::parse("abc d\r\n").is_err());
}

#[test]
fn reply_parse_rejects_code_mismatch() {
    assert!(SMTPResponse::parse("250-a\r\n251 b\r\n").is_err());
}

#[test]
fn reply_parse_rejects_trailing_garbage() {
    assert!(SMTPResponse::parse("250 a\r\n250 b\r\n").is_err());
}

#[test]
fn reply_parse_rejects_missing_cr() {
    assert!(SMTPResponse::parse("250 a\n").is_err());
}

#[test]
fn format_resp_renders_code_and_lines() {
    let mut resp = SMTPResponse::new(550, "no");
    resp.add_line("really no");
    assert_eq!(resp.format_resp(), "Code: 550, Message: no\r\nreally no");
}

#[test]
fn command_parse_uppercases_verb() {
    let cmd = SMTPCommand::parse("ehlo example.org\r\n").unwrap();
    assert_eq!(cmd.verb, "EHLO");
    assert_eq!(cmd.args, vec!["example.org".to_string()]);
}

#[test]
fn command_parse_keeps_argument_order() {
    let cmd = SMTPCommand::parse("MAIL FROM:<a@x> BODY=8BITMIME\r\n").unwrap();
    assert_eq!(cmd.verb, "MAIL");
    assert_eq!(cmd.args, vec!["FROM:<a@x>".to_string(), "BODY=8BITMIME".to_string()]);
}

#[test]
fn command_parse_empty_line_is_none() {
    assert!(SMTPCommand::parse("").is_none());
    assert!(SMTPCommand::parse("   \r\n").is_none());
}

#[test]
fn command_round_trip_canonicalises() {
    let cmd = SMTPCommand::parse("rcpt TO:<b@y>\r\n").unwrap();
    assert_eq!(cmd.to_wire(), "RCPT TO:<b@y>\r\n");
}

#[test]
fn command_new_emits() {
    let cmd = SMTPCommand::new("BDAT", &["12", "LAST"]);
    assert_eq!(cmd.to_wire(), "BDAT 12 LAST\r\n");
    let bare = SMTPCommand::new("QUIT", &[]);
    assert_eq!(bare.to_wire(), "QUIT\r\n");
}
