use smtp_relay::codec::SMTPCommand;
use smtp_relay::server::{DataLineOutcome, ServerAction, SessionState};

fn fresh() -> SessionState {
    SessionState::new("192.0.2.9".to_string(), None)
}

fn send(session: &mut SessionState, line: &str) -> ServerAction {
    let cmd = SMTPCommand::parse(line).unwrap();
    session.handle_command(&cmd)
}

fn reply_code(action: &ServerAction) -> u16 {
    match action {
        ServerAction::Reply(resp) => resp.code,
        ServerAction::StartData(resp) => resp.code,
        ServerAction::Quit(resp) => resp.code,
        ServerAction::ReadChunk(_, _) => panic!("chunk read is not a reply"),
    }
}

#[test]
fn helo_then_mail_then_postmaster_rcpt() {
    let mut s = fresh();
    let helo = send(&mut s, "HELO example.org\r\n");
    match &helo {
        ServerAction::Reply(resp) => {
            assert_eq!(resp.code, 250);
            assert_eq!(resp.lines.len(), 1);
            assert!(resp.lines[0].starts_with("relay-mx.as207960.net Good day to you"));
        },
        _ => panic!("HELO must get a plain reply"),
    }
    assert_eq!(reply_code(&send(&mut s, "MAIL FROM:<a@x.invalid>\r\n")), 250);
    assert_eq!(s.reverse_path, Some("a@x.invalid".to_string()));
    assert_eq!(reply_code(&send(&mut s, "RCPT TO:<postmaster@foo>\r\n")), 551);
    assert_eq!(reply_code(&send(&mut s, "RCPT TO:postmaster\r\n")), 551);
    assert_eq!(reply_code(&send(&mut s, "RCPT TO:<POSTMASTER@FOO>\r\n")), 551);
}

#[test]
fn ehlo_advertises_extensions() {
    let mut s = fresh();
    match send(&mut s, "EHLO example.org\r\n") {
        ServerAction::Reply(resp) => {
            assert_eq!(resp.code, 250);
            assert!(resp.lines.contains(&"8BITMIME".to_string()));
            assert!(resp.lines.contains(&"SMTPUTF8".to_string()));
            assert!(resp.lines.contains(&"CHUNKING".to_string()));
            assert!(resp.lines.contains(&"SIZE 0".to_string()));
        },
        _ => panic!("EHLO must get a plain reply"),
    }
}

#[test]
fn mail_before_helo_is_out_of_sequence() {
    let mut s = fresh();
    assert_eq!(reply_code(&send(&mut s, "MAIL FROM:<a@x>\r\n")), 503);
}

#[test]
fn mail_without_angle_brackets_is_rejected() {
    let mut s = fresh();
    send(&mut s, "HELO example.org\r\n");
    assert_eq!(reply_code(&send(&mut s, "MAIL garbage\r\n")), 501);
}

#[test]
fn null_reverse_path_is_accepted() {
    let mut s = fresh();
    send(&mut s, "HELO example.org\r\n");
    assert_eq!(reply_code(&send(&mut s, "MAIL FROM:<>\r\n")), 250);
    assert_eq!(s.reverse_path, Some(String::new()));
}

#[test]
fn data_line_unstuffs_leading_dot() {
    let mut s = fresh();
    send(&mut s, "HELO example.org\r\n");
    send(&mut s, "MAIL FROM:<a@x>\r\n");
    send(&mut s, "RCPT TO:<b@y>\r\n");
    match send(&mut s, "DATA\r\n") {
        ServerAction::StartData(resp) => assert_eq!(resp.code, 354),
        _ => panic!("DATA must start line mode"),
    }
    assert!(matches!(s.data_line("..\r\n"), DataLineOutcome::More));
    assert!(matches!(s.data_line("text\r\n"), DataLineOutcome::More));
    assert!(matches!(s.data_line(".\r\n"), DataLineOutcome::Terminated));
    assert_eq!(s.data_buffer, b".\r\ntext\r\n".to_vec());
}

#[test]
fn data_requires_full_envelope() {
    let mut s = fresh();
    send(&mut s, "HELO example.org\r\n");
    assert_eq!(reply_code(&send(&mut s, "DATA\r\n")), 503);
    send(&mut s, "MAIL FROM:<a@x>\r\n");
    assert_eq!(reply_code(&send(&mut s, "DATA\r\n")), 503);
    send(&mut s, "RCPT TO:<b@y>\r\n");
    assert_eq!(reply_code(&send(&mut s, "DATA extra\r\n")), 501);
}

#[test]
fn bdat_reads_chunks_and_finalizes_on_last() {
    let mut s = fresh();
    send(&mut s, "EHLO example.org\r\n");
    send(&mut s, "MAIL FROM:<a@x>\r\n");
    send(&mut s, "RCPT TO:<b@y>\r\n");
    match send(&mut s, "BDAT 3\r\n") {
        ServerAction::ReadChunk(size, last) => {
            assert_eq!(size, 3);
            assert!(!last);
        },
        _ => panic!("BDAT must read a chunk"),
    }
    let mid = s.bdat_chunk(b"abc", false);
    assert_eq!(mid.unwrap().code, 250);
    match send(&mut s, "BDAT 2 LAST\r\n") {
        ServerAction::ReadChunk(size, last) => {
            assert_eq!(size, 2);
            assert!(last);
        },
        _ => panic!("BDAT LAST must read a chunk"),
    }
    assert!(s.bdat_chunk(b"de", true).is_none());
    assert_eq!(s.binary_data, b"abcde".to_vec());
}

#[test]
fn bdat_zero_without_last_finalizes() {
    let mut s = fresh();
    send(&mut s, "EHLO example.org\r\n");
    send(&mut s, "MAIL FROM:<a@x>\r\n");
    send(&mut s, "RCPT TO:<b@y>\r\n");
    match send(&mut s, "BDAT 0\r\n") {
        ServerAction::ReadChunk(size, last) => {
            assert_eq!(size, 0);
            assert!(last);
        },
        _ => panic!("BDAT 0 must still read a chunk"),
    }
}

#[test]
fn bdat_rejects_bad_arguments() {
    let mut s = fresh();
    send(&mut s, "EHLO example.org\r\n");
    send(&mut s, "MAIL FROM:<a@x>\r\n");
    send(&mut s, "RCPT TO:<b@y>\r\n");
    assert_eq!(reply_code(&send(&mut s, "BDAT nonsense\r\n")), 501);
    assert_eq!(reply_code(&send(&mut s, "BDAT 3 NOTLAST\r\n")), 501);
    assert_eq!(reply_code(&send(&mut s, "BDAT 1 2 3\r\n")), 501);
}

#[test]
fn rset_clears_the_transaction() {
    let mut s = fresh();
    send(&mut s, "HELO example.org\r\n");
    send(&mut s, "MAIL FROM:<a@x>\r\n");
    send(&mut s, "RCPT TO:<b@y>\r\n");
    assert_eq!(reply_code(&send(&mut s, "RSET\r\n")), 250);
    assert!(s.reverse_path.is_none());
    assert!(s.forward_paths.is_empty());
    assert_eq!(reply_code(&send(&mut s, "RCPT TO:<b@y>\r\n")), 503);
}

#[test]
fn misc_verbs() {
    let mut s = fresh();
    assert_eq!(reply_code(&send(&mut s, "NOOP\r\n")), 250);
    assert_eq!(reply_code(&send(&mut s, "HELP\r\n")), 502);
    assert_eq!(reply_code(&send(&mut s, "EXPN\r\n")), 502);
    assert_eq!(reply_code(&send(&mut s, "BREW\r\n")), 500);
    match send(&mut s, "QUIT\r\n") {
        ServerAction::Quit(resp) => assert_eq!(resp.code, 221),
        _ => panic!("QUIT must close"),
    }
}

#[test]
fn finalize_accepts_valid_message_per_recipient() {
    let mut s = fresh();
    send(&mut s, "HELO example.org\r\n");
    send(&mut s, "MAIL FROM:<a@x.invalid>\r\n");
    send(&mut s, "RCPT TO:<b@y.invalid>\r\n");
    send(&mut s, "RCPT TO:<c@z.invalid>\r\n");
    let body = b"Subject: hi\r\nFrom: Q <q@x.invalid>\r\nDate: 07 May 2020 18:54:00\r\n\r\nbody";
    let ingests = s.finalize_ingest(body).unwrap();
    assert_eq!(ingests.len(), 2);
    assert_eq!(ingests[0].rcpt_to, "b@y.invalid");
    assert_eq!(ingests[1].rcpt_to, "c@z.invalid");
    assert_eq!(ingests[0].imf.subject, Some("hi".to_string()));
    let expected_prelude = b"Return-Path: <a@x.invalid>\r\nReceived: ".to_vec();
    assert_eq!(ingests[0].data[..expected_prelude.len()], expected_prelude[..]);
    assert_eq!(ingests[0].data[ingests[0].data.len() - body.len()..], body[..]);
}

#[test]
fn finalize_rejects_invalid_message_with_diagnostic() {
    let mut s = fresh();
    send(&mut s, "HELO example.org\r\n");
    send(&mut s, "MAIL FROM:<a@x.invalid>\r\n");
    send(&mut s, "RCPT TO:<b@y.invalid>\r\n");
    let resp = s.finalize_ingest(b"no headers at all").unwrap_err();
    assert_eq!(resp.code, 550);
    assert_eq!(resp.lines.len(), 2);
    assert_eq!(resp.lines[0], "Ew! Non RFC5322 compliant mail!");
}

#[test]
fn received_headers_name_each_recipient() {
    let mut s = SessionState::new("192.0.2.9".to_string(), Some("host.example".to_string()));
    send(&mut s, "EHLO example.org\r\n");
    send(&mut s, "MAIL FROM:<a@x>\r\n");
    send(&mut s, "RCPT TO:<b@y>\r\n");
    let headers = s.received_headers();
    assert_eq!(headers.len(), 1);
    let expected = "Received: FROM example.org (host.example 192.0.2.9)\r\n    \
                    BY relay-mx.as207960.net\r\n    VIA TCP\r\n    WITH ESMTP\r\n    \
                    FOR <b@y>\r\n";
    assert_eq!(headers[0], expected);
    assert_eq!(s.return_path_header(), "Return-Path: <a@x>\r\n");
}

#[test]
fn bdat_size_bounds() {
    let mut s = fresh();
    send(&mut s, "EHLO example.org\r\n");
    send(&mut s, "MAIL FROM:<a@x>\r\n");
    send(&mut s, "RCPT TO:<b@y>\r\n");
    match send(&mut s, "BDAT 18446744073709551615\r\n") {
        ServerAction::ReadChunk(size, _) => assert_eq!(size, usize::MAX),
        _ => panic!("the largest size still parses"),
    }
    assert_eq!(reply_code(&send(&mut s, "BDAT 18446744073709551616\r\n")), 501);
}
