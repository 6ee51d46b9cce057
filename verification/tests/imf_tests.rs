use smtp_relay::imf::{MailPart, decompose_message, parse_and_validate_parsed_mail, part_rows};
use smtp_relay::schema::MailState;
use smtp_relay::sender::{
    confirmation_recipients, confirmation_subject, group_outbound, outbound_queue_rows,
};
use smtp_relay::models::OutboundQueueItem;

const VALID: &[u8] = b"Subject: =?utf-8?b?VGVzdPCfpoQ=?=\r\n\
From: Q <q@relay.invalid>\r\n\
Date: 07 May 2020 18:54:00\r\n\
Message-ID: <5@relay.invalid>\r\n\
To: <rcpt@example.test>\r\n\
\r\n\
bla";

#[test]
fn valid_message_parses() {
    let imf = parse_and_validate_parsed_mail(VALID).unwrap();
    assert_eq!(imf.subject, Some("Test\u{1F984}".to_string()));
    assert_eq!(imf.message_id, Some("5@relay.invalid".to_string()));
    assert!(imf.to.is_some());
    assert!(imf.reply_to.is_none());
    let from = imf.mail_from_as_vec();
    assert_eq!(from.len(), 1);
    assert_eq!(from[0].addr, "q@relay.invalid");
    assert_eq!(from[0].display_name, Some("Q".to_string()));
    let part = decompose_message(VALID).unwrap();
    assert_eq!(part.body, b"bla".to_vec());
}

#[test]
fn missing_date_is_rejected() {
    let raw = b"From: q@relay.invalid\r\n\r\nbody";
    let err = parse_and_validate_parsed_mail(raw).unwrap_err();
    assert_eq!(err, "Invalid number of Date headers");
}

#[test]
fn duplicate_from_is_rejected() {
    let raw = b"Date: 07 May 2020 18:54:00\r\nFrom: a@x\r\nFrom: b@y\r\n\r\nbody";
    let err = parse_and_validate_parsed_mail(raw).unwrap_err();
    assert_eq!(err, "Invalid number of From headers");
}

#[test]
fn sender_is_forbidden_beside_a_single_from() {
    let raw = b"Date: 07 May 2020 18:54:00\r\nFrom: a@x\r\nSender: a@x\r\n\r\nbody";
    let err = parse_and_validate_parsed_mail(raw).unwrap_err();
    assert_eq!(err, "Invalid number of Sender headers");
}

#[test]
fn multiple_from_addresses_need_a_sender() {
    let raw = b"Date: 07 May 2020 18:54:00\r\nFrom: a@x, b@y\r\n\r\nbody";
    let err = parse_and_validate_parsed_mail(raw).unwrap_err();
    assert_eq!(err, "Invalid number of Sender headers");
    let with_sender =
        b"Date: 07 May 2020 18:54:00\r\nFrom: a@x, b@y\r\nSender: a@x\r\n\r\nbody";
    let imf = parse_and_validate_parsed_mail(with_sender).unwrap();
    assert_eq!(imf.sender.unwrap().addr, "a@x");
}

#[test]
fn duplicate_subject_is_rejected() {
    let raw = b"Date: 07 May 2020 18:54:00\r\nFrom: a@x\r\nSubject: a\r\nSubject: b\r\n\r\nx";
    let err = parse_and_validate_parsed_mail(raw).unwrap_err();
    assert_eq!(err, "Invalid number of Subject headers");
}

#[test]
fn reply_to_recipients_win_for_confirmation() {
    let raw = b"Date: 07 May 2020 18:54:00\r\nFrom: a@x\r\nReply-To: r@z\r\n\r\nbody";
    let imf = parse_and_validate_parsed_mail(raw).unwrap();
    let recipients = confirmation_recipients(&imf);
    assert_eq!(recipients.len(), 1);
    assert_eq!(recipients[0].addr, "r@z");
    let reply_to = imf.mail_reply_to_as_vec().unwrap();
    assert_eq!(reply_to[0].addr, "r@z");
}

#[test]
fn from_recipients_when_no_reply_to() {
    let imf = parse_and_validate_parsed_mail(VALID).unwrap();
    let recipients = confirmation_recipients(&imf);
    assert_eq!(recipients.len(), 1);
    assert_eq!(recipients[0].addr, "q@relay.invalid");
}

#[test]
fn confirmation_subject_names_the_recipient() {
    assert_eq!(confirmation_subject("b@y"), "Re: Your email to b@y");
}

#[test]
fn multipart_message_decomposes() {
    let raw = b"Date: 07 May 2020 18:54:00\r\n\
From: a@x\r\n\
Content-Type: multipart/alternative; boundary=\"sep\"\r\n\
\r\n\
--sep\r\n\
Content-Type: text/plain\r\n\
\r\n\
plain body\r\n\
--sep\r\n\
Content-Type: text/html\r\n\
\r\n\
<p>html body</p>\r\n\
--sep--\r\n";
    parse_and_validate_parsed_mail(raw).unwrap();
    let part = decompose_message(raw).unwrap();
    assert_eq!(part.subparts.len(), 2);
    assert_eq!(part.subparts[0].body, b"plain body".to_vec());
}

#[test]
fn part_rows_assign_sequential_ids_children_first() {
    let leaf_a = MailPart { headers: vec![], body: b"a".to_vec(), subparts: vec![] };
    let leaf_b = MailPart { headers: vec![], body: b"b".to_vec(), subparts: vec![] };
    let root = MailPart {
        headers: vec![],
        body: b"root".to_vec(),
        subparts: vec![leaf_a, leaf_b],
    };
    let mut rows = Vec::new();
    let next = part_rows(&root, 100, &mut rows);
    assert_eq!(next, 103);
    assert_eq!(rows.len(), 3);
    assert_eq!(rows[0].id, 100);
    assert_eq!(rows[0].body, b"a".to_vec());
    assert_eq!(rows[1].id, 101);
    assert_eq!(rows[1].body, b"b".to_vec());
    assert_eq!(rows[2].id, 102);
    assert_eq!(rows[2].body, b"root".to_vec());
    assert_eq!(rows[2].subparts, vec![100, 101]);
}

fn item(id: u128, message_id: u128, path: &str) -> OutboundQueueItem {
    OutboundQueueItem {
        id,
        message_id,
        forward_path: path.to_string(),
        state: MailState::Queued,
        state_since: 0,
    }
}

#[test]
fn outbound_items_batch_by_message() {
    let items = vec![item(1, 7, "a@x"), item(2, 9, "c@z"), item(3, 7, "b@y")];
    let batches = group_outbound(items);
    assert_eq!(batches.len(), 2);
    assert_eq!(batches[0].0, 7);
    let paths: Vec<&str> = batches[0].1.iter().map(|i| i.forward_path.as_str()).collect();
    assert_eq!(paths, vec!["a@x", "b@y"]);
    assert_eq!(batches[1].0, 9);
    assert_eq!(batches[1].1.len(), 1);
}

#[test]
fn outbound_queue_rows_are_born_queued() {
    let ids = vec![11u128, 12u128];
    let paths = vec!["a@x".to_string(), "b@y".to_string()];
    let rows = outbound_queue_rows(&ids, 99, &paths, 1234);
    assert_eq!(rows.len(), 2);
    assert_eq!(rows[0].id, 11);
    assert_eq!(rows[0].message_id, 99);
    assert_eq!(rows[0].forward_path, "a@x");
    assert_eq!(rows[0].state, MailState::Queued);
    assert_eq!(rows[0].state_since, 1234);
    assert_eq!(rows[1].id, 12);
}

#[test]
fn mail_state_names_round_trip() {
    for state in [MailState::Queued, MailState::Sending, MailState::Sent, MailState::Failed] {
        assert_eq!(MailState::from_name(state.state_name()), Some(state));
    }
    assert_eq!(MailState::from_name("unknown"), None);
}
