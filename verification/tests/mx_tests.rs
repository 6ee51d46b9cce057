use smtp_relay::client::{Address, SendingError};
use smtp_relay::ip::{IpAddress, parse_ip_literal, parse_ipv4, parse_ipv6};
use smtp_relay::mx::{
    ForwardPath, MXAddress, MxRecord, apply_group_outcome, group_by_mx, mx_list_eq,
    order_mx_targets, plan_recipient, stable_sort_mx, strip_trailing_dots,
};

#[test]
fn ipv4_literal_grammar() {
    assert_eq!(parse_ipv4("192.0.2.5"), Some(0xC0000205));
    assert_eq!(parse_ipv4("0.0.0.0"), Some(0));
    assert_eq!(parse_ipv4("255.255.255.255"), Some(u32::MAX));
    assert_eq!(parse_ipv4("256.0.0.1"), None);
    assert_eq!(parse_ipv4("1.2.3"), None);
    assert_eq!(parse_ipv4("1.2.3.4.5"), None);
    assert_eq!(parse_ipv4("a.b.c.d"), None);
    assert_eq!(parse_ipv4(""), None);
    assert_eq!(parse_ipv4("1..2.3"), None);
}

#[test]
fn ip_literal_recipient_gets_itself_as_target() {
    match plan_recipient("rcpt@192.0.2.5") {
        smtp_relay::mx::RecipientPlan::IpLiteral(address, targets) => {
            assert_eq!(address.local_part, "rcpt");
            assert_eq!(address.domain, "192.0.2.5");
            assert_eq!(targets.len(), 1);
            assert_eq!(targets[0].address, IpAddress::V4(0xC0000205));
            assert_eq!(targets[0].domain, "192.0.2.5");
        },
        _ => panic!("an IP-literal domain must resolve to itself"),
    }
}

#[test]
fn recipient_without_at_is_invalid() {
    assert!(matches!(plan_recipient("no-at-here"), smtp_relay::mx::RecipientPlan::Invalid));
}

#[test]
fn hostname_recipient_needs_mx() {
    match plan_recipient("user@example.test") {
        smtp_relay::mx::RecipientPlan::NeedsMx(address) => {
            assert_eq!(address.local_part, "user");
            assert_eq!(address.domain, "example.test");
        },
        _ => panic!("a host domain needs MX resolution"),
    }
    match plan_recipient("a@b@example.test") {
        smtp_relay::mx::RecipientPlan::NeedsMx(address) => {
            assert_eq!(address.local_part, "a@b");
            assert_eq!(address.domain, "example.test");
        },
        _ => panic!("the split is on the last at sign"),
    }
    assert!(parse_ip_literal("example.test").is_none());
}

#[test]
fn stable_sort_keeps_equal_preferences_in_order() {
    let records = vec![
        MxRecord { preference: 20, exchange: "late".to_string(), ips: vec![] },
        MxRecord { preference: 10, exchange: "first".to_string(), ips: vec![] },
        MxRecord { preference: 10, exchange: "second".to_string(), ips: vec![] },
        MxRecord { preference: 5, exchange: "earliest".to_string(), ips: vec![] },
    ];
    let sorted = stable_sort_mx(records);
    let names: Vec<&str> = sorted.iter().map(|r| r.exchange.as_str()).collect();
    assert_eq!(names, vec!["earliest", "first", "second", "late"]);
}

#[test]
fn targets_sort_by_preference_then_family() {
    let records = vec![
        MxRecord {
            preference: 20,
            exchange: "b.x.".to_string(),
            ips: vec![IpAddress::V4(0xC6336401)],
        },
        MxRecord {
            preference: 10,
            exchange: "a.x.".to_string(),
            ips: vec![IpAddress::V4(0x0A000001), IpAddress::V6(0x20010db8_0000_0000_0000_0000_0000_0001)],
        },
    ];
    let targets = order_mx_targets(records);
    assert_eq!(targets.len(), 3);
    assert_eq!(targets[0].address, IpAddress::V6(0x20010db8_0000_0000_0000_0000_0000_0001));
    assert_eq!(targets[0].domain, "a.x");
    assert_eq!(targets[1].address, IpAddress::V4(0x0A000001));
    assert_eq!(targets[1].domain, "a.x");
    assert_eq!(targets[2].address, IpAddress::V4(0xC6336401));
    assert_eq!(targets[2].domain, "b.x");
}

#[test]
fn strip_trailing_dots_only_strips_the_tail() {
    assert_eq!(strip_trailing_dots("mx.x."), "mx.x");
    assert_eq!(strip_trailing_dots("mx.x..."), "mx.x");
    assert_eq!(strip_trailing_dots("mx.x"), "mx.x");
    assert_eq!(strip_trailing_dots(""), "");
    assert_eq!(strip_trailing_dots("..."), "");
}

fn target(v6: bool, host: &str) -> MXAddress {
    MXAddress {
        address: if v6 {
            IpAddress::V6(1)
        } else {
            IpAddress::V4(1)
        },
        domain: host.to_string(),
    }
}

fn path(index: usize, local: &str, domain: &str, mx: Vec<MXAddress>) -> ForwardPath {
    ForwardPath {
        index,
        address: Address { local_part: local.to_string(), domain: domain.to_string() },
        mx_addresses: mx,
    }
}

#[test]
fn recipients_sharing_an_mx_set_share_a_group() {
    let shared = || vec![target(true, "mx.x"), target(false, "mx.x")];
    let other = || vec![target(false, "mx.y")];
    let paths = vec![
        path(0, "a", "x", shared()),
        path(1, "c", "y", other()),
        path(2, "b", "x", shared()),
    ];
    let groups = group_by_mx(paths);
    assert_eq!(groups.len(), 2);
    assert_eq!(groups[0].addresses.len(), 2);
    assert_eq!(groups[0].addresses[0].0, 0);
    assert_eq!(groups[0].addresses[0].1.local_part, "a");
    assert_eq!(groups[0].addresses[1].0, 2);
    assert_eq!(groups[0].addresses[1].1.local_part, "b");
    assert!(mx_list_eq(&groups[0].mx_addresses, &shared()));
    assert_eq!(groups[1].addresses.len(), 1);
    assert_eq!(groups[1].addresses[0].0, 1);
    assert!(mx_list_eq(&groups[1].mx_addresses, &other()));
    assert!(!mx_list_eq(&groups[0].mx_addresses, &groups[1].mx_addresses));
}

#[test]
fn group_outcome_lands_on_listed_slots_only() {
    let mut out: Vec<Result<(), SendingError>> = vec![Ok(()), Ok(()), Ok(())];
    let indexes = vec![0usize, 2usize];
    let failure = SendingError::TransientError("busy".to_string());
    apply_group_outcome(&mut out, &indexes, &failure);
    assert!(matches!(out[0], Err(SendingError::TransientError(_))));
    assert!(out[1].is_ok());
    assert!(matches!(out[2], Err(SendingError::TransientError(_))));
}

#[test]
fn ip_literal_plan_drives_a_single_target_delivery() {
    let (address, targets) = match plan_recipient("rcpt@192.0.2.5") {
        smtp_relay::mx::RecipientPlan::IpLiteral(address, targets) => (address, targets),
        _ => panic!("an IP-literal domain must resolve to itself"),
    };
    let paths = vec![ForwardPath { index: 0, address, mx_addresses: targets }];
    let groups = group_by_mx(paths);
    assert_eq!(groups.len(), 1);
    assert_eq!(groups[0].mx_addresses.len(), 1);
    let target = &groups[0].mx_addresses[0];
    assert_eq!(target.address, IpAddress::V4(0xC0000205));
    assert_eq!(target.domain, "192.0.2.5");
    let mut session = smtp_relay::client::ClientSession::new(
        "sender@relay.invalid".to_string(),
        groups[0]
            .addresses
            .iter()
            .map(|(_, a)| Address {
                local_part: a.local_part.clone(),
                domain: a.domain.clone(),
            })
            .collect(),
        target.domain.clone(),
        vec![],
        smtp_relay::imf::BodyKind::SevenBit,
        b"hi".to_vec(),
    );
    let banner = smtp_relay::codec::SMTPResponse::new(220, "ready");
    match session.on_reply(&banner) {
        smtp_relay::client::ClientAction::SendLine(line) => {
            assert_eq!(line, "EHLO relay-mx.as207960.net\r\n");
        },
        _ => panic!("a 220 banner opens the dialogue"),
    }
    let greets = smtp_relay::codec::SMTPResponse::new(250, "hello");
    match session.on_reply(&greets) {
        smtp_relay::client::ClientAction::SendLine(line) => {
            assert_eq!(line, "MAIL FROM:<sender@relay.invalid>\r\n");
        },
        _ => panic!("a 250 greeting moves to MAIL"),
    }
    let ok = smtp_relay::codec::SMTPResponse::new(250, "ok");
    match session.on_reply(&ok) {
        smtp_relay::client::ClientAction::SendLine(line) => {
            assert_eq!(line, "RCPT TO:<rcpt@192.0.2.5>\r\n");
        },
        _ => panic!("MAIL acceptance moves to RCPT"),
    }
}


#[test]
fn ipv6_literal_grammar() {
    assert_eq!(
        parse_ipv6("2001:db8:0:0:0:0:0:1"),
        Some(0x2001_0db8_0000_0000_0000_0000_0000_0001)
    );
    assert_eq!(parse_ipv6("2001:db8::1"), Some(0x2001_0db8_0000_0000_0000_0000_0000_0001));
    assert_eq!(parse_ipv6("::1"), Some(1));
    assert_eq!(parse_ipv6("::"), Some(0));
    assert_eq!(parse_ipv6("fe80::"), Some(0xfe80_0000_0000_0000_0000_0000_0000_0000));
    assert_eq!(parse_ipv6("a:B:c:D:e:F:1:2"), Some(0x000a_000b_000c_000d_000e_000f_0001_0002));
    assert_eq!(parse_ipv6("1:2:3:4:5:6:7"), None);
    assert_eq!(parse_ipv6("1:2:3:4:5:6:7:8:9"), None);
    assert_eq!(parse_ipv6("1::2::3"), None);
    assert_eq!(parse_ipv6(":::"), None);
    assert_eq!(parse_ipv6(":1:2:3:4:5:6:7"), None);
    assert_eq!(parse_ipv6("12345::"), None);
    assert_eq!(parse_ipv6("g::1"), None);
    assert_eq!(parse_ipv6(""), None);
    assert_eq!(parse_ipv6("example.test"), None);
}

#[test]
fn ipv6_literal_recipient_gets_itself_as_target() {
    match plan_recipient("rcpt@2001:db8::1") {
        smtp_relay::mx::RecipientPlan::IpLiteral(address, targets) => {
            assert_eq!(address.domain, "2001:db8::1");
            assert_eq!(targets.len(), 1);
            assert_eq!(
                targets[0].address,
                IpAddress::V6(0x2001_0db8_0000_0000_0000_0000_0000_0001)
            );
            assert_eq!(targets[0].domain, "2001:db8::1");
        },
        _ => panic!("an IPv6-literal domain must resolve to itself"),
    }
    assert_eq!(parse_ip_literal("::1"), Some(IpAddress::V6(1)));
}
