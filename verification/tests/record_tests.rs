use emailsnap::record::{
    envelope_to_mail, select_latest_uids, sort_mails_desc, uid_set_string, uid_string, MailMeta,
    RawAddress, RawEnvelope,
};

fn env_with_subject(subject: Option<&[u8]>) -> RawEnvelope {
    RawEnvelope {
        uid: 17,
        subject: subject.map(|s| s.to_vec()),
        from: None,
        internal_date: Some("2024-01-15T10:00:00+00:00".to_string()),
        message_id: Some(b"<id@host>".to_vec()),
    }
}

#[test]
fn missing_subject_yields_placeholder() {
    let m = envelope_to_mail(env_with_subject(None));
    assert_eq!(m.subject, "(\u{c81c}\u{baa9} \u{c5c6}\u{c74c})");
    assert!(!m.subject.is_empty());
}

#[test]
fn empty_subject_yields_placeholder() {
    let m = envelope_to_mail(env_with_subject(Some(b"")));
    assert_eq!(m.subject, "(\u{c81c}\u{baa9} \u{c5c6}\u{c74c})");
    assert!(!m.subject.is_empty());
}

#[test]
fn encoded_subject_is_decoded() {
    let m = envelope_to_mail(env_with_subject(Some(b"=?UTF-8?B?SGVsbG8=?=")));
    assert_eq!(m.subject, "Hello");
    assert_eq!(m.mail_id, "17");
    assert_eq!(m.received_at, "2024-01-15T10:00:00+00:00");
    assert_eq!(m.message_id, "<id@host>");
}

#[test]
fn sender_address_is_mailbox_at_host() {
    let mut env = env_with_subject(Some(b"s"));
    env.from = Some(RawAddress {
        name: Some(b"=?UTF-8?Q?Jane_Doe?=".to_vec()),
        mailbox: Some(b"jane".to_vec()),
        host: Some(b"example.com".to_vec()),
    });
    let m = envelope_to_mail(env);
    assert_eq!(m.sender_name, "Jane Doe");
    assert_eq!(m.sender_email, "jane@example.com");
}

#[test]
fn sender_address_without_host_is_mailbox_alone() {
    let mut env = env_with_subject(Some(b"s"));
    env.from = Some(RawAddress { name: None, mailbox: Some(b"jane".to_vec()), host: None });
    let m = envelope_to_mail(env);
    assert_eq!(m.sender_name, "");
    assert_eq!(m.sender_email, "jane");
}

#[test]
fn missing_from_gives_empty_sender() {
    let m = envelope_to_mail(env_with_subject(Some(b"s")));
    assert_eq!(m.sender_name, "");
    assert_eq!(m.sender_email, "");
}

#[test]
fn fifty_highest_uids_are_selected() {
    let uids: Vec<u32> = (1..=60).collect();
    let picked = select_latest_uids(&uids);
    assert_eq!(picked.len(), 50);
    assert_eq!(picked[0], 60);
    assert_eq!(picked[49], 11);
    let expect: Vec<u32> = (11..=60).rev().collect();
    assert_eq!(picked, expect);
}

#[test]
fn uid_selection_handles_unsorted_input() {
    let uids: Vec<u32> = vec![5, 1, 9, 7, 3];
    assert_eq!(select_latest_uids(&uids), vec![9, 7, 5, 3, 1]);
}

#[test]
fn uid_set_is_comma_joined() {
    assert_eq!(uid_set_string(&vec![60, 59, 58]), "60,59,58");
    assert_eq!(uid_set_string(&vec![7]), "7");
    assert_eq!(uid_set_string(&vec![]), "");
    assert_eq!(uid_string(0), "0");
    assert_eq!(uid_string(4294967295), "4294967295");
}

fn rec(id: &str, at: &str) -> MailMeta {
    MailMeta {
        mail_id: id.to_string(),
        sender_name: String::new(),
        sender_email: String::new(),
        subject: "s".to_string(),
        received_at: at.to_string(),
        message_id: String::new(),
    }
}

#[test]
fn mails_are_sorted_newest_first() {
    let input = vec![
        rec("a", "2024-01-15T10:00:00+00:00"),
        rec("b", "2025-03-01T00:00:00+00:00"),
        rec("c", "2023-12-31T23:59:59+00:00"),
        rec("d", "2024-06-01T12:00:00+00:00"),
    ];
    let sorted = sort_mails_desc(input);
    let ids: Vec<&str> = sorted.iter().map(|m| m.mail_id.as_str()).collect();
    assert_eq!(ids, vec!["b", "d", "a", "c"]);
}

#[test]
fn sort_keeps_equal_timestamps() {
    let input = vec![rec("x", "2024-01-01T00:00:00+00:00"), rec("y", "2024-01-01T00:00:00+00:00")];
    let sorted = sort_mails_desc(input);
    assert_eq!(sorted.len(), 2);
    let mut ids: Vec<&str> = sorted.iter().map(|m| m.mail_id.as_str()).collect();
    ids.sort();
    assert_eq!(ids, vec!["x", "y"]);
}
