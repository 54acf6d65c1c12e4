use emailsnap::auth::{auth_failed_error, plain_auth_response};
use emailsnap::completion::{
    completion_messages, completion_model, completion_step, first_choice, CompletionStep,
    RetryState, COMPLETION_BACKOFF_SECS, COMPLETION_MAX_RETRIES, COMPLETION_MAX_TOKENS,
};
use emailsnap::error::FetchError;
use emailsnap::rest::{classify_rest_status, map_rest_entries, RestMailEntry};

#[test]
fn rate_limited_twice_then_success_delivers_content() {
    let mut state = RetryState { attempts: 0 };
    let mut waits = 0;
    for _ in 0..2 {
        match completion_step(state, Ok((429, "slow down".to_string()))) {
            CompletionStep::Retry { next, backoff_secs } => {
                assert_eq!(backoff_secs, 10);
                waits += 1;
                state = next;
            }
            _ => panic!("expected a retry"),
        }
    }
    assert_eq!(waits, 2);
    match completion_step(state, Ok((200, "the summary".to_string()))) {
        CompletionStep::Succeed(body) => assert_eq!(body, "the summary"),
        _ => panic!("expected success"),
    }
}

#[test]
fn three_rate_limits_are_terminal() {
    let mut state = RetryState { attempts: 0 };
    for _ in 0..2 {
        match completion_step(state, Ok((429, "x".to_string()))) {
            CompletionStep::Retry { next, .. } => state = next,
            _ => panic!("expected a retry"),
        }
    }
    match completion_step(state, Ok((429, "still limited".to_string()))) {
        CompletionStep::Fail(FetchError::RateLimited { status, body }) => {
            assert_eq!(status, 429);
            assert_eq!(body, "still limited");
        }
        _ => panic!("expected terminal rate limiting"),
    }
}

#[test]
fn non_429_error_is_terminal_at_once() {
    match completion_step(RetryState { attempts: 0 }, Ok((500, "boom".to_string()))) {
        CompletionStep::Fail(FetchError::Protocol { status, body }) => {
            assert_eq!(status, 500);
            assert_eq!(body, "boom");
        }
        _ => panic!("expected a protocol failure"),
    }
    match completion_step(RetryState { attempts: 0 }, Err("no route".to_string())) {
        CompletionStep::Fail(FetchError::Network(m)) => assert_eq!(m, "no route"),
        _ => panic!("expected a network failure"),
    }
}

#[test]
fn completion_constants_and_prompts() {
    assert_eq!(COMPLETION_MAX_TOKENS, 1024);
    assert_eq!(COMPLETION_BACKOFF_SECS, 10);
    assert_eq!(COMPLETION_MAX_RETRIES, 2);
    assert_eq!(completion_model(), "llama-3.3-70b-versatile");
    let msgs = completion_messages("be terse".to_string(), "summarize this".to_string());
    assert_eq!(msgs.len(), 2);
    assert_eq!(msgs[0].role, "system");
    assert_eq!(msgs[0].content, "be terse");
    assert_eq!(msgs[1].role, "user");
    assert_eq!(msgs[1].content, "summarize this");
}

#[test]
fn empty_choices_is_empty_result_not_a_crash() {
    assert!(matches!(first_choice(vec![]), Err(FetchError::EmptyResult)));
    assert_eq!(first_choice(vec!["a".to_string(), "b".to_string()]).unwrap(), "a");
}

#[test]
fn http_401_is_an_authentication_error() {
    let r = classify_rest_status(401, "token expired".to_string());
    match r {
        Err(e) => {
            assert!(e.is_authentication());
            match e {
                FetchError::Authentication(m) => assert_eq!(m, "token expired"),
                _ => panic!("wrong variant"),
            }
        }
        Ok(_) => panic!("401 must fail"),
    }
    let other = classify_rest_status(500, "oops".to_string());
    match other {
        Err(e) => assert!(!e.is_authentication()),
        Ok(_) => panic!("500 must fail"),
    }
    assert_eq!(classify_rest_status(200, "body".to_string()).unwrap(), "body");
}

fn entry(id: Option<&str>, subject: Option<&str>) -> RestMailEntry {
    RestMailEntry {
        mail_id: id.map(|s| s.to_string()),
        sender_name: Some("Jane".to_string()),
        sender_email: Some("jane@example.com".to_string()),
        subject: subject.map(|s| s.to_string()),
        received_at: Some("2024-01-15T10:00:00Z".to_string()),
    }
}

#[test]
fn entry_without_mail_id_is_dropped_silently() {
    let entries = vec![entry(Some("1"), Some("first")), entry(None, Some("ghost")), entry(
        Some("3"),
        Some("third"),
    )];
    let mails = map_rest_entries(entries);
    assert_eq!(mails.len(), 2);
    assert_eq!(mails[0].mail_id, "1");
    assert_eq!(mails[0].subject, "first");
    assert_eq!(mails[1].mail_id, "3");
    assert_eq!(mails[1].subject, "third");
}

#[test]
fn rest_missing_fields_default() {
    let mails = map_rest_entries(vec![RestMailEntry {
        mail_id: Some("9".to_string()),
        sender_name: None,
        sender_email: None,
        subject: None,
        received_at: None,
    }]);
    assert_eq!(mails.len(), 1);
    assert_eq!(mails[0].sender_name, "");
    assert_eq!(mails[0].sender_email, "");
    assert_eq!(mails[0].subject, "(\u{c81c}\u{baa9} \u{c5c6}\u{c74c})");
    assert_eq!(mails[0].received_at, "");
    assert_eq!(mails[0].message_id, "");
}

#[test]
fn rest_empty_subject_gets_placeholder() {
    let mails = map_rest_entries(vec![entry(Some("1"), Some(""))]);
    assert_eq!(mails[0].subject, "(\u{c81c}\u{baa9} \u{c5c6}\u{c74c})");
}

#[test]
fn plain_auth_initial_response() {
    assert_eq!(plain_auth_response("user@host", "secret"), b"\0user@host\0secret".to_vec());
}

#[test]
fn failed_fallback_carries_plain_error() {
    match auth_failed_error("PLAIN rejected") {
        FetchError::Authentication(m) => assert_eq!(m, "AUTH_FAILED: PLAIN rejected"),
        _ => panic!("wrong variant"),
    }
}
