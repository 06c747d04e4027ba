use simpleice::ice::Ice;
use simpleice::stamp::{parse_stamp, Stamp};
use simpleice::errors::{ValidationError, DisarmOutcome};

fn now() -> Stamp {
    parse_stamp("2020-06-15 12:00").expect("valid")
}

#[test]
fn new_record_is_dormant() {
    let ice = Ice::new("Will".to_string(), "Find my safe".to_string());
    assert_eq!(ice.get_description(), "Will");
    assert_eq!(ice.get_message(), "Find my safe");
    assert!(ice.get_emails().is_empty());
    assert!(!ice.get_status());
    assert!(ice.get_send_date().is_none());
}

#[test]
fn setters_replace_only_their_field() {
    let mut ice = Ice::new("a".to_string(), "b".to_string());
    ice.set_description("c".to_string());
    assert_eq!(ice.get_description(), "c");
    assert_eq!(ice.get_message(), "b");
    ice.set_message("d".to_string());
    assert_eq!(ice.get_message(), "d");
    assert_eq!(ice.get_description(), "c");
    let emails = vec!["x@y.z".to_string(), "x@y.z".to_string()];
    ice.set_emails(&emails);
    assert_eq!(ice.get_emails(), &emails);
}

#[test]
fn arm_accepts_future_timestamp() {
    let mut ice = Ice::new("a".to_string(), "b".to_string());
    let at = parse_stamp("2099-01-01 09:00").expect("valid");
    assert_eq!(ice.arm(now(), at), Ok(()));
    assert!(ice.get_status());
    assert_eq!(ice.get_send_date(), Some(at));
}

#[test]
fn arm_rejects_past_and_present() {
    let mut ice = Ice::new("a".to_string(), "b".to_string());
    let past = parse_stamp("2000-01-01 09:00").expect("valid");
    assert_eq!(ice.arm(now(), past), Err(ValidationError::NotFuture));
    assert!(!ice.get_status());
    assert!(ice.get_send_date().is_none());
    assert_eq!(ice.arm(now(), now()), Err(ValidationError::NotFuture));
    assert!(!ice.get_status());
}

#[test]
fn rearming_overwrites_schedule() {
    let mut ice = Ice::new("a".to_string(), "b".to_string());
    let first = parse_stamp("2098-01-01 09:00").expect("valid");
    let second = parse_stamp("2099-06-30 18:45").expect("valid");
    assert_eq!(ice.arm(now(), first), Ok(()));
    assert_eq!(ice.arm(now(), second), Ok(()));
    assert!(ice.get_status());
    assert_eq!(ice.get_send_date(), Some(second));
}

#[test]
fn failed_rearm_keeps_prior_schedule() {
    let mut ice = Ice::new("a".to_string(), "b".to_string());
    let at = parse_stamp("2099-01-01 09:00").expect("valid");
    let past = parse_stamp("2000-01-01 09:00").expect("valid");
    assert_eq!(ice.arm(now(), at), Ok(()));
    assert_eq!(ice.arm(now(), past), Err(ValidationError::NotFuture));
    assert!(ice.get_status());
    assert_eq!(ice.get_send_date(), Some(at));
}

#[test]
fn disarm_clears_then_reports_noop() {
    let mut ice = Ice::new("a".to_string(), "b".to_string());
    let at = parse_stamp("2099-01-01 09:00").expect("valid");
    assert_eq!(ice.arm(now(), at), Ok(()));
    assert_eq!(ice.disarm(), DisarmOutcome::Disarmed);
    assert!(!ice.get_status());
    assert!(ice.get_send_date().is_none());
    assert_eq!(ice.disarm(), DisarmOutcome::NoOp);
    assert!(!ice.get_status());
    assert!(ice.get_send_date().is_none());
}

#[test]
fn editing_recipients_leaves_schedule_alone() {
    let mut ice = Ice::new("a".to_string(), "b".to_string());
    let at = parse_stamp("2099-01-01 09:00").expect("valid");
    assert_eq!(ice.arm(now(), at), Ok(()));
    let emails = vec!["a@x.com".to_string(), "b@x.com".to_string()];
    ice.set_emails(&emails);
    assert!(ice.get_status());
    assert_eq!(ice.get_send_date(), Some(at));
    assert_eq!(ice.get_emails(), &emails);
}

#[test]
fn date_text_is_fixed_format_or_unknown() {
    let mut ice = Ice::new("a".to_string(), "b".to_string());
    assert_eq!(ice.get_date(), "Unknown");
    let at = parse_stamp("2099-01-01 09:00").expect("valid");
    assert_eq!(ice.arm(now(), at), Ok(()));
    assert_eq!(ice.get_date(), "2099-01-01 09:00");
}

#[test]
fn status_line_mentions_date_only_when_armed() {
    let mut ice = Ice::new("Will".to_string(), "Find my safe".to_string());
    assert_eq!(ice.get_status_line(), "Will ~> Inactive ");
    let at = parse_stamp("2099-01-01 09:00").expect("valid");
    assert_eq!(ice.arm(now(), at), Ok(()));
    assert_eq!(ice.get_status_line(), "Will ~> Active (2099-01-01 09:00)");
}
