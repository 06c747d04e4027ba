use simpleice::ice::Ice;
use simpleice::stamp::{parse_stamp, Stamp};
use simpleice::store::{
    load_ices, load_or_init, save_ices, add_ice, activate_at, deactivate_at, replace_at, remove_at,
};
use simpleice::errors::{StoreError, ValidationError, DisarmOutcome};

fn now() -> Stamp {
    parse_stamp("2020-06-15 12:00").expect("valid")
}

#[test]
fn missing_file_is_not_found() {
    match load_ices(None) {
        Err(StoreError::NotFound) => {},
        other => panic!("expected NotFound, got {:?}", other.map(|v| v.len())),
    }
}

#[test]
fn missing_file_initializes_empty() {
    let ices = load_or_init(None).expect("empty collection");
    assert!(ices.is_empty());
}

#[test]
fn malformed_content_is_corrupt_not_empty() {
    match load_ices(Some("this is not a collection")) {
        Err(StoreError::Corrupt) => {},
        other => panic!("expected Corrupt, got {:?}", other.map(|v| v.len())),
    }
    match load_or_init(Some("{\"oops\":1}")) {
        Err(StoreError::Corrupt) => {},
        other => panic!("expected Corrupt, got {:?}", other.map(|v| v.len())),
    }
    assert!(load_ices(Some("")).is_err());
    assert!(load_ices(Some("[")).is_err());
    assert!(load_ices(Some("[]x")).is_err());
}

#[test]
fn empty_collection_round_trips() {
    let ices: Vec<Ice> = Vec::new();
    let content = save_ices(&ices);
    assert_eq!(content, "[]");
    let back = load_ices(Some(content.as_str())).expect("loads");
    assert!(back.is_empty());
}

#[test]
fn single_record_renders_canonically() {
    let mut ices: Vec<Ice> = Vec::new();
    add_ice(&mut ices, "Will".to_string(), "Find my safe".to_string());
    let content = save_ices(&ices);
    assert_eq!(
        content,
        "[{\"description\":\"Will\",\"message\":\"Find my safe\",\"emails\":[],\"active\":false,\"send_date\":null}]"
    );
}

#[test]
fn collection_round_trips_through_text() {
    let mut ices: Vec<Ice> = Vec::new();
    add_ice(&mut ices, "Plain".to_string(), "Body text".to_string());
    add_ice(
        &mut ices,
        "Tricky \"quotes\" \\ and\nnewlines\ttabs\r".to_string(),
        "multi\nline".to_string(),
    );
    let emails = vec!["a@x.com".to_string(), "b@x.com".to_string()];
    let mut edited = Ice::new(
        "Tricky \"quotes\" \\ and\nnewlines\ttabs\r".to_string(),
        "multi\nline".to_string(),
    );
    edited.set_emails(&emails);
    let at = parse_stamp("2099-01-01 09:00").expect("valid");
    edited.arm(now(), at).expect("future");
    replace_at(&mut ices, 1, edited);

    let content = save_ices(&ices);
    let back = load_ices(Some(content.as_str())).expect("loads");
    assert_eq!(back.len(), 2);
    assert_eq!(back[0].get_description(), "Plain");
    assert_eq!(back[0].get_message(), "Body text");
    assert!(back[0].get_emails().is_empty());
    assert!(!back[0].get_status());
    assert_eq!(
        back[1].get_description(),
        "Tricky \"quotes\" \\ and\nnewlines\ttabs\r"
    );
    assert_eq!(back[1].get_message(), "multi\nline");
    assert_eq!(back[1].get_emails(), &emails);
    assert!(back[1].get_status());
    assert_eq!(back[1].get_send_date(), Some(at));
}

#[test]
fn non_ascii_text_round_trips() {
    let mut ices: Vec<Ice> = Vec::new();
    add_ice(
        &mut ices,
        "Ünïcødé ✓ 証拠".to_string(),
        "héllo wörld — ニュース".to_string(),
    );
    let content = save_ices(&ices);
    let back = load_ices(Some(content.as_str())).expect("loads");
    assert_eq!(back[0].get_description(), "Ünïcødé ✓ 証拠");
    assert_eq!(back[0].get_message(), "héllo wörld — ニュース");
    assert_eq!(save_ices(&back), content);
}

#[test]
fn save_after_load_is_byte_identical() {
    let mut ices: Vec<Ice> = Vec::new();
    add_ice(&mut ices, "One".to_string(), "first".to_string());
    add_ice(&mut ices, "Two".to_string(), "second\n\"quoted\"".to_string());
    let at = parse_stamp("2077-10-23 08:15").expect("valid");
    activate_at(&mut ices, 0, now(), at).expect("future");
    let first = save_ices(&ices);
    let mut content = first.clone();
    for _ in 0..3 {
        let loaded = load_ices(Some(content.as_str())).expect("loads");
        content = save_ices(&loaded);
        assert_eq!(content, first);
    }
}

#[test]
fn scenario_create_arm_reject_disarm() {
    let mut ices = load_or_init(None).expect("fresh store");
    add_ice(&mut ices, "Will".to_string(), "Find my safe".to_string());
    assert_eq!(ices.len(), 1);
    assert!(!ices[0].get_status());

    let at = parse_stamp("2099-01-01 09:00").expect("valid");
    assert_eq!(activate_at(&mut ices, 0, now(), at), Ok(()));
    assert!(ices[0].get_status());
    assert_eq!(ices[0].get_send_date(), Some(at));

    let past = parse_stamp("2000-01-01 09:00").expect("valid");
    assert_eq!(
        activate_at(&mut ices, 0, now(), past),
        Err(ValidationError::NotFuture)
    );
    assert!(ices[0].get_status());
    assert_eq!(ices[0].get_send_date(), Some(at));

    assert_eq!(deactivate_at(&mut ices, 0), DisarmOutcome::Disarmed);
    assert!(!ices[0].get_status());
    assert!(ices[0].get_send_date().is_none());

    assert_eq!(deactivate_at(&mut ices, 0), DisarmOutcome::NoOp);
    assert!(!ices[0].get_status());
    assert!(ices[0].get_send_date().is_none());
}

#[test]
fn scenario_edit_recipients_on_active_record() {
    let mut ices: Vec<Ice> = Vec::new();
    add_ice(&mut ices, "Will".to_string(), "Find my safe".to_string());
    let at = parse_stamp("2099-01-01 09:00").expect("valid");
    assert_eq!(activate_at(&mut ices, 0, now(), at), Ok(()));

    let mut working = Ice::new(ices[0].get_description(), ices[0].get_message());
    working.arm(now(), at).expect("future");
    let emails = vec!["a@x.com".to_string(), "b@x.com".to_string()];
    working.set_emails(&emails);
    replace_at(&mut ices, 0, working);

    assert!(ices[0].get_status());
    assert_eq!(ices[0].get_send_date(), Some(at));
    assert_eq!(ices[0].get_emails(), &emails);
    assert_eq!(ices[0].get_description(), "Will");
    assert_eq!(ices[0].get_message(), "Find my safe");
}

#[test]
fn remove_keeps_order_of_rest() {
    let mut ices: Vec<Ice> = Vec::new();
    add_ice(&mut ices, "a".to_string(), "1".to_string());
    add_ice(&mut ices, "b".to_string(), "2".to_string());
    add_ice(&mut ices, "c".to_string(), "3".to_string());
    let removed = remove_at(&mut ices, 1);
    assert_eq!(removed.get_description(), "b");
    assert_eq!(ices.len(), 2);
    assert_eq!(ices[0].get_description(), "a");
    assert_eq!(ices[1].get_description(), "c");
}

#[test]
fn parser_rejects_near_miss_documents() {
    let good = "[{\"description\":\"a\",\"message\":\"b\",\"emails\":[],\"active\":false,\"send_date\":null}]";
    assert!(load_ices(Some(good)).is_ok());
    let inconsistent = "[{\"description\":\"a\",\"message\":\"b\",\"emails\":[],\"active\":true,\"send_date\":null}]";
    assert!(load_ices(Some(inconsistent)).is_err());
    let bad_date = "[{\"description\":\"a\",\"message\":\"b\",\"emails\":[],\"active\":true,\"send_date\":\"2099-13-01 09:00\"}]";
    assert!(load_ices(Some(bad_date)).is_err());
    let trailing = "[{\"description\":\"a\",\"message\":\"b\",\"emails\":[],\"active\":false,\"send_date\":null}] ";
    assert!(load_ices(Some(trailing)).is_err());
}

#[test]
fn accepted_content_is_canonical() {
    let content = "[{\"description\":\"a\",\"message\":\"line\\nbreak\",\"emails\":[\"a@x.com\",\"b@x.com\"],\"active\":true,\"send_date\":\"2099-01-01 09:00\"},{\"description\":\"b\",\"message\":\"\",\"emails\":[],\"active\":false,\"send_date\":null}]";
    let ices = load_ices(Some(content)).expect("loads");
    assert_eq!(save_ices(&ices), content);
}

#[test]
fn raw_control_characters_are_refused() {
    let raw_newline =
        "[{\"description\":\"a\nb\",\"message\":\"m\",\"emails\":[],\"active\":false,\"send_date\":null}]";
    assert!(load_ices(Some(raw_newline)).is_err());
}

#[test]
fn parser_accepts_armed_record_with_date() {
    let content = "[{\"description\":\"a\",\"message\":\"b\",\"emails\":[\"a@x.com\"],\"active\":true,\"send_date\":\"2099-01-01 09:00\"}]";
    let ices = load_ices(Some(content)).expect("loads");
    assert_eq!(ices.len(), 1);
    assert!(ices[0].get_status());
    assert_eq!(
        ices[0].get_send_date(),
        Some(parse_stamp("2099-01-01 09:00").expect("valid"))
    );
    assert_eq!(ices[0].get_emails(), &vec!["a@x.com".to_string()]);
}
