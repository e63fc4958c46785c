use pfm::config::Config;
use pfm::forward::make_forward;
use pfm::Error;

#[test]
fn empty_registry_text() {
    let c = Config::new();
    assert_eq!(c.to_json(), "{\n  \"forwards\": {}\n}");
}

#[test]
fn one_record_text_is_exact() {
    let mut c = Config::new();
    c.add_forward(make_forward("user@h.example", 8080, 80, Some(4242)));
    let expected = "{\n  \"forwards\": {\n    \"user_at_h.example_8080_80\": {\n      \"id\": \"user_at_h.example_8080_80\",\n      \"host\": \"user@h.example\",\n      \"local_port\": 8080,\n      \"remote_port\": 80,\n      \"pid\": 4242\n    }\n  }\n}";
    assert_eq!(c.to_json(), expected);
}

#[test]
fn round_trip_preserves_the_registry() {
    let mut c = Config::new();
    c.add_forward(make_forward("b.example", 2000, 20, None));
    c.add_forward(make_forward("user@a.example", 1000, 10, Some(77)));
    let text = c.to_json();
    let back = Config::from_json(&text).unwrap();
    assert_eq!(back.len(), 2);
    let orig = c.get_sorted_forwards();
    let read = back.get_sorted_forwards();
    for (a, b) in orig.iter().zip(read.iter()) {
        assert_eq!(a.id, b.id);
        assert_eq!(a.host, b.host);
        assert_eq!(a.local_port, b.local_port);
        assert_eq!(a.remote_port, b.remote_port);
        assert_eq!(a.pid, b.pid);
    }
}

#[test]
fn round_trip_with_escaped_host() {
    let mut c = Config::new();
    c.add_forward(make_forward("odd\"host\\name", 5, 6, Some(1)));
    let text = c.to_json();
    let back = Config::from_json(&text).unwrap();
    assert_eq!(back.get_forward_by_index(0).unwrap().host, "odd\"host\\name");
}

#[test]
fn control_characters_are_escaped_and_round_trip() {
    let mut c = Config::new();
    c.add_forward(make_forward("tab\there", 5, 6, Some(1)));
    let text = c.to_json();
    assert!(text.contains("tab\\u0009here"));
    assert!(!text.contains('\t'));
    let back = Config::from_json(&text).unwrap();
    assert_eq!(back.get_forward_by_index(0).unwrap().host, "tab\there");
}

#[test]
fn null_pid_round_trips() {
    let mut c = Config::new();
    c.add_forward(make_forward("h.example", 1, 1, None));
    let text = c.to_json();
    assert!(text.contains("\"pid\": null"));
    let back = Config::from_json(&text).unwrap();
    assert_eq!(back.get_forward_by_index(0).unwrap().pid, None);
}

#[test]
fn garbage_is_unreadable() {
    assert_eq!(Config::from_json("not a registry").unwrap_err(), Error::ConfigUnreadable);
    assert_eq!(Config::from_json("").unwrap_err(), Error::ConfigUnreadable);
    assert_eq!(Config::from_json("{}").unwrap_err(), Error::ConfigUnreadable);
}

#[test]
fn record_with_wrong_id_is_unreadable() {
    let text = "{\n  \"forwards\": {\n    \"wrong\": {\n      \"id\": \"wrong\",\n      \"host\": \"h.example\",\n      \"local_port\": 1,\n      \"remote_port\": 2,\n      \"pid\": null\n    }\n  }\n}";
    assert_eq!(Config::from_json(text).unwrap_err(), Error::ConfigUnreadable);
}
