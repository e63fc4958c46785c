use pfm::config::Config;
use pfm::forward::make_forward;

#[test]
fn empty_registry() {
    let c = Config::new();
    assert_eq!(c.len(), 0);
    assert!(c.get_sorted_forwards().is_empty());
    assert!(c.get_forward_by_index(0).is_none());
}

#[test]
fn id_is_derived_from_host_and_ports() {
    let f = make_forward("user@h.example", 8080, 80, Some(4242));
    assert_eq!(f.id, "user_at_h.example_8080_80");
    assert_eq!(f.host, "user@h.example");
    assert_eq!(f.local_port, 8080);
    assert_eq!(f.remote_port, 80);
    assert_eq!(f.pid, Some(4242));
}

#[test]
fn add_then_read_back() {
    let mut c = Config::new();
    c.add_forward(make_forward("user@h.example", 8080, 80, Some(4242)));
    assert_eq!(c.len(), 1);
    let sorted = c.get_sorted_forwards();
    assert_eq!(sorted[0].id, "user_at_h.example_8080_80");
    assert_eq!(sorted[0].host, "user@h.example");
    assert_eq!(sorted[0].local_port, 8080);
    assert_eq!(sorted[0].remote_port, 80);
    assert_eq!(sorted[0].pid, Some(4242));
    let by0 = c.get_forward_by_index(0).unwrap();
    assert_eq!(by0.id, "user_at_h.example_8080_80");
    assert!(c.get_forward_by_index(1).is_none());
}

#[test]
fn upsert_last_write_wins() {
    let mut c = Config::new();
    c.add_forward(make_forward("h", 1, 2, Some(10)));
    c.add_forward(make_forward("h", 1, 2, Some(20)));
    assert_eq!(c.len(), 1);
    assert_eq!(c.get_forward_by_index(0).unwrap().pid, Some(20));
}

#[test]
fn sorted_view_is_ascending() {
    let mut c = Config::new();
    c.add_forward(make_forward("charlie", 3, 3, None));
    c.add_forward(make_forward("alpha", 1, 1, None));
    c.add_forward(make_forward("bravo", 2, 2, None));
    let sorted = c.get_sorted_forwards();
    assert_eq!(sorted.len(), 3);
    assert_eq!(sorted[0].host, "alpha");
    assert_eq!(sorted[1].host, "bravo");
    assert_eq!(sorted[2].host, "charlie");
    for w in sorted.windows(2) {
        assert!(w[0].id < w[1].id);
    }
}

#[test]
fn delete_by_index_removes_the_middle_record() {
    let mut c = Config::new();
    c.add_forward(make_forward("a.example", 1, 1, None));
    c.add_forward(make_forward("b.example", 2, 2, None));
    c.add_forward(make_forward("c.example", 3, 3, None));
    let tokens = vec![String::from("1")];
    let (ids, bad) = c.resolve_delete_targets(&tokens);
    assert_eq!(ids, vec![String::from("b.example_2_2")]);
    assert!(bad.is_empty());
    let removed = c.remove_forward(&ids[0]).unwrap();
    assert_eq!(removed.id, "b.example_2_2");
    assert_eq!(c.len(), 2);
    assert_eq!(c.get_forward_by_index(0).unwrap().host, "a.example");
    assert_eq!(c.get_forward_by_index(1).unwrap().host, "c.example");
}

#[test]
fn delete_all_empties_the_registry() {
    let mut c = Config::new();
    c.add_forward(make_forward("a.example", 1, 1, Some(11)));
    c.add_forward(make_forward("b.example", 2, 2, Some(22)));
    let tokens = vec![String::from("all")];
    let (ids, bad) = c.resolve_delete_targets(&tokens);
    assert_eq!(ids.len(), 2);
    assert!(bad.is_empty());
    for id in &ids {
        assert!(c.remove_forward(id).is_some());
    }
    assert_eq!(c.len(), 0);
}

#[test]
fn remove_of_missing_id_changes_nothing() {
    let mut c = Config::new();
    c.add_forward(make_forward("a.example", 1, 1, None));
    assert!(c.remove_forward("no_such_id").is_none());
    assert_eq!(c.len(), 1);
    assert!(c.remove_forward("no_such_id").is_none());
    assert_eq!(c.len(), 1);
}

#[test]
fn cleanup_removes_exactly_the_dead() {
    let mut c = Config::new();
    c.add_forward(make_forward("live.example", 1, 1, Some(100)));
    c.add_forward(make_forward("dead.example", 2, 2, Some(200)));
    let removed = c.cleanup(&|p: u32| p == 100);
    assert_eq!(removed.len(), 1);
    assert_eq!(removed[0].id, "dead.example_2_2");
    assert_eq!(c.len(), 1);
    assert_eq!(c.get_forward_by_index(0).unwrap().id, "live.example_1_1");
}

#[test]
fn cleanup_keeps_records_without_a_pid() {
    let mut c = Config::new();
    c.add_forward(make_forward("nopid.example", 1, 1, None));
    let removed = c.cleanup(&|_p: u32| false);
    assert!(removed.is_empty());
    assert_eq!(c.len(), 1);
}

#[test]
fn index_is_stable_across_reads() {
    let mut c = Config::new();
    c.add_forward(make_forward("a.example", 1, 1, None));
    c.add_forward(make_forward("b.example", 2, 2, None));
    let first = c.get_forward_by_index(1).unwrap().id.clone();
    let _ = c.get_sorted_forwards();
    let _ = c.len();
    let again = c.get_forward_by_index(1).unwrap().id.clone();
    assert_eq!(first, again);
}
