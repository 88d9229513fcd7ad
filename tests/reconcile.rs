use dashmap::DashMap;
use externaldns_webhook::changes::{Changes, FromTo};
use externaldns_webhook::endpoint::{Endpoint, RecordType};
use externaldns_webhook::reconcile::apply;

fn ep(name: &str, target: &str, record_type: RecordType, ttl: Option<u32>) -> Endpoint {
    Endpoint {
        dns_name: Some(name.to_string()),
        targets: Some(vec![target.to_string()]),
        record_type: Some(record_type),
        set_identifier: None,
        record_ttl: ttl,
        labels: None,
        provider_specific: None,
    }
}

fn names(v: &[Endpoint]) -> Vec<String> {
    let mut out: Vec<String> = v.iter().map(|e| e.dns_name.clone().unwrap()).collect();
    out.sort();
    out
}

fn changes(create: Vec<Endpoint>, update: Vec<FromTo<Endpoint>>, delete: Vec<Endpoint>) -> Changes {
    Changes { create, update, delete }
}

#[test]
fn identity_ignores_labels_and_provider_specific() {
    let mut a = ep("a.example.com", "1.2.3.4", RecordType::A, Some(300));
    a.labels = Some(DashMap::from_iter([("owner".to_string(), "x".to_string())]));
    let mut b = ep("a.example.com", "1.2.3.4", RecordType::A, Some(300));
    b.provider_specific = Some(DashMap::from_iter([("k".to_string(), "v".to_string())]));
    assert!(a == b);
    let c = ep("a.example.com", "1.2.3.4", RecordType::A, Some(301));
    assert!(a != c);
    let set = apply(vec![a], changes(vec![b], vec![], vec![]));
    assert_eq!(set.len(), 1);
}

#[test]
fn hash_ignores_labels() {
    let mut a = ep("a.example.com", "1.2.3.4", RecordType::A, None);
    a.labels = Some(DashMap::from_iter([("k".to_string(), "1".to_string())]));
    let mut b = ep("a.example.com", "1.2.3.4", RecordType::A, None);
    b.labels = Some(DashMap::from_iter([("k".to_string(), "2".to_string())]));
    let mut set = std::collections::HashSet::new();
    set.insert(a);
    set.insert(b);
    set.insert(ep("a.example.com", "1.2.3.5", RecordType::A, None));
    assert_eq!(set.len(), 2);
}

#[test]
fn create_adds_a_record() {
    let s = vec![ep("a.example.com", "1.1.1.1", RecordType::A, None)];
    let r = apply(s, changes(vec![ep("b.example.com", "2.2.2.2", RecordType::A, None)], vec![], vec![]));
    assert_eq!(names(&r), vec!["a.example.com", "b.example.com"]);
}

#[test]
fn delete_of_absent_record_is_no_op() {
    let s = vec![ep("a.example.com", "1.1.1.1", RecordType::A, None)];
    let r = apply(s, changes(vec![], vec![], vec![ep("z.example.com", "9.9.9.9", RecordType::A, None)]));
    assert_eq!(names(&r), vec!["a.example.com"]);
}

#[test]
fn delete_removes_a_record() {
    let s = vec![
        ep("a.example.com", "1.1.1.1", RecordType::A, None),
        ep("b.example.com", "2.2.2.2", RecordType::A, None),
    ];
    let r = apply(s, changes(vec![], vec![], vec![ep("a.example.com", "1.1.1.1", RecordType::A, None)]));
    assert_eq!(names(&r), vec!["b.example.com"]);
}

#[test]
fn update_of_absent_source_still_inserts() {
    let s = vec![ep("a.example.com", "1.1.1.1", RecordType::A, None)];
    let pair = FromTo {
        from: ep("x.example.com", "9.9.9.9", RecordType::A, None),
        to: ep("y.example.com", "8.8.8.8", RecordType::A, None),
    };
    let r = apply(s, changes(vec![], vec![pair], vec![]));
    assert_eq!(names(&r), vec!["a.example.com", "y.example.com"]);
}

#[test]
fn update_replaces_source() {
    let s = vec![ep("a.example.com", "1.1.1.1", RecordType::A, None)];
    let pair = FromTo {
        from: ep("a.example.com", "1.1.1.1", RecordType::A, None),
        to: ep("a.example.com", "5.5.5.5", RecordType::A, None),
    };
    let r = apply(s, changes(vec![], vec![pair], vec![]));
    assert_eq!(r.len(), 1);
    assert_eq!(r[0].targets, Some(vec!["5.5.5.5".to_string()]));
}

#[test]
fn insert_wins_over_delete_in_one_change_set() {
    let a = ep("a.example.com", "1.1.1.1", RecordType::A, None);
    let r = apply(vec![], changes(vec![a.clone()], vec![], vec![a]));
    assert_eq!(names(&r), vec!["a.example.com"]);
}

#[test]
fn applying_twice_is_idempotent() {
    let s = vec![
        ep("a.example.com", "1.1.1.1", RecordType::A, None),
        ep("b.example.com", "2.2.2.2", RecordType::A, None),
    ];
    let mk = || {
        changes(
            vec![ep("c.example.com", "3.3.3.3", RecordType::A, None)],
            vec![],
            vec![ep("a.example.com", "1.1.1.1", RecordType::A, None)],
        )
    };
    let once = apply(s, mk());
    let once_names = names(&once);
    let twice = apply(once, mk());
    assert_eq!(names(&twice), once_names);
    assert_eq!(once_names, vec!["b.example.com", "c.example.com"]);
}

#[test]
fn duplicate_creations_are_kept_once() {
    let a = ep("a.example.com", "1.1.1.1", RecordType::A, None);
    let r = apply(vec![a.clone()], changes(vec![a.clone(), a], vec![], vec![]));
    assert_eq!(r.len(), 1);
}
