use externaldns_webhook::changes::{
    deserialize, serialize, Changes, ChangesError, ChangesWire, FromTo, UpdatePairs,
};
use externaldns_webhook::endpoint::{Endpoint, RecordType};

fn ep(name: &str) -> Endpoint {
    Endpoint {
        dns_name: Some(name.to_string()),
        targets: Some(vec!["1.2.3.4".to_string()]),
        record_type: Some(RecordType::A),
        set_identifier: None,
        record_ttl: None,
        labels: None,
        provider_specific: None,
    }
}

fn name(e: &Endpoint) -> &str {
    e.dns_name.as_deref().unwrap()
}

#[test]
fn update_arrays_of_different_length_are_rejected() {
    let pairs = UpdatePairs { old: vec![ep("a"), ep("b")], new: vec![ep("c"), ep("d"), ep("e")] };
    let r = deserialize(pairs);
    assert_eq!(r.err(), Some(ChangesError::UpdateLengthMismatch { old: 2, new: 3 }));
}

#[test]
fn length_mismatch_message() {
    let e = ChangesError::UpdateLengthMismatch { old: 2, new: 3 };
    assert_eq!(e.message(), "update arrays length mismatch");
}

#[test]
fn update_arrays_are_zipped_in_order() {
    let pairs = UpdatePairs { old: vec![ep("a"), ep("b"), ep("c")], new: vec![ep("x"), ep("y"), ep("z")] };
    let r = deserialize(pairs).unwrap();
    let got: Vec<(&str, &str)> = r.iter().map(|p| (name(&p.from), name(&p.to))).collect();
    assert_eq!(got, vec![("a", "x"), ("b", "y"), ("c", "z")]);
}

#[test]
fn empty_update_arrays_give_no_pairs() {
    let pairs: UpdatePairs<Endpoint> = UpdatePairs::default();
    assert_eq!(deserialize(pairs).unwrap().len(), 0);
}

#[test]
fn pairs_are_split_in_order() {
    let fts = vec![FromTo { from: ep("a"), to: ep("x") }, FromTo { from: ep("b"), to: ep("y") }];
    let out = serialize(fts);
    let old: Vec<&str> = out.old.iter().map(name).collect();
    let new: Vec<&str> = out.new.iter().map(name).collect();
    assert_eq!(old, vec!["a", "b"]);
    assert_eq!(new, vec!["x", "y"]);
}

#[test]
fn null_create_reads_as_empty() {
    let w = ChangesWire { create: None, update_old: vec![], update_new: vec![], delete: vec![ep("d")] };
    let c = Changes::from_wire(w).unwrap();
    assert_eq!(c.create.len(), 0);
    assert_eq!(c.delete.len(), 1);
}

#[test]
fn wire_form_always_has_create() {
    let w = Changes::default().into_wire();
    assert_eq!(w.create.map(|c| c.len()), Some(0));
}

#[test]
fn changes_wire_round_trip() {
    let c = Changes {
        create: vec![ep("c")],
        update: vec![FromTo { from: ep("a"), to: ep("b") }],
        delete: vec![ep("d")],
    };
    let w = c.into_wire();
    assert_eq!(w.update_old.len(), 1);
    assert_eq!(name(&w.update_new[0]), "b");
    let back = Changes::from_wire(w).unwrap();
    assert_eq!(name(&back.create[0]), "c");
    assert_eq!(name(&back.update[0].from), "a");
    assert_eq!(name(&back.update[0].to), "b");
    assert_eq!(name(&back.delete[0]), "d");
}

#[test]
fn mismatched_wire_update_is_rejected() {
    let w = ChangesWire { create: None, update_old: vec![ep("a"), ep("b")], update_new: vec![ep("c")], delete: vec![] };
    let r = Changes::from_wire(w);
    assert_eq!(r.err(), Some(ChangesError::UpdateLengthMismatch { old: 2, new: 1 }));
}
