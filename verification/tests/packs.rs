use terminus_store::error::StoreError;
use terminus_store::layer::{LayerData, StoreLayer};
use terminus_store::label::Label;
use terminus_store::pack::{label_from_bytes, label_to_bytes, read_pack, write_layer};
use terminus_store::store::{open_memory_store, Store};
use terminus_store::triple::{IdTriple, ObjectType, StringTriple};

fn two_layers(store: &mut Store) -> (StoreLayer, StoreLayer) {
    let mut b = store.create_base_layer().unwrap();
    b.add_string_triple(StringTriple::new_value("cow", "says", "moo")).unwrap();
    b.add_string_triple(StringTriple::new_node("kuh", "ißt", "grünes gräs ✓")).unwrap();
    let l1 = b.commit(store).unwrap();
    let mut b = l1.open_write(store).unwrap();
    b.add_string_triple(StringTriple::new_value("pig", "says", "oink")).unwrap();
    b.remove_string_triple(StringTriple::new_value("cow", "says", "moo")).unwrap();
    let l2 = b.commit(store).unwrap();
    (l1, l2)
}

fn pack_of(records: &[LayerData]) -> Vec<u8> {
    let mut out: Vec<u8> = (records.len() as u64).to_le_bytes().to_vec();
    for r in records {
        write_layer(&mut out, r);
    }
    out
}

fn base_record(name: [u32; 5]) -> LayerData {
    LayerData {
        name,
        parent_name: None,
        entries: vec![ObjectType::node("a"), ObjectType::value("b")],
        predicates: vec!["p".to_string()],
        additions: vec![IdTriple::new(1, 1, 2)],
        removals: vec![],
    }
}

#[test]
fn export_then_import_into_a_fresh_store_gives_the_same_layers() {
    let mut store = open_memory_store();
    let (l1, l2) = two_layers(&mut store);
    let pack = store.export_layers(vec![l2.name(), l1.name()]).unwrap();

    let mut fresh = open_memory_store();
    fresh.import_layers(&pack, vec![l1.name(), l2.name()]).unwrap();

    for original in [&l1, &l2] {
        let copy = fresh.get_layer_from_id(original.name()).unwrap().unwrap();
        assert!(copy.same_chain(original));
        assert_eq!(copy.triples(), original.triples());
        assert_eq!(copy.all_counts(), original.all_counts());
        assert_eq!(copy.parent_name(), original.parent_name());
        assert_eq!(copy.triple_additions(), original.triple_additions());
        assert_eq!(copy.triple_removals(), original.triple_removals());
    }
    let copy = fresh.get_layer_from_id(l2.name()).unwrap().unwrap();
    assert!(copy.string_triple_exists(&StringTriple::new_node("kuh", "ißt", "grünes gräs ✓")));
    assert!(copy.string_triple_exists(&StringTriple::new_value("pig", "says", "oink")));
    assert!(!copy.string_triple_exists(&StringTriple::new_value("cow", "says", "moo")));
    assert_eq!(copy.id_object(4), Some(ObjectType::node("grünes gräs ✓")));
    assert_eq!(copy.id_predicate(2), Some("ißt".to_string()));
}

#[test]
fn export_holds_the_listed_layers_and_only_those() {
    let mut store = open_memory_store();
    let (l1, l2) = two_layers(&mut store);
    let only_base = store.export_layers(vec![l1.name()]).unwrap();
    let records = read_pack(&only_base).unwrap();
    assert_eq!(records.len(), 1);
    assert_eq!(records[0].name, l1.name());
    assert_eq!(records[0].parent_name, None);
    assert_eq!(records[0].additions, l1.triple_additions());

    let both = store.export_layers(vec![l1.name(), l2.name(), l1.name()]).unwrap();
    let records = read_pack(&both).unwrap();
    assert_eq!(records.len(), 2);
    assert_eq!(records[0].name, l1.name());
    assert_eq!(records[1].name, l2.name());
    assert_eq!(records[1].parent_name, Some(l1.name()));
    assert_eq!(records[1].removals, l2.triple_removals());

    let none = store.export_layers(vec![]).unwrap();
    assert_eq!(none, vec![0, 0, 0, 0, 0, 0, 0, 0]);
    assert_eq!(read_pack(&none).unwrap().len(), 0);
}

#[test]
fn export_of_an_unknown_layer_is_not_found() {
    let mut store = open_memory_store();
    let (l1, _) = two_layers(&mut store);
    assert_eq!(
        store.export_layers(vec![l1.name(), [9, 9, 9, 9, 9]]),
        Err(StoreError::NotFound)
    );
}

#[test]
fn a_pack_has_the_documented_bytes() {
    let record = LayerData {
        name: [1, 2, 3, 4, 5],
        parent_name: Some([0, 0, 0, 0, 7]),
        entries: vec![ObjectType::value("é")],
        predicates: vec!["p".to_string()],
        additions: vec![IdTriple::new(1, 2, 3)],
        removals: vec![],
    };
    let mut out: Vec<u8> = Vec::new();
    write_layer(&mut out, &record);
    let mut expected: Vec<u8> = Vec::new();
    for w in [1u64, 2, 3, 4, 5] {
        expected.extend_from_slice(&w.to_le_bytes());
    }
    expected.extend_from_slice(&1u64.to_le_bytes());
    for w in [0u64, 0, 0, 0, 7] {
        expected.extend_from_slice(&w.to_le_bytes());
    }
    expected.extend_from_slice(&1u64.to_le_bytes());
    expected.extend_from_slice(&1u64.to_le_bytes());
    expected.extend_from_slice(&2u64.to_le_bytes());
    expected.extend_from_slice(&[0xc3, 0xa9]);
    expected.extend_from_slice(&1u64.to_le_bytes());
    expected.extend_from_slice(&1u64.to_le_bytes());
    expected.extend_from_slice(b"p");
    expected.extend_from_slice(&1u64.to_le_bytes());
    for w in [1u64, 2, 3] {
        expected.extend_from_slice(&w.to_le_bytes());
    }
    expected.extend_from_slice(&0u64.to_le_bytes());
    assert_eq!(out, expected);

    let mut pack: Vec<u8> = 1u64.to_le_bytes().to_vec();
    pack.extend_from_slice(&out);
    let back = read_pack(&pack).unwrap();
    assert_eq!(back.len(), 1);
    assert!(back[0].same(&record));
    assert_eq!(back[0].entries, vec![ObjectType::value("é")]);
    assert!(back[0].duplicate().same(&record));
}

#[test]
fn bytes_that_are_no_pack_are_refused() {
    let mut store = open_memory_store();
    assert!(read_pack(&[]).is_none());
    assert!(read_pack(&[1, 0, 0, 0, 0, 0, 0]).is_none());
    assert!(read_pack(&[1, 0, 0, 0, 0, 0, 0, 0]).is_none());
    assert!(read_pack(&[0, 0, 0, 0, 0, 0, 0, 0, 0]).is_none());
    assert_eq!(store.import_layers(&[], vec![]), Err(StoreError::InvalidData));

    let good = pack_of(&[base_record([5, 5, 5, 5, 5])]);
    assert!(read_pack(&good).is_some());
    assert!(read_pack(&good[..good.len() - 1]).is_none());

    let mut bad_text = good.clone();
    let at = 8 + 5 * 8 + 8 + 8 + 8 + 8;
    assert_eq!(bad_text[at], b'a');
    bad_text[at] = 0xff;
    assert!(read_pack(&bad_text).is_none());

    let mut bad_tag = good.clone();
    bad_tag[8 + 5 * 8 + 8 + 8] = 2;
    assert!(read_pack(&bad_tag).is_none());

    let mut bad_name = good.clone();
    bad_name[8 + 4] = 1;
    assert!(read_pack(&bad_name).is_none());

    let mut bad_flag = good.clone();
    bad_flag[8 + 5 * 8] = 2;
    assert!(read_pack(&bad_flag).is_none());
}

#[test]
fn a_pack_that_lacks_a_listed_layer_is_invalid_data() {
    let mut store = open_memory_store();
    let (l1, l2) = two_layers(&mut store);
    let pack = store.export_layers(vec![l1.name()]).unwrap();
    let mut fresh = open_memory_store();
    assert_eq!(
        fresh.import_layers(&pack, vec![l1.name(), l2.name()]),
        Err(StoreError::InvalidData)
    );
    assert!(fresh.get_layer_from_id(l1.name()).unwrap().is_none());
}

#[test]
fn import_takes_only_the_listed_layers() {
    let mut store = open_memory_store();
    let (l1, l2) = two_layers(&mut store);
    let pack = store.export_layers(vec![l1.name(), l2.name()]).unwrap();
    let mut fresh = open_memory_store();
    assert_eq!(fresh.import_layers(&pack, vec![l1.name()]), Ok(()));
    assert!(fresh.get_layer_from_id(l1.name()).unwrap().is_some());
    assert!(fresh.get_layer_from_id(l2.name()).unwrap().is_none());
    assert_eq!(fresh.import_layers(&pack, vec![]), Ok(()));
}

#[test]
fn import_of_a_child_without_its_parent_is_not_found() {
    let mut store = open_memory_store();
    let (_, l2) = two_layers(&mut store);
    let pack = store.export_layers(vec![l2.name()]).unwrap();
    let mut fresh = open_memory_store();
    assert_eq!(
        fresh.import_layers(&pack, vec![l2.name()]),
        Err(StoreError::NotFound)
    );
}

#[test]
fn import_is_idempotent_and_refuses_a_conflict() {
    let mut store = open_memory_store();
    let (l1, l2) = two_layers(&mut store);
    let pack = store.export_layers(vec![l1.name(), l2.name()]).unwrap();
    assert_eq!(store.import_layers(&pack, vec![l1.name(), l2.name()]), Ok(()));
    let mut fresh = open_memory_store();
    assert_eq!(fresh.import_layers(&pack, vec![l1.name(), l2.name()]), Ok(()));
    assert_eq!(fresh.import_layers(&pack, vec![l1.name(), l2.name()]), Ok(()));

    let mut other = open_memory_store();
    let mut b = other.create_base_layer().unwrap();
    b.add_string_triple(StringTriple::new_value("duck", "says", "quack")).unwrap();
    let d = b.commit(&mut other).unwrap();
    assert_eq!(d.name(), l1.name());
    assert_eq!(
        other.import_layers(&pack, vec![l1.name()]),
        Err(StoreError::InvalidData)
    );
    let still = other.get_layer_from_id(d.name()).unwrap().unwrap();
    assert!(still.same_chain(&d));
}

#[test]
fn import_refuses_records_that_are_not_in_order() {
    let name = [3, 3, 3, 3, 3];
    let cases: Vec<LayerData> = vec![
        LayerData { additions: vec![IdTriple::new(1, 1, 3)], ..base_record(name) },
        LayerData { additions: vec![IdTriple::new(2, 1, 1)], ..base_record(name) },
        LayerData { additions: vec![IdTriple::new(1, 2, 1)], ..base_record(name) },
        LayerData { additions: vec![IdTriple::new(0, 1, 1)], ..base_record(name) },
        LayerData {
            additions: vec![IdTriple::new(1, 1, 2), IdTriple::new(1, 1, 1)],
            ..base_record(name)
        },
        LayerData {
            additions: vec![IdTriple::new(1, 1, 2), IdTriple::new(1, 1, 2)],
            ..base_record(name)
        },
        LayerData { removals: vec![IdTriple::new(1, 1, 2)], ..base_record(name) },
        LayerData {
            entries: vec![ObjectType::node("a"), ObjectType::node("a")],
            ..base_record(name)
        },
        LayerData {
            predicates: vec!["p".to_string(), "p".to_string()],
            ..base_record(name)
        },
    ];
    for record in cases {
        let mut store = open_memory_store();
        let pack = pack_of(&[record]);
        assert_eq!(
            store.import_layers(&pack, vec![name]),
            Err(StoreError::InvalidData)
        );
        assert!(store.get_layer_from_id(name).unwrap().is_none());
    }
    let mut store = open_memory_store();
    let pack = pack_of(&[base_record(name)]);
    assert_eq!(store.import_layers(&pack, vec![name]), Ok(()));
    let l = store.get_layer_from_id(name).unwrap().unwrap();
    assert!(l.string_triple_exists(&StringTriple::new_value("a", "p", "b")));
}

#[test]
fn import_checks_a_child_against_its_parent() {
    let base = [3, 3, 3, 3, 3];
    let child = [4, 4, 4, 4, 4];
    let good = LayerData {
        name: child,
        parent_name: Some(base),
        entries: vec![ObjectType::value("c")],
        predicates: vec![],
        additions: vec![IdTriple::new(1, 1, 3)],
        removals: vec![IdTriple::new(1, 1, 2)],
    };
    let bad: Vec<LayerData> = vec![
        LayerData { entries: vec![ObjectType::value("b")], ..good.duplicate() },
        LayerData { predicates: vec!["p".to_string()], ..good.duplicate() },
        LayerData { additions: vec![IdTriple::new(1, 1, 2)], ..good.duplicate() },
        LayerData { removals: vec![IdTriple::new(1, 1, 1)], ..good.duplicate() },
        LayerData { additions: vec![IdTriple::new(3, 1, 1)], ..good.duplicate() },
        LayerData { additions: vec![IdTriple::new(1, 1, 4)], ..good.duplicate() },
    ];
    for record in bad {
        let mut store = open_memory_store();
        let pack = pack_of(&[base_record(base), record]);
        assert_eq!(
            store.import_layers(&pack, vec![base, child]),
            Err(StoreError::InvalidData)
        );
        assert!(store.get_layer_from_id(base).unwrap().is_some());
        assert!(store.get_layer_from_id(child).unwrap().is_none());
    }
    let mut store = open_memory_store();
    let pack = pack_of(&[base_record(base), good]);
    assert_eq!(store.import_layers(&pack, vec![child, base]), Ok(()));
    let l = store.get_layer_from_id(child).unwrap().unwrap();
    assert_eq!(l.triples(), vec![IdTriple::new(1, 1, 3)]);
    assert!(l.string_triple_exists(&StringTriple::new_value("a", "p", "c")));

    let mut late = open_memory_store();
    let reversed = pack_of(&[
        LayerData {
            name: child,
            parent_name: Some(base),
            entries: vec![ObjectType::value("c")],
            predicates: vec![],
            additions: vec![IdTriple::new(1, 1, 3)],
            removals: vec![IdTriple::new(1, 1, 2)],
        },
        base_record(base),
    ]);
    assert_eq!(
        late.import_layers(&reversed, vec![base, child]),
        Err(StoreError::NotFound)
    );
}

#[test]
fn names_given_out_after_an_import_skip_the_imported_ones() {
    let mut store = open_memory_store();
    let pack = pack_of(&[base_record([0, 0, 0, 0, 0]), base_record([0, 0, 0, 0, 2])]);
    assert_eq!(
        store.import_layers(&pack, vec![[0, 0, 0, 0, 0], [0, 0, 0, 0, 2]]),
        Ok(())
    );
    let a = store.create_base_layer().unwrap();
    let b = store.create_base_layer().unwrap();
    assert_eq!(a.name(), [0, 0, 0, 0, 1]);
    assert_eq!(b.name(), [0, 0, 0, 0, 3]);
}

#[test]
fn a_label_is_read_back_as_it_was_written() {
    let with_layer = Label {
        name: "föödb".to_string(),
        layer: Some([1, 2, 3, 4, 0xffff_ffff]),
        version: 7,
    };
    let bytes = label_to_bytes(&with_layer);
    let mut expected: Vec<u8> = Vec::new();
    expected.extend_from_slice(&7u64.to_le_bytes());
    expected.extend_from_slice("föödb".as_bytes());
    expected.extend_from_slice(&1u64.to_le_bytes());
    for w in [1u64, 2, 3, 4, 0xffff_ffff] {
        expected.extend_from_slice(&w.to_le_bytes());
    }
    expected.extend_from_slice(&7u64.to_le_bytes());
    assert_eq!(bytes, expected);
    assert_eq!(label_from_bytes(&bytes), Some(with_layer));

    let without = Label { name: String::new(), layer: None, version: u64::MAX };
    assert_eq!(label_from_bytes(&label_to_bytes(&without)), Some(without));

    assert_eq!(label_from_bytes(&[]), None);
    assert_eq!(label_from_bytes(&bytes[..bytes.len() - 1]), None);
    let mut longer = bytes.clone();
    longer.push(0);
    assert_eq!(label_from_bytes(&longer), None);
}

#[test]
fn labels_and_layer_names_are_listed_and_restored() {
    let mut store = open_memory_store();
    let (l1, l2) = two_layers(&mut store);
    let g = store.create("one").unwrap();
    store.create("two").unwrap();
    assert!(g.set_head(&mut store, &l1).unwrap());

    assert_eq!(store.layer_store.layer_names(), vec![l1.name(), l2.name()]);
    let labels = store.label_store.all_labels();
    assert_eq!(
        labels,
        vec![
            Label { name: "one".to_string(), layer: Some(l1.name()), version: 1 },
            Label { name: "two".to_string(), layer: None, version: 0 },
        ]
    );

    let mut fresh = open_memory_store();
    for label in labels {
        assert_eq!(fresh.label_store.restore_label(label), Ok(()));
    }
    assert_eq!(
        fresh.label_store.restore_label(Label {
            name: "one".to_string(),
            layer: None,
            version: 0
        }),
        Err(StoreError::AlreadyExists)
    );
    assert_eq!(fresh.label_store.get_label("one").unwrap().version, 1);
    assert_eq!(fresh.label_store.get_label("one").unwrap().layer, Some(l1.name()));
}
