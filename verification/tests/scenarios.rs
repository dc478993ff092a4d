use terminus_store::builder::StoreLayerBuilder;
use terminus_store::error::StoreError;
use terminus_store::layer::StoreLayer;
use terminus_store::lookup::{keys_of, Lookup, Position, Source};
use terminus_store::store::{open_memory_store, Store};
use terminus_store::triple::{IdTriple, ObjectType, StringTriple};

fn build_base(store: &mut Store, triples: &[(&str, &str, &str)]) -> StoreLayer {
    let mut builder = store.create_base_layer().unwrap();
    for (s, p, o) in triples {
        builder
            .add_string_triple(StringTriple::new_value(s, p, o))
            .unwrap();
    }
    builder.commit(store).unwrap()
}

fn create_and_manipulate_database(mut store: Store) {
    let database = store.create("foodb").unwrap();

    let head = database.head(&mut store).unwrap();
    assert!(head.is_none());

    let mut builder = store.create_base_layer().unwrap();
    builder
        .add_string_triple(StringTriple::new_value("cow", "says", "moo"))
        .unwrap();

    let layer = builder.commit(&mut store).unwrap();
    assert!(database.set_head(&mut store, &layer).unwrap());

    builder = layer.open_write(&mut store).unwrap();
    builder
        .add_string_triple(StringTriple::new_value("pig", "says", "oink"))
        .unwrap();

    let layer2 = builder.commit(&mut store).unwrap();
    assert!(database.set_head(&mut store, &layer2).unwrap());
    let layer2_name = layer2.name();

    let layer = database.head(&mut store).unwrap().unwrap();

    assert_eq!(layer2_name, layer.name());
    assert!(layer.string_triple_exists(&StringTriple::new_value("cow", "says", "moo")));
    assert!(layer.string_triple_exists(&StringTriple::new_value("pig", "says", "oink")));
}

#[test]
fn create_and_manipulate_memory_database() {
    let store = open_memory_store();

    create_and_manipulate_database(store);
}

#[test]
fn create_layer_and_retrieve_it_by_id() {
    let mut store = open_memory_store();
    let mut builder = store.create_base_layer().unwrap();
    builder
        .add_string_triple(StringTriple::new_value("cow", "says", "moo"))
        .unwrap();

    let layer = builder.commit(&mut store).unwrap();

    let id = layer.name();

    let layer2 = store.get_layer_from_id(id).unwrap().unwrap();

    assert!(layer2.string_triple_exists(&StringTriple::new_value("cow", "says", "moo")));
}

#[test]
fn commit_builder_makes_builder_committed() {
    let mut store = open_memory_store();
    let mut builder = store.create_base_layer().unwrap();

    builder
        .add_string_triple(StringTriple::new_value("cow", "says", "moo"))
        .unwrap();

    assert!(!builder.committed());

    builder.commit_no_load(&mut store).unwrap();

    assert!(builder.committed());
}

#[test]
fn hard_reset() {
    let mut store = open_memory_store();
    let database = store.create("foodb").unwrap();

    let mut builder1 = store.create_base_layer().unwrap();
    builder1
        .add_string_triple(StringTriple::new_value("cow", "says", "moo"))
        .unwrap();

    let layer1 = builder1.commit(&mut store).unwrap();

    assert!(database.set_head(&mut store, &layer1).unwrap());

    let mut builder2 = store.create_base_layer().unwrap();
    builder2
        .add_string_triple(StringTriple::new_value("duck", "says", "quack"))
        .unwrap();

    let layer2 = builder2.commit(&mut store).unwrap();

    assert!(database.force_set_head(&mut store, &layer2).unwrap());

    let new_layer = database.head(&mut store).unwrap().unwrap();

    assert!(new_layer.string_triple_exists(&StringTriple::new_value("duck", "says", "quack")));
    assert!(!new_layer.string_triple_exists(&StringTriple::new_value("cow", "says", "moo")));
}

#[test]
fn create_two_layers_and_squash() {
    let mut store = open_memory_store();
    let mut builder = store.create_base_layer().unwrap();
    builder
        .add_string_triple(StringTriple::new_value("cow", "says", "moo"))
        .unwrap();

    let layer = builder.commit(&mut store).unwrap();

    let mut builder2 = layer.open_write(&mut store).unwrap();

    builder2
        .add_string_triple(StringTriple::new_value("dog", "says", "woof"))
        .unwrap();

    let layer2 = builder2.commit(&mut store).unwrap();

    let new = layer2.squash(&mut store).unwrap();

    assert!(new.string_triple_exists(&StringTriple::new_value("cow", "says", "moo")));
    assert!(new.string_triple_exists(&StringTriple::new_value("dog", "says", "woof")));
    assert!(new.parent(&mut store).unwrap().is_none());
}

#[test]
fn apply_a_base_delta() {
    let mut store = open_memory_store();
    let mut builder = store.create_base_layer().unwrap();

    builder
        .add_string_triple(StringTriple::new_value("cow", "says", "moo"))
        .unwrap();

    let layer = builder.commit(&mut store).unwrap();

    let mut builder2 = layer.open_write(&mut store).unwrap();

    builder2
        .add_string_triple(StringTriple::new_value("dog", "says", "woof"))
        .unwrap();

    let layer2 = builder2.commit(&mut store).unwrap();

    let mut delta_builder_1 = store.create_base_layer().unwrap();

    delta_builder_1
        .add_string_triple(StringTriple::new_value("dog", "says", "woof"))
        .unwrap();
    delta_builder_1
        .add_string_triple(StringTriple::new_value("cat", "says", "meow"))
        .unwrap();

    let delta_1 = delta_builder_1.commit(&mut store).unwrap();

    let mut delta_builder_2 = delta_1.open_write(&mut store).unwrap();

    delta_builder_2
        .add_string_triple(StringTriple::new_value("crow", "says", "caw"))
        .unwrap();
    delta_builder_2
        .remove_string_triple(StringTriple::new_value("cat", "says", "meow"))
        .unwrap();

    let delta = delta_builder_2.commit(&mut store).unwrap();

    let mut rebase_builder = layer2.open_write(&mut store).unwrap();

    let _ = rebase_builder.apply_delta(&delta).unwrap();

    let rebase_layer = rebase_builder.commit(&mut store).unwrap();

    assert!(rebase_layer.string_triple_exists(&StringTriple::new_value("cow", "says", "moo")));
    assert!(rebase_layer.string_triple_exists(&StringTriple::new_value("crow", "says", "caw")));
    assert!(rebase_layer.string_triple_exists(&StringTriple::new_value("dog", "says", "woof")));
    assert!(!rebase_layer.string_triple_exists(&StringTriple::new_value("cat", "says", "meow")));
}

#[test]
fn head_of_a_new_graph_is_none_and_set_head_attaches_a_layer() {
    let mut store = open_memory_store();
    let graph = store.create("foodb").unwrap();
    assert_eq!(graph.name(), "foodb");
    assert!(graph.head(&mut store).unwrap().is_none());

    let l1 = build_base(&mut store, &[("cow", "says", "moo")]);
    assert!(graph.set_head(&mut store, &l1).unwrap());
    let head = graph.head(&mut store).unwrap().unwrap();
    assert!(head.string_triple_exists(&StringTriple::new_value("cow", "says", "moo")));
    assert_eq!(head.name(), l1.name());
}

#[test]
fn set_head_refuses_a_layer_that_does_not_descend_from_the_head() {
    let mut store = open_memory_store();
    let graph = store.create("foodb").unwrap();
    let l1 = build_base(&mut store, &[("cow", "says", "moo")]);
    assert!(graph.set_head(&mut store, &l1).unwrap());

    let l2 = build_base(&mut store, &[("duck", "says", "quack")]);
    assert!(!graph.set_head(&mut store, &l2).unwrap());
    let head = graph.head(&mut store).unwrap().unwrap();
    assert_eq!(head.name(), l1.name());

    assert!(graph.force_set_head(&mut store, &l2).unwrap());
    let head = graph.head(&mut store).unwrap().unwrap();
    assert!(head.string_triple_exists(&StringTriple::new_value("duck", "says", "quack")));
    assert!(!head.string_triple_exists(&StringTriple::new_value("cow", "says", "moo")));
}

#[test]
fn set_head_to_the_current_head_is_allowed() {
    let mut store = open_memory_store();
    let graph = store.create("g").unwrap();
    let l1 = build_base(&mut store, &[("a", "b", "c")]);
    assert!(graph.set_head(&mut store, &l1).unwrap());
    assert!(graph.set_head(&mut store, &l1).unwrap());
    let label = store.label_store.get_label("g").unwrap();
    assert_eq!(label.version, 2);
    assert_eq!(label.layer, Some(l1.name()));
}

#[test]
fn set_head_cannot_go_back_to_an_ancestor() {
    let mut store = open_memory_store();
    let graph = store.create("g").unwrap();
    let l1 = build_base(&mut store, &[("a", "b", "c")]);
    let mut b = l1.open_write(&mut store).unwrap();
    b.add_string_triple(StringTriple::new_value("d", "e", "f")).unwrap();
    let l2 = b.commit(&mut store).unwrap();
    assert!(graph.set_head(&mut store, &l2).unwrap());
    assert!(!graph.set_head(&mut store, &l1).unwrap());
    assert_eq!(graph.head(&mut store).unwrap().unwrap().name(), l2.name());
}

#[test]
fn committed_flag_and_refusals_after_commit() {
    let mut store = open_memory_store();
    let mut builder = store.create_base_layer().unwrap();
    assert!(!builder.committed());
    builder
        .add_string_triple(StringTriple::new_value("cow", "says", "moo"))
        .unwrap();
    assert!(!builder.committed());
    builder.commit_no_load(&mut store).unwrap();
    assert!(builder.committed());
    assert_eq!(
        builder.add_string_triple(StringTriple::new_value("pig", "says", "oink")),
        Err(StoreError::InvalidData)
    );
    assert_eq!(
        builder.remove_string_triple(StringTriple::new_value("cow", "says", "moo")),
        Err(StoreError::InvalidData)
    );
    assert_eq!(
        builder.add_id_triple(IdTriple::new(1, 1, 2)),
        Err(StoreError::InvalidData)
    );
    assert_eq!(
        builder.remove_id_triple(IdTriple::new(1, 1, 2)),
        Err(StoreError::InvalidData)
    );
    assert_eq!(builder.ensure_open(), Err(StoreError::InvalidData));
    assert!(builder.committed());
}

#[test]
fn second_commit_fails_with_invalid_data() {
    let mut store = open_memory_store();
    let mut builder = store.create_base_layer().unwrap();
    builder
        .add_string_triple(StringTriple::new_value("cow", "says", "moo"))
        .unwrap();
    assert!(builder.commit(&mut store).is_ok());
    assert!(builder.committed());
    assert!(matches!(builder.commit(&mut store), Err(StoreError::InvalidData)));
    assert_eq!(builder.commit_no_load(&mut store), Err(StoreError::InvalidData));
    assert!(builder.committed());
}

#[test]
fn ids_are_given_in_order_of_first_use_starting_at_one() {
    let mut store = open_memory_store();
    let mut builder = store.create_base_layer().unwrap();
    builder
        .add_string_triple(StringTriple::new_value("cow", "says", "moo"))
        .unwrap();
    builder
        .add_string_triple(StringTriple::new_node("pig", "likes", "cow"))
        .unwrap();
    let layer = builder.commit(&mut store).unwrap();

    assert_eq!(layer.subject_id("cow"), Some(1));
    assert_eq!(layer.object_value_id("moo"), Some(2));
    assert_eq!(layer.subject_id("pig"), Some(3));
    assert_eq!(layer.object_node_id("cow"), Some(1));
    assert_eq!(layer.object_node_id("moo"), None);
    assert_eq!(layer.subject_id("moo"), None);
    assert_eq!(layer.predicate_id("says"), Some(1));
    assert_eq!(layer.predicate_id("likes"), Some(2));
    assert_eq!(layer.predicate_id("hates"), None);
    assert_eq!(layer.node_and_value_count(), 3);
    assert_eq!(layer.predicate_count(), 2);

    assert_eq!(
        layer.triples(),
        vec![IdTriple::new(1, 1, 2), IdTriple::new(3, 2, 1)]
    );
    assert!(layer.triple_exists(1, 1, 2));
    assert!(!layer.triple_exists(1, 2, 2));
}

#[test]
fn dictionary_round_trip_for_every_id() {
    let mut store = open_memory_store();
    let l1 = build_base(&mut store, &[("cow", "says", "moo"), ("pig", "says", "oink")]);
    let mut b = l1.open_write(&mut store).unwrap();
    b.add_string_triple(StringTriple::new_node("dog", "chases", "cow")).unwrap();
    let l2 = b.commit(&mut store).unwrap();

    for id in 1..=(l2.node_and_value_count() as u64) {
        match l2.id_object(id).unwrap() {
            ObjectType::Node(s) => {
                assert_eq!(l2.id_subject(id), Some(s.clone()));
                assert_eq!(l2.subject_id(&s), Some(id));
                assert_eq!(l2.object_node_id(&s), Some(id));
            }
            ObjectType::Value(s) => {
                assert_eq!(l2.id_subject(id), None);
                assert_eq!(l2.object_value_id(&s), Some(id));
            }
        }
    }
    for id in 1..=(l2.predicate_count() as u64) {
        let p = l2.id_predicate(id).unwrap();
        assert_eq!(l2.predicate_id(&p), Some(id));
    }
    assert_eq!(l2.id_object(0), None);
    assert_eq!(l2.id_subject(0), None);
    assert_eq!(l2.id_predicate(0), None);
    assert_eq!(l2.id_object(l2.node_and_value_count() as u64 + 1), None);
    assert_eq!(l2.id_predicate(l2.predicate_count() as u64 + 1), None);
    assert_eq!(l2.node_and_value_count(), 5);
    assert_eq!(l2.subject_id("dog"), Some(5));
}

#[test]
fn child_layer_reuses_ids_of_its_ancestors() {
    let mut store = open_memory_store();
    let l1 = build_base(&mut store, &[("cow", "says", "moo")]);
    let mut b = l1.open_write(&mut store).unwrap();
    b.add_string_triple(StringTriple::new_value("cow", "says", "mooo")).unwrap();
    let l2 = b.commit(&mut store).unwrap();
    assert_eq!(l2.subject_id("cow"), Some(1));
    assert_eq!(l2.predicate_id("says"), Some(1));
    assert_eq!(l2.object_value_id("mooo"), Some(3));
    assert_eq!(l2.triple_additions(), vec![IdTriple::new(1, 1, 3)]);
    assert_eq!(
        l2.triples(),
        vec![IdTriple::new(1, 1, 2), IdTriple::new(1, 1, 3)]
    );
}

#[test]
fn chain_semantics_on_a_child_with_additions_and_removals() {
    let mut store = open_memory_store();
    let l1 = build_base(
        &mut store,
        &[("cow", "says", "moo"), ("pig", "says", "oink"), ("dog", "says", "woof")],
    );
    let mut b = l1.open_write(&mut store).unwrap();
    b.remove_string_triple(StringTriple::new_value("pig", "says", "oink")).unwrap();
    b.add_string_triple(StringTriple::new_value("cat", "says", "meow")).unwrap();
    let l2 = b.commit(&mut store).unwrap();

    let parent = l2.parent(&mut store).unwrap().unwrap();
    assert_eq!(parent.name(), l1.name());
    assert_eq!(l2.parent_name(), Some(l1.name()));

    let mut expected: Vec<IdTriple> = parent.triples();
    for t in l2.triple_additions() {
        expected.push(t);
    }
    let removals = l2.triple_removals();
    expected.retain(|t| !removals.contains(t));
    expected.sort_by_key(|t| (t.subject, t.predicate, t.object));
    assert_eq!(l2.triples(), expected);
    assert_eq!(l2.triples().len(), 3);
    assert_eq!(l2.triple_layer_addition_count(), 1);
    assert_eq!(l2.triple_layer_removal_count(), 1);
    assert_eq!(l2.triple_addition_count(), 1);
    assert_eq!(l2.triple_removal_count(), 1);
    assert_eq!(l2.depth(), 2);

    for t in l2.triples() {
        assert!(
            !(l2.triple_addition_exists(t.subject, t.predicate, t.object)
                && l2.triple_removal_exists(t.subject, t.predicate, t.object))
        );
    }
    for t in l2.triple_removals() {
        assert!(!l2.triple_addition_exists(t.subject, t.predicate, t.object));
        assert!(l2.triple_removal_exists(t.subject, t.predicate, t.object));
        assert!(!l2.triple_exists(t.subject, t.predicate, t.object));
        assert!(parent.triple_exists(t.subject, t.predicate, t.object));
    }
}

#[test]
fn base_layer_has_no_parent_and_no_removals() {
    let mut store = open_memory_store();
    let mut b = store.create_base_layer().unwrap();
    b.add_string_triple(StringTriple::new_value("cow", "says", "moo")).unwrap();
    b.remove_string_triple(StringTriple::new_value("pig", "says", "oink")).unwrap();
    let l = b.commit(&mut store).unwrap();
    assert_eq!(l.parent_name(), None);
    assert!(l.parent(&mut store).unwrap().is_none());
    assert!(l.triple_removals().is_empty());
    assert_eq!(l.depth(), 1);
    assert_eq!(l.triples(), l.triple_additions());
}

#[test]
fn triples_come_out_the_same_every_time() {
    let mut store = open_memory_store();
    let l = build_base(
        &mut store,
        &[("pig", "says", "oink"), ("cow", "says", "moo"), ("cow", "eats", "grass")],
    );
    let first = l.triples();
    let second = l.triples();
    assert_eq!(first, second);
    let again = store.get_layer_from_id(l.name()).unwrap().unwrap();
    assert_eq!(again.triples(), first);
    let mut sorted = first.clone();
    sorted.sort_by_key(|t| (t.subject, t.predicate, t.object));
    assert_eq!(first, sorted);
    assert_eq!(
        first,
        vec![
            IdTriple::new(1, 1, 2),
            IdTriple::new(3, 1, 4),
            IdTriple::new(3, 2, 5)
        ]
    );
}

#[test]
fn adding_twice_and_removing_what_was_added_are_normalised() {
    let mut store = open_memory_store();
    let l1 = build_base(&mut store, &[("cow", "says", "moo")]);
    let mut b = l1.open_write(&mut store).unwrap();
    b.add_string_triple(StringTriple::new_value("cow", "says", "moo")).unwrap();
    b.add_string_triple(StringTriple::new_value("pig", "says", "oink")).unwrap();
    b.add_string_triple(StringTriple::new_value("pig", "says", "oink")).unwrap();
    b.add_string_triple(StringTriple::new_value("dog", "says", "woof")).unwrap();
    b.remove_string_triple(StringTriple::new_value("dog", "says", "woof")).unwrap();
    b.remove_string_triple(StringTriple::new_value("cow", "says", "moo")).unwrap();
    b.add_string_triple(StringTriple::new_value("cow", "says", "moo")).unwrap();
    let l2 = b.commit(&mut store).unwrap();
    assert_eq!(l2.triple_additions().len(), 1);
    assert!(l2.triple_removals().is_empty());
    assert!(l2.string_triple_exists(&StringTriple::new_value("cow", "says", "moo")));
    assert!(l2.string_triple_exists(&StringTriple::new_value("pig", "says", "oink")));
    assert!(!l2.string_triple_exists(&StringTriple::new_value("dog", "says", "woof")));
}

#[test]
fn id_triples_must_name_defined_ids() {
    let mut store = open_memory_store();
    let l1 = build_base(&mut store, &[("cow", "says", "moo"), ("pig", "says", "oink")]);
    let mut b = l1.open_write(&mut store).unwrap();
    assert_eq!(b.add_id_triple(IdTriple::new(1, 1, 4)), Ok(()));
    assert_eq!(b.add_id_triple(IdTriple::new(0, 1, 4)), Err(StoreError::InvalidData));
    assert_eq!(b.add_id_triple(IdTriple::new(1, 2, 4)), Err(StoreError::InvalidData));
    assert_eq!(b.add_id_triple(IdTriple::new(1, 1, 5)), Err(StoreError::InvalidData));
    assert_eq!(b.add_id_triple(IdTriple::new(2, 1, 4)), Err(StoreError::InvalidData));
    assert_eq!(b.remove_id_triple(IdTriple::new(9, 1, 4)), Err(StoreError::InvalidData));
    assert_eq!(b.remove_id_triple(IdTriple::new(1, 1, 2)), Ok(()));
    assert!(b.is_valid(&IdTriple::new(3, 1, 1)));
    assert!(!b.is_valid(&IdTriple::new(4, 1, 1)));
    let l2 = b.commit(&mut store).unwrap();
    assert_eq!(
        l2.triples(),
        vec![IdTriple::new(1, 1, 4), IdTriple::new(3, 1, 4)]
    );
    assert!(l2.string_triple_exists(&StringTriple::new_value("cow", "says", "oink")));
    assert!(!l2.string_triple_exists(&StringTriple::new_value("cow", "says", "moo")));
}

#[test]
fn id_and_string_forms_convert_into_each_other() {
    let mut store = open_memory_store();
    let l = build_base(&mut store, &[("cow", "says", "moo")]);
    let st = StringTriple::new_value("cow", "says", "moo");
    assert_eq!(l.string_triple_to_id(&st), Some(IdTriple::new(1, 1, 2)));
    assert_eq!(l.id_triple_to_string(&IdTriple::new(1, 1, 2)), Some(st));
    assert_eq!(
        l.id_triple_to_string(&IdTriple::new(1, 1, 1)),
        Some(StringTriple::new_node("cow", "says", "cow"))
    );
    assert_eq!(l.id_triple_to_string(&IdTriple::new(2, 1, 1)), None);
    assert_eq!(l.id_triple_to_string(&IdTriple::new(1, 1, 3)), None);
    assert_eq!(
        l.string_triple_to_id(&StringTriple::new_node("cow", "says", "moo")),
        None
    );
    assert!(!l.string_triple_exists(&StringTriple::new_node("cow", "says", "cow")));
}

#[test]
fn prefix_queries_select_by_subject_predicate_and_object() {
    let mut store = open_memory_store();
    let l1 = build_base(
        &mut store,
        &[("cow", "says", "moo"), ("cow", "eats", "grass"), ("pig", "says", "oink")],
    );
    assert_eq!(
        l1.triples_s(1),
        vec![IdTriple::new(1, 1, 2), IdTriple::new(1, 2, 3)]
    );
    assert_eq!(l1.triples_sp(1, 2), vec![IdTriple::new(1, 2, 3)]);
    assert_eq!(
        l1.triples_p(1),
        vec![IdTriple::new(1, 1, 2), IdTriple::new(4, 1, 5)]
    );
    assert_eq!(l1.triples_o(5), vec![IdTriple::new(4, 1, 5)]);
    assert!(l1.triples_s(9).is_empty());

    let mut b = l1.open_write(&mut store).unwrap();
    b.remove_string_triple(StringTriple::new_value("cow", "eats", "grass")).unwrap();
    b.add_string_triple(StringTriple::new_value("cow", "eats", "hay")).unwrap();
    let l2 = b.commit(&mut store).unwrap();
    assert_eq!(l2.triple_additions_s(1), vec![IdTriple::new(1, 2, 6)]);
    assert_eq!(l2.triple_removals_s(1), vec![IdTriple::new(1, 2, 3)]);
    assert_eq!(l2.triple_additions_sp(1, 2), vec![IdTriple::new(1, 2, 6)]);
    assert_eq!(l2.triple_removals_sp(1, 1), vec![]);
    assert_eq!(l2.triple_additions_p(2), vec![IdTriple::new(1, 2, 6)]);
    assert_eq!(l2.triple_removals_p(2), vec![IdTriple::new(1, 2, 3)]);
    assert_eq!(l2.triple_additions_o(6), vec![IdTriple::new(1, 2, 6)]);
    assert_eq!(l2.triple_removals_o(3), vec![IdTriple::new(1, 2, 3)]);
    assert_eq!(
        l2.triples_s(1),
        vec![IdTriple::new(1, 1, 2), IdTriple::new(1, 2, 6)]
    );
    let counts = l2.all_counts();
    assert_eq!(counts.node_and_value_count, 6);
    assert_eq!(counts.predicate_count, 2);
    assert_eq!(counts.triple_count, 3);
}

#[test]
fn squash_keeps_the_triples_and_drops_the_history() {
    let mut store = open_memory_store();
    let l1 = build_base(&mut store, &[("x", "p", "y"), ("cow", "says", "moo")]);
    let mut b = l1.open_write(&mut store).unwrap();
    b.remove_string_triple(StringTriple::new_value("x", "p", "y")).unwrap();
    b.add_string_triple(StringTriple::new_value("a", "p", "b")).unwrap();
    let l2 = b.commit(&mut store).unwrap();

    let squashed = l2.squash(&mut store).unwrap();
    assert_eq!(squashed.parent_name(), None);
    assert!(squashed.parent(&mut store).unwrap().is_none());
    assert_eq!(squashed.depth(), 1);
    assert_eq!(squashed.triples().len(), l2.triples().len());
    for t in l2.triples() {
        let st = l2.id_triple_to_string(&t).unwrap();
        assert!(squashed.string_triple_exists(&st));
    }
    for t in squashed.triples() {
        let st = squashed.id_triple_to_string(&t).unwrap();
        assert!(l2.string_triple_exists(&st));
    }
    assert!(!squashed.string_triple_exists(&StringTriple::new_value("x", "p", "y")));
    assert_eq!(squashed.subject_id("x"), None);
    assert_eq!(squashed.node_and_value_count(), 4);
    assert_eq!(l2.node_and_value_count(), 6);
    assert!(store.get_layer_from_id(squashed.name()).unwrap().is_some());
}

#[test]
fn apply_diff_converges_on_the_other_layer() {
    let mut store = open_memory_store();
    let l = build_base(
        &mut store,
        &[("cow", "says", "moo"), ("pig", "says", "oink"), ("dog", "says", "woof")],
    );
    let o = build_base(
        &mut store,
        &[("dog", "says", "woof"), ("cat", "says", "meow"), ("cow", "says", "moo")],
    );
    let mut b = l.open_write(&mut store).unwrap();
    b.apply_diff(&o).unwrap();
    let r = b.commit(&mut store).unwrap();
    assert_eq!(r.triples().len(), 3);
    for t in o.triples() {
        assert!(r.string_triple_exists(&o.id_triple_to_string(&t).unwrap()));
    }
    for t in r.triples() {
        assert!(o.string_triple_exists(&r.id_triple_to_string(&t).unwrap()));
    }
    assert!(!r.string_triple_exists(&StringTriple::new_value("pig", "says", "oink")));
    assert_eq!(r.triple_layer_addition_count(), 1);
    assert_eq!(r.triple_layer_removal_count(), 1);
}

#[test]
fn apply_diff_on_a_base_builder_adds_everything() {
    let mut store = open_memory_store();
    let o = build_base(&mut store, &[("dog", "says", "woof"), ("cat", "says", "meow")]);
    let mut b = store.create_base_layer().unwrap();
    b.apply_diff(&o).unwrap();
    let r = b.commit(&mut store).unwrap();
    assert_eq!(r.triples().len(), 2);
    assert!(r.string_triple_exists(&StringTriple::new_value("dog", "says", "woof")));
    assert!(r.string_triple_exists(&StringTriple::new_value("cat", "says", "meow")));
}

#[test]
fn apply_delta_and_apply_diff_on_a_committed_builder_change_nothing() {
    let mut store = open_memory_store();
    let o = build_base(&mut store, &[("dog", "says", "woof")]);
    let mut b = store.create_base_layer().unwrap();
    b.commit_no_load(&mut store).unwrap();
    assert_eq!(b.apply_delta(&o), Ok(()));
    assert_eq!(b.apply_diff(&o), Ok(()));
    assert!(b.committed());
}

#[test]
fn labels_are_created_once_and_swapped_by_version() {
    let mut store = open_memory_store();
    assert!(store.open("foodb").unwrap().is_none());
    let graph = store.create("foodb").unwrap();
    assert_eq!(graph.name(), "foodb");
    assert!(matches!(store.create("foodb"), Err(StoreError::AlreadyExists)));
    assert!(store.open("foodb").unwrap().is_some());

    let l1 = build_base(&mut store, &[("a", "b", "c")]);
    let l2 = build_base(&mut store, &[("d", "e", "f")]);
    let label0 = store.label_store.get_label("foodb").unwrap();
    assert_eq!(label0.version, 0);
    assert_eq!(label0.layer, None);

    let label1 = store.label_store.set_label(&label0, l1.name()).unwrap();
    assert_eq!(label1.version, 1);
    assert_eq!(label1.layer, Some(l1.name()));
    assert_eq!(label1.name, "foodb");

    assert!(store.label_store.set_label(&label0, l2.name()).is_none());
    let now = store.label_store.get_label("foodb").unwrap();
    assert_eq!(now, label1);

    let label2 = store.label_store.delete_label(&label1).unwrap();
    assert_eq!(label2.version, 2);
    assert_eq!(label2.layer, None);
    assert!(store.label_store.get_label("other").is_none());
}

#[test]
fn head_of_a_missing_label_or_a_missing_layer_is_not_found() {
    let mut store = open_memory_store();
    let mut other = open_memory_store();
    let graph = store.create("g").unwrap();
    assert!(matches!(graph.head(&mut other), Err(StoreError::NotFound)));

    let foreign = build_base(&mut other, &[("a", "b", "c")]);
    let _skip = store.create_base_layer().unwrap();
    assert!(matches!(graph.set_head(&mut other, &foreign), Err(StoreError::NotFound)));
    assert!(matches!(graph.force_set_head(&mut other, &foreign), Err(StoreError::NotFound)));

    let mut b = other.create_base_layer().unwrap();
    b.add_string_triple(StringTriple::new_value("x", "y", "z")).unwrap();
    let stranger = b.commit(&mut other).unwrap();
    assert!(graph.set_head(&mut store, &stranger).unwrap());
    assert!(matches!(graph.head(&mut store), Err(StoreError::NotFound)));
}

#[test]
fn open_write_needs_the_layer_in_the_store() {
    let mut store = open_memory_store();
    let mut other = open_memory_store();
    let l = build_base(&mut store, &[("a", "b", "c")]);
    assert!(matches!(l.open_write(&mut other), Err(StoreError::NotFound)));
    assert!(store.get_layer_from_id([9, 9, 9, 9, 9]).unwrap().is_none());
    assert!(matches!(
        store.layer_store.create_child_layer([9, 9, 9, 9, 9]),
        Err(StoreError::NotFound)
    ));
}

#[test]
fn commit_into_a_store_without_the_parent_is_not_found() {
    let mut store = open_memory_store();
    let mut other = open_memory_store();
    let l = build_base(&mut store, &[("a", "b", "c")]);
    let mut b = l.open_write(&mut store).unwrap();
    b.add_string_triple(StringTriple::new_value("d", "e", "f")).unwrap();
    assert_eq!(b.commit_no_load(&mut other), Err(StoreError::NotFound));
    assert!(b.committed());
}

#[test]
fn commit_under_a_taken_name_is_invalid_data() {
    let mut store = open_memory_store();
    let mut other = open_memory_store();
    let _l = build_base(&mut store, &[("a", "b", "c")]);
    let mut b = other.create_base_layer().unwrap();
    b.add_string_triple(StringTriple::new_value("d", "e", "f")).unwrap();
    assert_eq!(b.commit_no_load(&mut store), Err(StoreError::InvalidData));
}

#[test]
fn layer_names_are_fresh_and_count_up() {
    let mut store = open_memory_store();
    let b0 = store.create_base_layer().unwrap();
    let b1 = store.create_base_layer().unwrap();
    assert_eq!(b0.name(), [0, 0, 0, 0, 0]);
    assert_eq!(b1.name(), [0, 0, 0, 0, 1]);
    assert_eq!(
        terminus_store::layer_store::name_for(0x1_0000_0002),
        [0, 0, 0, 1, 2]
    );
    assert!(b0.parent().is_none());
}

#[test]
fn ancestry_follows_parent_names() {
    let mut store = open_memory_store();
    let l1 = build_base(&mut store, &[("a", "b", "c")]);
    let mut b = l1.open_write(&mut store).unwrap();
    b.add_string_triple(StringTriple::new_value("d", "e", "f")).unwrap();
    assert_eq!(b.parent().unwrap().name(), l1.name());
    let l2 = b.commit(&mut store).unwrap();
    let l3 = build_base(&mut store, &[("g", "h", "i")]);
    let ls = &store.layer_store;
    assert!(ls.layer_is_ancestor_of(l1.name(), l2.name()));
    assert!(ls.layer_is_ancestor_of(l2.name(), l2.name()));
    assert!(!ls.layer_is_ancestor_of(l2.name(), l1.name()));
    assert!(!ls.layer_is_ancestor_of(l3.name(), l2.name()));
    assert!(!ls.layer_is_ancestor_of(l1.name(), [7, 7, 7, 7, 7]));
    assert!(ls.layer_is_ancestor_of([7, 7, 7, 7, 7], [7, 7, 7, 7, 7]));
    assert!(ls.has_layer(l3.name()));
    assert!(!ls.has_layer([7, 7, 7, 7, 7]));
}

#[test]
fn the_cache_does_not_change_what_is_read() {
    let mut small = terminus_store::store::Store::new(
        terminus_store::label::LabelStore::new(),
        terminus_store::layer_store::LayerStore::new(1),
    );
    let mut none = terminus_store::store::Store::new(
        terminus_store::label::LabelStore::new(),
        terminus_store::layer_store::LayerStore::new(0),
    );
    for store in [&mut small, &mut none] {
        let l1 = build_base(store, &[("a", "b", "c")]);
        let mut b = l1.open_write(store).unwrap();
        b.add_string_triple(StringTriple::new_value("d", "e", "f")).unwrap();
        let l2 = b.commit(store).unwrap();
        for _ in 0..3 {
            let r1 = store.get_layer_from_id(l1.name()).unwrap().unwrap();
            let r2 = store.get_layer_from_id(l2.name()).unwrap().unwrap();
            assert!(r1.same_chain(&l1));
            assert!(r2.same_chain(&l2));
            assert!(!r1.same_chain(&l2));
            assert_eq!(r2.triples(), l2.triples());
        }
    }
}

#[test]
fn a_copy_of_a_layer_reads_the_same() {
    let mut store = open_memory_store();
    let l = build_base(&mut store, &[("a", "b", "c")]);
    let copy = l.clone();
    assert!(copy.same_chain(&l));
    assert_eq!(copy.triples(), l.triples());
    assert_eq!(copy.name(), l.name());
}

#[test]
fn error_messages_name_the_failure() {
    assert_eq!(StoreError::NotFound.message(), "not found");
    assert_eq!(StoreError::AlreadyExists.message(), "already exists");
    assert_eq!(StoreError::InvalidData.message(), "invalid data");
    assert_eq!(StoreError::Exhausted.message(), "backend exhausted");
}

#[test]
fn builder_lookups_see_parent_and_staged_entries() {
    let mut store = open_memory_store();
    let l = build_base(&mut store, &[("cow", "says", "moo")]);
    let mut b: StoreLayerBuilder = l.open_write(&mut store).unwrap();
    assert!(b.room());
    assert_eq!(b.node_and_value_count(), 2);
    b.add_string_triple(StringTriple::new_node("pig", "likes", "cow")).unwrap();
    assert_eq!(b.node_and_value_count(), 3);
    assert_eq!(b.predicate_count(), 2);
    assert_eq!(b.object_id(&ObjectType::node("cow")), Some(1));
    assert_eq!(b.object_id(&ObjectType::node("pig")), Some(3));
    assert_eq!(b.object_id(&ObjectType::value("pig")), None);
    assert_eq!(b.predicate_id(&"likes".to_string()), Some(2));
    assert_eq!(
        b.string_triple_to_id(&StringTriple::new_node("pig", "likes", "cow")),
        Some(IdTriple::new(3, 2, 1))
    );
    assert!(IdTriple::new(1, 1, 2).precedes(&IdTriple::new(1, 2, 1)));
    assert!(!IdTriple::new(1, 2, 1).precedes(&IdTriple::new(1, 2, 1)));
}

#[test]
fn lookups_group_the_triples_by_subject_predicate_and_object() {
    let mut store = open_memory_store();
    let l1 = build_base(
        &mut store,
        &[("cow", "says", "moo"), ("cow", "eats", "grass"), ("pig", "says", "oink")],
    );
    let subjects = l1.subjects();
    assert_eq!(subjects.len(), 2);
    assert_eq!(subjects[0].key, 1);
    assert_eq!(subjects[0].position, Position::Subject);
    assert_eq!(
        subjects[0].triples,
        vec![IdTriple::new(1, 1, 2), IdTriple::new(1, 2, 3)]
    );
    assert_eq!(subjects[1].key, 4);
    assert_eq!(subjects[1].triples, vec![IdTriple::new(4, 1, 5)]);

    let predicates = l1.predicates();
    assert_eq!(predicates.len(), 2);
    assert_eq!(predicates[0].key, 1);
    assert_eq!(
        predicates[0].triples,
        vec![IdTriple::new(1, 1, 2), IdTriple::new(4, 1, 5)]
    );
    assert_eq!(predicates[1].triples, vec![IdTriple::new(1, 2, 3)]);

    let objects = l1.objects();
    assert_eq!(
        objects.iter().map(|l| l.key).collect::<Vec<u64>>(),
        vec![2, 3, 5]
    );

    assert_eq!(
        l1.lookup_subject(4),
        Some(Lookup {
            position: Position::Subject,
            key: 4,
            triples: vec![IdTriple::new(4, 1, 5)]
        })
    );
    assert_eq!(l1.lookup_subject(2), None);
    assert_eq!(l1.lookup_predicate(2).unwrap().triples, vec![IdTriple::new(1, 2, 3)]);
    assert_eq!(l1.lookup_predicate(3), None);
    assert_eq!(l1.lookup_object(5).unwrap().triples, vec![IdTriple::new(4, 1, 5)]);
    assert_eq!(l1.lookup_object(1), None);

    let mut b = l1.open_write(&mut store).unwrap();
    b.remove_string_triple(StringTriple::new_value("cow", "eats", "grass")).unwrap();
    b.add_string_triple(StringTriple::new_value("pig", "eats", "hay")).unwrap();
    let l2 = b.commit(&mut store).unwrap();
    assert_eq!(l2.subject_additions().len(), 1);
    assert_eq!(l2.subject_additions()[0].key, 4);
    assert_eq!(l2.subject_removals()[0].key, 1);
    assert_eq!(l2.predicate_additions()[0].key, 2);
    assert_eq!(l2.predicate_removals()[0].triples, vec![IdTriple::new(1, 2, 3)]);
    assert_eq!(l2.object_additions()[0].key, 6);
    assert_eq!(l2.object_removals()[0].key, 3);
    assert_eq!(l2.lookup_subject_addition(4).unwrap().triples, vec![IdTriple::new(4, 2, 6)]);
    assert_eq!(l2.lookup_subject_addition(1), None);
    assert_eq!(l2.lookup_subject_removal(1).unwrap().triples, vec![IdTriple::new(1, 2, 3)]);
    assert_eq!(l2.lookup_predicate_addition(2).unwrap().key, 2);
    assert_eq!(l2.lookup_predicate_removal(1), None);
    assert_eq!(l2.lookup_object_addition(6).unwrap().key, 6);
    assert_eq!(l2.lookup_object_removal(3).unwrap().key, 3);
    assert_eq!(
        l2.lookup(Source::Effective, Position::Subject, 4).unwrap().triples,
        vec![IdTriple::new(4, 1, 5), IdTriple::new(4, 2, 6)]
    );
    assert_eq!(l2.lookups(Source::Removals, Position::Object).len(), 1);
    assert_eq!(
        keys_of(&l2.triples(), Position::Predicate),
        vec![1, 2]
    );
}

#[test]
fn the_cache_never_holds_more_than_it_may() {
    let mut store = terminus_store::store::Store::new(
        terminus_store::label::LabelStore::new(),
        terminus_store::layer_store::LayerStore::new(2),
    );
    assert_eq!(store.layer_store.cache_use(), (0, 2));
    let mut names = Vec::new();
    for i in 0..5 {
        let l = build_base(&mut store, &[("a", "b", &format!("c{}", i))]);
        names.push(l.name());
        let (held, cap) = store.layer_store.cache_use();
        assert!(held <= cap);
    }
    for n in &names {
        assert!(store.get_layer_from_id(*n).unwrap().is_some());
        assert_eq!(store.layer_store.cache_use().1, 2);
        assert!(store.layer_store.cache_use().0 <= 2);
    }
    assert_eq!(store.layer_store.cache_use(), (2, 2));
}

#[test]
fn id_triples_over_ids_that_only_the_builder_has_staged_are_refused() {
    let mut store = open_memory_store();
    let mut base = store.create_base_layer().unwrap();
    base.add_string_triple(StringTriple::new_value("cow", "says", "moo")).unwrap();
    assert!(base.is_valid(&IdTriple::new(1, 1, 2)));
    assert!(!base.parent_defines(&IdTriple::new(1, 1, 2)));
    assert_eq!(
        base.add_id_triple(IdTriple::new(1, 1, 2)),
        Err(StoreError::InvalidData)
    );
    assert_eq!(
        base.remove_id_triple(IdTriple::new(1, 1, 2)),
        Err(StoreError::InvalidData)
    );
    let l1 = base.commit(&mut store).unwrap();
    assert_eq!(l1.triples(), vec![IdTriple::new(1, 1, 2)]);

    let mut child = l1.open_write(&mut store).unwrap();
    child.add_string_triple(StringTriple::new_value("pig", "grunts", "oink")).unwrap();
    assert!(child.is_valid(&IdTriple::new(3, 2, 4)));
    assert!(!child.parent_defines(&IdTriple::new(3, 2, 4)));
    assert_eq!(
        child.add_id_triple(IdTriple::new(3, 1, 2)),
        Err(StoreError::InvalidData)
    );
    assert_eq!(
        child.add_id_triple(IdTriple::new(1, 2, 2)),
        Err(StoreError::InvalidData)
    );
    assert_eq!(
        child.add_id_triple(IdTriple::new(1, 1, 4)),
        Err(StoreError::InvalidData)
    );
    assert_eq!(
        child.remove_id_triple(IdTriple::new(3, 2, 4)),
        Err(StoreError::InvalidData)
    );
    assert!(child.parent_defines(&IdTriple::new(1, 1, 1)));
    assert_eq!(child.add_id_triple(IdTriple::new(1, 1, 1)), Ok(()));
    assert_eq!(child.remove_id_triple(IdTriple::new(1, 1, 2)), Ok(()));
    let l2 = child.commit(&mut store).unwrap();
    assert_eq!(
        l2.triples(),
        vec![IdTriple::new(1, 1, 1), IdTriple::new(3, 2, 4)]
    );
}

#[test]
fn a_committed_builder_reads_as_its_parent_chain() {
    let mut store = open_memory_store();
    let l1 = build_base(&mut store, &[("cow", "says", "moo")]);
    let mut b = l1.open_write(&mut store).unwrap();
    b.add_string_triple(StringTriple::new_value("pig", "grunts", "oink")).unwrap();
    assert_eq!(b.node_and_value_count(), 4);
    assert_eq!(b.predicate_count(), 2);
    b.commit_no_load(&mut store).unwrap();
    assert!(b.committed());
    assert_eq!(b.node_and_value_count(), 2);
    assert_eq!(b.predicate_count(), 1);
    assert_eq!(b.object_id(&ObjectType::node("cow")), Some(1));
    assert_eq!(b.object_id(&ObjectType::node("pig")), None);
    assert_eq!(b.predicate_id(&"says".to_string()), Some(1));
    assert_eq!(b.predicate_id(&"grunts".to_string()), None);
    assert_eq!(
        b.string_triple_to_id(&StringTriple::new_value("cow", "says", "moo")),
        Some(IdTriple::new(1, 1, 2))
    );
    assert_eq!(
        b.string_triple_to_id(&StringTriple::new_value("pig", "grunts", "oink")),
        None
    );
    assert!(b.is_valid(&IdTriple::new(1, 1, 2)));
    assert!(!b.is_valid(&IdTriple::new(3, 2, 4)));
    assert!(b.parent_defines(&IdTriple::new(1, 1, 2)));
    assert!(b.room());

    let mut base = store.create_base_layer().unwrap();
    base.commit_no_load(&mut store).unwrap();
    assert_eq!(base.node_and_value_count(), 0);
    assert_eq!(base.predicate_count(), 0);
    assert_eq!(base.object_id(&ObjectType::node("cow")), None);
    assert!(!base.is_valid(&IdTriple::new(1, 1, 1)));
    assert!(base.room());
}

#[test]
fn layers_can_be_made_under_names_that_the_caller_draws() {
    let mut store = open_memory_store();
    let name = [0xdead_beef, 1, 2, 3, 0xffff_ffff];
    let mut b = store.create_base_layer_named(name).unwrap();
    assert_eq!(b.name(), name);
    assert!(b.parent().is_none());
    assert!(!b.committed());
    b.add_string_triple(StringTriple::new_value("cow", "says", "moo")).unwrap();
    let l1 = b.commit(&mut store).unwrap();
    assert_eq!(l1.name(), name);
    assert_eq!(l1.parent_name(), None);
    assert!(matches!(
        store.create_base_layer_named(name),
        Err(StoreError::InvalidData)
    ));

    let child_name = [7, 7, 7, 7, 7];
    let mut c = l1.open_write_named(&mut store, child_name).unwrap();
    assert_eq!(c.name(), child_name);
    assert_eq!(c.parent().unwrap().name(), name);
    c.add_string_triple(StringTriple::new_value("pig", "says", "oink")).unwrap();
    let l2 = c.commit(&mut store).unwrap();
    assert_eq!(l2.name(), child_name);
    assert_eq!(l2.parent_name(), Some(name));
    assert_eq!(l2.triples().len(), 2);
    assert!(matches!(
        l1.open_write_named(&mut store, child_name),
        Err(StoreError::InvalidData)
    ));
    assert!(matches!(
        l1.open_write_named(&mut store, name),
        Err(StoreError::InvalidData)
    ));
    assert!(matches!(
        store.layer_store.create_child_layer_named([9, 9, 9, 9, 9], [8, 8, 8, 8, 8]),
        Err(StoreError::NotFound)
    ));
    assert!(matches!(
        store.layer_store.create_child_layer_named([9, 9, 9, 9, 9], name),
        Err(StoreError::NotFound)
    ));
    assert!(store.layer_store.create_base_layer_named([8, 8, 8, 8, 8]).is_ok());

    let mut other = open_memory_store();
    let mut d = other.create_base_layer().unwrap();
    d.add_string_triple(StringTriple::new_value("duck", "says", "quack")).unwrap();
    d.commit(&mut other).unwrap();
    let pack = store.export_layers(vec![name, child_name]).unwrap();
    assert_eq!(other.import_layers(&pack, vec![name, child_name]), Ok(()));
    let copy = other.get_layer_from_id(child_name).unwrap().unwrap();
    assert!(copy.same_chain(&l2));
}

#[test]
fn squash_under_a_drawn_name_keeps_the_triples_and_their_number() {
    let mut store = open_memory_store();
    let l1 = build_base(&mut store, &[("x", "p", "y"), ("cow", "says", "moo")]);
    let mut b = l1.open_write(&mut store).unwrap();
    b.remove_string_triple(StringTriple::new_value("x", "p", "y")).unwrap();
    b.add_string_triple(StringTriple::new_value("a", "p", "b")).unwrap();
    let l2 = b.commit(&mut store).unwrap();

    let name = [5, 4, 3, 2, 1];
    let n = l2.squash_named(&mut store, name).unwrap();
    assert_eq!(n.name(), name);
    assert_eq!(n.parent_name(), None);
    assert!(n.parent(&mut store).unwrap().is_none());
    assert_eq!(n.triples().len(), l2.triples().len());
    assert_eq!(n.all_counts().triple_count, 2);
    for t in l2.triples() {
        assert!(n.string_triple_exists(&l2.id_triple_to_string(&t).unwrap()));
    }
    for t in n.triples() {
        assert!(l2.string_triple_exists(&n.id_triple_to_string(&t).unwrap()));
    }
    assert_eq!(n.subject_id("cow"), Some(1));
    assert_eq!(n.object_value_id("moo"), Some(2));
    assert_eq!(n.subject_id("a"), Some(3));
    assert_eq!(n.predicate_id("says"), Some(1));
    assert_eq!(n.predicate_id("p"), Some(2));
    assert!(matches!(
        l2.squash_named(&mut store, name),
        Err(StoreError::InvalidData)
    ));
    assert!(matches!(
        l2.squash_named(&mut store, l1.name()),
        Err(StoreError::InvalidData)
    ));

    let empty = store.create_base_layer().unwrap().commit(&mut store).unwrap();
    let e = empty.squash(&mut store).unwrap();
    assert!(e.triples().is_empty());
    assert_eq!(e.node_and_value_count(), 0);
}

#[test]
fn a_triple_is_refused_only_where_the_dictionaries_lack_room_for_it() {
    let mut store = open_memory_store();
    let mut b = store.create_base_layer().unwrap();
    assert!(b.fits(&StringTriple::new_value("cow", "says", "moo")));
    assert!(b.room());
    b.add_string_triple(StringTriple::new_node("cow", "is", "cow")).unwrap();
    assert_eq!(b.node_and_value_count(), 1);
    assert_eq!(b.predicate_count(), 1);
    assert!(b.fits(&StringTriple::new_node("cow", "is", "cow")));
    b.commit_no_load(&mut store).unwrap();
    assert!(b.fits(&StringTriple::new_node("cow", "is", "cow")));
}
