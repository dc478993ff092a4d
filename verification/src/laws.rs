//! What holds of every layer, builder and store.

use vstd::prelude::*;
use crate::builder::{can_publish, StoreLayerBuilder};
use crate::chain::{
    all_entries, all_fit, all_predicates, effective, empty_layer, entry_at, entry_id, holdings,
    lemma_entry_id, lemma_push, lemma_remove_keeps_dictionaries, lemma_room_fits, remove_each,
    string_image, string_triples, top_name, LayerView,
};
use crate::error::StoreError;
use crate::label::{swap_label, LabelView};
use crate::layer::StoreLayer;
use crate::layer_store::{
    all_found, counter_name, free_from, import_all, import_pack, is_ancestor, lemma_free_from,
    select, LayerStore,
};
use crate::pack::dec_pack;
use crate::store::{advance, Store};
use crate::triple::{IdTriple, ObjectView, StringTripleView};
use crate::tripleset::{lemma_sorted_unique, sorted};

verus! {

/// A layer's triples come out the same every time: two ascending sequences
/// that both hold exactly the effective triples of one layer are equal.
pub proof fn law_triples_are_determined(l: StoreLayer, first: Seq<IdTriple>, second: Seq<IdTriple>)
    requires
        l.wf(),
        sorted(first),
        first.to_set() == effective(l@),
        sorted(second),
        second.to_set() == effective(l@),
    ensures
        first == second,
{
    lemma_sorted_unique(first, second);
}

/// Publishing a layer leaves every layer that the store held as it was.
pub proof fn law_published_layers_stay(
    layers: Map<Seq<u32>, Seq<LayerView>>,
    below: Seq<LayerView>,
    name: Seq<u32>,
    chain: Seq<LayerView>,
    other: Seq<u32>,
)
    requires
        can_publish(layers, below, name),
        layers.dom().contains(other),
    ensures
        layers.insert(name, chain).dom().contains(other),
        layers.insert(name, chain)[other] == layers[other],
{
}

/// No triple is both added and removed by one layer.
pub proof fn law_addition_or_removal(l: StoreLayer, t: IdTriple)
    requires
        l.wf(),
    ensures
        !(l@.last().additions.contains(t) && l@.last().removals.contains(t)),
{
    l.lemma_wf();
}

/// A layer holds what its parent holds, with its own additions joined in
/// and its own removals taken out. The parent of a layer of the store is
/// the chain that the store holds under the parent's name.
pub proof fn law_chain_semantics(store: Store, name: Seq<u32>)
    requires
        store.wf(),
        store.layers().dom().contains(name),
        store.layers()[name].last().parent_name is Some,
    ensures
        ({
            let layer = store.layers()[name];
            let parent = store.layers()[layer.last().parent_name.unwrap()];
            &&& store.layers().dom().contains(layer.last().parent_name.unwrap())
            &&& parent == layer.drop_last()
            &&& effective(layer) == effective(parent).union(
                layer.last().additions.to_set(),
            ).difference(layer.last().removals.to_set())
        }),
{
    store.layer_store.lemma_layer(name);
    let layer = store.layers()[name];
    assert(layer.len() > 1);
    assert(layer.drop_last().last() == layer[layer.len() - 2]);
}

/// A base layer holds exactly what it adds.
pub proof fn law_base_semantics(l: StoreLayer)
    requires
        l.wf(),
        l@.len() == 1,
    ensures
        l@.last().parent_name is None,
        l@.last().removals.len() == 0,
        effective(l@) == l@.last().additions.to_set(),
{
    l.lemma_wf();
    crate::chain::lemma_base_has_no_removals(l@);
    assert(l@.last().removals.to_set() =~= Set::empty());
    assert(effective(l@.drop_last()) =~= Set::empty());
    assert(effective(l@) =~= l@.last().additions.to_set());
}

/// Looking up the entry that an id names gives the id back, for nodes and
/// values as for predicates.
pub proof fn law_dictionary_round_trip(l: StoreLayer, id: u64)
    requires
        l.wf(),
    ensures
        entry_at(all_entries(l@), id) matches Some(e) ==> entry_id(all_entries(l@), e) == Some(id),
        entry_at(all_predicates(l@), id) matches Some(p) ==> entry_id(all_predicates(l@), p)
            == Some(id),
{
    l.lemma_wf();
    if entry_at(all_entries(l@), id) is Some {
        lemma_entry_id(all_entries(l@), id - 1);
    }
    if entry_at(all_predicates(l@), id) is Some {
        lemma_entry_id(all_predicates(l@), id - 1);
    }
}

/// Looking up the id of an entry gives an id that names the entry.
pub proof fn law_dictionary_round_trip_from_entry(l: StoreLayer, e: ObjectView, p: Seq<char>)
    requires
        l.wf(),
    ensures
        entry_id(all_entries(l@), e) matches Some(id) ==> entry_at(all_entries(l@), id) == Some(e),
        entry_id(all_predicates(l@), p) matches Some(id) ==> entry_at(all_predicates(l@), id)
            == Some(p),
{
    l.lemma_wf();
    if all_entries(l@).contains(e) {
        let i = all_entries(l@).index_of(e);
        assert(0 <= i < all_entries(l@).len() && all_entries(l@)[i] == e);
    }
    if all_predicates(l@).contains(p) {
        let i = all_predicates(l@).index_of(p);
        assert(0 <= i < all_predicates(l@).len() && all_predicates(l@)[i] == p);
    }
}

/// Of two compare-and-sets that present the same label, at most one goes
/// through: once the first has, the stored version has moved on.
pub proof fn law_one_swap_per_version(
    labels: Map<Seq<char>, LabelView>,
    old_label: LabelView,
    first: Option<Seq<u32>>,
    second: Option<Seq<u32>>,
)
    requires
        swap_label(labels, old_label, first) is Some,
    ensures
        swap_label(swap_label(labels, old_label, first).unwrap(), old_label, second) is None,
{
}

/// A compare-and-set that goes through raises the version by one and
/// leaves every other label as it was.
pub proof fn law_swap_raises_version(
    labels: Map<Seq<char>, LabelView>,
    old_label: LabelView,
    layer: Option<Seq<u32>>,
    other: Seq<char>,
)
    requires
        swap_label(labels, old_label, layer) is Some,
    ensures
        ({
            let next = swap_label(labels, old_label, layer).unwrap();
            &&& next[old_label.name].version == old_label.version + 1
            &&& next[old_label.name].layer == layer
            &&& other != old_label.name ==> next.dom().contains(other) == labels.dom().contains(
                other,
            ) && next[other] == labels[other]
        }),
{
}

/// `set_head` answers true exactly when the head was none or an ancestor of
/// the target, for a label whose version can still grow; and it moves the
/// head exactly when it answers true.
pub proof fn law_set_head(
    labels: Map<Seq<char>, LabelView>,
    layers: Map<Seq<u32>, Seq<LayerView>>,
    graph: Seq<char>,
    target: Seq<u32>,
)
    requires
        labels.dom().contains(graph),
        labels[graph].name == graph,
        labels[graph].version < u64::MAX,
    ensures
        ({
            let (next, answer) = advance(labels, layers, graph, target);
            &&& answer <==> (labels[graph].layer matches Some(head) ==> is_ancestor(
                layers,
                head,
                target,
            ))
            &&& answer ==> next[graph].layer == Some(target) && next[graph].version
                == labels[graph].version + 1
            &&& !answer ==> next == labels
        }),
{
}

/// The chain of a layer of the store is finite and without a cycle: no name
/// occurs twice along it, and it ends in a base layer at the bottom.
pub proof fn law_chains_are_acyclic(store: Store, name: Seq<u32>, a: int, b: int)
    requires
        store.wf(),
        store.layers().dom().contains(name),
        0 <= a < b < store.layers()[name].len(),
    ensures
        store.layers()[name][a].name != store.layers()[name][b].name,
        store.layers()[name][0].parent_name is None,
        store.layers()[name][b].parent_name == Some(store.layers()[name][b - 1].name),
{
    store.layer_store.lemma_acyclic(name, a, b);
    store.layer_store.lemma_layer(name);
    let c = store.layers()[name];
    crate::chain::lemma_links(c, 0);
    crate::chain::lemma_links(c, b);
}

/// A layer is an ancestor of itself, and of every layer above it in a chain of the store.
pub proof fn law_ancestry(store: Store, name: Seq<u32>, k: int)
    requires
        store.wf(),
        store.layers().dom().contains(name),
        0 <= k < store.layers()[name].len(),
    ensures
        is_ancestor(store.layers(), name, name),
        is_ancestor(store.layers(), store.layers()[name][k].name, name),
{
}

/// A builder with nothing staged holds what its parent holds.
pub proof fn law_fresh_builder(b: StoreLayerBuilder)
    requires
        b.wf(),
        b.is_open(),
        b.staged() == empty_layer(b.staged().name, top_name(b.parent_chain())),
    ensures
        all_entries(b.chain()) == all_entries(b.parent_chain()),
        all_predicates(b.chain()) == all_predicates(b.parent_chain()),
        effective(b.chain()) == effective(b.parent_chain()),
        string_triples(b.chain()) == string_triples(b.parent_chain()),
{
    lemma_push(b.parent_chain(), b.staged());
    assert(all_entries(b.chain()) =~= all_entries(b.parent_chain()));
    assert(all_predicates(b.chain()) =~= all_predicates(b.parent_chain()));
    assert(b.staged().additions.to_set() =~= Set::empty());
    assert(b.staged().removals.to_set() =~= Set::empty());
    assert(effective(b.chain()) =~= effective(b.parent_chain()));
}

/// Replaying a layer's changes on a builder with nothing staged gives what
/// the builder's parent holds, with the readings of the layer's additions
/// joined in and those of its removals taken out, where no triple was
/// refused for want of room: what `apply_delta` then promises of the
/// builder is the premise here.
pub proof fn law_rebase(fresh: StoreLayerBuilder, after: StoreLayerBuilder, delta: StoreLayer)
    requires
        fresh.wf(),
        fresh.is_open(),
        fresh.staged() == empty_layer(fresh.staged().name, top_name(fresh.parent_chain())),
        delta.wf(),
        string_triples(after.chain()) == string_triples(fresh.chain()).union(
            string_image(
                all_entries(delta@),
                all_predicates(delta@),
                delta@.last().additions.to_set(),
            ),
        ).difference(
            string_image(
                all_entries(delta@),
                all_predicates(delta@),
                delta@.last().removals.to_set(),
            ),
        ),
    ensures
        string_triples(after.chain()) == string_triples(fresh.parent_chain()).union(
            string_image(
                all_entries(delta@),
                all_predicates(delta@),
                delta@.last().additions.to_set(),
            ),
        ).difference(
            string_image(
                all_entries(delta@),
                all_predicates(delta@),
                delta@.last().removals.to_set(),
            ),
        ),
{
    law_fresh_builder(fresh);
}

/// A builder whose dictionaries have room for two entries and one predicate
/// for each triple that is to be added refuses none of them, whatever has
/// been removed before.
pub proof fn law_room_suffices(
    b: StoreLayerBuilder,
    removed: Seq<StringTripleView>,
    added: Seq<StringTripleView>,
)
    requires
        b.room_for(added.len()),
    ensures
        all_fit(remove_each(holdings(b.chain()), removed), added),
{
    lemma_remove_keeps_dictionaries(holdings(b.chain()), removed);
    lemma_room_fits(remove_each(holdings(b.chain()), removed), added);
}

/// Converging a builder with nothing staged on another layer gives exactly
/// what that layer holds, where no triple was refused for want of room:
/// what `apply_diff` then promises of the builder is the premise here.
pub proof fn law_diff_converges(fresh: StoreLayerBuilder, after: StoreLayerBuilder, other: StoreLayer)
    requires
        fresh.wf(),
        fresh.is_open(),
        fresh.staged() == empty_layer(fresh.staged().name, top_name(fresh.parent_chain())),
        other.wf(),
        string_triples(after.chain()) == string_triples(fresh.chain()).difference(
            string_triples(fresh.parent_chain()).difference(string_triples(other@)),
        ).union(string_triples(other@).difference(string_triples(fresh.parent_chain()))),
    ensures
        string_triples(after.chain()) == string_triples(other@),
{
    law_fresh_builder(fresh);
    assert(string_triples(after.chain()) =~= string_triples(other@));
}

/// Whether the parent of every listed layer of the store is listed too.
pub open spec fn closed_under_parents(source: LayerStore, names: Set<Seq<u32>>) -> bool {
    forall|n: Seq<u32>|
        names.contains(n) && source.layers().dom().contains(n) ==> (
        #[trigger] source.layers()[n].last().parent_name matches Some(p) ==> names.contains(p))
}

/// The listed layers among the first `k` records of the store, each with its chain.
pub open spec fn carried_over(source: LayerStore, names: Set<Seq<u32>>, k: int) -> Map<
    Seq<u32>,
    Seq<LayerView>,
> {
    Map::new(
        |n: Seq<u32>|
            names.contains(n) && exists|i: int| 0 <= i < k && #[trigger] source.order()[i].name == n,
        |n: Seq<u32>| source.layers()[n],
    )
}

/// Every listed record of a sequence is among the selected ones.
pub proof fn lemma_select_has(order: Seq<LayerView>, names: Set<Seq<u32>>, i: int)
    requires
        0 <= i < order.len(),
        names.contains(order[i].name),
    ensures
        exists|j: int|
            0 <= j < select(order, names).len() && #[trigger] select(order, names)[j] == order[i],
    decreases order.len(),
{
    let sel = select(order, names);
    if i == order.len() - 1 {
        assert(sel[sel.len() - 1] == order[i]);
    } else {
        lemma_select_has(order.drop_last(), names, i);
        let rest = select(order.drop_last(), names);
        let j = choose|j: int| 0 <= j < rest.len() && #[trigger] rest[j] == order.drop_last()[i];
        assert(sel[j] == order[i]);
    }
}

/// Taking the listed ones of the first `k` records of a store into an
/// empty store, in the store's order, refuses none and carries each over
/// with its chain.
pub proof fn lemma_import_prefix(source: LayerStore, names: Set<Seq<u32>>, k: int)
    requires
        source.wf(),
        0 <= k <= source.order().len(),
        closed_under_parents(source, names),
    ensures
        import_all(Map::empty(), select(source.order().take(k), names), names) == (
            carried_over(source, names, k),
            None::<StoreError>,
        ),
    decreases k,
{
    let order = source.order();
    if k == 0 {
        assert(order.take(0) =~= Seq::empty());
        assert(carried_over(source, names, 0) =~= Map::empty());
    } else {
        lemma_import_prefix(source, names, k - 1);
        assert(order.take(k).drop_last() =~= order.take(k - 1));
        let rec = order[k - 1];
        assert(order.take(k).last() == rec);
        let before = carried_over(source, names, k - 1);
        let after = carried_over(source, names, k);
        source.lemma_order_names();
        source.lemma_order_at(k - 1);
        if names.contains(rec.name) {
            let sel = select(order.take(k), names);
            let prev = select(order.take(k - 1), names);
            assert(sel.drop_last() =~= prev);
            assert(sel.last() == rec);
            source.lemma_layer(rec.name);
            let chain = source.layers()[rec.name];
            assert(!before.dom().contains(rec.name)) by {
                if before.dom().contains(rec.name) {
                    let i = choose|i: int| 0 <= i < k - 1 && #[trigger] order[i].name == rec.name;
                    assert(order[i].name != order[k - 1].name);
                }
            }
            assert(chain =~= chain.drop_last().push(rec));
            match rec.parent_name {
                None => {
                    assert(chain.drop_last() =~= Seq::empty());
                    assert(chain =~= seq![rec]);
                },
                Some(p) => {
                    assert(chain.len() > 1);
                    assert(chain.drop_last().last() == chain[chain.len() - 2]);
                    let j = choose|j: int| 0 <= j < k - 1 && #[trigger] order[j].name == p;
                    assert(names.contains(p));
                    assert(before.dom().contains(p));
                    assert(before[p] == chain.drop_last());
                },
            }
            assert(after =~= before.insert(rec.name, chain)) by {
                assert forall|n: Seq<u32>| after.dom().contains(n) <==> before.insert(
                    rec.name,
                    chain,
                ).dom().contains(n) by {
                    if after.dom().contains(n) {
                        let i = choose|i: int| 0 <= i < k && #[trigger] order[i].name == n;
                        if i < k - 1 {
                            assert(before.dom().contains(n));
                        }
                    }
                    if before.dom().contains(n) {
                        let i = choose|i: int| 0 <= i < k - 1 && #[trigger] order[i].name == n;
                        assert(order[i].name == n);
                    }
                    if n == rec.name {
                        assert(order[k - 1].name == n);
                    }
                }
            }
        } else {
            assert(after =~= before) by {
                assert forall|n: Seq<u32>| after.dom().contains(n) <==> before.dom().contains(
                    n,
                ) by {
                    if after.dom().contains(n) {
                        let i = choose|i: int| 0 <= i < k && #[trigger] order[i].name == n;
                        assert(i < k - 1);
                    }
                    if before.dom().contains(n) {
                        let i = choose|i: int| 0 <= i < k - 1 && #[trigger] order[i].name == n;
                        assert(order[i].name == n);
                    }
                }
            }
        }
    }
}

/// Importing the pack of a set of layers into an empty store gives a store
/// that holds exactly those layers, each with the chain it had, provided
/// the set holds the parent of each of its layers.
pub proof fn law_export_import(source: LayerStore, names: Set<Seq<u32>>, pack: Seq<u8>)
    requires
        source.wf(),
        forall|n: Seq<u32>| names.contains(n) ==> source.layers().dom().contains(n),
        closed_under_parents(source, names),
        dec_pack(pack) == Some(select(source.order(), names)),
    ensures
        ({
            let (layers, error) = import_pack(Map::empty(), pack, names);
            &&& error is None
            &&& layers.dom() == names
            &&& forall|n: Seq<u32>| names.contains(n) ==> layers[n] == source.layers()[n]
        }),
{
    let order = source.order();
    let recs = select(order, names);
    source.lemma_order_names();
    assert(all_found(recs, names)) by {
        assert forall|n: Seq<u32>| names.contains(n) implies exists|j: int|
            0 <= j < recs.len() && #[trigger] recs[j].name == n by {
            let i = choose|i: int| 0 <= i < order.len() && #[trigger] order[i].name == n;
            lemma_select_has(order, names, i);
            let j = choose|j: int| 0 <= j < recs.len() && #[trigger] recs[j] == order[i];
            assert(recs[j].name == n);
        }
    }
    lemma_import_prefix(source, names, order.len() as int);
    assert(order.take(order.len() as int) =~= order);
    let layers = carried_over(source, names, order.len() as int);
    assert(layers.dom() =~= names) by {
        assert forall|n: Seq<u32>| layers.dom().contains(n) <==> names.contains(n) by {
            if names.contains(n) {
                let i = choose|i: int| 0 <= i < order.len() && #[trigger] order[i].name == n;
                assert(order[i].name == n);
            }
        }
    }
}

/// Taking the listed ones of the first `k` records of a store into that
/// same store refuses none and changes nothing.
pub proof fn lemma_import_again(source: LayerStore, names: Set<Seq<u32>>, k: int)
    requires
        source.wf(),
        0 <= k <= source.order().len(),
    ensures
        import_all(source.layers(), select(source.order().take(k), names), names) == (
            source.layers(),
            None::<StoreError>,
        ),
    decreases k,
{
    let order = source.order();
    if k == 0 {
        assert(order.take(0) =~= Seq::empty());
    } else {
        lemma_import_again(source, names, k - 1);
        assert(order.take(k).drop_last() =~= order.take(k - 1));
        assert(order.take(k).last() == order[k - 1]);
        source.lemma_order_at(k - 1);
        if names.contains(order[k - 1].name) {
            let sel = select(order.take(k), names);
            assert(sel.drop_last() =~= select(order.take(k - 1), names));
            assert(sel.last() == order[k - 1]);
        }
    }
}

/// Importing is idempotent: a store that takes the pack of some of its own
/// layers again accepts it and stays as it is.
pub proof fn law_import_is_idempotent(source: LayerStore, names: Set<Seq<u32>>, pack: Seq<u8>)
    requires
        source.wf(),
        forall|n: Seq<u32>| names.contains(n) ==> source.layers().dom().contains(n),
        dec_pack(pack) == Some(select(source.order(), names)),
    ensures
        import_pack(source.layers(), pack, names) == (source.layers(), None::<StoreError>),
{
    let order = source.order();
    let recs = select(order, names);
    source.lemma_order_names();
    assert(all_found(recs, names)) by {
        assert forall|n: Seq<u32>| names.contains(n) implies exists|j: int|
            0 <= j < recs.len() && #[trigger] recs[j].name == n by {
            let i = choose|i: int| 0 <= i < order.len() && #[trigger] order[i].name == n;
            lemma_select_has(order, names, i);
            let j = choose|j: int| 0 <= j < recs.len() && #[trigger] recs[j] == order[i];
            assert(recs[j].name == n);
        }
    }
    lemma_import_again(source, names, order.len() as int);
    assert(order.take(order.len() as int) =~= order);
}

/// Different counter values stand for different layer names, so the names
/// that a store gives out one after the other all differ.
pub proof fn law_fresh_names_differ(a: u64, b: u64)
    requires
        counter_name(a) == counter_name(b),
    ensures
        a == b,
{
    assert(counter_name(a)[3] == counter_name(b)[3]);
    assert(counter_name(a)[4] == counter_name(b)[4]);
}

/// The name that a store gives out is free, and the store's counter moves
/// past it.
pub proof fn law_fresh_name_is_free(taken: Set<Seq<u32>>, from: u64)
    ensures
        free_from(taken, from) matches Some(c) ==> from <= c < u64::MAX && !taken.contains(
            counter_name(c),
        ),
{
    lemma_free_from(taken, from);
}

} // verus!
