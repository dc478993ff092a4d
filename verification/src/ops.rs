//! Operations that are made of the others: bulk changes to a builder,
//! rebasing a layer's changes, converging on another layer, and squashing a chain.

use vstd::prelude::*;
use crate::builder::StoreLayerBuilder;
use crate::chain::{
    add_each, add_one, all_entries, all_fit, all_predicates, all_readings, effective, empty_layer,
    fits_one, holdings, lemma_changes_valid, lemma_effective_valid, lemma_push, lemma_reading_count,
    lemma_readings, lemma_readings_fit, no_holdings, readings, remove_each, string_image,
    string_triples, valid_triple, without, LayerView,
};
use crate::error::StoreError;
use crate::layer::StoreLayer;
use crate::layer_store::{counter_name, free_from, lemma_free_from};
use crate::store::Store;
use crate::triple::{IdTriple, StringTriple, StringTripleView};
use crate::tripleset::{ascending, lemma_ascending, lemma_sorted_len, lemma_take_to_set};

verus! {

/// The mathematical form of a vector of string triples.
pub open spec fn triple_views(s: Seq<StringTriple>) -> Seq<StringTripleView> {
    Seq::new(s.len(), |i: int| s[i]@)
}

/// The chain `new` is the squash of the chain `old` under the name `name`:
/// a single base layer of that name that reads as `old` does and holds as
/// many triples, with the dictionary that adding the readings of `old`, in
/// ascending order of their ids, to empty holdings gives.
pub open spec fn squashed(old: Seq<LayerView>, new: Seq<LayerView>, name: Seq<u32>) -> bool {
    &&& new.len() == 1
    &&& new[0].name == name
    &&& new[0].parent_name is None
    &&& string_triples(new) == string_triples(old)
    &&& effective(new).len() == effective(old).len()
    &&& holdings(new) == add_each(no_holdings(), all_readings(old))
}

impl StoreLayer {
    /// The readings of the given triples, each of which is valid in this
    /// chain's dictionaries.
    fn strings_of(&self, ts: &Vec<IdTriple>) -> (r: Vec<StringTriple>)
        requires
            self.wf(),
            forall|k: int|
                0 <= k < ts@.len() ==> valid_triple(
                    all_entries(self@),
                    all_predicates(self@),
                    #[trigger] ts@[k],
                ),
        ensures
            triple_views(r@) == readings(all_entries(self@), all_predicates(self@), ts@),
    {
        let mut r: Vec<StringTriple> = Vec::new();
        let mut i: usize = 0;
        while i < ts.len()
            invariant
                self.wf(),
                i <= ts.len(),
                forall|k: int|
                    0 <= k < ts@.len() ==> valid_triple(
                        all_entries(self@),
                        all_predicates(self@),
                        #[trigger] ts@[k],
                    ),
                triple_views(r@) == readings(
                    all_entries(self@),
                    all_predicates(self@),
                    ts@.take(i as int),
                ),
            decreases ts.len() - i,
        {
            let ghost before = r@;
            match self.id_triple_to_string(&ts[i]) {
                Some(st) => {
                    r.push(st);
                },
                None => {
                    assert(valid_triple(all_entries(self@), all_predicates(self@), ts@[i as int]));
                },
            }
            proof {
                let a = triple_views(r@);
                let b = readings(all_entries(self@), all_predicates(self@), ts@.take(i + 1));
                let b0 = readings(all_entries(self@), all_predicates(self@), ts@.take(i as int));
                assert(b0.len() == i);
                assert forall|k: int| 0 <= k < a.len() implies a[k] == b[k] by {
                    if k < i {
                        assert(a[k] == triple_views(before)[k]);
                        assert(b0[k] == b[k]);
                    }
                }
                assert(a =~= b);
            }
            i = i + 1;
        }
        proof {
            assert(ts@.take(i as int) =~= ts@);
        }
        r
    }

    /// The string triples of this layer that `other` does not hold; all of
    /// them where there is no other layer.
    pub fn only_in(&self, other: Option<&StoreLayer>) -> (r: Vec<StringTriple>)
        requires
            self.wf(),
            other is Some ==> other.unwrap().wf(),
        ensures
            triple_views(r@) == without(
                all_readings(self@),
                match other {
                    Some(o) => string_triples(o@),
                    None => Set::empty(),
                },
            ),
            triple_views(r@).to_set() == string_triples(self@).difference(
                match other {
                    Some(o) => string_triples(o@),
                    None => Set::empty(),
                },
            ),
            r@.len() <= effective(self@).len(),
    {
        let ts = self.triples();
        proof {
            self.lemma_wf();
            lemma_effective_valid(self@);
            lemma_sorted_len(ts@);
            assert forall|k: int| 0 <= k < ts@.len() implies valid_triple(
                all_entries(self@),
                all_predicates(self@),
                #[trigger] ts@[k],
            ) by {
                assert(ts@.to_set().contains(ts@[k]));
            }
            lemma_readings(all_entries(self@), all_predicates(self@), ts@);
            lemma_ascending(ts@);
        }
        let all = self.strings_of(&ts);
        let ghost held: Set<StringTripleView> = match other {
            Some(o) => string_triples(o@),
            None => Set::empty(),
        };
        let mut r: Vec<StringTriple> = Vec::new();
        let mut i: usize = 0;
        proof {
            assert(triple_views(r@).to_set() =~= Set::empty());
            assert(triple_views(all@).take(0).to_set() =~= Set::empty());
        }
        while i < all.len()
            invariant
                i <= all.len(),
                other is Some ==> other.unwrap().wf(),
                held == (match other {
                    Some(o) => string_triples(o@),
                    None => Set::empty(),
                }),
                r@.len() <= i,
                triple_views(r@) == without(triple_views(all@).take(i as int), held),
                triple_views(r@).to_set() == triple_views(all@).take(i as int).to_set().difference(
                    held,
                ),
            decreases all.len() - i,
        {
            let skip = match other {
                Some(o) => o.string_triple_exists(&all[i]),
                None => false,
            };
            let ghost before = r@;
            proof {
                lemma_take_to_set(triple_views(all@), i as int);
                assert(triple_views(all@).take(i + 1).drop_last() =~= triple_views(all@).take(
                    i as int,
                ));
            }
            if !skip {
                r.push(all[i].duplicate());
                proof {
                    assert(triple_views(r@) =~= triple_views(before).push(all@[i as int]@));
                    lemma_take_to_set(triple_views(r@), before.len() as int);
                    assert(triple_views(r@).take(before.len() as int) =~= triple_views(before));
                    assert(triple_views(r@).take(before.len() as int + 1) =~= triple_views(r@));
                }
            }
            proof {
                assert(triple_views(r@).to_set() =~= triple_views(all@).take(
                    i + 1,
                ).to_set().difference(held));
            }
            i = i + 1;
        }
        proof {
            assert(triple_views(all@).take(i as int) =~= triple_views(all@));
        }
        r
    }

    /// Starts a layer on top of this one.
    ///
    /// Fails with `NotFound` where the store holds no layer of this name,
    /// and with `Exhausted` where no layer name is free.
    pub fn open_write(&self, store: &mut Store) -> (r: Result<StoreLayerBuilder, StoreError>)
        requires
            self.wf(),
            old(store).wf(),
        ensures
            final(store).wf(),
            final(store).labels() == old(store).labels(),
            final(store).layers() == old(store).layers(),
            if !old(store).layers().dom().contains(self@.last().name) {
                &&& r matches Err(e)
                &&& e == StoreError::NotFound
                &&& final(store).layer_store.next_counter() == old(store).layer_store.next_counter()
            } else {
                match free_from(old(store).layers().dom(), old(store).layer_store.next_counter()) {
                    Some(c) => {
                        &&& r matches Ok(b)
                        &&& b.wf()
                        &&& b.is_open()
                        &&& b.parent_chain() == old(store).layers()[self@.last().name]
                        &&& b.staged() == empty_layer(counter_name(c), Some(self@.last().name))
                        &&& final(store).layer_store.next_counter() == c + 1
                    },
                    None => {
                        &&& r matches Err(e)
                        &&& e == StoreError::Exhausted
                        &&& final(store).layer_store.next_counter() == old(store).layer_store.next_counter()
                    },
                }
            },
    {
        store.layer_store.create_child_layer(self.name())
    }

    /// Starts a layer on top of this one, under the name that the caller has drawn.
    ///
    /// Fails with `NotFound` where the store holds no layer of this name,
    /// and with `InvalidData` where it has a layer of the new name.
    pub fn open_write_named(&self, store: &mut Store, name: [u32; 5]) -> (r: Result<
        StoreLayerBuilder,
        StoreError,
    >)
        requires
            self.wf(),
            old(store).wf(),
        ensures
            final(store).wf(),
            final(store).labels() == old(store).labels(),
            final(store).layers() == old(store).layers(),
            final(store).layer_store.next_counter() == old(store).layer_store.next_counter(),
            r is Ok <==> old(store).layers().dom().contains(self@.last().name) && !old(store).layers().dom().contains(name@),
            match r {
                Ok(b) => {
                    &&& b.wf()
                    &&& b.is_open()
                    &&& b.parent_chain() == old(store).layers()[self@.last().name]
                    &&& b.staged() == empty_layer(name@, Some(self@.last().name))
                },
                Err(e) => e == (if !old(store).layers().dom().contains(self@.last().name) {
                    StoreError::NotFound
                } else {
                    StoreError::InvalidData
                }),
            },
    {
        store.layer_store.create_child_layer_named(self.name(), name)
    }

    /// The layer below this one, or `None` for a base layer.
    ///
    /// Fails with `NotFound` where the store does not hold the parent.
    pub fn parent(&self, store: &mut Store) -> (r: Result<Option<StoreLayer>, StoreError>)
        requires
            self.wf(),
            old(store).wf(),
        ensures
            final(store).wf(),
            final(store).labels() == old(store).labels(),
            final(store).layers() == old(store).layers(),
            final(store).layer_store.next_counter() == old(store).layer_store.next_counter(),
            match r {
                Ok(Some(p)) => {
                    &&& self@.last().parent_name matches Some(n)
                    &&& old(store).layers().dom().contains(n)
                    &&& p.wf()
                    &&& p@ == old(store).layers()[n]
                },
                Ok(None) => self@.last().parent_name is None,
                Err(e) => {
                    &&& e == StoreError::NotFound
                    &&& self@.last().parent_name matches Some(n)
                    &&& !old(store).layers().dom().contains(n)
                },
            },
    {
        match self.parent_name() {
            None => Ok(None),
            Some(parent_name) => match store.layer_store.get_layer(parent_name) {
                None => Err(StoreError::NotFound),
                Some(layer) => Ok(Some(layer)),
            },
        }
    }
}

impl StoreLayerBuilder {
    /// The dictionaries have room for what `n` more string triples may need.
    pub open spec fn room_for(&self, n: nat) -> bool {
        &&& all_entries(self.chain()).len() + 2 * n < u64::MAX
        &&& all_predicates(self.chain()).len() + n < u64::MAX
    }

    /// Adds one string triple, or leaves it out where the builder refuses it.
    fn add_or_skip(&mut self, triple: StringTriple)
        requires
            old(self).wf(),
        ensures
            final(self).wf(),
            final(self).parent_chain() == old(self).parent_chain(),
            final(self).staged().name == old(self).staged().name,
            final(self).is_open() == old(self).is_open(),
            !old(self).is_open() ==> final(self).staged() == old(self).staged(),
            old(self).is_open() ==> holdings(final(self).chain()) == add_one(
                holdings(old(self).chain()),
                triple@,
            ),
            old(self).is_open() && fits_one(holdings(old(self).chain()), triple@) ==> string_triples(
                final(self).chain(),
            ) == string_triples(old(self).chain()).insert(triple@),
    {
        let _ = self.add_string_triple(triple);
    }

    /// Adds each of the given string triples. One that the builder refuses
    /// for want of room is left out; where none is refused, the builder
    /// then holds what it held and the given triples.
    pub fn add_all(&mut self, triples: &Vec<StringTriple>)
        requires
            old(self).wf(),
        ensures
            final(self).wf(),
            final(self).parent_chain() == old(self).parent_chain(),
            final(self).staged().name == old(self).staged().name,
            final(self).is_open() == old(self).is_open(),
            !old(self).is_open() ==> final(self).staged() == old(self).staged(),
            old(self).is_open() ==> holdings(final(self).chain()) == add_each(
                holdings(old(self).chain()),
                triple_views(triples@),
            ),
            old(self).is_open() && all_fit(holdings(old(self).chain()), triple_views(triples@))
                ==> string_triples(final(self).chain()) == string_triples(old(self).chain()).union(
                triple_views(triples@).to_set(),
            ),
    {
        let ghost views = triple_views(triples@);
        let ghost start = string_triples(self.chain());
        let ghost held = holdings(self.chain());
        let mut i: usize = 0;
        proof {
            assert(views.take(0).to_set() =~= Set::empty());
            assert(start.union(Set::empty()) =~= start);
        }
        while i < triples.len()
            invariant
                i <= triples.len(),
                self.wf(),
                views == triple_views(triples@),
                self.parent_chain() == old(self).parent_chain(),
                self.staged().name == old(self).staged().name,
                self.is_open() == old(self).is_open(),
                !old(self).is_open() ==> self.staged() == old(self).staged(),
                held == holdings(old(self).chain()),
                start == string_triples(old(self).chain()),
                old(self).is_open() ==> holdings(self.chain()) == add_each(
                    held,
                    views.take(i as int),
                ),
                old(self).is_open() && all_fit(held, views.take(i as int)) ==> string_triples(
                    self.chain(),
                ) == start.union(views.take(i as int).to_set()),
            decreases triples.len() - i,
        {
            self.add_or_skip(triples[i].duplicate());
            proof {
                lemma_take_to_set(views, i as int);
                assert(views.take(i + 1).drop_last() =~= views.take(i as int));
                assert(views.take(i + 1).last() == views[i as int]);
                if old(self).is_open() && all_fit(held, views.take(i + 1)) {
                    assert(string_triples(self.chain()) =~= start.union(
                        views.take(i + 1).to_set(),
                    ));
                }
            }
            i = i + 1;
        }
        proof {
            assert(views.take(i as int) =~= views);
        }
    }

    /// Removes each of the given string triples.
    pub fn remove_all(&mut self, triples: &Vec<StringTriple>)
        requires
            old(self).wf(),
        ensures
            final(self).wf(),
            final(self).parent_chain() == old(self).parent_chain(),
            final(self).staged().name == old(self).staged().name,
            final(self).staged().entries == old(self).staged().entries,
            final(self).staged().predicates == old(self).staged().predicates,
            final(self).is_open() == old(self).is_open(),
            !old(self).is_open() ==> final(self).staged() == old(self).staged(),
            old(self).is_open() ==> holdings(final(self).chain()) == remove_each(
                holdings(old(self).chain()),
                triple_views(triples@),
            ),
            old(self).is_open() ==> string_triples(final(self).chain()) == string_triples(
                old(self).chain(),
            ).difference(triple_views(triples@).to_set()),
    {
        let ghost views = triple_views(triples@);
        let ghost start = string_triples(self.chain());
        let mut i: usize = 0;
        proof {
            assert(views.take(0).to_set() =~= Set::empty());
            assert(start.difference(Set::empty()) =~= start);
        }
        while i < triples.len()
            invariant
                i <= triples.len(),
                self.wf(),
                views == triple_views(triples@),
                self.parent_chain() == old(self).parent_chain(),
                self.staged().name == old(self).staged().name,
                self.staged().entries == old(self).staged().entries,
                self.staged().predicates == old(self).staged().predicates,
                self.is_open() == old(self).is_open(),
                !old(self).is_open() ==> self.staged() == old(self).staged(),
                old(self).is_open() ==> holdings(self.chain()) == remove_each(
                    holdings(old(self).chain()),
                    views.take(i as int),
                ),
                old(self).is_open() ==> string_triples(self.chain()) == start.difference(
                    views.take(i as int).to_set(),
                ),
            decreases triples.len() - i,
        {
            let _ = self.remove_string_triple(triples[i].duplicate());
            proof {
                lemma_take_to_set(views, i as int);
                assert(views.take(i + 1).drop_last() =~= views.take(i as int));
                if old(self).is_open() {
                    assert(string_triples(self.chain()) =~= start.difference(
                        views.take(i + 1).to_set(),
                    ));
                }
            }
            i = i + 1;
        }
        proof {
            assert(views.take(i as int) =~= views);
        }
    }
}

impl StoreLayerBuilder {
    /// Replays the changes of the layer `delta` on this builder: what
    /// `delta` adds is added, what it removes is removed, each triple taken
    /// in its human-readable form.
    ///
    /// The two lists are read side by side. A triple that the builder
    /// refuses is left out, so the call itself never fails.
    pub fn apply_delta(&mut self, delta: &StoreLayer) -> (r: Result<(), StoreError>)
        requires
            old(self).wf(),
            delta.wf(),
        ensures
            r is Ok,
            final(self).wf(),
            final(self).parent_chain() == old(self).parent_chain(),
            final(self).staged().name == old(self).staged().name,
            final(self).is_open() == old(self).is_open(),
            !old(self).is_open() ==> final(self).staged() == old(self).staged(),
            old(self).is_open() ==> holdings(final(self).chain()) == remove_each(
                add_each(
                    holdings(old(self).chain()),
                    readings(all_entries(delta@), all_predicates(delta@), delta@.last().additions),
                ),
                readings(all_entries(delta@), all_predicates(delta@), delta@.last().removals),
            ),
            old(self).is_open() && all_fit(
                holdings(old(self).chain()),
                readings(all_entries(delta@), all_predicates(delta@), delta@.last().additions),
            ) ==> string_triples(
                final(self).chain(),
            ) == string_triples(old(self).chain()).union(
                string_image(
                    all_entries(delta@),
                    all_predicates(delta@),
                    delta@.last().additions.to_set(),
                ),
            ).difference(
                string_image(
                    all_entries(delta@),
                    all_predicates(delta@),
                    delta@.last().removals.to_set(),
                ),
            ),
    {
        let additions = delta.triple_additions();
        let removals = delta.triple_removals();
        proof {
            delta.lemma_wf();
            lemma_changes_valid(delta@);
            lemma_readings(all_entries(delta@), all_predicates(delta@), additions@);
            lemma_readings(all_entries(delta@), all_predicates(delta@), removals@);
        }
        let read_additions = || -> (v: Vec<StringTriple>)
            requires
                delta.wf(),
                forall|k: int|
                    0 <= k < additions@.len() ==> valid_triple(
                        all_entries(delta@),
                        all_predicates(delta@),
                        #[trigger] additions@[k],
                    ),
            ensures
                triple_views(v@) == readings(
                    all_entries(delta@),
                    all_predicates(delta@),
                    additions@,
                ),
            { delta.strings_of(&additions) };
        let read_removals = || -> (v: Vec<StringTriple>)
            requires
                delta.wf(),
                forall|k: int|
                    0 <= k < removals@.len() ==> valid_triple(
                        all_entries(delta@),
                        all_predicates(delta@),
                        #[trigger] removals@[k],
                    ),
            ensures
                triple_views(v@) == readings(
                    all_entries(delta@),
                    all_predicates(delta@),
                    removals@,
                ),
            { delta.strings_of(&removals) };
        let (to_add, to_remove) = rayon::join(read_additions, read_removals);
        assert(to_add@.len() == triple_views(to_add@).len());
        self.add_all(&to_add);
        self.remove_all(&to_remove);
        Ok(())
    }

    /// Changes this builder so that it holds what the layer `other` holds:
    /// what its parent holds and `other` does not is removed, what `other`
    /// holds and its parent does not is added, each triple taken in its
    /// human-readable form.
    ///
    /// The two lists are found side by side. A triple that the builder
    /// refuses is left out, so the call itself never fails.
    pub fn apply_diff(&mut self, other: &StoreLayer) -> (r: Result<(), StoreError>)
        requires
            old(self).wf(),
            other.wf(),
        ensures
            r is Ok,
            final(self).wf(),
            final(self).parent_chain() == old(self).parent_chain(),
            final(self).staged().name == old(self).staged().name,
            final(self).is_open() == old(self).is_open(),
            !old(self).is_open() ==> final(self).staged() == old(self).staged(),
            old(self).is_open() ==> holdings(final(self).chain()) == add_each(
                remove_each(
                    holdings(old(self).chain()),
                    without(all_readings(old(self).parent_chain()), string_triples(other@)),
                ),
                without(all_readings(other@), string_triples(old(self).parent_chain())),
            ),
            old(self).is_open() && all_fit(
                remove_each(
                    holdings(old(self).chain()),
                    without(all_readings(old(self).parent_chain()), string_triples(other@)),
                ),
                without(all_readings(other@), string_triples(old(self).parent_chain())),
            ) ==> string_triples(
                final(self).chain(),
            ) == string_triples(old(self).chain()).difference(
                string_triples(old(self).parent_chain()).difference(string_triples(other@)),
            ).union(string_triples(other@).difference(string_triples(old(self).parent_chain()))),
    {
        let parent = self.parent();
        let below: Option<&StoreLayer> = match &parent {
            Some(p) => Some(p),
            None => None,
        };
        let ghost held = string_triples(self.parent_chain());
        proof {
            if below is None {
                assert(effective(self.parent_chain()) =~= Set::empty());
                assert(held =~= Set::empty());
            }
        }
        let find_removals = || -> (v: Vec<StringTriple>)
            requires
                other.wf(),
                below is Some ==> below.unwrap().wf(),
            ensures
                triple_views(v@) == without(
                    all_readings(
                        match below {
                            Some(p) => p@,
                            None => Seq::empty(),
                        },
                    ),
                    string_triples(other@),
                ),
                triple_views(v@).to_set() == (match below {
                    Some(p) => string_triples(p@),
                    None => Set::empty(),
                }).difference(string_triples(other@)),
            {
                match below {
                    Some(p) => p.only_in(Some(other)),
                    None => {
                        let v: Vec<StringTriple> = Vec::new();
                        proof {
                            let none = Seq::<LayerView>::empty();
                            assert(effective(none) =~= Set::<IdTriple>::empty());
                            lemma_ascending(Seq::<IdTriple>::empty());
                            assert(Seq::<IdTriple>::empty().to_set() =~= Set::<IdTriple>::empty());
                            assert(all_readings(none) =~= Seq::<StringTripleView>::empty());
                            assert(triple_views(v@) =~= Seq::<StringTripleView>::empty());
                        }
                        assert(triple_views(v@).to_set() =~= Set::<StringTripleView>::empty());
                        assert(Set::<StringTripleView>::empty().difference(string_triples(other@))
                            =~= Set::<StringTripleView>::empty());
                        v
                    },
                }
            };
        let find_additions = || -> (v: Vec<StringTriple>)
            requires
                other.wf(),
                below is Some ==> below.unwrap().wf(),
            ensures
                triple_views(v@) == without(
                    all_readings(other@),
                    match below {
                        Some(p) => string_triples(p@),
                        None => Set::empty(),
                    },
                ),
                triple_views(v@).to_set() == string_triples(other@).difference(
                    match below {
                        Some(p) => string_triples(p@),
                        None => Set::empty(),
                    },
                ),
                v@.len() <= effective(other@).len(),
            { other.only_in(below) };
        let (to_remove, to_add) = rayon::join(find_removals, find_additions);
        let ghost start = *self;
        self.remove_all(&to_remove);
        proof {
            lemma_push(start.parent_chain(), start.staged());
            lemma_push(self.parent_chain(), self.staged());
        }
        self.add_all(&to_add);
        Ok(())
    }
}

impl StoreLayer {
    /// Fills a fresh base builder with what this chain holds and commits it.
    fn squash_into(&self, store: &mut Store, builder: StoreLayerBuilder) -> (r: Result<
        StoreLayer,
        StoreError,
    >)
        requires
            self.wf(),
            old(store).wf(),
            builder.wf(),
            builder.is_open(),
            builder.parent_chain() == Seq::<LayerView>::empty(),
            builder.staged() == empty_layer(builder.staged().name, None),
            !old(store).layers().dom().contains(builder.staged().name),
        ensures
            final(store).wf(),
            final(store).label_store == old(store).label_store,
            final(store).layer_store.next_counter() == old(store).layer_store.next_counter(),
            r matches Ok(l) && squashed(self@, l@, builder.staged().name) && l.wf() && final(store).layers() == old(store).layers().insert(builder.staged().name, l@),
    {
        let mut new_builder = builder;
        let triples = self.triples();
        proof {
            self.lemma_wf();
            lemma_effective_valid(self@);
            lemma_sorted_len(triples@);
            assert forall|k: int| 0 <= k < triples@.len() implies valid_triple(
                all_entries(self@),
                all_predicates(self@),
                #[trigger] triples@[k],
            ) by {
                assert(triples@.to_set().contains(triples@[k]));
            }
            lemma_readings(all_entries(self@), all_predicates(self@), triples@);
            lemma_ascending(triples@);
            lemma_readings_fit(
                all_entries(self@),
                all_predicates(self@),
                triples@,
                triples@.len() as int,
            );
            lemma_reading_count(all_entries(self@), all_predicates(self@), triples@);
        }
        let strings = self.strings_of(&triples);
        proof {
            new_builder.lemma_wf();
            lemma_push(new_builder.parent_chain(), new_builder.staged());
            assert(all_entries(new_builder.chain()) =~= Seq::empty());
            assert(all_predicates(new_builder.chain()) =~= Seq::empty());
            assert(effective(new_builder.chain()) =~= Set::empty());
            assert(string_triples(new_builder.chain()) =~= Set::empty());
            assert(triple_views(strings@).take(triples@.len() as int) =~= triple_views(strings@));
            assert(Set::<StringTripleView>::empty().union(triple_views(strings@).to_set())
                =~= triple_views(strings@).to_set());
        }
        new_builder.add_all(&strings);
        proof {
            new_builder.lemma_wf();
            assert(new_builder.chain() =~= seq![new_builder.staged()]);
        }
        let r = new_builder.commit(store);
        proof {
            match &r {
                Ok(l) => {
                    l.lemma_wf();
                    lemma_effective_valid(l@);
                    let mine = ascending(effective(l@));
                    assert forall|k: int| 0 <= k < mine.len() implies valid_triple(
                        all_entries(l@),
                        all_predicates(l@),
                        #[trigger] mine[k],
                    ) by {
                        assert(mine.to_set().contains(mine[k]));
                    }
                    lemma_reading_count(all_entries(l@), all_predicates(l@), mine);
                },
                Err(_) => {},
            }
        }
        r
    }

    /// Makes a base layer that holds what this chain holds, and publishes it in `store`.
    ///
    /// The triples are carried over in their human-readable form, so the
    /// new layer has a dictionary of its own, drawn from that of this
    /// chain: no triple is refused. It fails with `Exhausted` where no
    /// layer name is free, and only there.
    pub fn squash(&self, store: &mut Store) -> (r: Result<StoreLayer, StoreError>)
        requires
            self.wf(),
            old(store).wf(),
        ensures
            final(store).wf(),
            final(store).labels() == old(store).labels(),
            match free_from(old(store).layers().dom(), old(store).layer_store.next_counter()) {
                Some(c) => {
                    &&& final(store).layer_store.next_counter() == c + 1
                    &&& r matches Ok(l)
                    &&& l.wf()
                    &&& squashed(self@, l@, counter_name(c))
                    &&& final(store).layers() == old(store).layers().insert(counter_name(c), l@)
                },
                None => {
                    &&& r matches Err(e)
                    &&& e == StoreError::Exhausted
                    &&& final(store).layers() == old(store).layers()
                    &&& final(store).layer_store.next_counter() == old(store).layer_store.next_counter()
                },
            },
    {
        proof {
            lemma_free_from(old(store).layers().dom(), old(store).layer_store.next_counter());
        }
        match store.create_base_layer() {
            Ok(builder) => self.squash_into(store, builder),
            Err(e) => Err(e),
        }
    }

    /// Makes a base layer that holds what this chain holds, under the name
    /// that the caller has drawn, and publishes it in `store`.
    ///
    /// It fails with `InvalidData` where the store has a layer of that
    /// name, and only there.
    pub fn squash_named(&self, store: &mut Store, name: [u32; 5]) -> (r: Result<
        StoreLayer,
        StoreError,
    >)
        requires
            self.wf(),
            old(store).wf(),
        ensures
            final(store).wf(),
            final(store).labels() == old(store).labels(),
            final(store).layer_store.next_counter() == old(store).layer_store.next_counter(),
            r is Ok <==> !old(store).layers().dom().contains(name@),
            match r {
                Ok(l) => {
                    &&& l.wf()
                    &&& squashed(self@, l@, name@)
                    &&& final(store).layers() == old(store).layers().insert(name@, l@)
                },
                Err(e) => e == StoreError::InvalidData && final(store).layers() == old(store).layers(),
            },
    {
        match store.create_base_layer_named(name) {
            Ok(builder) => self.squash_into(store, builder),
            Err(e) => Err(e),
        }
    }
}

} // verus!
