//! The repository of layers: records under their names, each linked to its parent.

use std::sync::Arc;
use vstd::prelude::*;
use crate::builder::StoreLayerBuilder;
use crate::chain::{empty_layer, layer_ok, lemma_push, wf_chain, LayerView};
use crate::dictionary::same_name;
use crate::error::StoreError;
use crate::layer::{records_view, share, LayerData, StoreLayer};
use crate::pack::{
    dec_pack, enc_items, enc_layer, enc_pack, fits, law_pack_round_trip, layer_views,
    lemma_enc_items_push, read_pack, write_layer, write_word,
};
use crate::validate::check_record;

verus! {

/// The chain that ends in record `i`, found by following the parent links.
pub open spec fn chain_at(recs: Seq<LayerView>, parents: Seq<Option<usize>>, i: int) -> Seq<
    LayerView,
>
    decreases i,
{
    if 0 <= i < recs.len() && i < parents.len() {
        match parents[i] {
            Some(j) => if j < i {
                chain_at(recs, parents, j as int).push(recs[i])
            } else {
                seq![recs[i]]
            },
            None => seq![recs[i]],
        }
    } else {
        Seq::empty()
    }
}

/// Whether some layer of the chain has the name `name`.
pub open spec fn in_chain(c: Seq<LayerView>, name: Seq<u32>) -> bool {
    exists|k: int| 0 <= k < c.len() && #[trigger] c[k].name == name
}

/// Whether `candidate` is `anchor` itself or is reached from `anchor` by
/// following parent names.
pub open spec fn is_ancestor(
    layers: Map<Seq<u32>, Seq<LayerView>>,
    candidate: Seq<u32>,
    anchor: Seq<u32>,
) -> bool {
    candidate == anchor || (layers.dom().contains(anchor) && in_chain(layers[anchor], candidate))
}

/// The layer name that stands for the counter value `c`.
pub open spec fn counter_name(c: u64) -> Seq<u32> {
    seq![0u32, 0u32, 0u32, (c / 0x1_0000_0000) as u32, (c % 0x1_0000_0000) as u32]
}

/// The first counter value from `from` on whose name is not taken.
pub open spec fn free_from(taken: Set<Seq<u32>>, from: u64) -> Option<u64>
    decreases u64::MAX - from,
{
    if from >= u64::MAX {
        None
    } else if !taken.contains(counter_name(from)) {
        Some(from)
    } else {
        free_from(taken, (from + 1) as u64)
    }
}

/// What `free_from` finds is a counter value whose name is free, and every
/// value before it, from `from` on, is taken.
pub proof fn lemma_free_from(taken: Set<Seq<u32>>, from: u64)
    ensures
        match free_from(taken, from) {
            Some(c) => {
                &&& from <= c < u64::MAX
                &&& !taken.contains(counter_name(c))
                &&& forall|d: u64| from <= d < c ==> taken.contains(#[trigger] counter_name(d))
            },
            None => forall|d: u64| from <= d < u64::MAX ==> taken.contains(
                #[trigger] counter_name(d),
            ),
        },
    decreases u64::MAX - from,
{
    if from < u64::MAX && taken.contains(counter_name(from)) {
        lemma_free_from(taken, (from + 1) as u64);
    }
}

proof fn lemma_chain_last(recs: Seq<LayerView>, parents: Seq<Option<usize>>, i: int)
    requires
        0 <= i < recs.len(),
        recs.len() == parents.len(),
    ensures
        chain_at(recs, parents, i).len() >= 1,
        chain_at(recs, parents, i).last() == recs[i],
{
}

proof fn lemma_stable(
    recs: Seq<LayerView>,
    parents: Seq<Option<usize>>,
    r: LayerView,
    p: Option<usize>,
    i: int,
)
    requires
        0 <= i < recs.len(),
        recs.len() == parents.len(),
    ensures
        chain_at(recs.push(r), parents.push(p), i) == chain_at(recs, parents, i),
    decreases i,
{
    match parents[i] {
        Some(j) => {
            if j < i {
                lemma_stable(recs, parents, r, p, j as int);
            }
        },
        None => {},
    }
}

/// What taking one record into a store does to its layers, and the error
/// where it is refused.
///
/// A record whose name the store has is accepted as it is where the store
/// holds the same record, and refused with `InvalidData` where it holds
/// another. A new record needs its parent in the store (`NotFound`) and
/// must be in order on top of it (`InvalidData`).
pub open spec fn import_one(layers: Map<Seq<u32>, Seq<LayerView>>, rec: LayerView) -> (
    Map<Seq<u32>, Seq<LayerView>>,
    Option<StoreError>,
) {
    if layers.dom().contains(rec.name) {
        if layers[rec.name].last() == rec {
            (layers, None)
        } else {
            (layers, Some(StoreError::InvalidData))
        }
    } else {
        match rec.parent_name {
            None => if layer_ok(Seq::empty(), rec) {
                (layers.insert(rec.name, seq![rec]), None)
            } else {
                (layers, Some(StoreError::InvalidData))
            },
            Some(p) => if !layers.dom().contains(p) {
                (layers, Some(StoreError::NotFound))
            } else if layer_ok(layers[p], rec) {
                (layers.insert(rec.name, layers[p].push(rec)), None)
            } else {
                (layers, Some(StoreError::InvalidData))
            },
        }
    }
}

/// What taking the listed records of a sequence into a store does, one
/// after the other, up to the first that is refused.
pub open spec fn import_all(
    layers: Map<Seq<u32>, Seq<LayerView>>,
    recs: Seq<LayerView>,
    names: Set<Seq<u32>>,
) -> (Map<Seq<u32>, Seq<LayerView>>, Option<StoreError>)
    decreases recs.len(),
{
    if recs.len() == 0 {
        (layers, None)
    } else {
        let (m, e) = import_all(layers, recs.drop_last(), names);
        if e is Some {
            (m, e)
        } else if names.contains(recs.last().name) {
            import_one(m, recs.last())
        } else {
            (m, None)
        }
    }
}

/// The records whose names are listed, in the order of the sequence.
pub open spec fn select(order: Seq<LayerView>, names: Set<Seq<u32>>) -> Seq<LayerView>
    decreases order.len(),
{
    if order.len() == 0 {
        Seq::empty()
    } else if names.contains(order.last().name) {
        select(order.drop_last(), names).push(order.last())
    } else {
        select(order.drop_last(), names)
    }
}

/// The set of the names in a list.
pub open spec fn name_set(ids: Seq<[u32; 5]>) -> Set<Seq<u32>> {
    Set::new(|n: Seq<u32>| exists|i: int| 0 <= i < ids.len() && #[trigger] ids[i]@ == n)
}

/// Whether every listed name is the name of one of the records.
pub open spec fn all_found(recs: Seq<LayerView>, names: Set<Seq<u32>>) -> bool {
    forall|n: Seq<u32>|
        names.contains(n) ==> exists|i: int| 0 <= i < recs.len() && #[trigger] recs[i].name == n
}

/// What importing a pack does to the layers of a store, and the error where
/// it is refused: bytes that are no pack, and a pack that lacks a listed
/// name, are `InvalidData` and change nothing.
pub open spec fn import_pack(
    layers: Map<Seq<u32>, Seq<LayerView>>,
    pack: Seq<u8>,
    names: Set<Seq<u32>>,
) -> (Map<Seq<u32>, Seq<LayerView>>, Option<StoreError>) {
    match dec_pack(pack) {
        None => (layers, Some(StoreError::InvalidData)),
        Some(recs) => if all_found(recs, names) {
            import_all(layers, recs, names)
        } else {
            (layers, Some(StoreError::InvalidData))
        },
    }
}

/// Once a record has been refused, the records after it change nothing.
pub proof fn lemma_import_stops(
    layers: Map<Seq<u32>, Seq<LayerView>>,
    recs: Seq<LayerView>,
    names: Set<Seq<u32>>,
    k: int,
)
    requires
        0 <= k <= recs.len(),
        import_all(layers, recs.take(k), names).1 is Some,
    ensures
        import_all(layers, recs, names) == import_all(layers, recs.take(k), names),
    decreases recs.len() - k,
{
    if k < recs.len() {
        assert(recs.take(k + 1).drop_last() =~= recs.take(k));
        lemma_import_stops(layers, recs, names, k + 1);
    } else {
        assert(recs.take(k) =~= recs);
    }
}

/// Whether the name is in the list.
pub fn listed(ids: &Vec<[u32; 5]>, name: &[u32; 5]) -> (b: bool)
    ensures
        b == name_set(ids@).contains(name@),
{
    let mut i: usize = 0;
    while i < ids.len()
        invariant
            i <= ids.len(),
            forall|k: int| 0 <= k < i ==> #[trigger] ids@[k]@ != name@,
        decreases ids.len() - i,
    {
        if same_name(&ids[i], name) {
            return true;
        }
        i = i + 1;
    }
    false
}

/// The layers of a store, with a bounded cache of the chains read last.
pub struct LayerStore {
    records: Vec<Arc<LayerData>>,
    parents: Vec<Option<usize>>,
    cache: Vec<StoreLayer>,
    capacity: usize,
    next_name: u64,
}

impl LayerStore {
    spec fn rv(&self) -> Seq<LayerView> {
        records_view(self.records@)
    }

    spec fn linked(&self, i: int) -> bool {
        match self.parents@[i] {
            Some(j) => j < i && self.rv()[i].parent_name == Some(self.rv()[j as int].name),
            None => self.rv()[i].parent_name is None,
        }
    }

    spec fn cached_ok(&self, k: int) -> bool {
        &&& self.cache@[k].wf()
        &&& exists|i: int|
            0 <= i < self.rv().len() && self.cache@[k]@ == #[trigger] chain_at(
                self.rv(),
                self.parents@,
                i,
            )
    }

    /// The store's layers: under each name, the chain that ends in the layer of that name.
    pub closed spec fn layers(&self) -> Map<Seq<u32>, Seq<LayerView>> {
        Map::new(
            |n: Seq<u32>| exists|i: int| 0 <= i < self.rv().len() && #[trigger] self.rv()[i].name == n,
            |n: Seq<u32>|
                chain_at(
                    self.rv(),
                    self.parents@,
                    choose|i: int| 0 <= i < self.rv().len() && #[trigger] self.rv()[i].name == n,
                ),
        )
    }

    /// The counter value from which the next layer name is sought.
    pub closed spec fn next_counter(&self) -> u64 {
        self.next_name
    }

    /// The number of chains that the cache may hold.
    pub closed spec fn capacity(&self) -> nat {
        self.capacity as nat
    }

    /// The number of chains that the cache holds.
    pub closed spec fn cached_count(&self) -> nat {
        self.cache@.len()
    }

    /// The chains that the cache holds, the one that was put in first at the front.
    pub closed spec fn cached_chains(&self) -> Seq<Seq<LayerView>> {
        Seq::new(self.cache@.len(), |k: int| self.cache@[k]@)
    }

    /// Names are unique, every parent link points at an earlier record of
    /// the parent's name, every chain is well-formed, and what the cache
    /// holds are chains of the store.
    pub closed spec fn wf(&self) -> bool {
        &&& self.parents@.len() == self.records@.len()
        &&& forall|i: int, j: int|
            0 <= i < j < self.rv().len() ==> #[trigger] self.rv()[i].name != #[trigger] self.rv()[j].name
        &&& forall|i: int| 0 <= i < self.rv().len() ==> #[trigger] self.linked(i)
        &&& forall|i: int|
            0 <= i < self.rv().len() ==> wf_chain(#[trigger] chain_at(self.rv(), self.parents@, i))
        &&& forall|k: int| 0 <= k < self.cache@.len() ==> #[trigger] self.cached_ok(k)
        &&& self.cache@.len() <= self.capacity
    }

    /// The cache of a well-formed store holds no more chains than it may.
    pub proof fn lemma_cache_is_bounded(&self)
        requires
            self.wf(),
        ensures
            self.cached_count() <= self.capacity(),
    {
    }

    /// The number of chains that the cache holds now, and the number it may hold.
    pub fn cache_use(&self) -> (r: (usize, usize))
        requires
            self.wf(),
        ensures
            r.0 == self.cached_count(),
            r.1 == self.capacity(),
            r.0 <= r.1,
    {
        (self.cache.len(), self.capacity)
    }

    proof fn lemma_index(&self, i: int)
        requires
            self.wf(),
            0 <= i < self.rv().len(),
        ensures
            self.layers().dom().contains(self.rv()[i].name),
            self.layers()[self.rv()[i].name] == chain_at(self.rv(), self.parents@, i),
    {
        let n = self.rv()[i].name;
        let j = choose|j: int| 0 <= j < self.rv().len() && #[trigger] self.rv()[j].name == n;
        if i < j {
            assert(self.rv()[i].name != self.rv()[j].name);
        } else if j < i {
            assert(self.rv()[j].name != self.rv()[i].name);
        }
    }

    /// Every chain of a well-formed store is well-formed and ends in the
    /// layer it is stored under; what lies below its last layer is the chain
    /// stored under the parent's name.
    pub proof fn lemma_layer(&self, name: Seq<u32>)
        requires
            self.wf(),
            self.layers().dom().contains(name),
        ensures
            wf_chain(self.layers()[name]),
            self.layers()[name].last().name == name,
            self.layers()[name].len() > 1 ==> {
                let parent = self.layers()[name][self.layers()[name].len() - 2].name;
                &&& self.layers().dom().contains(parent)
                &&& self.layers()[parent] == self.layers()[name].drop_last()
            },
    {
        let i = choose|i: int| 0 <= i < self.rv().len() && #[trigger] self.rv()[i].name == name;
        self.lemma_index(i);
        lemma_chain_last(self.rv(), self.parents@, i);
        assert(self.linked(i));
        match self.parents@[i] {
            Some(j) => {
                let c = chain_at(self.rv(), self.parents@, j as int);
                lemma_chain_last(self.rv(), self.parents@, j as int);
                self.lemma_index(j as int);
                assert(c.push(self.rv()[i]).drop_last() =~= c);
            },
            None => {},
        }
    }

    proof fn lemma_members(&self, i: int, k: int)
        requires
            self.wf(),
            0 <= i < self.rv().len(),
            0 <= k < chain_at(self.rv(), self.parents@, i).len(),
        ensures
            exists|m: int| 0 <= m <= i && chain_at(self.rv(), self.parents@, i)[k] == #[trigger] self.rv()[m],
        decreases i,
    {
        assert(self.linked(i));
        let c = chain_at(self.rv(), self.parents@, i);
        if k == c.len() - 1 {
            lemma_chain_last(self.rv(), self.parents@, i);
            assert(c[k] == self.rv()[i]);
        } else {
            match self.parents@[i] {
                Some(j) => {
                    self.lemma_members(j as int, k);
                    let m = choose|m: int|
                        0 <= m <= j && chain_at(self.rv(), self.parents@, j as int)[k]
                            == #[trigger] self.rv()[m];
                    assert(c[k] == self.rv()[m]);
                },
                None => {},
            }
        }
    }

    proof fn lemma_distinct(&self, i: int, a: int, b: int)
        requires
            self.wf(),
            0 <= i < self.rv().len(),
            0 <= a < b < chain_at(self.rv(), self.parents@, i).len(),
        ensures
            chain_at(self.rv(), self.parents@, i)[a].name != chain_at(
                self.rv(),
                self.parents@,
                i,
            )[b].name,
        decreases i,
    {
        assert(self.linked(i));
        let c = chain_at(self.rv(), self.parents@, i);
        match self.parents@[i] {
            Some(j) => {
                let below = chain_at(self.rv(), self.parents@, j as int);
                if b == c.len() - 1 {
                    self.lemma_members(j as int, a);
                    let m = choose|m: int| 0 <= m <= j && below[a] == #[trigger] self.rv()[m];
                    assert(self.rv()[m].name != self.rv()[i].name);
                } else {
                    self.lemma_distinct(j as int, a, b);
                }
            },
            None => {},
        }
    }

    /// No chain of a well-formed store comes back to a layer it has passed:
    /// the names along it all differ.
    pub proof fn lemma_acyclic(&self, name: Seq<u32>, a: int, b: int)
        requires
            self.wf(),
            self.layers().dom().contains(name),
            0 <= a < b < self.layers()[name].len(),
        ensures
            self.layers()[name][a].name != self.layers()[name][b].name,
    {
        let i = choose|i: int| 0 <= i < self.rv().len() && #[trigger] self.rv()[i].name == name;
        self.lemma_index(i);
        self.lemma_distinct(i, a, b);
    }

    /// A store without layers, whose cache holds up to `capacity` chains.
    pub fn new(capacity: usize) -> (s: LayerStore)
        ensures
            s.wf(),
            s.layers() == Map::<Seq<u32>, Seq<LayerView>>::empty(),
            s.next_counter() == 0,
            s.capacity() == capacity,
            s.cached_count() == 0,
    {
        let s = LayerStore {
            records: Vec::new(),
            parents: Vec::new(),
            cache: Vec::new(),
            capacity,
            next_name: 0,
        };
        assert(s.layers() =~= Map::<Seq<u32>, Seq<LayerView>>::empty());
        s
    }

    fn index_of(&self, name: &[u32; 5]) -> (r: Option<usize>)
        requires
            self.wf(),
        ensures
            match r {
                Some(i) => {
                    &&& i < self.rv().len()
                    &&& self.rv()[i as int].name == name@
                    &&& self.layers().dom().contains(name@)
                    &&& self.layers()[name@] == chain_at(self.rv(), self.parents@, i as int)
                },
                None => !self.layers().dom().contains(name@),
            },
    {
        let mut i: usize = 0;
        while i < self.records.len()
            invariant
                self.wf(),
                i <= self.records.len(),
                forall|k: int| 0 <= k < i ==> #[trigger] self.rv()[k].name != name@,
            decreases self.records.len() - i,
        {
            if same_name(&self.records[i].name, name) {
                proof {
                    self.lemma_index(i as int);
                }
                return Some(i);
            }
            i = i + 1;
        }
        None
    }

    /// Whether the store holds a layer of that name.
    pub fn has_layer(&self, name: [u32; 5]) -> (b: bool)
        requires
            self.wf(),
        ensures
            b == self.layers().dom().contains(name@),
    {
        self.index_of(&name).is_some()
    }

    fn materialize(&self, i: usize) -> (l: StoreLayer)
        requires
            self.wf(),
            i < self.rv().len(),
        ensures
            l.wf(),
            l@ == chain_at(self.rv(), self.parents@, i as int),
        decreases i,
    {
        proof {
            assert(self.linked(i as int));
            assert(wf_chain(chain_at(self.rv(), self.parents@, i as int)));
        }
        match self.parents[i] {
            Some(j) => {
                let below = self.materialize(j);
                proof {
                    lemma_push(below@, self.rv()[i as int]);
                }
                StoreLayer::stack(Some(&below), share(&self.records[i]))
            },
            None => {
                proof {
                    lemma_push(Seq::empty(), self.rv()[i as int]);
                    assert(Seq::<LayerView>::empty().push(self.rv()[i as int]) =~= seq![
                        self.rv()[i as int],
                    ]);
                }
                StoreLayer::stack(None, share(&self.records[i]))
            },
        }
    }

    fn cached(&self, name: &[u32; 5]) -> (r: Option<StoreLayer>)
        requires
            self.wf(),
        ensures
            match r {
                Some(l) => {
                    &&& l.wf()
                    &&& self.layers().dom().contains(name@)
                    &&& l@ == self.layers()[name@]
                    &&& self.cached_chains().contains(l@)
                },
                None => forall|k: int|
                    0 <= k < self.cached_chains().len() ==> (#[trigger] self.cached_chains()[k]).last().name
                        != name@,
            },
    {
        let mut k: usize = 0;
        while k < self.cache.len()
            invariant
                self.wf(),
                k <= self.cache.len(),
                forall|j: int|
                    0 <= j < k ==> (#[trigger] self.cached_chains()[j]).last().name != name@,
            decreases self.cache.len() - k,
        {
            proof {
                assert(self.cached_ok(k as int));
                self.cache@[k as int].lemma_wf();
            }
            let n = self.cache[k].name();
            if same_name(&n, name) {
                proof {
                    let i = choose|i: int|
                        0 <= i < self.rv().len() && self.cache@[k as int]@ == #[trigger] chain_at(
                            self.rv(),
                            self.parents@,
                            i,
                        );
                    lemma_chain_last(self.rv(), self.parents@, i);
                    self.lemma_index(i);
                    assert(self.cached_chains()[k as int] == self.cache@[k as int]@);
                }
                return Some(self.cache[k].clone());
            }
            assert(self.cached_chains()[k as int] == self.cache@[k as int]@);
            k = k + 1;
        }
        None
    }

    fn remember(&mut self, l: StoreLayer)
        requires
            old(self).wf(),
            l.wf(),
            exists|i: int|
                0 <= i < old(self).rv().len() && l@ == #[trigger] chain_at(
                    old(self).rv(),
                    old(self).parents@,
                    i,
                ),
        ensures
            final(self).wf(),
            final(self).layers() == old(self).layers(),
            final(self).next_counter() == old(self).next_counter(),
            final(self).capacity() == old(self).capacity(),
            final(self).cached_chains() == (if old(self).capacity() == 0 {
                old(self).cached_chains()
            } else if old(self).cached_count() >= old(self).capacity() {
                old(self).cached_chains().drop_first().push(l@)
            } else {
                old(self).cached_chains().push(l@)
            }),
    {
        if self.capacity == 0 {
            return ;
        }
        let ghost before = *self;
        if self.cache.len() >= self.capacity {
            self.cache.remove(0);
            proof {
                assert forall|k: int| 0 <= k < self.cache@.len() implies #[trigger] self.cached_ok(
                    k,
                ) by {
                    assert(before.cached_ok(k + 1));
                    let i = choose|i: int|
                        0 <= i < before.rv().len() && before.cache@[k + 1]@ == #[trigger] chain_at(
                            before.rv(),
                            before.parents@,
                            i,
                        );
                    assert(self.cache@[k]@ == chain_at(self.rv(), self.parents@, i));
                }
            }
        }
        let ghost mid = *self;
        self.cache.push(l);
        proof {
            assert forall|k: int| 0 <= k < self.cache@.len() implies #[trigger] self.cached_ok(
                k,
            ) by {
                if k < mid.cache@.len() {
                    assert(mid.cached_ok(k));
                    let i = choose|i: int|
                        0 <= i < mid.rv().len() && mid.cache@[k]@ == #[trigger] chain_at(
                            mid.rv(),
                            mid.parents@,
                            i,
                        );
                    assert(self.cache@[k]@ == chain_at(self.rv(), self.parents@, i));
                } else {
                    let i = choose|i: int|
                        0 <= i < before.rv().len() && l@ == #[trigger] chain_at(
                            before.rv(),
                            before.parents@,
                            i,
                        );
                    assert(self.cache@[k]@ == chain_at(self.rv(), self.parents@, i));
                }
            }
            assert(self.rv() == before.rv());
            assert(self.parents@ == before.parents@);
            assert forall|i: int| 0 <= i < self.rv().len() implies #[trigger] self.linked(i) by {
                assert(before.linked(i));
            }
            assert(self.layers() =~= before.layers());
            if before.cache@.len() >= before.capacity {
                assert(mid.cached_chains() =~= before.cached_chains().drop_first());
            }
            assert(self.cached_chains() =~= mid.cached_chains().push(l@));
        }
    }

    /// The layer of that name with all of its ancestors, or `None` where the
    /// store holds no such layer. What it returns does not depend on
    /// whether the chain came from the cache.
    pub fn get_layer(&mut self, name: [u32; 5]) -> (r: Option<StoreLayer>)
        requires
            old(self).wf(),
        ensures
            final(self).wf(),
            final(self).layers() == old(self).layers(),
            final(self).next_counter() == old(self).next_counter(),
            match r {
                Some(l) => l.wf() && old(self).layers().dom().contains(name@) && l@ == old(self).layers()[name@],
                None => !old(self).layers().dom().contains(name@),
            },
    {
        match self.cached(&name) {
            Some(l) => Some(l),
            None => match self.index_of(&name) {
                None => None,
                Some(i) => {
                    let l = self.materialize(i);
                    self.remember(l.clone());
                    Some(l)
                },
            },
        }
    }

    /// Whether `candidate` is `anchor` itself or one of its ancestors.
    pub fn layer_is_ancestor_of(&self, candidate: [u32; 5], anchor: [u32; 5]) -> (b: bool)
        requires
            self.wf(),
        ensures
            b == is_ancestor(self.layers(), candidate@, anchor@),
    {
        if same_name(&candidate, &anchor) {
            return true;
        }
        match self.index_of(&anchor) {
            None => false,
            Some(i) => {
                let mut cur: usize = i;
                loop
                    invariant
                        self.wf(),
                        cur < self.rv().len(),
                        candidate@ != anchor@,
                        self.layers().dom().contains(anchor@),
                        self.layers()[anchor@] == chain_at(self.rv(), self.parents@, i as int),
                        in_chain(chain_at(self.rv(), self.parents@, i as int), candidate@)
                            == in_chain(chain_at(self.rv(), self.parents@, cur as int), candidate@),
                    decreases cur,
                {
                    let ghost c = chain_at(self.rv(), self.parents@, cur as int);
                    proof {
                        assert(self.linked(cur as int));
                        lemma_chain_last(self.rv(), self.parents@, cur as int);
                    }
                    if same_name(&self.records[cur].name, &candidate) {
                        assert(c[c.len() - 1].name == candidate@);
                        return true;
                    }
                    match self.parents[cur] {
                        Some(j) => {
                            proof {
                                let below = chain_at(self.rv(), self.parents@, j as int);
                                assert(c == below.push(self.rv()[cur as int]));
                                if in_chain(c, candidate@) {
                                    let k = choose|k: int|
                                        0 <= k < c.len() && #[trigger] c[k].name == candidate@;
                                    assert(below[k].name == candidate@);
                                }
                                if in_chain(below, candidate@) {
                                    let k = choose|k: int|
                                        0 <= k < below.len() && #[trigger] below[k].name
                                            == candidate@;
                                    assert(c[k].name == candidate@);
                                }
                            }
                            cur = j;
                        },
                        None => {
                            proof {
                                if in_chain(c, candidate@) {
                                    let k = choose|k: int|
                                        0 <= k < c.len() && #[trigger] c[k].name == candidate@;
                                    assert(k == 0);
                                }
                            }
                            return false;
                        },
                    }
                }
            },
        }
    }

    /// Publishes a record on top of `parent`, or as a base layer where there is none.
    ///
    /// The record is refused with `InvalidData` where a layer of its name
    /// exists already, and with `NotFound` where the store does not hold
    /// `parent` as the chain that the caller holds.
    pub(crate) fn add_record(&mut self, parent: Option<&StoreLayer>, rec: LayerData) -> (r: Result<
        (),
        StoreError,
    >)
        requires
            old(self).wf(),
            parent is Some ==> parent.unwrap().wf(),
            layer_ok(
                match parent {
                    Some(p) => p@,
                    None => Seq::empty(),
                },
                rec@,
            ),
        ensures
            final(self).wf(),
            final(self).next_counter() == old(self).next_counter(),
            match r {
                Ok(_) => {
                    &&& !old(self).layers().dom().contains(rec@.name)
                    &&& final(self).layers() == old(self).layers().insert(
                        rec@.name,
                        (match parent {
                            Some(p) => p@,
                            None => Seq::empty(),
                        }).push(rec@),
                    )
                },
                Err(e) => {
                    &&& final(self).layers() == old(self).layers()
                    &&& if old(self).layers().dom().contains(rec@.name) {
                        e == StoreError::InvalidData
                    } else {
                        e == StoreError::NotFound
                    }
                },
            },
            r is Ok <==> !old(self).layers().dom().contains(rec@.name) && (match parent {
                Some(p) => p@.len() > 0 && old(self).layers().dom().contains(p@.last().name)
                    && old(self).layers()[p@.last().name] == p@,
                None => true,
            }),
    {
        if self.index_of(&rec.name).is_some() {
            return Err(StoreError::InvalidData);
        }
        let ghost below: Seq<LayerView> = match parent {
            Some(p) => p@,
            None => Seq::empty(),
        };
        let link: Option<usize> = match parent {
            None => None,
            Some(p) => {
                proof {
                    p.lemma_wf();
                }
                match self.index_of(&p.name()) {
                    None => {
                        return Err(StoreError::NotFound);
                    },
                    Some(j) => {
                        let mine = self.materialize(j);
                        if !mine.same_chain(p) {
                            return Err(StoreError::NotFound);
                        }
                        Some(j)
                    },
                }
            },
        };
        let ghost before = *self;
        let ghost top = rec@;
        let ghost n = self.rv().len() as int;
        self.records.push(Arc::new(rec));
        self.parents.push(link);
        proof {
            assert(self.rv() =~= before.rv().push(top));
            assert(self.parents@ == before.parents@.push(link));
            assert forall|i: int| 0 <= i < n implies chain_at(self.rv(), self.parents@, i)
                == chain_at(before.rv(), before.parents@, i) by {
                lemma_stable(before.rv(), before.parents@, top, link, i);
            }
            assert forall|i: int, j: int| 0 <= i < j < self.rv().len() implies #[trigger] self.rv()[i].name
                != #[trigger] self.rv()[j].name by {
                if j == n {
                    assert(before.rv()[i].name != top.name);
                } else {
                    assert(before.rv()[i].name != before.rv()[j].name);
                }
            }
            match link {
                Some(j) => {
                    lemma_chain_last(before.rv(), before.parents@, j as int);
                    assert(chain_at(self.rv(), self.parents@, n) == below.push(top));
                },
                None => {
                    assert(chain_at(self.rv(), self.parents@, n) =~= below.push(top));
                },
            }
            lemma_push(below, top);
            assert forall|i: int| 0 <= i < self.rv().len() implies #[trigger] self.linked(i) by {
                if i < n {
                    assert(before.linked(i));
                }
            }
            assert forall|i: int| 0 <= i < self.rv().len() implies wf_chain(
                #[trigger] chain_at(self.rv(), self.parents@, i),
            ) by {
                if i < n {
                    assert(wf_chain(chain_at(before.rv(), before.parents@, i)));
                }
            }
            assert forall|k: int| 0 <= k < self.cache@.len() implies #[trigger] self.cached_ok(
                k,
            ) by {
                assert(before.cached_ok(k));
                let i = choose|i: int|
                    0 <= i < before.rv().len() && before.cache@[k]@ == #[trigger] chain_at(
                        before.rv(),
                        before.parents@,
                        i,
                    );
                assert(self.cache@[k]@ == chain_at(self.rv(), self.parents@, i));
            }
            assert(self.wf());
            assert(self.layers() =~= before.layers().insert(top.name, below.push(top))) by {
                assert forall|m: Seq<u32>|
                    self.layers().dom().contains(m) <==> before.layers().insert(
                        top.name,
                        below.push(top),
                    ).dom().contains(m) by {
                    if before.layers().dom().contains(m) {
                        let i = choose|i: int|
                            0 <= i < before.rv().len() && #[trigger] before.rv()[i].name == m;
                        assert(self.rv()[i].name == m);
                    }
                    if m == top.name {
                        assert(self.rv()[n].name == m);
                    }
                    if self.layers().dom().contains(m) {
                        let i = choose|i: int|
                            0 <= i < self.rv().len() && #[trigger] self.rv()[i].name == m;
                        if i < n {
                            assert(before.rv()[i].name == m);
                        }
                    }
                }
                assert forall|m: Seq<u32>| self.layers().dom().contains(m) implies self.layers()[m]
                    == before.layers().insert(top.name, below.push(top))[m] by {
                    let i = choose|i: int|
                        0 <= i < self.rv().len() && #[trigger] self.rv()[i].name == m;
                    self.lemma_index(i);
                    if i < n {
                        before.lemma_index(i);
                    }
                }
            }
        }
        Ok(())
    }
}

/// The layer name that stands for the counter value `c`.
pub fn name_for(c: u64) -> (n: [u32; 5])
    ensures
        n@ == counter_name(c),
{
    let hi: u32 = (c / 0x1_0000_0000) as u32;
    let lo: u32 = (c % 0x1_0000_0000) as u32;
    let n: [u32; 5] = [0, 0, 0, hi, lo];
    assert(n@ =~= counter_name(c));
    n
}

impl LayerStore {
    proof fn lemma_frame(&self, other: &LayerStore)
        requires
            self.wf(),
            other.records@ == self.records@,
            other.parents@ == self.parents@,
            other.cache@ == self.cache@,
            other.capacity == self.capacity,
        ensures
            other.wf(),
            other.layers() == self.layers(),
    {
        assert(other.rv() == self.rv());
        assert forall|i: int| 0 <= i < other.rv().len() implies #[trigger] other.linked(i) by {
            assert(self.linked(i));
        }
        assert forall|k: int| 0 <= k < other.cache@.len() implies #[trigger] other.cached_ok(
            k,
        ) by {
            assert(self.cached_ok(k));
            let i = choose|i: int|
                0 <= i < self.rv().len() && self.cache@[k]@ == #[trigger] chain_at(
                    self.rv(),
                    self.parents@,
                    i,
                );
            assert(other.cache@[k]@ == chain_at(other.rv(), other.parents@, i));
        }
        assert(other.layers() =~= self.layers());
    }

    /// Takes the first free name from the counter on.
    fn fresh_name(&mut self) -> (r: Option<[u32; 5]>)
        requires
            old(self).wf(),
        ensures
            final(self).wf(),
            final(self).layers() == old(self).layers(),
            match free_from(old(self).layers().dom(), old(self).next_counter()) {
                Some(c) => r is Some && r.unwrap()@ == counter_name(c) && final(self).next_counter() == c + 1,
                None => r is None && final(self).next_counter() == old(self).next_counter(),
            },
    {
        let mut c: u64 = self.next_name;
        while c < u64::MAX && self.has_layer(name_for(c))
            invariant
                self.wf(),
                *self == *old(self),
                free_from(self.layers().dom(), self.next_name) == free_from(
                    self.layers().dom(),
                    c,
                ),
            decreases u64::MAX - c,
        {
            c = c + 1;
        }
        if c == u64::MAX {
            None
        } else {
            let ghost before = *self;
            self.next_name = c + 1;
            proof {
                before.lemma_frame(self);
            }
            Some(name_for(c))
        }
    }

    /// Starts a base layer under a fresh name.
    ///
    /// The name is that of the first counter value, from the store's
    /// counter on, that no layer of the store has; `Exhausted` where there
    /// is none.
    pub fn create_base_layer(&mut self) -> (r: Result<StoreLayerBuilder, StoreError>)
        requires
            old(self).wf(),
        ensures
            final(self).wf(),
            final(self).layers() == old(self).layers(),
            match free_from(old(self).layers().dom(), old(self).next_counter()) {
                Some(c) => {
                    &&& r matches Ok(b)
                    &&& b.wf()
                    &&& b.is_open()
                    &&& b.parent_chain() == Seq::<LayerView>::empty()
                    &&& b.staged() == empty_layer(counter_name(c), None)
                    &&& final(self).next_counter() == c + 1
                },
                None => {
                    &&& r matches Err(e)
                    &&& e == StoreError::Exhausted
                    &&& final(self).next_counter() == old(self).next_counter()
                },
            },
    {
        match self.fresh_name() {
            Some(name) => Ok(StoreLayerBuilder::new(name, None)),
            None => Err(StoreError::Exhausted),
        }
    }

    /// Starts a base layer under the name that the caller has drawn.
    ///
    /// Fails with `InvalidData` where the store has a layer of that name.
    pub fn create_base_layer_named(&mut self, name: [u32; 5]) -> (r: Result<
        StoreLayerBuilder,
        StoreError,
    >)
        requires
            old(self).wf(),
        ensures
            final(self).wf(),
            final(self).layers() == old(self).layers(),
            final(self).next_counter() == old(self).next_counter(),
            r is Ok <==> !old(self).layers().dom().contains(name@),
            match r {
                Ok(b) => {
                    &&& b.wf()
                    &&& b.is_open()
                    &&& b.parent_chain() == Seq::<LayerView>::empty()
                    &&& b.staged() == empty_layer(name@, None)
                },
                Err(e) => e == StoreError::InvalidData,
            },
    {
        if self.has_layer(name) {
            Err(StoreError::InvalidData)
        } else {
            Ok(StoreLayerBuilder::new(name, None))
        }
    }

    /// Starts a layer on top of the layer named `parent`, under the name
    /// that the caller has drawn.
    ///
    /// Fails with `NotFound` where the store holds no layer named `parent`,
    /// and with `InvalidData` where it has a layer of the new name.
    pub fn create_child_layer_named(&mut self, parent: [u32; 5], name: [u32; 5]) -> (r: Result<
        StoreLayerBuilder,
        StoreError,
    >)
        requires
            old(self).wf(),
        ensures
            final(self).wf(),
            final(self).layers() == old(self).layers(),
            final(self).next_counter() == old(self).next_counter(),
            r is Ok <==> old(self).layers().dom().contains(parent@) && !old(self).layers().dom().contains(name@),
            match r {
                Ok(b) => {
                    &&& b.wf()
                    &&& b.is_open()
                    &&& b.parent_chain() == old(self).layers()[parent@]
                    &&& b.staged() == empty_layer(name@, Some(parent@))
                },
                Err(e) => e == (if !old(self).layers().dom().contains(parent@) {
                    StoreError::NotFound
                } else {
                    StoreError::InvalidData
                }),
            },
    {
        match self.get_layer(parent) {
            None => Err(StoreError::NotFound),
            Some(below) => {
                proof {
                    self.lemma_layer(parent@);
                }
                if self.has_layer(name) {
                    Err(StoreError::InvalidData)
                } else {
                    Ok(StoreLayerBuilder::new(name, Some(below)))
                }
            },
        }
    }

    /// Starts a layer on top of the layer named `parent`, under a fresh name.
    ///
    /// Fails with `NotFound` where the store holds no layer of that name,
    /// and with `Exhausted` where no name is free.
    pub fn create_child_layer(&mut self, parent: [u32; 5]) -> (r: Result<
        StoreLayerBuilder,
        StoreError,
    >)
        requires
            old(self).wf(),
        ensures
            final(self).wf(),
            final(self).layers() == old(self).layers(),
            if !old(self).layers().dom().contains(parent@) {
                &&& r matches Err(e)
                &&& e == StoreError::NotFound
                &&& final(self).next_counter() == old(self).next_counter()
            } else {
                match free_from(old(self).layers().dom(), old(self).next_counter()) {
                    Some(c) => {
                        &&& r matches Ok(b)
                        &&& b.wf()
                        &&& b.is_open()
                        &&& b.parent_chain() == old(self).layers()[parent@]
                        &&& b.staged() == empty_layer(counter_name(c), Some(parent@))
                        &&& final(self).next_counter() == c + 1
                    },
                    None => {
                        &&& r matches Err(e)
                        &&& e == StoreError::Exhausted
                        &&& final(self).next_counter() == old(self).next_counter()
                    },
                }
            },
    {
        match self.get_layer(parent) {
            None => Err(StoreError::NotFound),
            Some(below) => {
                proof {
                    self.lemma_layer(parent@);
                }
                match self.fresh_name() {
                    Some(name) => Ok(StoreLayerBuilder::new(name, Some(below))),
                    None => Err(StoreError::Exhausted),
                }
            },
        }
    }
}

impl LayerStore {
    /// The records of the store in the order in which they were taken in.
    pub closed spec fn order(&self) -> Seq<LayerView> {
        self.rv()
    }

    /// Each record is the last layer of the chain stored under its name,
    /// and its parent, if it has one, was taken in before it.
    pub proof fn lemma_order_at(&self, i: int)
        requires
            self.wf(),
            0 <= i < self.order().len(),
        ensures
            self.layers().dom().contains(self.order()[i].name),
            self.layers()[self.order()[i].name].last() == self.order()[i],
            self.order()[i].parent_name matches Some(p) ==> exists|j: int|
                0 <= j < i && #[trigger] self.order()[j].name == p,
            self.order()[i].parent_name is None ==> self.layers()[self.order()[i].name] == seq![
                self.order()[i],
            ],
    {
        self.lemma_index(i);
        lemma_chain_last(self.rv(), self.parents@, i);
        assert(self.linked(i));
        match self.parents@[i] {
            Some(j) => {
                assert(self.rv()[j as int].name == self.rv()[i].parent_name.unwrap());
            },
            None => {},
        }
    }

    /// No two records share a name, and every layer of the store has a record.
    pub proof fn lemma_order_names(&self)
        requires
            self.wf(),
        ensures
            forall|i: int, j: int|
                0 <= i < self.order().len() && 0 <= j < self.order().len() && i != j
                    ==> #[trigger] self.order()[i].name != #[trigger] self.order()[j].name,
            forall|n: Seq<u32>|
                self.layers().dom().contains(n) ==> exists|i: int|
                    0 <= i < self.order().len() && #[trigger] self.order()[i].name == n,
    {
        assert forall|i: int, j: int|
            0 <= i < self.order().len() && 0 <= j < self.order().len() && i
                != j implies #[trigger] self.order()[i].name != #[trigger] self.order()[j].name by {
            if i < j {
                assert(self.rv()[i].name != self.rv()[j].name);
            } else {
                assert(self.rv()[j].name != self.rv()[i].name);
            }
        }
    }

    /// Takes one record into the store, as [`import_one`] says.
    pub fn import_record(&mut self, rec: LayerData) -> (r: Result<(), StoreError>)
        requires
            old(self).wf(),
        ensures
            final(self).wf(),
            final(self).next_counter() == old(self).next_counter(),
            import_one(old(self).layers(), rec@) == (
                final(self).layers(),
                match r {
                    Ok(_) => None,
                    Err(e) => Some(e),
                },
            ),
    {
        match self.index_of(&rec.name) {
            Some(i) => {
                proof {
                    lemma_chain_last(self.rv(), self.parents@, i as int);
                }
                if self.records[i].same(&rec) {
                    Ok(())
                } else {
                    Err(StoreError::InvalidData)
                }
            },
            None => {
                let below: Option<StoreLayer> = match rec.parent_name {
                    None => None,
                    Some(p) => match self.get_layer(p) {
                        None => {
                            return Err(StoreError::NotFound);
                        },
                        Some(l) => Some(l),
                    },
                };
                let under: Option<&StoreLayer> = match &below {
                    Some(l) => Some(l),
                    None => None,
                };
                if !check_record(under, &rec) {
                    return Err(StoreError::InvalidData);
                }
                proof {
                    match rec.parent_name {
                        Some(p) => {
                            self.lemma_layer(p@);
                        },
                        None => {
                            assert(Seq::<LayerView>::empty().push(rec@) =~= seq![rec@]);
                        },
                    }
                }
                self.add_record(under, rec)
            },
        }
    }

    /// The pack of the listed layers, in the order in which the store took them in.
    pub fn export_records(&self, ids: &Vec<[u32; 5]>) -> (out: Vec<u8>)
        requires
            self.wf(),
        ensures
            out@ == enc_pack(select(self.order(), name_set(ids@))),
            dec_pack(out@) == Some(select(self.order(), name_set(ids@))),
    {
        let ghost names = name_set(ids@);
        let ghost order = self.order();
        let mut picked: Vec<usize> = Vec::new();
        let mut i: usize = 0;
        let ghost mut sel: Seq<LayerView> = Seq::empty();
        proof {
            assert(order.take(0) =~= Seq::empty());
        }
        while i < self.records.len()
            invariant
                i <= self.records.len(),
                names == name_set(ids@),
                order == self.rv(),
                sel == select(order.take(i as int), names),
                picked@.len() == sel.len(),
                forall|k: int|
                    0 <= k < picked@.len() ==> #[trigger] picked@[k] < order.len() && sel[k]
                        == order[picked@[k] as int],
            decreases self.records.len() - i,
        {
            proof {
                assert(order.take(i + 1).drop_last() =~= order.take(i as int));
                assert(order.take(i + 1).last() == order[i as int]);
            }
            if listed(ids, &self.records[i].name) {
                picked.push(i);
                proof {
                    sel = sel.push(order[i as int]);
                }
            }
            i = i + 1;
        }
        proof {
            assert(order.take(i as int) =~= order);
        }
        let ghost chosen = select(order, names);
        let ghost enc = |l: LayerView| enc_layer(l);
        let mut out: Vec<u8> = Vec::new();
        write_word(&mut out, picked.len() as u64);
        let ghost start = out@;
        let mut k: usize = 0;
        proof {
            assert(chosen.take(0) =~= Seq::empty());
        }
        while k < picked.len()
            invariant
                k <= picked.len(),
                order == self.rv(),
                picked@.len() == chosen.len(),
                enc == (|l: LayerView| enc_layer(l)),
                forall|j: int|
                    0 <= j < picked@.len() ==> #[trigger] picked@[j] < order.len() && chosen[j]
                        == order[picked@[j] as int],
                out@ == start + enc_items(chosen.take(k as int), enc),
                forall|j: int| 0 <= j < k ==> fits(#[trigger] chosen[j]),
            decreases picked.len() - k,
        {
            let i = picked[k];
            write_layer(&mut out, &self.records[i]);
            proof {
                lemma_enc_items_push(chosen.take(k as int), chosen[k as int], enc);
                assert(chosen.take(k + 1) =~= chosen.take(k as int).push(chosen[k as int]));
                assert(out@ =~= start + enc_items(chosen.take(k + 1), enc));
            }
            k = k + 1;
        }
        proof {
            assert(chosen.take(k as int) =~= chosen);
            assert(out@ =~= enc_pack(chosen));
            law_pack_round_trip(chosen);
        }
        out
    }
}

fn found_in(recs: &Vec<LayerData>, name: &[u32; 5]) -> (b: bool)
    ensures
        b == exists|i: int| 0 <= i < recs@.len() && #[trigger] layer_views(recs@)[i].name == name@,
{
    let mut i: usize = 0;
    while i < recs.len()
        invariant
            i <= recs.len(),
            forall|k: int| 0 <= k < i ==> #[trigger] layer_views(recs@)[k].name != name@,
        decreases recs.len() - i,
    {
        if same_name(&recs[i].name, name) {
            assert(layer_views(recs@)[i as int].name == name@);
            return true;
        }
        i = i + 1;
    }
    false
}

fn all_in(recs: &Vec<LayerData>, ids: &Vec<[u32; 5]>) -> (b: bool)
    ensures
        b == all_found(layer_views(recs@), name_set(ids@)),
{
    let mut i: usize = 0;
    while i < ids.len()
        invariant
            i <= ids.len(),
            forall|k: int|
                0 <= k < i ==> exists|j: int|
                    0 <= j < recs@.len() && #[trigger] layer_views(recs@)[j].name
                        == #[trigger] ids@[k]@,
        decreases ids.len() - i,
    {
        if !found_in(recs, &ids[i]) {
            assert(name_set(ids@).contains(ids@[i as int]@));
            return false;
        }
        i = i + 1;
    }
    proof {
        assert forall|n: Seq<u32>| name_set(ids@).contains(n) implies exists|j: int|
            0 <= j < layer_views(recs@).len() && #[trigger] layer_views(recs@)[j].name == n by {
            let k = choose|k: int| 0 <= k < ids@.len() && #[trigger] ids@[k]@ == n;
            let j = choose|j: int|
                0 <= j < recs@.len() && #[trigger] layer_views(recs@)[j].name == ids@[k]@;
            assert(layer_views(recs@)[j].name == n);
        }
    }
    true
}

impl LayerStore {
    /// The pack of the listed layers, and of no others.
    ///
    /// Fails with `NotFound` where the store lacks one of them.
    pub fn export_layers(&self, ids: &Vec<[u32; 5]>) -> (r: Result<Vec<u8>, StoreError>)
        requires
            self.wf(),
        ensures
            match r {
                Ok(out) => {
                    &&& forall|n: Seq<u32>|
                        name_set(ids@).contains(n) ==> self.layers().dom().contains(n)
                    &&& out@ == enc_pack(select(self.order(), name_set(ids@)))
                    &&& dec_pack(out@) == Some(select(self.order(), name_set(ids@)))
                },
                Err(e) => {
                    &&& e == StoreError::NotFound
                    &&& exists|n: Seq<u32>|
                        name_set(ids@).contains(n) && !self.layers().dom().contains(n)
                },
            },
    {
        let mut i: usize = 0;
        while i < ids.len()
            invariant
                self.wf(),
                i <= ids.len(),
                forall|k: int| 0 <= k < i ==> self.layers().dom().contains(#[trigger] ids@[k]@),
            decreases ids.len() - i,
        {
            if !self.has_layer(ids[i]) {
                assert(name_set(ids@).contains(ids@[i as int]@));
                return Err(StoreError::NotFound);
            }
            i = i + 1;
        }
        proof {
            assert forall|n: Seq<u32>| name_set(ids@).contains(n) implies self.layers().dom().contains(
                n,
            ) by {
                let k = choose|k: int| 0 <= k < ids@.len() && #[trigger] ids@[k]@ == n;
                assert(self.layers().dom().contains(ids@[k]@));
            }
        }
        Ok(self.export_records(ids))
    }

    /// Takes the listed layers out of a pack into the store, as [`import_pack`] says.
    pub fn import_layers(&mut self, pack: &[u8], ids: &Vec<[u32; 5]>) -> (r: Result<
        (),
        StoreError,
    >)
        requires
            old(self).wf(),
        ensures
            final(self).wf(),
            final(self).next_counter() == old(self).next_counter(),
            import_pack(old(self).layers(), pack@, name_set(ids@)) == (
                final(self).layers(),
                match r {
                    Ok(_) => None,
                    Err(e) => Some(e),
                },
            ),
    {
        let recs = match read_pack(pack) {
            Some(v) => v,
            None => {
                return Err(StoreError::InvalidData);
            },
        };
        if !all_in(&recs, ids) {
            return Err(StoreError::InvalidData);
        }
        let ghost views = layer_views(recs@);
        let ghost names = name_set(ids@);
        let ghost before = old(self).layers();
        let mut i: usize = 0;
        proof {
            assert(views.take(0) =~= Seq::empty());
        }
        while i < recs.len()
            invariant
                i <= recs.len(),
                self.wf(),
                self.next_counter() == old(self).next_counter(),
                views == layer_views(recs@),
                names == name_set(ids@),
                before == old(self).layers(),
                dec_pack(pack@) == Some(views),
                all_found(views, names),
                import_all(before, views.take(i as int), names) == (
                    self.layers(),
                    None::<StoreError>,
                ),
            decreases recs.len() - i,
        {
            proof {
                assert(views.take(i + 1).drop_last() =~= views.take(i as int));
                assert(views.take(i + 1).last() == views[i as int]);
            }
            if listed(ids, &recs[i].name) {
                match self.import_record(recs[i].duplicate()) {
                    Ok(_) => {},
                    Err(e) => {
                        proof {
                            lemma_import_stops(before, views, names, i + 1);
                        }
                        return Err(e);
                    },
                }
            }
            i = i + 1;
        }
        proof {
            assert(views.take(i as int) =~= views);
        }
        Ok(())
    }
}

impl LayerStore {
    /// The names of the store's layers, in the order in which it took them in.
    pub fn layer_names(&self) -> (r: Vec<[u32; 5]>)
        requires
            self.wf(),
        ensures
            r@.len() == self.order().len(),
            forall|i: int| 0 <= i < r@.len() ==> #[trigger] r@[i]@ == self.order()[i].name,
    {
        let mut r: Vec<[u32; 5]> = Vec::new();
        let mut i: usize = 0;
        while i < self.records.len()
            invariant
                i <= self.records.len(),
                r@.len() == i,
                forall|k: int| 0 <= k < i ==> #[trigger] r@[k]@ == self.rv()[k].name,
            decreases self.records.len() - i,
        {
            r.push(self.records[i].name);
            i = i + 1;
        }
        r
    }
}

} // verus!
