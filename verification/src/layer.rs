//! Immutable layers: one layer's record, and the read-only view of a whole chain.

use std::sync::Arc;
use vstd::prelude::*;
use crate::chain::{
    all_entries, all_predicates, effective, entry_at, entry_id, intern, layer_ok, lemma_entry_id,
    lemma_push, lemma_string_image_intern, resolve, string_triples, valid_triple, wf_chain,
    LayerView,
};
use crate::dictionary::{
    append_objects, append_strings, copy_triples, find_object, find_string, object_views, same_name,
    same_objects, same_strings, same_triples, string_views,
};
use crate::triple::{IdTriple, ObjectType, ObjectView, StringTriple};
use crate::tripleset::{ascending, restrict, select, sorted};

verus! {

/// What one layer holds of its own: its name, its parent's name, the
/// dictionary entries it introduces and the triples it adds and removes.
pub struct LayerData {
    pub name: [u32; 5],
    pub parent_name: Option<[u32; 5]>,
    pub entries: Vec<ObjectType>,
    pub predicates: Vec<String>,
    pub additions: Vec<IdTriple>,
    pub removals: Vec<IdTriple>,
}

impl View for LayerData {
    type V = LayerView;

    open spec fn view(&self) -> LayerView {
        LayerView {
            name: self.name@,
            parent_name: match self.parent_name {
                Some(n) => Some(n@),
                None => None,
            },
            entries: object_views(self.entries@),
            predicates: string_views(self.predicates@),
            additions: self.additions@,
            removals: self.removals@,
        }
    }
}

impl LayerData {
    /// An independent copy of this record.
    pub fn duplicate(&self) -> (r: LayerData)
        ensures
            r@ == self@,
    {
        let mut entries: Vec<ObjectType> = Vec::new();
        let mut predicates: Vec<String> = Vec::new();
        append_objects(&mut entries, &self.entries);
        append_strings(&mut predicates, &self.predicates);
        proof {
            assert(object_views(entries@) =~= object_views(self.entries@));
            assert(string_views(predicates@) =~= string_views(self.predicates@));
        }
        LayerData {
            name: self.name,
            parent_name: self.parent_name,
            entries,
            predicates,
            additions: copy_triples(&self.additions),
            removals: copy_triples(&self.removals),
        }
    }
}

impl LayerData {
    /// Whether two records hold the same names, entries and triples.
    pub fn same(&self, other: &LayerData) -> (r: bool)
        ensures
            r == (self@ == other@),
    {
        let parents = match self.parent_name {
            Some(a) => match other.parent_name {
                Some(b) => same_name(&a, &b),
                None => false,
            },
            None => other.parent_name.is_none(),
        };
        same_name(&self.name, &other.name) && parents && same_objects(
            &self.entries,
            &other.entries,
        ) && same_strings(&self.predicates, &other.predicates) && same_triples(
            &self.additions,
            &other.additions,
        ) && same_triples(&self.removals, &other.removals)
    }
}

/// The mathematical form of a vector of shared layer records.
pub open spec fn records_view(s: Seq<Arc<LayerData>>) -> Seq<LayerView> {
    Seq::new(s.len(), |i: int| s[i]@)
}

/// `Arc::clone` returns a second handle to the same shared value, so the
/// value seen through the new handle is the value seen through the old one.
#[verifier::external_body]
pub(crate) fn share<T>(a: &Arc<T>) -> (r: Arc<T>)
    ensures
        r == *a,
{
    Arc::clone(a)
}

/// A chain with its dictionaries and effective triples laid out for reading.
pub struct LayerState {
    chain: Vec<Arc<LayerData>>,
    entries: Vec<ObjectType>,
    predicates: Vec<String>,
    triples: Vec<IdTriple>,
}

/// An immutable layer together with all of its ancestors.
///
/// Its view is the chain of layer records, the base layer first and this
/// layer last.
pub struct StoreLayer {
    state: Arc<LayerState>,
}

impl View for StoreLayer {
    type V = Seq<LayerView>;

    closed spec fn view(&self) -> Seq<LayerView> {
        records_view(self.state.chain@)
    }
}

impl Clone for StoreLayer {
    fn clone(&self) -> (l: StoreLayer)
        ensures
            l == *self,
    {
        StoreLayer { state: share(&self.state) }
    }
}

impl StoreLayer {
    /// The chain is well-formed and the cached dictionaries and triples agree with it.
    pub closed spec fn wf(&self) -> bool {
        &&& wf_chain(self@)
        &&& object_views(self.state.entries@) == all_entries(self@)
        &&& string_views(self.state.predicates@) == all_predicates(self@)
        &&& sorted(self.state.triples@)
        &&& self.state.triples@.to_set() == effective(self@)
    }

    /// A well-formed layer has at least one record, and its dictionaries fit in the id space.
    pub proof fn lemma_wf(&self)
        requires
            self.wf(),
        ensures
            wf_chain(self@),
            self@.len() > 0,
            all_entries(self@).no_duplicates(),
            all_predicates(self@).no_duplicates(),
            all_entries(self@).len() < u64::MAX,
            all_predicates(self@).len() < u64::MAX,
            sorted(ascending(effective(self@))),
            ascending(effective(self@)).to_set() == effective(self@),
    {
        crate::tripleset::lemma_ascending(self.state.triples@);
    }

    /// Lays a record on top of `below`, or makes it a base layer where there is none.
    pub(crate) fn stack(below: Option<&StoreLayer>, rec: Arc<LayerData>) -> (l: StoreLayer)
        requires
            below is Some ==> below.unwrap().wf(),
            layer_ok(
                match below {
                    Some(b) => b@,
                    None => Seq::empty(),
                },
                rec@,
            ),
        ensures
            l.wf(),
            l@ == (match below {
                Some(b) => b@,
                None => Seq::empty(),
            }).push(rec@),
    {
        let mut chain: Vec<Arc<LayerData>> = Vec::new();
        let mut entries: Vec<ObjectType> = Vec::new();
        let mut predicates: Vec<String> = Vec::new();
        let mut triples: Vec<IdTriple> = Vec::new();
        let ghost c: Seq<LayerView> = match below {
            Some(b) => b@,
            None => Seq::empty(),
        };
        match below {
            Some(b) => {
                let mut i: usize = 0;
                while i < b.state.chain.len()
                    invariant
                        i <= b.state.chain.len(),
                        chain@ == b.state.chain@.take(i as int),
                    decreases b.state.chain.len() - i,
                {
                    chain.push(share(&b.state.chain[i]));
                    proof {
                        assert(b.state.chain@.take(i + 1) =~= b.state.chain@.take(i as int).push(
                            b.state.chain@[i as int],
                        ));
                    }
                    i = i + 1;
                }
                proof {
                    assert(b.state.chain@.take(i as int) =~= b.state.chain@);
                }
                append_objects(&mut entries, &b.state.entries);
                append_strings(&mut predicates, &b.state.predicates);
                triples = copy_triples(&b.state.triples);
                proof {
                    assert(object_views(entries@) =~= all_entries(c));
                    assert(string_views(predicates@) =~= all_predicates(c));
                }
            },
            None => {
                proof {
                    assert(object_views(entries@) =~= all_entries(c));
                    assert(string_views(predicates@) =~= all_predicates(c));
                    assert(triples@.to_set() =~= effective(c));
                }
            },
        }
        assert(records_view(chain@) =~= c);
        append_objects(&mut entries, &rec.entries);
        append_strings(&mut predicates, &rec.predicates);
        let ghost adds = rec@.additions;
        let ghost rems = rec@.removals;
        let mut i: usize = 0;
        assert(adds.take(0).to_set() =~= Set::empty());
        assert(effective(c).union(Set::empty()) =~= effective(c));
        while i < rec.additions.len()
            invariant
                i <= rec.additions.len(),
                adds == rec.additions@,
                sorted(triples@),
                triples@.to_set() == effective(c).union(adds.take(i as int).to_set()),
            decreases rec.additions.len() - i,
        {
            crate::tripleset::insert(&mut triples, rec.additions[i]);
            proof {
                crate::tripleset::lemma_take_to_set(adds, i as int);
                assert(triples@.to_set() =~= effective(c).union(adds.take(i + 1).to_set()));
            }
            i = i + 1;
        }
        proof {
            assert(adds.take(i as int) =~= adds);
        }
        let ghost mid = effective(c).union(adds.to_set());
        let mut j: usize = 0;
        assert(rems.take(0).to_set() =~= Set::empty());
        assert(mid.difference(Set::empty()) =~= mid);
        while j < rec.removals.len()
            invariant
                j <= rec.removals.len(),
                rems == rec.removals@,
                sorted(triples@),
                triples@.to_set() == mid.difference(rems.take(j as int).to_set()),
            decreases rec.removals.len() - j,
        {
            crate::tripleset::remove(&mut triples, rec.removals[j]);
            proof {
                crate::tripleset::lemma_take_to_set(rems, j as int);
                assert(triples@.to_set() =~= mid.difference(rems.take(j + 1).to_set()));
            }
            j = j + 1;
        }
        proof {
            assert(rems.take(j as int) =~= rems);
            lemma_push(c, rec@);
        }
        let ghost top = rec@;
        chain.push(rec);
        proof {
            assert(records_view(chain@) =~= c.push(top));
            if c.len() > 0 {
                assert(wf_chain(c));
            }
        }
        StoreLayer { state: Arc::new(LayerState { chain, entries, predicates, triples }) }
    }

    /// Whether the two layers are the same chain of records.
    pub fn same_chain(&self, other: &StoreLayer) -> (r: bool)
        ensures
            r == (self@ == other@),
    {
        if self.state.chain.len() != other.state.chain.len() {
            assert(self@.len() != other@.len());
            return false;
        }
        let mut i: usize = 0;
        while i < self.state.chain.len()
            invariant
                i <= self.state.chain.len(),
                self.state.chain.len() == other.state.chain.len(),
                forall|k: int| 0 <= k < i ==> #[trigger] self@[k] == other@[k],
            decreases self.state.chain.len() - i,
        {
            if !self.state.chain[i].same(&other.state.chain[i]) {
                assert(self@[i as int] != other@[i as int]);
                return false;
            }
            assert(self@[i as int] == other@[i as int]);
            i = i + 1;
        }
        assert(self@ =~= other@);
        true
    }

    /// The name of this layer.
    pub fn name(&self) -> (n: [u32; 5])
        requires
            self.wf(),
        ensures
            n@ == self@.last().name,
    {
        self.state.chain[self.state.chain.len() - 1].name
    }

    /// The name of this layer's parent, or `None` for a base layer.
    pub fn parent_name(&self) -> (n: Option<[u32; 5]>)
        requires
            self.wf(),
        ensures
            match n {
                Some(p) => self@.last().parent_name == Some(p@),
                None => self@.last().parent_name is None,
            },
    {
        self.state.chain[self.state.chain.len() - 1].parent_name
    }

    /// The number of layers in the chain, this layer included.
    pub fn depth(&self) -> (n: usize)
        requires
            self.wf(),
        ensures
            n == self@.len(),
            n > 0,
    {
        self.state.chain.len()
    }

    /// The number of nodes and values that the chain's dictionary defines.
    pub fn node_and_value_count(&self) -> (n: usize)
        requires
            self.wf(),
        ensures
            n == all_entries(self@).len(),
    {
        self.state.entries.len()
    }

    /// The number of predicates that the chain's dictionary defines.
    pub fn predicate_count(&self) -> (n: usize)
        requires
            self.wf(),
        ensures
            n == all_predicates(self@).len(),
    {
        self.state.predicates.len()
    }

    /// The id of a node or value, if the chain defines it.
    pub fn object_id(&self, object: &ObjectType) -> (r: Option<u64>)
        requires
            self.wf(),
        ensures
            r == entry_id(all_entries(self@), object@),
    {
        match find_object(&self.state.entries, object) {
            Some(i) => {
                proof {
                    lemma_entry_id(all_entries(self@), i as int);
                }
                Some(i as u64 + 1)
            },
            None => None,
        }
    }

    /// The id of the node `subject`, if the chain defines it.
    pub fn subject_id(&self, subject: &str) -> (r: Option<u64>)
        requires
            self.wf(),
        ensures
            r == entry_id(all_entries(self@), ObjectView::Node(subject@)),
    {
        let e = ObjectType::node(subject);
        self.object_id(&e)
    }

    /// The id of the node `object`, if the chain defines it.
    pub fn object_node_id(&self, object: &str) -> (r: Option<u64>)
        requires
            self.wf(),
        ensures
            r == entry_id(all_entries(self@), ObjectView::Node(object@)),
    {
        let e = ObjectType::node(object);
        self.object_id(&e)
    }

    /// The id of the value `object`, if the chain defines it.
    pub fn object_value_id(&self, object: &str) -> (r: Option<u64>)
        requires
            self.wf(),
        ensures
            r == entry_id(all_entries(self@), ObjectView::Value(object@)),
    {
        let e = ObjectType::value(object);
        self.object_id(&e)
    }

    /// The id of `predicate`, if the chain defines it.
    pub fn predicate_id(&self, predicate: &str) -> (r: Option<u64>)
        requires
            self.wf(),
        ensures
            r == entry_id(all_predicates(self@), predicate@),
    {
        let p = predicate.to_owned();
        match find_string(&self.state.predicates, &p) {
            Some(i) => {
                proof {
                    lemma_entry_id(all_predicates(self@), i as int);
                }
                Some(i as u64 + 1)
            },
            None => None,
        }
    }

    /// The node or value that `id` names, or `None` where the chain does not define the id.
    pub fn id_object(&self, id: u64) -> (r: Option<ObjectType>)
        requires
            self.wf(),
        ensures
            match r {
                Some(o) => entry_at(all_entries(self@), id) == Some(o@),
                None => entry_at(all_entries(self@), id) is None,
            },
    {
        if id >= 1 && id - 1 < self.state.entries.len() as u64 {
            Some(self.state.entries[(id - 1) as usize].duplicate())
        } else {
            None
        }
    }

    /// The node that `id` names, or `None` where the id is undefined or names a value.
    pub fn id_subject(&self, id: u64) -> (r: Option<String>)
        requires
            self.wf(),
        ensures
            match r {
                Some(s) => entry_at(all_entries(self@), id) == Some(ObjectView::Node(s@)),
                None => !(entry_at(all_entries(self@), id) matches Some(ObjectView::Node(_))),
            },
    {
        if id >= 1 && id - 1 < self.state.entries.len() as u64 {
            match &self.state.entries[(id - 1) as usize] {
                ObjectType::Node(s) => Some(s.clone()),
                ObjectType::Value(_) => None,
            }
        } else {
            None
        }
    }

    /// The predicate that `id` names, or `None` where the chain does not define the id.
    pub fn id_predicate(&self, id: u64) -> (r: Option<String>)
        requires
            self.wf(),
        ensures
            match r {
                Some(s) => entry_at(all_predicates(self@), id) == Some(s@),
                None => entry_at(all_predicates(self@), id) is None,
            },
    {
        if id >= 1 && id - 1 < self.state.predicates.len() as u64 {
            Some(self.state.predicates[(id - 1) as usize].clone())
        } else {
            None
        }
    }
}

/// How much a chain holds.
#[derive(Clone, Copy, Debug, PartialEq, Eq, Structural)]
pub struct LayerCounts {
    /// The nodes and values that the chain's dictionary defines.
    pub node_and_value_count: usize,
    /// The predicates that the chain's dictionary defines.
    pub predicate_count: usize,
    /// The triples in the chain's effective set.
    pub triple_count: usize,
}

impl StoreLayer {
    /// Whether the triple is in the effective set of the chain.
    pub fn triple_exists(&self, subject: u64, predicate: u64, object: u64) -> (b: bool)
        requires
            self.wf(),
        ensures
            b == effective(self@).contains(IdTriple { subject, predicate, object }),
    {
        let t = IdTriple { subject, predicate, object };
        crate::tripleset::contains(&self.state.triples, &t)
    }

    /// Whether this layer itself adds the triple.
    pub fn triple_addition_exists(&self, subject: u64, predicate: u64, object: u64) -> (b: bool)
        requires
            self.wf(),
        ensures
            b == self@.last().additions.contains(IdTriple { subject, predicate, object }),
    {
        let t = IdTriple { subject, predicate, object };
        let top = &self.state.chain[self.state.chain.len() - 1];
        crate::tripleset::contains(&top.additions, &t)
    }

    /// Whether this layer itself removes the triple.
    pub fn triple_removal_exists(&self, subject: u64, predicate: u64, object: u64) -> (b: bool)
        requires
            self.wf(),
        ensures
            b == self@.last().removals.contains(IdTriple { subject, predicate, object }),
    {
        let t = IdTriple { subject, predicate, object };
        let top = &self.state.chain[self.state.chain.len() - 1];
        crate::tripleset::contains(&top.removals, &t)
    }

    /// The effective triples of the chain that fit the pattern, ascending.
    pub fn triples_matching(&self, s: Option<u64>, p: Option<u64>, o: Option<u64>) -> (r: Vec<
        IdTriple,
    >)
        requires
            self.wf(),
        ensures
            sorted(r@),
            r@.to_set() == restrict(effective(self@), s, p, o),
    {
        select(&self.state.triples, s, p, o)
    }

    /// The triples that this layer adds and that fit the pattern, ascending.
    pub fn triple_additions_matching(
        &self,
        s: Option<u64>,
        p: Option<u64>,
        o: Option<u64>,
    ) -> (r: Vec<IdTriple>)
        requires
            self.wf(),
        ensures
            sorted(r@),
            r@.to_set() == restrict(self@.last().additions.to_set(), s, p, o),
    {
        let top = &self.state.chain[self.state.chain.len() - 1];
        select(&top.additions, s, p, o)
    }

    /// The triples that this layer removes and that fit the pattern, ascending.
    pub fn triple_removals_matching(
        &self,
        s: Option<u64>,
        p: Option<u64>,
        o: Option<u64>,
    ) -> (r: Vec<IdTriple>)
        requires
            self.wf(),
        ensures
            sorted(r@),
            r@.to_set() == restrict(self@.last().removals.to_set(), s, p, o),
    {
        let top = &self.state.chain[self.state.chain.len() - 1];
        select(&top.removals, s, p, o)
    }

    /// The effective triples of the chain, ascending by subject, predicate and object.
    pub fn triples(&self) -> (r: Vec<IdTriple>)
        requires
            self.wf(),
        ensures
            sorted(r@),
            r@.to_set() == effective(self@),
    {
        copy_triples(&self.state.triples)
    }

    /// The triples that this layer adds, ascending.
    pub fn triple_additions(&self) -> (r: Vec<IdTriple>)
        requires
            self.wf(),
        ensures
            r@ == self@.last().additions,
    {
        copy_triples(&self.state.chain[self.state.chain.len() - 1].additions)
    }

    /// The triples that this layer removes, ascending.
    pub fn triple_removals(&self) -> (r: Vec<IdTriple>)
        requires
            self.wf(),
        ensures
            r@ == self@.last().removals,
    {
        copy_triples(&self.state.chain[self.state.chain.len() - 1].removals)
    }

    /// The effective triples with the given subject, ascending.
    pub fn triples_s(&self, subject: u64) -> (r: Vec<IdTriple>)
        requires
            self.wf(),
        ensures
            sorted(r@),
            r@.to_set() == restrict(effective(self@), Some(subject), None, None),
    {
        self.triples_matching(Some(subject), None, None)
    }

    /// The triples with the given subject that this layer adds, ascending.
    pub fn triple_additions_s(&self, subject: u64) -> (r: Vec<IdTriple>)
        requires
            self.wf(),
        ensures
            sorted(r@),
            r@.to_set() == restrict(self@.last().additions.to_set(), Some(subject), None, None),
    {
        self.triple_additions_matching(Some(subject), None, None)
    }

    /// The triples with the given subject that this layer removes, ascending.
    pub fn triple_removals_s(&self, subject: u64) -> (r: Vec<IdTriple>)
        requires
            self.wf(),
        ensures
            sorted(r@),
            r@.to_set() == restrict(self@.last().removals.to_set(), Some(subject), None, None),
    {
        self.triple_removals_matching(Some(subject), None, None)
    }

    /// The effective triples with the given subject and predicate, ascending.
    pub fn triples_sp(&self, subject: u64, predicate: u64) -> (r: Vec<IdTriple>)
        requires
            self.wf(),
        ensures
            sorted(r@),
            r@.to_set() == restrict(effective(self@), Some(subject), Some(predicate), None),
    {
        self.triples_matching(Some(subject), Some(predicate), None)
    }

    /// The triples with the given subject and predicate that this layer adds, ascending.
    pub fn triple_additions_sp(&self, subject: u64, predicate: u64) -> (r: Vec<IdTriple>)
        requires
            self.wf(),
        ensures
            sorted(r@),
            r@.to_set() == restrict(
                self@.last().additions.to_set(),
                Some(subject),
                Some(predicate),
                None,
            ),
    {
        self.triple_additions_matching(Some(subject), Some(predicate), None)
    }

    /// The triples with the given subject and predicate that this layer removes, ascending.
    pub fn triple_removals_sp(&self, subject: u64, predicate: u64) -> (r: Vec<IdTriple>)
        requires
            self.wf(),
        ensures
            sorted(r@),
            r@.to_set() == restrict(
                self@.last().removals.to_set(),
                Some(subject),
                Some(predicate),
                None,
            ),
    {
        self.triple_removals_matching(Some(subject), Some(predicate), None)
    }

    /// The effective triples with the given predicate, ascending.
    pub fn triples_p(&self, predicate: u64) -> (r: Vec<IdTriple>)
        requires
            self.wf(),
        ensures
            sorted(r@),
            r@.to_set() == restrict(effective(self@), None, Some(predicate), None),
    {
        self.triples_matching(None, Some(predicate), None)
    }

    /// The triples with the given predicate that this layer adds, ascending.
    pub fn triple_additions_p(&self, predicate: u64) -> (r: Vec<IdTriple>)
        requires
            self.wf(),
        ensures
            sorted(r@),
            r@.to_set() == restrict(self@.last().additions.to_set(), None, Some(predicate), None),
    {
        self.triple_additions_matching(None, Some(predicate), None)
    }

    /// The triples with the given predicate that this layer removes, ascending.
    pub fn triple_removals_p(&self, predicate: u64) -> (r: Vec<IdTriple>)
        requires
            self.wf(),
        ensures
            sorted(r@),
            r@.to_set() == restrict(self@.last().removals.to_set(), None, Some(predicate), None),
    {
        self.triple_removals_matching(None, Some(predicate), None)
    }

    /// The effective triples with the given object, ascending.
    pub fn triples_o(&self, object: u64) -> (r: Vec<IdTriple>)
        requires
            self.wf(),
        ensures
            sorted(r@),
            r@.to_set() == restrict(effective(self@), None, None, Some(object)),
    {
        self.triples_matching(None, None, Some(object))
    }

    /// The triples with the given object that this layer adds, ascending.
    pub fn triple_additions_o(&self, object: u64) -> (r: Vec<IdTriple>)
        requires
            self.wf(),
        ensures
            sorted(r@),
            r@.to_set() == restrict(self@.last().additions.to_set(), None, None, Some(object)),
    {
        self.triple_additions_matching(None, None, Some(object))
    }

    /// The triples with the given object that this layer removes, ascending.
    pub fn triple_removals_o(&self, object: u64) -> (r: Vec<IdTriple>)
        requires
            self.wf(),
        ensures
            sorted(r@),
            r@.to_set() == restrict(self@.last().removals.to_set(), None, None, Some(object)),
    {
        self.triple_removals_matching(None, None, Some(object))
    }

    /// The number of triples that this layer adds.
    pub fn triple_layer_addition_count(&self) -> (n: usize)
        requires
            self.wf(),
        ensures
            n == self@.last().additions.len(),
    {
        self.state.chain[self.state.chain.len() - 1].additions.len()
    }

    /// The number of triples that this layer removes.
    pub fn triple_layer_removal_count(&self) -> (n: usize)
        requires
            self.wf(),
        ensures
            n == self@.last().removals.len(),
    {
        self.state.chain[self.state.chain.len() - 1].removals.len()
    }

    /// The number of distinct triples that this layer adds.
    pub fn triple_addition_count(&self) -> (n: usize)
        requires
            self.wf(),
        ensures
            n == self@.last().additions.to_set().len(),
    {
        proof {
            crate::tripleset::lemma_sorted_len(self@.last().additions);
        }
        self.state.chain[self.state.chain.len() - 1].additions.len()
    }

    /// The number of distinct triples that this layer removes.
    pub fn triple_removal_count(&self) -> (n: usize)
        requires
            self.wf(),
        ensures
            n == self@.last().removals.to_set().len(),
    {
        proof {
            crate::tripleset::lemma_sorted_len(self@.last().removals);
        }
        self.state.chain[self.state.chain.len() - 1].removals.len()
    }

    /// The sizes of the chain's dictionaries and of its effective triple set.
    pub fn all_counts(&self) -> (c: LayerCounts)
        requires
            self.wf(),
        ensures
            c.node_and_value_count == all_entries(self@).len(),
            c.predicate_count == all_predicates(self@).len(),
            c.triple_count == effective(self@).len(),
    {
        proof {
            crate::tripleset::lemma_sorted_len(self.state.triples@);
        }
        LayerCounts {
            node_and_value_count: self.state.entries.len(),
            predicate_count: self.state.predicates.len(),
            triple_count: self.state.triples.len(),
        }
    }

    /// The human-readable form of an id triple, or `None` where one of its
    /// ids is undefined or its subject is not a node.
    pub fn id_triple_to_string(&self, t: &IdTriple) -> (r: Option<StringTriple>)
        requires
            self.wf(),
        ensures
            match r {
                Some(st) => valid_triple(all_entries(self@), all_predicates(self@), *t) && st@
                    == resolve(all_entries(self@), all_predicates(self@), *t),
                None => !valid_triple(all_entries(self@), all_predicates(self@), *t),
            },
    {
        match self.id_subject(t.subject) {
            None => None,
            Some(subject) => match self.id_predicate(t.predicate) {
                None => None,
                Some(predicate) => match self.id_object(t.object) {
                    None => None,
                    Some(object) => Some(StringTriple { subject, predicate, object }),
                },
            },
        }
    }

    /// The id triple that stands for `st`, or `None` where the chain's
    /// dictionaries lack one of its parts.
    pub fn string_triple_to_id(&self, st: &StringTriple) -> (r: Option<IdTriple>)
        requires
            self.wf(),
        ensures
            r == intern(all_entries(self@), all_predicates(self@), st@),
    {
        match self.subject_id(st.subject.as_str()) {
            None => None,
            Some(subject) => match self.predicate_id(st.predicate.as_str()) {
                None => None,
                Some(predicate) => match self.object_id(&st.object) {
                    None => None,
                    Some(object) => Some(IdTriple { subject, predicate, object }),
                },
            },
        }
    }

    /// Whether the chain holds the triple that reads as `st`.
    pub fn string_triple_exists(&self, st: &StringTriple) -> (b: bool)
        requires
            self.wf(),
        ensures
            b == string_triples(self@).contains(st@),
    {
        proof {
            lemma_string_image_intern(
                all_entries(self@),
                all_predicates(self@),
                effective(self@),
                st@,
            );
        }
        match self.string_triple_to_id(st) {
            Some(t) => crate::tripleset::contains(&self.state.triples, &t),
            None => false,
        }
    }
}

} // verus!
