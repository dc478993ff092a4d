//! The staging area from which one new layer is made.

use vstd::prelude::*;
use crate::chain::{
    add_one, all_entries, all_predicates, effective, empty_layer, entry_id, fits_one, holdings,
    intern, layer_ok, lemma_effective_valid, lemma_entry_id, lemma_intern_valid, lemma_push,
    lemma_string_image_intern, lemma_string_image_remove, lemma_valid_grows, remove_one,
    string_triples, top_name, valid_triple, wf_chain, with_entry, LayerView,
};
use crate::dictionary::{find_object, find_string, object_views, string_views};
use crate::error::StoreError;
use crate::layer::{LayerData, StoreLayer};
use crate::store::Store;
use crate::triple::{IdTriple, ObjectType, ObjectView, StringTriple};

verus! {

/// A layer under construction on top of an optional parent.
///
/// While it is open it stages dictionary entries, additions and removals.
/// Committing takes the staged record out of it and leaves it committed;
/// from then on every change is refused.
pub struct StoreLayerBuilder {
    name: [u32; 5],
    parent: Option<StoreLayer>,
    open: bool,
    entries: Vec<ObjectType>,
    predicates: Vec<String>,
    additions: Vec<IdTriple>,
    removals: Vec<IdTriple>,
}

impl StoreLayerBuilder {
    /// Whether the builder still accepts changes.
    pub closed spec fn is_open(&self) -> bool {
        self.open
    }

    /// The chain that the new layer will stand on; empty for a base layer.
    pub closed spec fn parent_chain(&self) -> Seq<LayerView> {
        match self.parent {
            Some(p) => p@,
            None => Seq::empty(),
        }
    }

    /// The record that a commit would publish.
    pub closed spec fn staged(&self) -> LayerView {
        LayerView {
            name: self.name@,
            parent_name: if self.parent_chain().len() == 0 {
                None
            } else {
                Some(self.parent_chain().last().name)
            },
            entries: object_views(self.entries@),
            predicates: string_views(self.predicates@),
            additions: self.additions@,
            removals: self.removals@,
        }
    }

    /// The chain that a commit would make: the parent chain with the staged record on top.
    pub open spec fn chain(&self) -> Seq<LayerView> {
        self.parent_chain().push(self.staged())
    }

    /// The dictionaries have room for the entries that one more string triple may need.
    pub open spec fn has_room(&self) -> bool {
        &&& all_entries(self.chain()).len() + 2 < u64::MAX
        &&& all_predicates(self.chain()).len() + 1 < u64::MAX
    }

    /// The parent is well-formed and, while the builder is open, the staged
    /// record is in order on top of it.
    pub closed spec fn wf(&self) -> bool {
        &&& self.parent is Some ==> self.parent.unwrap().wf()
        &&& self.open ==> layer_ok(self.parent_chain(), self.staged())
        &&& !self.open ==> self.entries@.len() == 0 && self.predicates@.len() == 0
            && self.additions@.len() == 0 && self.removals@.len() == 0
    }

    /// While a well-formed builder is open, the chain it would commit is well-formed.
    pub proof fn lemma_wf(&self)
        requires
            self.wf(),
            self.is_open(),
        ensures
            wf_chain(self.chain()),
            self.parent_chain().len() > 0 ==> wf_chain(self.parent_chain()),
            layer_ok(self.parent_chain(), self.staged()),
            self.staged().parent_name == (if self.parent_chain().len() == 0 {
                None
            } else {
                Some(self.parent_chain().last().name)
            }),
    {
        lemma_push(self.parent_chain(), self.staged());
        if self.parent is Some {
            self.parent.unwrap().lemma_wf();
        }
    }

    /// An open builder with nothing staged.
    pub(crate) fn new(name: [u32; 5], parent: Option<StoreLayer>) -> (b: StoreLayerBuilder)
        requires
            parent is Some ==> parent.unwrap().wf(),
        ensures
            b.wf(),
            b.is_open(),
            b.parent_chain() == (match parent {
                Some(p) => p@,
                None => Seq::empty(),
            }),
            b.staged() == empty_layer(name@, top_name(b.parent_chain())),
    {
        let b = StoreLayerBuilder {
            name,
            parent,
            open: true,
            entries: Vec::new(),
            predicates: Vec::new(),
            additions: Vec::new(),
            removals: Vec::new(),
        };
        proof {
            if b.parent is Some {
                b.parent.unwrap().lemma_wf();
            }
            assert(b.staged().entries =~= Seq::empty());
            assert(b.staged().predicates =~= Seq::empty());
            assert(b.staged().additions =~= Seq::empty());
            assert(b.staged().removals =~= Seq::empty());
            assert(all_entries(b.parent_chain()) + b.staged().entries =~= all_entries(
                b.parent_chain(),
            ));
            assert(all_predicates(b.parent_chain()) + b.staged().predicates =~= all_predicates(
                b.parent_chain(),
            ));
            if b.parent is None {
                assert(all_entries(b.parent_chain()) =~= Seq::empty());
                assert(all_predicates(b.parent_chain()) =~= Seq::empty());
            }
        }
        b
    }

    /// The name that the new layer will have.
    pub fn name(&self) -> (n: [u32; 5])
        ensures
            n@ == self.staged().name,
    {
        self.name
    }

    /// The layer that the new layer will stand on, or `None` for a base layer.
    pub fn parent(&self) -> (r: Option<StoreLayer>)
        requires
            self.wf(),
        ensures
            match r {
                Some(p) => p.wf() && p@ == self.parent_chain() && p@.len() > 0,
                None => self.parent_chain().len() == 0,
            },
    {
        match &self.parent {
            Some(p) => {
                proof {
                    p.lemma_wf();
                }
                Some(p.clone())
            },
            None => None,
        }
    }

    /// Whether the builder has been committed.
    pub fn committed(&self) -> (b: bool)
        ensures
            b == !self.is_open(),
    {
        !self.open
    }

    /// Fails with `InvalidData` once the builder has been committed.
    pub fn ensure_open(&self) -> (r: Result<(), StoreError>)
        ensures
            self.is_open() ==> r is Ok,
            !self.is_open() ==> r == Err::<(), StoreError>(StoreError::InvalidData),
    {
        if self.open {
            Ok(())
        } else {
            Err(StoreError::InvalidData)
        }
    }

    /// The dictionaries that a well-formed builder reads from, open or
    /// committed: those of the parent chain followed by what is staged,
    /// without duplicates and within the id space. A committed builder has
    /// nothing staged, so its dictionaries are those of its parent chain.
    pub proof fn lemma_dictionaries(&self)
        requires
            self.wf(),
        ensures
            all_entries(self.chain()) == all_entries(self.parent_chain()) + self.staged().entries,
            all_predicates(self.chain()) == all_predicates(self.parent_chain())
                + self.staged().predicates,
            all_entries(self.chain()).no_duplicates(),
            all_predicates(self.chain()).no_duplicates(),
            all_entries(self.chain()).len() < u64::MAX,
            all_predicates(self.chain()).len() < u64::MAX,
            !self.is_open() ==> {
                &&& all_entries(self.chain()) == all_entries(self.parent_chain())
                &&& all_predicates(self.chain()) == all_predicates(self.parent_chain())
                &&& effective(self.chain()) == effective(self.parent_chain())
                &&& self.staged() == empty_layer(self.staged().name, top_name(self.parent_chain()))
            },
    {
        lemma_push(self.parent_chain(), self.staged());
        if !self.open {
            match self.parent {
                Some(p) => {
                    p.lemma_wf();
                },
                None => {
                    assert(all_entries(self.parent_chain()) =~= Seq::empty());
                    assert(all_predicates(self.parent_chain()) =~= Seq::empty());
                },
            }
            assert(self.staged().entries =~= Seq::empty());
            assert(self.staged().predicates =~= Seq::empty());
            assert(self.staged().additions =~= Seq::empty());
            assert(self.staged().removals =~= Seq::empty());
            assert(all_entries(self.chain()) =~= all_entries(self.parent_chain()));
            assert(all_predicates(self.chain()) =~= all_predicates(self.parent_chain()));
            assert(self.staged().additions.to_set() =~= Set::empty());
            assert(self.staged().removals.to_set() =~= Set::empty());
            assert(effective(self.chain()) =~= effective(self.parent_chain()));
        }
    }

    fn parent_entry_count(&self) -> (n: usize)
        requires
            self.wf(),
        ensures
            n == all_entries(self.parent_chain()).len(),
    {
        match &self.parent {
            Some(p) => p.node_and_value_count(),
            None => {
                assert(all_entries(self.parent_chain()) =~= Seq::empty());
                0
            },
        }
    }

    fn parent_predicate_count(&self) -> (n: usize)
        requires
            self.wf(),
        ensures
            n == all_predicates(self.parent_chain()).len(),
    {
        match &self.parent {
            Some(p) => p.predicate_count(),
            None => {
                assert(all_predicates(self.parent_chain()) =~= Seq::empty());
                0
            },
        }
    }

    /// The number of nodes and values defined by the parent chain and the staged record together.
    pub fn node_and_value_count(&self) -> (n: u64)
        requires
            self.wf(),
        ensures
            n == all_entries(self.chain()).len(),
            !self.is_open() ==> n == all_entries(self.parent_chain()).len(),
    {
        proof {
            self.lemma_dictionaries();
        }
        self.parent_entry_count() as u64 + self.entries.len() as u64
    }

    /// The number of predicates defined by the parent chain and the staged record together.
    pub fn predicate_count(&self) -> (n: u64)
        requires
            self.wf(),
        ensures
            n == all_predicates(self.chain()).len(),
            !self.is_open() ==> n == all_predicates(self.parent_chain()).len(),
    {
        proof {
            self.lemma_dictionaries();
        }
        self.parent_predicate_count() as u64 + self.predicates.len() as u64
    }

    /// The id of a node or value, if the parent chain or the staged record defines it.
    pub fn object_id(&self, e: &ObjectType) -> (r: Option<u64>)
        requires
            self.wf(),
        ensures
            r == entry_id(all_entries(self.chain()), e@),
            !self.is_open() ==> r == entry_id(all_entries(self.parent_chain()), e@),
    {
        proof {
            self.lemma_dictionaries();
        }
        let ghost below = all_entries(self.parent_chain());
        let ghost local = object_views(self.entries@);
        let ghost all = below + local;
        let pc = self.parent_entry_count();
        let in_parent = match &self.parent {
            Some(p) => p.object_id(e),
            None => None,
        };
        match in_parent {
            Some(id) => {
                proof {
                    let i = below.index_of(e@);
                    assert(0 <= i < below.len() && below[i] == e@);
                    assert(all[i] == e@);
                    lemma_entry_id(all, i);
                }
                Some(id)
            },
            None => {
                assert(!below.contains(e@));
                match find_object(&self.entries, e) {
                    Some(i) => {
                        proof {
                            assert(all[pc + i] == e@);
                            lemma_entry_id(all, pc + i);
                        }
                        Some(pc as u64 + i as u64 + 1)
                    },
                    None => {
                        proof {
                            if all.contains(e@) {
                                let k = choose|k: int| 0 <= k < all.len() && all[k] == e@;
                                if k < below.len() {
                                    assert(below[k] == e@);
                                } else {
                                    assert(local[k - below.len()] == e@);
                                }
                            }
                        }
                        None
                    },
                }
            },
        }
    }

    /// The id of a predicate, if the parent chain or the staged record defines it.
    pub fn predicate_id(&self, predicate: &String) -> (r: Option<u64>)
        requires
            self.wf(),
        ensures
            r == entry_id(all_predicates(self.chain()), predicate@),
            !self.is_open() ==> r == entry_id(all_predicates(self.parent_chain()), predicate@),
    {
        proof {
            self.lemma_dictionaries();
        }
        let ghost below = all_predicates(self.parent_chain());
        let ghost local = string_views(self.predicates@);
        let ghost all = below + local;
        let pc = self.parent_predicate_count();
        let in_parent = match &self.parent {
            Some(p) => p.predicate_id(predicate.as_str()),
            None => None,
        };
        match in_parent {
            Some(id) => {
                proof {
                    let i = below.index_of(predicate@);
                    assert(0 <= i < below.len() && below[i] == predicate@);
                    assert(all[i] == predicate@);
                    lemma_entry_id(all, i);
                }
                Some(id)
            },
            None => {
                assert(!below.contains(predicate@));
                match find_string(&self.predicates, predicate) {
                    Some(i) => {
                        proof {
                            assert(all[pc + i] == predicate@);
                            lemma_entry_id(all, pc + i);
                        }
                        Some(pc as u64 + i as u64 + 1)
                    },
                    None => {
                        proof {
                            if all.contains(predicate@) {
                                let k = choose|k: int| 0 <= k < all.len() && all[k] == predicate@;
                                if k < below.len() {
                                    assert(below[k] == predicate@);
                                } else {
                                    assert(local[k - below.len()] == predicate@);
                                }
                            }
                        }
                        None
                    },
                }
            },
        }
    }

    /// The id triple that stands for `st`, if each of its parts is defined.
    pub fn string_triple_to_id(&self, st: &StringTriple) -> (r: Option<IdTriple>)
        requires
            self.wf(),
        ensures
            r == intern(all_entries(self.chain()), all_predicates(self.chain()), st@),
            !self.is_open() ==> r == intern(
                all_entries(self.parent_chain()),
                all_predicates(self.parent_chain()),
                st@,
            ),
    {
        proof {
            self.lemma_dictionaries();
        }
        let subject = ObjectType::node(st.subject.as_str());
        match self.object_id(&subject) {
            None => None,
            Some(s) => match self.predicate_id(&st.predicate) {
                None => None,
                Some(p) => match self.object_id(&st.object) {
                    None => None,
                    Some(o) => Some(IdTriple { subject: s, predicate: p, object: o }),
                },
            },
        }
    }
}

impl StoreLayerBuilder {
    /// Looks `e` up and, where it is missing, gives it the next id.
    fn intern_entry(&mut self, e: ObjectType) -> (id: u64)
        requires
            old(self).wf(),
            old(self).is_open(),
            with_entry(all_entries(old(self).chain()), e@).len() < u64::MAX,
        ensures
            final(self).wf(),
            final(self).is_open(),
            final(self).parent_chain() == old(self).parent_chain(),
            final(self).staged().name == old(self).staged().name,
            final(self).staged().predicates == old(self).staged().predicates,
            final(self).staged().additions == old(self).staged().additions,
            final(self).staged().removals == old(self).staged().removals,
            all_entries(final(self).chain()) == with_entry(all_entries(old(self).chain()), e@),
            all_predicates(final(self).chain()) == all_predicates(old(self).chain()),
            effective(final(self).chain()) == effective(old(self).chain()),
            entry_id(all_entries(final(self).chain()), e@) == Some(id),
    {
        proof {
            lemma_push(self.parent_chain(), self.staged());
        }
        match self.object_id(&e) {
            Some(id) => id,
            None => {
                let ghost below = all_entries(self.parent_chain());
                let ghost below_p = all_predicates(self.parent_chain());
                let ghost local = object_views(self.entries@);
                let ghost before = self.staged();
                let ghost ev = e@;
                let n = self.node_and_value_count();
                self.entries.push(e);
                proof {
                    let after = self.staged();
                    assert(object_views(self.entries@) =~= local.push(ev));
                    assert(below + after.entries =~= (below + local).push(ev));
                    assert(after.predicates == before.predicates);
                    assert((below + local).push(ev).no_duplicates());
                    assert forall|t: IdTriple| #[trigger]
                        after.additions.contains(t) implies valid_triple(
                        below + after.entries,
                        below_p + after.predicates,
                        t,
                    ) && !effective(self.parent_chain()).contains(t) by {
                        assert(before.additions.contains(t));
                        lemma_valid_grows(
                            below + local,
                            below_p + before.predicates,
                            seq![ev],
                            Seq::empty(),
                            t,
                        );
                        assert((below + local) + seq![ev] =~= below + after.entries);
                        assert(below_p + before.predicates + Seq::empty() =~= below_p
                            + after.predicates);
                    }
                    assert(layer_ok(self.parent_chain(), after));
                    lemma_push(self.parent_chain(), after);
                    lemma_entry_id(below + after.entries, n as int);
                }
                n + 1
            },
        }
    }

    /// Looks `p` up and, where it is missing, gives it the next id.
    fn intern_predicate(&mut self, p: String) -> (id: u64)
        requires
            old(self).wf(),
            old(self).is_open(),
            with_entry(all_predicates(old(self).chain()), p@).len() < u64::MAX,
        ensures
            final(self).wf(),
            final(self).is_open(),
            final(self).parent_chain() == old(self).parent_chain(),
            final(self).staged().name == old(self).staged().name,
            final(self).staged().entries == old(self).staged().entries,
            final(self).staged().additions == old(self).staged().additions,
            final(self).staged().removals == old(self).staged().removals,
            all_predicates(final(self).chain()) == with_entry(
                all_predicates(old(self).chain()),
                p@,
            ),
            all_entries(final(self).chain()) == all_entries(old(self).chain()),
            effective(final(self).chain()) == effective(old(self).chain()),
            entry_id(all_predicates(final(self).chain()), p@) == Some(id),
    {
        proof {
            lemma_push(self.parent_chain(), self.staged());
        }
        match self.predicate_id(&p) {
            Some(id) => id,
            None => {
                let ghost below = all_entries(self.parent_chain());
                let ghost below_p = all_predicates(self.parent_chain());
                let ghost local = string_views(self.predicates@);
                let ghost before = self.staged();
                let ghost pv = p@;
                let n = self.predicate_count();
                self.predicates.push(p);
                proof {
                    let after = self.staged();
                    assert(string_views(self.predicates@) =~= local.push(pv));
                    assert(below_p + after.predicates =~= (below_p + local).push(pv));
                    assert(after.entries == before.entries);
                    assert((below_p + local).push(pv).no_duplicates());
                    assert forall|t: IdTriple| #[trigger]
                        after.additions.contains(t) implies valid_triple(
                        below + after.entries,
                        below_p + after.predicates,
                        t,
                    ) && !effective(self.parent_chain()).contains(t) by {
                        assert(before.additions.contains(t));
                        lemma_valid_grows(
                            below + before.entries,
                            below_p + local,
                            Seq::empty(),
                            seq![pv],
                            t,
                        );
                        assert((below_p + local) + seq![pv] =~= below_p + after.predicates);
                        assert(below + before.entries + Seq::empty() =~= below + after.entries);
                    }
                    assert(layer_ok(self.parent_chain(), after));
                    lemma_push(self.parent_chain(), after);
                    lemma_entry_id(below_p + after.predicates, n as int);
                }
                n + 1
            },
        }
    }

    fn parent_has(&self, t: &IdTriple) -> (b: bool)
        requires
            self.wf(),
        ensures
            b == effective(self.parent_chain()).contains(*t),
    {
        match &self.parent {
            Some(p) => p.triple_exists(t.subject, t.predicate, t.object),
            None => false,
        }
    }

    /// Makes `t` a member of the staged effective set.
    fn stage_add(&mut self, t: IdTriple)
        requires
            old(self).wf(),
            old(self).is_open(),
            valid_triple(
                all_entries(old(self).chain()),
                all_predicates(old(self).chain()),
                t,
            ),
        ensures
            final(self).wf(),
            final(self).is_open(),
            final(self).parent_chain() == old(self).parent_chain(),
            final(self).staged().name == old(self).staged().name,
            final(self).staged().entries == old(self).staged().entries,
            final(self).staged().predicates == old(self).staged().predicates,
            all_entries(final(self).chain()) == all_entries(old(self).chain()),
            all_predicates(final(self).chain()) == all_predicates(old(self).chain()),
            effective(final(self).chain()) == effective(old(self).chain()).insert(t),
    {
        let ghost before = self.staged();
        let ghost below = effective(self.parent_chain());
        proof {
            lemma_push(self.parent_chain(), before);
        }
        if crate::tripleset::contains(&self.removals, &t) {
            crate::tripleset::remove(&mut self.removals, t);
            proof {
                let after = self.staged();
                assert forall|u: IdTriple| #[trigger] after.removals.contains(u) implies below.contains(
                    u,
                ) by {
                    assert(after.removals.to_set().contains(u));
                    assert(before.removals.to_set().contains(u));
                    assert(before.removals.contains(u));
                }
                lemma_push(self.parent_chain(), after);
                assert(before.removals.to_set().contains(t));
                assert(before.removals.contains(t));
                assert(effective(self.chain()) =~= effective(old(self).chain()).insert(t));
            }
        } else if !self.parent_has(&t) {
            crate::tripleset::insert(&mut self.additions, t);
            proof {
                let after = self.staged();
                assert forall|u: IdTriple| #[trigger] after.additions.contains(u) implies valid_triple(
                    all_entries(self.parent_chain()) + after.entries,
                    all_predicates(self.parent_chain()) + after.predicates,
                    u,
                ) && !below.contains(u) by {
                    assert(after.additions.to_set().contains(u));
                    if u != t {
                        assert(before.additions.to_set().contains(u));
                        assert(before.additions.contains(u));
                    }
                }
                lemma_push(self.parent_chain(), after);
                assert(effective(self.chain()) =~= effective(old(self).chain()).insert(t));
            }
        } else {
            proof {
                assert(effective(self.chain()) =~= effective(old(self).chain()).insert(t));
            }
        }
    }

    /// Makes `t` no member of the staged effective set.
    fn stage_remove(&mut self, t: IdTriple)
        requires
            old(self).wf(),
            old(self).is_open(),
        ensures
            final(self).wf(),
            final(self).is_open(),
            final(self).parent_chain() == old(self).parent_chain(),
            final(self).staged().name == old(self).staged().name,
            final(self).staged().entries == old(self).staged().entries,
            final(self).staged().predicates == old(self).staged().predicates,
            all_entries(final(self).chain()) == all_entries(old(self).chain()),
            all_predicates(final(self).chain()) == all_predicates(old(self).chain()),
            effective(final(self).chain()) == effective(old(self).chain()).remove(t),
    {
        let ghost before = self.staged();
        let ghost below = effective(self.parent_chain());
        proof {
            lemma_push(self.parent_chain(), before);
        }
        if crate::tripleset::contains(&self.additions, &t) {
            crate::tripleset::remove(&mut self.additions, t);
            proof {
                let after = self.staged();
                assert forall|u: IdTriple| #[trigger] after.additions.contains(u) implies valid_triple(
                    all_entries(self.parent_chain()) + after.entries,
                    all_predicates(self.parent_chain()) + after.predicates,
                    u,
                ) && !below.contains(u) by {
                    assert(after.additions.to_set().contains(u));
                    assert(before.additions.to_set().contains(u));
                    assert(before.additions.contains(u));
                }
                lemma_push(self.parent_chain(), after);
                assert(before.additions.to_set().contains(t));
                assert(before.additions.contains(t));
                assert(effective(self.chain()) =~= effective(old(self).chain()).remove(t));
            }
        } else if self.parent_has(&t) {
            crate::tripleset::insert(&mut self.removals, t);
            proof {
                let after = self.staged();
                assert forall|u: IdTriple| #[trigger] after.removals.contains(u) implies below.contains(
                    u,
                ) by {
                    assert(after.removals.to_set().contains(u));
                    if u != t {
                        assert(before.removals.to_set().contains(u));
                        assert(before.removals.contains(u));
                    }
                }
                lemma_push(self.parent_chain(), after);
                assert(effective(self.chain()) =~= effective(old(self).chain()).remove(t));
            }
        } else {
            proof {
                assert(effective(self.chain()) =~= effective(old(self).chain()).remove(t));
            }
        }
    }

    /// Whether every id of `t` is defined and its subject is a node.
    pub fn is_valid(&self, t: &IdTriple) -> (b: bool)
        requires
            self.wf(),
        ensures
            b == valid_triple(all_entries(self.chain()), all_predicates(self.chain()), *t),
            !self.is_open() ==> b == valid_triple(
                all_entries(self.parent_chain()),
                all_predicates(self.parent_chain()),
                *t,
            ),
    {
        proof {
            self.lemma_dictionaries();
        }
        let n = self.node_and_value_count();
        let m = self.predicate_count();
        if t.subject < 1 || t.subject > n || t.predicate < 1 || t.predicate > m || t.object < 1
            || t.object > n {
            return false;
        }
        let pc = self.parent_entry_count() as u64;
        let ghost below = all_entries(self.parent_chain());
        let ghost local = object_views(self.entries@);
        if t.subject <= pc {
            assert((below + local)[t.subject - 1] == below[t.subject - 1]);
            match &self.parent {
                Some(p) => p.id_subject(t.subject).is_some(),
                None => false,
            }
        } else {
            let k: u64 = t.subject - 1 - pc;
            assert(k < self.entries.len());
            assert((below + local)[t.subject - 1] == local[k as int]);
            match &self.entries[k as usize] {
                ObjectType::Node(_) => true,
                ObjectType::Value(_) => false,
            }
        }
    }

    /// Whether the dictionaries have room for what one more string triple may need.
    pub fn room(&self) -> (b: bool)
        requires
            self.wf(),
        ensures
            b == self.has_room(),
            !self.is_open() ==> b == (all_entries(self.parent_chain()).len() + 2 < u64::MAX
                && all_predicates(self.parent_chain()).len() + 1 < u64::MAX),
    {
        proof {
            self.lemma_dictionaries();
        }
        let n = self.node_and_value_count();
        let m = self.predicate_count();
        n < u64::MAX - 2 && m < u64::MAX - 1
    }

    /// Whether the dictionaries have room for the entries that `triple` still needs.
    pub fn fits(&self, triple: &StringTriple) -> (b: bool)
        requires
            self.wf(),
        ensures
            b == fits_one(holdings(self.chain()), triple@),
    {
        proof {
            self.lemma_dictionaries();
        }
        let subject = ObjectType::node(triple.subject.as_str());
        let subject_known = self.object_id(&subject).is_some();
        let object_known = self.object_id(&triple.object).is_some();
        let predicate_known = self.predicate_id(&triple.predicate).is_some();
        let same = subject.same(&triple.object);
        let n = self.node_and_value_count();
        let m = self.predicate_count();
        let first: u64 = if subject_known {
            0
        } else {
            1
        };
        let second: u64 = if object_known || (!subject_known && same) {
            0
        } else {
            1
        };
        let third: u64 = if predicate_known {
            0
        } else {
            1
        };
        proof {
            let entries = all_entries(self.chain());
            let a = ObjectView::Node(triple@.subject);
            let mid = with_entry(entries, a);
            assert(mid.len() == entries.len() + first);
            assert(mid.contains(triple@.object) <==> (entries.contains(triple@.object) || (
            !entries.contains(a) && a == triple@.object))) by {
                if mid.contains(triple@.object) && !entries.contains(triple@.object) {
                    let k = choose|k: int| 0 <= k < mid.len() && mid[k] == triple@.object;
                    if k < entries.len() {
                        assert(entries[k] == triple@.object);
                    }
                }
                if entries.contains(triple@.object) {
                    let k = choose|k: int| 0 <= k < entries.len() && entries[k] == triple@.object;
                    assert(mid[k] == triple@.object);
                }
                if !entries.contains(a) && a == triple@.object {
                    assert(mid[entries.len() as int] == a);
                }
            }
            assert(with_entry(mid, triple@.object).len() == entries.len() + first + second);
        }
        n < u64::MAX - first - second && m < u64::MAX - third
    }

    /// Adds the triple that reads as `triple`, giving ids to those of its
    /// parts that the chain does not define yet.
    pub fn add_string_triple(&mut self, triple: StringTriple) -> (r: Result<(), StoreError>)
        requires
            old(self).wf(),
        ensures
            final(self).wf(),
            final(self).parent_chain() == old(self).parent_chain(),
            final(self).staged().name == old(self).staged().name,
            final(self).is_open() == old(self).is_open(),
            old(self).is_open() ==> holdings(final(self).chain()) == add_one(
                holdings(old(self).chain()),
                triple@,
            ),
            match r {
                Ok(_) => {
                    let entries = all_entries(final(self).chain());
                    let predicates = all_predicates(final(self).chain());
                    &&& old(self).is_open()
                    &&& fits_one(holdings(old(self).chain()), triple@)
                    &&& entries == with_entry(
                        with_entry(
                            all_entries(old(self).chain()),
                            ObjectView::Node(triple@.subject),
                        ),
                        triple@.object,
                    )
                    &&& predicates == with_entry(
                        all_predicates(old(self).chain()),
                        triple@.predicate,
                    )
                    &&& intern(entries, predicates, triple@) is Some
                    &&& effective(final(self).chain()) == effective(old(self).chain()).insert(
                        intern(entries, predicates, triple@).unwrap(),
                    )
                    &&& string_triples(final(self).chain()) == string_triples(
                        old(self).chain(),
                    ).insert(triple@)
                },
                Err(e) => {
                    &&& final(self).staged() == old(self).staged()
                    &&& if old(self).is_open() {
                        e == StoreError::Exhausted && !fits_one(
                            holdings(old(self).chain()),
                            triple@,
                        )
                    } else {
                        e == StoreError::InvalidData
                    }
                },
            },
    {
        if !self.open {
            return Err(StoreError::InvalidData);
        }
        if !self.fits(&triple) {
            return Err(StoreError::Exhausted);
        }
        let ghost entries0 = all_entries(self.chain());
        let ghost preds0 = all_predicates(self.chain());
        let ghost held0 = effective(self.chain());
        let ghost st = triple@;
        proof {
            self.lemma_wf();
            lemma_effective_valid(self.chain());
        }
        let StringTriple { subject, predicate, object } = triple;
        let s = self.intern_entry(ObjectType::Node(subject));
        let o = self.intern_entry(object);
        let p = self.intern_predicate(predicate);
        let t = IdTriple { subject: s, predicate: p, object: o };
        proof {
            self.lemma_wf();
            crate::chain::lemma_add_reading(entries0, preds0, held0, st, t);
        }
        self.stage_add(t);
        Ok(())
    }

    /// Removes the triple that reads as `triple`. A triple that the chain
    /// does not hold is left out without complaint.
    pub fn remove_string_triple(&mut self, triple: StringTriple) -> (r: Result<(), StoreError>)
        requires
            old(self).wf(),
        ensures
            final(self).wf(),
            final(self).parent_chain() == old(self).parent_chain(),
            final(self).staged().name == old(self).staged().name,
            final(self).staged().entries == old(self).staged().entries,
            final(self).staged().predicates == old(self).staged().predicates,
            final(self).is_open() == old(self).is_open(),
            r is Ok <==> old(self).is_open(),
            old(self).is_open() ==> holdings(final(self).chain()) == remove_one(
                holdings(old(self).chain()),
                triple@,
            ),
            match r {
                Ok(_) => {
                    let found = intern(
                        all_entries(old(self).chain()),
                        all_predicates(old(self).chain()),
                        triple@,
                    );
                    &&& effective(final(self).chain()) == (match found {
                        Some(t) => effective(old(self).chain()).remove(t),
                        None => effective(old(self).chain()),
                    })
                    &&& string_triples(final(self).chain()) == string_triples(
                        old(self).chain(),
                    ).remove(triple@)
                },
                Err(e) => e == StoreError::InvalidData && final(self).staged() == old(self).staged(),
            },
    {
        if !self.open {
            return Err(StoreError::InvalidData);
        }
        let ghost entries0 = all_entries(self.chain());
        let ghost preds0 = all_predicates(self.chain());
        let ghost held0 = effective(self.chain());
        proof {
            self.lemma_wf();
            lemma_effective_valid(self.chain());
            lemma_string_image_intern(entries0, preds0, held0, triple@);
        }
        match self.string_triple_to_id(&triple) {
            Some(t) => {
                proof {
                    lemma_intern_valid(entries0, preds0, triple@);
                    lemma_string_image_remove(entries0, preds0, held0, t);
                }
                self.stage_remove(t);
            },
            None => {
                proof {
                    assert(string_triples(self.chain()).remove(triple@) =~= string_triples(
                        self.chain(),
                    ));
                }
            },
        }
        Ok(())
    }

    /// Whether the dictionaries of the parent chain define every id of `t`,
    /// its subject as a node. What the builder itself has staged does not count.
    pub fn parent_defines(&self, t: &IdTriple) -> (b: bool)
        requires
            self.wf(),
        ensures
            b == valid_triple(
                all_entries(self.parent_chain()),
                all_predicates(self.parent_chain()),
                *t,
            ),
    {
        let n = self.parent_entry_count() as u64;
        let m = self.parent_predicate_count() as u64;
        if t.subject < 1 || t.subject > n || t.predicate < 1 || t.predicate > m || t.object < 1
            || t.object > n {
            return false;
        }
        match &self.parent {
            Some(p) => p.id_subject(t.subject).is_some(),
            None => false,
        }
    }

    /// Adds an id triple. Each of its ids must be defined by the parent
    /// chain, its subject as a node; an id that only the builder's own
    /// staged entries define is refused.
    pub fn add_id_triple(&mut self, triple: IdTriple) -> (r: Result<(), StoreError>)
        requires
            old(self).wf(),
        ensures
            final(self).wf(),
            final(self).parent_chain() == old(self).parent_chain(),
            final(self).staged().name == old(self).staged().name,
            final(self).staged().entries == old(self).staged().entries,
            final(self).staged().predicates == old(self).staged().predicates,
            final(self).is_open() == old(self).is_open(),
            r is Ok <==> old(self).is_open() && valid_triple(
                all_entries(old(self).parent_chain()),
                all_predicates(old(self).parent_chain()),
                triple,
            ),
            match r {
                Ok(_) => effective(final(self).chain()) == effective(old(self).chain()).insert(
                    triple,
                ),
                Err(e) => e == StoreError::InvalidData && final(self).staged() == old(self).staged(),
            },
    {
        if !self.open {
            return Err(StoreError::InvalidData);
        }
        if !self.parent_defines(&triple) {
            return Err(StoreError::InvalidData);
        }
        proof {
            self.lemma_dictionaries();
            lemma_valid_grows(
                all_entries(self.parent_chain()),
                all_predicates(self.parent_chain()),
                self.staged().entries,
                self.staged().predicates,
                triple,
            );
        }
        self.stage_add(triple);
        Ok(())
    }

    /// Removes an id triple. Each of its ids must be defined by the parent
    /// chain, its subject as a node; an id that only the builder's own
    /// staged entries define is refused.
    pub fn remove_id_triple(&mut self, triple: IdTriple) -> (r: Result<(), StoreError>)
        requires
            old(self).wf(),
        ensures
            final(self).wf(),
            final(self).parent_chain() == old(self).parent_chain(),
            final(self).staged().name == old(self).staged().name,
            final(self).staged().entries == old(self).staged().entries,
            final(self).staged().predicates == old(self).staged().predicates,
            final(self).is_open() == old(self).is_open(),
            r is Ok <==> old(self).is_open() && valid_triple(
                all_entries(old(self).parent_chain()),
                all_predicates(old(self).parent_chain()),
                triple,
            ),
            match r {
                Ok(_) => effective(final(self).chain()) == effective(old(self).chain()).remove(
                    triple,
                ),
                Err(e) => e == StoreError::InvalidData && final(self).staged() == old(self).staged(),
            },
    {
        if !self.open {
            return Err(StoreError::InvalidData);
        }
        if !self.parent_defines(&triple) {
            return Err(StoreError::InvalidData);
        }
        self.stage_remove(triple);
        Ok(())
    }

    /// Takes the staged record out and leaves the builder committed.
    pub(crate) fn take_record(&mut self) -> (rec: LayerData)
        requires
            old(self).wf(),
            old(self).is_open(),
        ensures
            rec@ == old(self).staged(),
            final(self).wf(),
            !final(self).is_open(),
            final(self).parent_chain() == old(self).parent_chain(),
            final(self).staged().name == old(self).staged().name,
    {
        let mut entries: Vec<ObjectType> = Vec::new();
        let mut predicates: Vec<String> = Vec::new();
        let mut additions: Vec<IdTriple> = Vec::new();
        let mut removals: Vec<IdTriple> = Vec::new();
        let parent_name = match &self.parent {
            Some(p) => {
                proof {
                    p.lemma_wf();
                }
                Some(p.name())
            },
            None => None,
        };
        self.open = false;
        std::mem::swap(&mut entries, &mut self.entries);
        std::mem::swap(&mut predicates, &mut self.predicates);
        std::mem::swap(&mut additions, &mut self.additions);
        std::mem::swap(&mut removals, &mut self.removals);
        LayerData { name: self.name, parent_name, entries, predicates, additions, removals }
    }
}

/// Whether a store with these layers takes a new layer of that name on top
/// of that chain: the name is free, and the chain, unless it is empty, is
/// the one that the store holds under the name of its last layer.
pub open spec fn can_publish(
    layers: Map<Seq<u32>, Seq<LayerView>>,
    below: Seq<LayerView>,
    name: Seq<u32>,
) -> bool {
    &&& !layers.dom().contains(name)
    &&& below.len() > 0 ==> layers.dom().contains(below.last().name) && layers[below.last().name]
        == below
}

impl StoreLayerBuilder {
    /// Publishes the staged layer in `store` without reading it back.
    ///
    /// The builder is committed from then on, whether or not the store took
    /// the layer. It fails with `InvalidData` where the builder was
    /// committed before or the store has a layer of that name already, and
    /// with `NotFound` where the store does not hold the parent chain.
    pub fn commit_no_load(&mut self, store: &mut Store) -> (r: Result<(), StoreError>)
        requires
            old(self).wf(),
            old(store).wf(),
        ensures
            final(self).wf(),
            final(store).wf(),
            !final(self).is_open(),
            final(self).parent_chain() == old(self).parent_chain(),
            final(self).staged().name == old(self).staged().name,
            final(store).label_store == old(store).label_store,
            final(store).layer_store.next_counter() == old(store).layer_store.next_counter(),
            r is Ok <==> old(self).is_open() && can_publish(
                old(store).layers(),
                old(self).parent_chain(),
                old(self).staged().name,
            ),
            match r {
                Ok(_) => final(store).layers() == old(store).layers().insert(
                    old(self).staged().name,
                    old(self).chain(),
                ),
                Err(e) => {
                    &&& final(store).layers() == old(store).layers()
                    &&& e == (if !old(self).is_open() || old(store).layers().dom().contains(
                        old(self).staged().name,
                    ) {
                        StoreError::InvalidData
                    } else {
                        StoreError::NotFound
                    })
                },
            },
    {
        if !self.open {
            return Err(StoreError::InvalidData);
        }
        proof {
            self.lemma_wf();
        }
        let rec = self.take_record();
        let below: Option<&StoreLayer> = match &self.parent {
            Some(p) => Some(p),
            None => None,
        };
        let r = store.layer_store.add_record(below, rec);
        proof {
            if self.parent is Some {
                self.parent.unwrap().lemma_wf();
            }
        }
        r
    }

    /// Publishes the staged layer in `store` and reads it back.
    ///
    /// It fails as [`Self::commit_no_load`] does.
    pub fn commit(&mut self, store: &mut Store) -> (r: Result<StoreLayer, StoreError>)
        requires
            old(self).wf(),
            old(store).wf(),
        ensures
            final(self).wf(),
            final(store).wf(),
            !final(self).is_open(),
            final(self).parent_chain() == old(self).parent_chain(),
            final(self).staged().name == old(self).staged().name,
            final(store).label_store == old(store).label_store,
            final(store).layer_store.next_counter() == old(store).layer_store.next_counter(),
            r is Ok <==> old(self).is_open() && can_publish(
                old(store).layers(),
                old(self).parent_chain(),
                old(self).staged().name,
            ),
            match r {
                Ok(l) => {
                    &&& l.wf()
                    &&& l@ == old(self).chain()
                    &&& final(store).layers() == old(store).layers().insert(
                        old(self).staged().name,
                        old(self).chain(),
                    )
                },
                Err(e) => {
                    &&& final(store).layers() == old(store).layers()
                    &&& e == (if !old(self).is_open() || old(store).layers().dom().contains(
                        old(self).staged().name,
                    ) {
                        StoreError::InvalidData
                    } else {
                        StoreError::NotFound
                    })
                },
            },
    {
        let name = self.name;
        match self.commit_no_load(store) {
            Err(e) => Err(e),
            Ok(_) => match store.layer_store.get_layer(name) {
                Some(layer) => Ok(layer),
                None => {
                    assert(false);
                    Err(StoreError::NotFound)
                },
            },
        }
    }
}

} // verus!
