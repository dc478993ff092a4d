//! Labels: mutable names for the head layer of a chain, updated by compare-and-set.

use vstd::prelude::*;
use crate::error::StoreError;

verus! {

/// A label as it was read from the store. Its version is the token that a
/// later compare-and-set presents.
#[derive(Debug, PartialEq, Eq)]
pub struct Label {
    pub name: String,
    pub layer: Option<[u32; 5]>,
    pub version: u64,
}

/// The mathematical form of a [`Label`].
pub struct LabelView {
    pub name: Seq<char>,
    pub layer: Option<Seq<u32>>,
    pub version: u64,
}

/// The mathematical form of an optional layer name.
pub open spec fn name_view(n: Option<[u32; 5]>) -> Option<Seq<u32>> {
    match n {
        Some(x) => Some(x@),
        None => None,
    }
}

impl View for Label {
    type V = LabelView;

    open spec fn view(&self) -> LabelView {
        LabelView { name: self.name@, layer: name_view(self.layer), version: self.version }
    }
}

impl Label {
    /// An independent copy of this label.
    pub fn duplicate(&self) -> (l: Label)
        ensures
            l@ == self@,
    {
        Label { name: self.name.clone(), layer: self.layer, version: self.version }
    }
}

/// What a compare-and-set does to the labels: it goes through exactly when
/// the stored label has the version that `old_label` carries and that
/// version can still grow. The stored label then points at `layer`, with
/// the next version.
pub open spec fn swap_label(
    labels: Map<Seq<char>, LabelView>,
    old_label: LabelView,
    layer: Option<Seq<u32>>,
) -> Option<Map<Seq<char>, LabelView>> {
    if labels.dom().contains(old_label.name) && labels[old_label.name].version
        == old_label.version && old_label.version < u64::MAX {
        Some(
            labels.insert(
                old_label.name,
                LabelView {
                    name: old_label.name,
                    layer,
                    version: (old_label.version + 1) as u64,
                },
            ),
        )
    } else {
        None
    }
}

/// The labels of a store, each under its own name.
pub struct LabelStore {
    labels: Vec<Label>,
}

impl View for LabelStore {
    type V = Map<Seq<char>, LabelView>;

    closed spec fn view(&self) -> Map<Seq<char>, LabelView> {
        Map::new(
            |n: Seq<char>| exists|i: int| 0 <= i < self.labels@.len() && self.labels@[i].name@ == n,
            |n: Seq<char>|
                self.labels@[choose|i: int| 0 <= i < self.labels@.len() && self.labels@[i].name@
                    == n]@,
        )
    }
}

impl LabelStore {
    /// No two labels share a name.
    pub closed spec fn wf(&self) -> bool {
        forall|i: int, j: int|
            0 <= i < j < self.labels@.len() ==> self.labels@[i].name@ != self.labels@[j].name@
    }

    /// Every label is stored under its own name.
    pub proof fn lemma_names(&self, n: Seq<char>)
        requires
            self.wf(),
            self@.dom().contains(n),
        ensures
            self@[n].name == n,
    {
    }

    proof fn lemma_at(&self, i: int)
        requires
            self.wf(),
            0 <= i < self.labels@.len(),
        ensures
            self@.dom().contains(self.labels@[i].name@),
            self@[self.labels@[i].name@] == self.labels@[i]@,
    {
        let n = self.labels@[i].name@;
        let j = choose|j: int| 0 <= j < self.labels@.len() && self.labels@[j].name@ == n;
        assert(i == j);
    }

    /// A store without labels.
    pub fn new() -> (s: LabelStore)
        ensures
            s.wf(),
            s@ == Map::<Seq<char>, LabelView>::empty(),
    {
        let s = LabelStore { labels: Vec::new() };
        assert(s@ =~= Map::<Seq<char>, LabelView>::empty());
        s
    }

    fn find(&self, name: &String) -> (r: Option<usize>)
        requires
            self.wf(),
        ensures
            match r {
                Some(i) => i < self.labels@.len() && self.labels@[i as int].name@ == name@
                    && self@.dom().contains(name@) && self@[name@] == self.labels@[i as int]@,
                None => !self@.dom().contains(name@),
            },
    {
        let mut i: usize = 0;
        while i < self.labels.len()
            invariant
                self.wf(),
                i <= self.labels.len(),
                forall|k: int| 0 <= k < i ==> self.labels@[k].name@ != name@,
            decreases self.labels.len() - i,
        {
            if self.labels[i].name == *name {
                proof {
                    self.lemma_at(i as int);
                }
                return Some(i);
            }
            i = i + 1;
        }
        None
    }

    /// Makes a label that points at no layer yet, with version 0.
    pub fn create_label(&mut self, name: &str) -> (r: Result<Label, StoreError>)
        requires
            old(self).wf(),
        ensures
            final(self).wf(),
            match r {
                Ok(l) => {
                    &&& !old(self)@.dom().contains(name@)
                    &&& l@ == (LabelView { name: name@, layer: None, version: 0 })
                    &&& final(self)@ == old(self)@.insert(name@, l@)
                },
                Err(e) => {
                    &&& e == StoreError::AlreadyExists
                    &&& old(self)@.dom().contains(name@)
                    &&& final(self)@ == old(self)@
                },
            },
    {
        let owned = name.to_owned();
        match self.find(&owned) {
            Some(_) => Err(StoreError::AlreadyExists),
            None => {
                let ghost before = *self;
                let label = Label { name: owned, layer: None, version: 0 };
                let stored = label.duplicate();
                self.labels.push(stored);
                proof {
                    let n = self.labels@.len() - 1;
                    assert forall|i: int, j: int| 0 <= i < j < self.labels@.len() implies self.labels@[i].name@
                        != self.labels@[j].name@ by {
                        if j == n {
                            assert(before.labels@[i].name@ != name@);
                        } else {
                            assert(before.labels@[i].name@ != before.labels@[j].name@);
                        }
                    }
                    assert(self@ =~= before@.insert(name@, label@)) by {
                        assert forall|m: Seq<char>| #[trigger]
                            self@.dom().contains(m) <==> before@.insert(
                                name@,
                                label@,
                            ).dom().contains(m) by {
                            if before@.dom().contains(m) {
                                let i = choose|i: int|
                                    0 <= i < before.labels@.len() && before.labels@[i].name@ == m;
                                assert(self.labels@[i].name@ == m);
                            }
                            if m == name@ {
                                assert(self.labels@[n].name@ == m);
                            }
                        }
                        assert forall|m: Seq<char>| #[trigger]
                            self@.dom().contains(m) implies self@[m] == before@.insert(
                            name@,
                            label@,
                        )[m] by {
                            if m == name@ {
                                self.lemma_at(n);
                            } else {
                                let i = choose|i: int|
                                    0 <= i < before.labels@.len() && before.labels@[i].name@ == m;
                                before.lemma_at(i);
                                self.lemma_at(i);
                            }
                        }
                    }
                }
                Ok(label)
            },
        }
    }

    /// The label of that name as it stands now.
    pub fn get_label(&self, name: &str) -> (r: Option<Label>)
        requires
            self.wf(),
        ensures
            match r {
                Some(l) => self@.dom().contains(name@) && l@ == self@[name@],
                None => !self@.dom().contains(name@),
            },
    {
        let owned = name.to_owned();
        match self.find(&owned) {
            Some(i) => Some(self.labels[i].duplicate()),
            None => None,
        }
    }

    fn swap(&mut self, old_label: &Label, layer: Option<[u32; 5]>) -> (r: Option<Label>)
        requires
            old(self).wf(),
        ensures
            final(self).wf(),
            match r {
                Some(l) => {
                    &&& swap_label(old(self)@, old_label@, name_view(layer)) == Some(final(self)@)
                    &&& l@ == final(self)@[old_label@.name]
                    &&& l@ == (LabelView {
                        name: old_label@.name,
                        layer: name_view(layer),
                        version: (old_label.version + 1) as u64,
                    })
                },
                None => {
                    &&& swap_label(old(self)@, old_label@, name_view(layer)) is None
                    &&& final(self)@ == old(self)@
                },
            },
    {
        match self.find(&old_label.name) {
            None => None,
            Some(i) => {
                if self.labels[i].version != old_label.version || old_label.version == u64::MAX {
                    return None;
                }
                let ghost before = *self;
                let label = Label {
                    name: old_label.name.clone(),
                    layer,
                    version: old_label.version + 1,
                };
                let stored = label.duplicate();
                self.labels.set(i, stored);
                proof {
                    let name = old_label.name@;
                    assert forall|a: int, b: int| 0 <= a < b < self.labels@.len() implies self.labels@[a].name@
                        != self.labels@[b].name@ by {
                        assert(before.labels@[a].name@ != before.labels@[b].name@);
                    }
                    assert(self@ =~= before@.insert(name, label@)) by {
                        assert forall|m: Seq<char>| #[trigger]
                            self@.dom().contains(m) <==> before@.insert(
                                name,
                                label@,
                            ).dom().contains(m) by {
                            if before@.dom().contains(m) {
                                let k = choose|k: int|
                                    0 <= k < before.labels@.len() && before.labels@[k].name@ == m;
                                assert(self.labels@[k].name@ == m);
                            }
                            if self@.dom().contains(m) {
                                let k = choose|k: int|
                                    0 <= k < self.labels@.len() && self.labels@[k].name@ == m;
                                assert(before.labels@[k].name@ == m);
                            }
                        }
                        assert forall|m: Seq<char>| #[trigger]
                            self@.dom().contains(m) implies self@[m] == before@.insert(
                            name,
                            label@,
                        )[m] by {
                            let k = choose|k: int|
                                0 <= k < self.labels@.len() && self.labels@[k].name@ == m;
                            self.lemma_at(k);
                            if k != i {
                                before.lemma_at(k);
                            }
                        }
                    }
                }
                Some(label)
            },
        }
    }

    /// Points the label at `layer` if its stored version is still the one
    /// that `old_label` carries; the version then grows by one. Returns the
    /// label as stored, or `None` where the versions differ.
    pub fn set_label(&mut self, old_label: &Label, layer: [u32; 5]) -> (r: Option<Label>)
        requires
            old(self).wf(),
        ensures
            final(self).wf(),
            match r {
                Some(l) => {
                    &&& swap_label(old(self)@, old_label@, Some(layer@)) == Some(final(self)@)
                    &&& l@ == final(self)@[old_label@.name]
                    &&& l@ == (LabelView {
                        name: old_label@.name,
                        layer: Some(layer@),
                        version: (old_label.version + 1) as u64,
                    })
                },
                None => {
                    &&& swap_label(old(self)@, old_label@, Some(layer@)) is None
                    &&& final(self)@ == old(self)@
                },
            },
    {
        self.swap(old_label, Some(layer))
    }

    /// Points the label at no layer, under the same version check as [`Self::set_label`].
    pub fn delete_label(&mut self, old_label: &Label) -> (r: Option<Label>)
        requires
            old(self).wf(),
        ensures
            final(self).wf(),
            match r {
                Some(l) => {
                    &&& swap_label(old(self)@, old_label@, None) == Some(final(self)@)
                    &&& l@ == final(self)@[old_label@.name]
                    &&& l@ == (LabelView {
                        name: old_label@.name,
                        layer: None,
                        version: (old_label.version + 1) as u64,
                    })
                },
                None => {
                    &&& swap_label(old(self)@, old_label@, None) is None
                    &&& final(self)@ == old(self)@
                },
            },
    {
        self.swap(old_label, None)
    }
}

impl LabelStore {
    /// Every label of the store, each once.
    pub fn all_labels(&self) -> (r: Vec<Label>)
        requires
            self.wf(),
        ensures
            r@.len() == self@.dom().len(),
            self@.dom().finite(),
            forall|i: int|
                0 <= i < r@.len() ==> self@.dom().contains(#[trigger] r@[i]@.name) && self@[r@[i]@.name]
                    == r@[i]@,
            forall|n: Seq<char>|
                self@.dom().contains(n) ==> exists|i: int|
                    0 <= i < r@.len() && #[trigger] r@[i]@.name == n,
            forall|i: int, j: int|
                0 <= i < j < r@.len() ==> #[trigger] r@[i]@.name != #[trigger] r@[j]@.name,
    {
        let mut r: Vec<Label> = Vec::new();
        let mut i: usize = 0;
        while i < self.labels.len()
            invariant
                self.wf(),
                i <= self.labels.len(),
                r@.len() == i,
                forall|k: int| 0 <= k < i ==> #[trigger] r@[k]@ == self.labels@[k]@,
            decreases self.labels.len() - i,
        {
            r.push(self.labels[i].duplicate());
            i = i + 1;
        }
        proof {
            assert forall|k: int| 0 <= k < r@.len() implies self@.dom().contains(
                #[trigger] r@[k]@.name,
            ) && self@[r@[k]@.name] == r@[k]@ by {
                self.lemma_at(k);
            }
            assert forall|n: Seq<char>| self@.dom().contains(n) implies exists|k: int|
                0 <= k < r@.len() && #[trigger] r@[k]@.name == n by {
                let k = choose|k: int| 0 <= k < self.labels@.len() && self.labels@[k].name@ == n;
                assert(r@[k]@.name == n);
            }
            assert forall|a: int, b: int| 0 <= a < b < r@.len() implies #[trigger] r@[a]@.name
                != #[trigger] r@[b]@.name by {
                assert(self.labels@[a].name@ != self.labels@[b].name@);
            }
            let names = Seq::new(self.labels@.len(), |k: int| self.labels@[k].name@);
            assert(names.no_duplicates());
            names.unique_seq_to_set();
            vstd::seq_lib::seq_to_set_is_finite(names);
            assert(names.to_set() =~= self@.dom()) by {
                assert forall|n: Seq<char>| names.to_set().contains(n) <==> self@.dom().contains(
                    n,
                ) by {
                    if names.contains(n) {
                        let k = choose|k: int| 0 <= k < names.len() && names[k] == n;
                        assert(self.labels@[k].name@ == n);
                    }
                    if self@.dom().contains(n) {
                        let k = choose|k: int|
                            0 <= k < self.labels@.len() && self.labels@[k].name@ == n;
                        assert(names[k] == n);
                    }
                }
            }
        }
        r
    }

    /// Puts a label into the store as it is, version and all.
    ///
    /// Fails with `AlreadyExists` where a label of that name exists.
    pub fn restore_label(&mut self, label: Label) -> (r: Result<(), StoreError>)
        requires
            old(self).wf(),
        ensures
            final(self).wf(),
            match r {
                Ok(_) => {
                    &&& !old(self)@.dom().contains(label@.name)
                    &&& final(self)@ == old(self)@.insert(label@.name, label@)
                },
                Err(e) => {
                    &&& e == StoreError::AlreadyExists
                    &&& old(self)@.dom().contains(label@.name)
                    &&& final(self)@ == old(self)@
                },
            },
    {
        match self.find(&label.name) {
            Some(_) => Err(StoreError::AlreadyExists),
            None => {
                let ghost before = *self;
                let ghost lv = label@;
                let ghost name = label@.name;
                self.labels.push(label);
                proof {
                    let n = self.labels@.len() - 1;
                    assert forall|i: int, j: int| 0 <= i < j < self.labels@.len() implies self.labels@[i].name@
                        != self.labels@[j].name@ by {
                        if j == n {
                            assert(before.labels@[i].name@ != name);
                        } else {
                            assert(before.labels@[i].name@ != before.labels@[j].name@);
                        }
                    }
                    assert(self@ =~= before@.insert(name, lv)) by {
                        assert forall|m: Seq<char>| #[trigger]
                            self@.dom().contains(m) <==> before@.insert(name, lv).dom().contains(
                                m,
                            ) by {
                            if before@.dom().contains(m) {
                                let i = choose|i: int|
                                    0 <= i < before.labels@.len() && before.labels@[i].name@ == m;
                                assert(self.labels@[i].name@ == m);
                            }
                            if m == name {
                                assert(self.labels@[n].name@ == m);
                            }
                        }
                        assert forall|m: Seq<char>| #[trigger]
                            self@.dom().contains(m) implies self@[m] == before@.insert(
                            name,
                            lv,
                        )[m] by {
                            if m == name {
                                self.lemma_at(n);
                            } else {
                                let i = choose|i: int|
                                    0 <= i < before.labels@.len() && before.labels@[i].name@ == m;
                                before.lemma_at(i);
                                self.lemma_at(i);
                            }
                        }
                    }
                }
                Ok(())
            },
        }
    }
}

} // verus!
