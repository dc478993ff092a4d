//! The store: labels and layers bound together, and the named graphs over them.

use vstd::prelude::*;
use crate::builder::StoreLayerBuilder;
use crate::chain::{empty_layer, LayerView};
use crate::error::StoreError;
use crate::label::{swap_label, LabelStore, LabelView};
use crate::layer::StoreLayer;
use crate::layer_store::{
    counter_name, free_from, import_pack, is_ancestor, name_set, select, LayerStore,
};
use crate::pack::{dec_pack, enc_pack};

verus! {

/// The number of chains that the cache of a memory store holds.
pub const MEMORY_CACHE_CAPACITY: usize = 64;

/// A set of layers and the labels that point at them.
pub struct Store {
    pub label_store: LabelStore,
    pub layer_store: LayerStore,
}

/// A named graph: a label seen as a graph with a head layer.
///
/// Reading a graph is getting the layer that its label points at; writing
/// to it is pointing the label at a new layer.
pub struct NamedGraph {
    label: String,
}

impl Store {
    /// Both halves of the store are well-formed.
    pub open spec fn wf(&self) -> bool {
        self.label_store.wf() && self.layer_store.wf()
    }

    /// The labels of the store, each under its name.
    pub open spec fn labels(&self) -> Map<Seq<char>, LabelView> {
        self.label_store@
    }

    /// The layers of the store: under each name, the chain that ends in that layer.
    pub open spec fn layers(&self) -> Map<Seq<u32>, Seq<LayerView>> {
        self.layer_store.layers()
    }

    /// A store over the given labels and layers.
    pub fn new(label_store: LabelStore, layer_store: LayerStore) -> (s: Store)
        ensures
            s.label_store == label_store,
            s.layer_store == layer_store,
    {
        Store { label_store, layer_store }
    }

    /// Makes a named graph that has no head yet.
    ///
    /// Fails with `AlreadyExists` where a graph of that name exists.
    pub fn create(&mut self, label: &str) -> (r: Result<NamedGraph, StoreError>)
        requires
            old(self).wf(),
        ensures
            final(self).wf(),
            final(self).layer_store == old(self).layer_store,
            match r {
                Ok(g) => {
                    &&& !old(self).labels().dom().contains(label@)
                    &&& g.label() == label@
                    &&& final(self).labels() == old(self).labels().insert(
                        label@,
                        LabelView { name: label@, layer: None, version: 0 },
                    )
                },
                Err(e) => {
                    &&& e == StoreError::AlreadyExists
                    &&& old(self).labels().dom().contains(label@)
                    &&& final(self).labels() == old(self).labels()
                },
            },
    {
        match self.label_store.create_label(label) {
            Ok(l) => Ok(NamedGraph { label: l.name }),
            Err(e) => Err(e),
        }
    }

    /// The named graph of that name, or `None` where there is none.
    pub fn open(&self, label: &str) -> (r: Result<Option<NamedGraph>, StoreError>)
        requires
            self.wf(),
        ensures
            match r {
                Ok(Some(g)) => self.labels().dom().contains(label@) && g.label() == label@,
                Ok(None) => !self.labels().dom().contains(label@),
                Err(_) => false,
            },
    {
        match self.label_store.get_label(label) {
            Some(l) => {
                proof {
                    self.label_store.lemma_names(label@);
                }
                Ok(Some(NamedGraph { label: l.name }))
            },
            None => Ok(None),
        }
    }

    /// The layer of that name, or `None` where the store holds none.
    pub fn get_layer_from_id(&mut self, layer: [u32; 5]) -> (r: Result<
        Option<StoreLayer>,
        StoreError,
    >)
        requires
            old(self).wf(),
        ensures
            final(self).wf(),
            final(self).labels() == old(self).labels(),
            final(self).layers() == old(self).layers(),
            final(self).layer_store.next_counter() == old(self).layer_store.next_counter(),
            match r {
                Ok(Some(l)) => l.wf() && old(self).layers().dom().contains(layer@) && l@ == old(self).layers()[layer@],
                Ok(None) => !old(self).layers().dom().contains(layer@),
                Err(_) => false,
            },
    {
        Ok(self.layer_store.get_layer(layer))
    }

    /// Starts a base layer that no label points at.
    ///
    /// Once it is committed, `set_head` on a named graph attaches it.
    pub fn create_base_layer(&mut self) -> (r: Result<StoreLayerBuilder, StoreError>)
        requires
            old(self).wf(),
        ensures
            final(self).wf(),
            final(self).labels() == old(self).labels(),
            final(self).layers() == old(self).layers(),
            match free_from(old(self).layers().dom(), old(self).layer_store.next_counter()) {
                Some(c) => {
                    &&& r matches Ok(b)
                    &&& b.wf()
                    &&& b.is_open()
                    &&& b.parent_chain() == Seq::<LayerView>::empty()
                    &&& b.staged() == empty_layer(counter_name(c), None)
                    &&& final(self).layer_store.next_counter() == c + 1
                },
                None => {
                    &&& r matches Err(e)
                    &&& e == StoreError::Exhausted
                    &&& final(self).layer_store.next_counter() == old(self).layer_store.next_counter()
                },
            },
    {
        self.layer_store.create_base_layer()
    }
}

impl Store {
    /// Starts a base layer under the name that the caller has drawn, for
    /// example at random, so that layers made in different stores do not
    /// share a name.
    ///
    /// Fails with `InvalidData` where the store has a layer of that name.
    pub fn create_base_layer_named(&mut self, name: [u32; 5]) -> (r: Result<
        StoreLayerBuilder,
        StoreError,
    >)
        requires
            old(self).wf(),
        ensures
            final(self).wf(),
            final(self).labels() == old(self).labels(),
            final(self).layers() == old(self).layers(),
            final(self).layer_store.next_counter() == old(self).layer_store.next_counter(),
            r is Ok <==> !old(self).layers().dom().contains(name@),
            match r {
                Ok(b) => {
                    &&& b.wf()
                    &&& b.is_open()
                    &&& b.parent_chain() == Seq::<LayerView>::empty()
                    &&& b.staged() == empty_layer(name@, None)
                },
                Err(e) => e == StoreError::InvalidData,
            },
    {
        self.layer_store.create_base_layer_named(name)
    }
}

impl Store {
    /// The pack of the listed layers, and of no others, in the order in
    /// which the store took them in.
    ///
    /// Fails with `NotFound` where the store lacks one of them.
    pub fn export_layers(&self, layer_ids: Vec<[u32; 5]>) -> (r: Result<Vec<u8>, StoreError>)
        requires
            self.wf(),
        ensures
            match r {
                Ok(out) => {
                    &&& forall|n: Seq<u32>|
                        name_set(layer_ids@).contains(n) ==> self.layers().dom().contains(n)
                    &&& out@ == enc_pack(select(self.layer_store.order(), name_set(layer_ids@)))
                    &&& dec_pack(out@) == Some(
                        select(self.layer_store.order(), name_set(layer_ids@)),
                    )
                },
                Err(e) => {
                    &&& e == StoreError::NotFound
                    &&& exists|n: Seq<u32>|
                        name_set(layer_ids@).contains(n) && !self.layers().dom().contains(n)
                },
            },
    {
        self.layer_store.export_layers(&layer_ids)
    }

    /// Takes the listed layers out of a pack into the store.
    ///
    /// Bytes that are no pack, and a pack that lacks a listed layer, are
    /// refused with `InvalidData` and change nothing. The listed records
    /// are then taken in the order of the pack, up to the first that is
    /// refused: a record that differs from the layer that the store has
    /// under its name, or that is not in order on top of its parent, with
    /// `InvalidData`; one whose parent the store lacks, with `NotFound`.
    pub fn import_layers(&mut self, pack: &[u8], layer_ids: Vec<[u32; 5]>) -> (r: Result<
        (),
        StoreError,
    >)
        requires
            old(self).wf(),
        ensures
            final(self).wf(),
            final(self).label_store == old(self).label_store,
            final(self).layer_store.next_counter() == old(self).layer_store.next_counter(),
            import_pack(old(self).layers(), pack@, name_set(layer_ids@)) == (
                final(self).layers(),
                match r {
                    Ok(_) => None,
                    Err(e) => Some(e),
                },
            ),
    {
        self.layer_store.import_layers(pack, &layer_ids)
    }
}

/// A store that is held in memory, without labels or layers.
pub fn open_memory_store() -> (s: Store)
    ensures
        s.wf(),
        s.labels() == Map::<Seq<char>, LabelView>::empty(),
        s.layers() == Map::<Seq<u32>, Seq<LayerView>>::empty(),
        s.layer_store.next_counter() == 0,
{
    Store::new(LabelStore::new(), LayerStore::new(MEMORY_CACHE_CAPACITY))
}

/// What `set_head` does to the labels, and what it answers: the label of
/// the graph moves to `target` exactly when its layer is none or an
/// ancestor of `target`, and its version can still grow.
pub open spec fn advance(
    labels: Map<Seq<char>, LabelView>,
    layers: Map<Seq<u32>, Seq<LayerView>>,
    graph: Seq<char>,
    target: Seq<u32>,
) -> (Map<Seq<char>, LabelView>, bool) {
    let current = labels[graph];
    let allowed = match current.layer {
        None => true,
        Some(head) => is_ancestor(layers, head, target),
    };
    if allowed {
        match swap_label(labels, current, Some(target)) {
            Some(next) => (next, true),
            None => (labels, false),
        }
    } else {
        (labels, false)
    }
}

impl NamedGraph {
    /// The name of the label behind this graph.
    pub closed spec fn label(&self) -> Seq<char> {
        self.label@
    }

    /// The name of this graph.
    pub fn name(&self) -> (n: &str)
        ensures
            n@ == self.label(),
    {
        self.label.as_str()
    }

    /// The layer that this graph points at, or `None` where it has no head yet.
    ///
    /// Fails with `NotFound` where the store has no label of this name, or
    /// where the label points at a layer that the store does not hold.
    pub fn head(&self, store: &mut Store) -> (r: Result<Option<StoreLayer>, StoreError>)
        requires
            old(store).wf(),
        ensures
            final(store).wf(),
            final(store).labels() == old(store).labels(),
            final(store).layers() == old(store).layers(),
            final(store).layer_store.next_counter() == old(store).layer_store.next_counter(),
            match r {
                Ok(Some(l)) => {
                    &&& old(store).labels().dom().contains(self.label())
                    &&& old(store).labels()[self.label()].layer matches Some(n)
                    &&& old(store).layers().dom().contains(n)
                    &&& l.wf()
                    &&& l@ == old(store).layers()[n]
                },
                Ok(None) => {
                    &&& old(store).labels().dom().contains(self.label())
                    &&& old(store).labels()[self.label()].layer is None
                },
                Err(e) => {
                    &&& e == StoreError::NotFound
                    &&& old(store).labels().dom().contains(self.label()) ==> (old(store).labels()[self.label()].layer matches Some(n) && !old(store).layers().dom().contains(n))
                },
            },
    {
        match store.label_store.get_label(self.label.as_str()) {
            None => Err(StoreError::NotFound),
            Some(label) => match label.layer {
                None => Ok(None),
                Some(name) => match store.layer_store.get_layer(name) {
                    None => Err(StoreError::NotFound),
                    Some(layer) => Ok(Some(layer)),
                },
            },
        }
    }

    /// Points the graph at `layer` if the current head is none or an
    /// ancestor of `layer`, and says whether it did.
    ///
    /// Fails with `NotFound` where the store has no label of this name.
    pub fn set_head(&self, store: &mut Store, layer: &StoreLayer) -> (r: Result<bool, StoreError>)
        requires
            old(store).wf(),
            layer.wf(),
        ensures
            final(store).wf(),
            final(store).layer_store == old(store).layer_store,
            match r {
                Ok(b) => {
                    &&& old(store).labels().dom().contains(self.label())
                    &&& (final(store).labels(), b) == advance(
                        old(store).labels(),
                        old(store).layers(),
                        self.label(),
                        layer@.last().name,
                    )
                },
                Err(e) => {
                    &&& e == StoreError::NotFound
                    &&& !old(store).labels().dom().contains(self.label())
                    &&& final(store).labels() == old(store).labels()
                },
            },
    {
        let layer_name = layer.name();
        match store.label_store.get_label(self.label.as_str()) {
            None => Err(StoreError::NotFound),
            Some(label) => {
                proof {
                    store.label_store.lemma_names(self.label());
                }
                let set_is_ok = match label.layer {
                    None => true,
                    Some(head) => store.layer_store.layer_is_ancestor_of(head, layer_name),
                };
                if set_is_ok {
                    Ok(store.label_store.set_label(&label, layer_name).is_some())
                } else {
                    Ok(false)
                }
            },
        }
    }

    /// Points the graph at `layer` whatever its current head is, and says
    /// whether the label took the change.
    ///
    /// Fails with `NotFound` where the store has no label of this name.
    pub fn force_set_head(&self, store: &mut Store, layer: &StoreLayer) -> (r: Result<
        bool,
        StoreError,
    >)
        requires
            old(store).wf(),
            layer.wf(),
        ensures
            final(store).wf(),
            final(store).layer_store == old(store).layer_store,
            match r {
                Ok(b) => {
                    &&& old(store).labels().dom().contains(self.label())
                    &&& match swap_label(
                        old(store).labels(),
                        old(store).labels()[self.label()],
                        Some(layer@.last().name),
                    ) {
                        Some(next) => b && final(store).labels() == next,
                        None => !b && final(store).labels() == old(store).labels(),
                    }
                },
                Err(e) => {
                    &&& e == StoreError::NotFound
                    &&& !old(store).labels().dom().contains(self.label())
                    &&& final(store).labels() == old(store).labels()
                },
            },
    {
        let layer_name = layer.name();
        match store.label_store.get_label(self.label.as_str()) {
            None => Err(StoreError::NotFound),
            Some(label) => {
                proof {
                    store.label_store.lemma_names(self.label());
                }
                Ok(store.label_store.set_label(&label, layer_name).is_some())
            },
        }
    }
}

} // verus!
