//! Lookups: the triples of a layer grouped by subject, predicate or object.

use vstd::prelude::*;
use crate::chain::effective;
use crate::layer::StoreLayer;
use crate::triple::IdTriple;
use crate::tripleset::{restrict, select, sorted};

verus! {

/// The part of a triple that a lookup goes by.
#[derive(Clone, Copy, Debug, PartialEq, Eq, Structural)]
pub enum Position {
    Subject,
    Predicate,
    Object,
}

/// The triples of one layer that a lookup draws on.
#[derive(Clone, Copy, Debug, PartialEq, Eq, Structural)]
pub enum Source {
    /// The effective triples of the chain.
    Effective,
    /// The triples that the layer itself adds.
    Additions,
    /// The triples that the layer itself removes.
    Removals,
}

/// The triples that have one id in one position.
#[derive(Debug, PartialEq, Eq)]
pub struct Lookup {
    pub position: Position,
    pub key: u64,
    pub triples: Vec<IdTriple>,
}

/// The id that a triple has in a position.
pub open spec fn part(t: IdTriple, position: Position) -> u64 {
    match position {
        Position::Subject => t.subject,
        Position::Predicate => t.predicate,
        Position::Object => t.object,
    }
}

/// The triples of a set that have the id `key` in a position.
pub open spec fn keyed(set: Set<IdTriple>, position: Position, key: u64) -> Set<IdTriple> {
    Set::new(|t: IdTriple| set.contains(t) && part(t, position) == key)
}

/// The set of triples that a source names in a chain.
pub open spec fn source_set(l: StoreLayer, source: Source) -> Set<IdTriple> {
    match source {
        Source::Effective => effective(l@),
        Source::Additions => l@.last().additions.to_set(),
        Source::Removals => l@.last().removals.to_set(),
    }
}

/// The lookup holds, ascending, exactly the triples of the set that have
/// its key in its position, and there is at least one.
pub open spec fn is_lookup(l: Lookup, set: Set<IdTriple>, position: Position) -> bool {
    &&& l.position == position
    &&& sorted(l.triples@)
    &&& l.triples@.to_set() == keyed(set, position, l.key)
    &&& l.triples@.len() > 0
}

/// The lookups are those of the set in a position: one for each id that
/// some triple has there, ascending by id.
pub open spec fn are_lookups(r: Seq<Lookup>, set: Set<IdTriple>, position: Position) -> bool {
    &&& forall|i: int| 0 <= i < r.len() ==> is_lookup(#[trigger] r[i], set, position)
    &&& forall|i: int, j: int| 0 <= i < j < r.len() ==> #[trigger] r[i].key < #[trigger] r[j].key
    &&& forall|t: IdTriple|
        set.contains(t) ==> exists|i: int| 0 <= i < r.len() && #[trigger] r[i].key == part(
            t,
            position,
        )
}

/// The id that a triple has in a position.
pub fn part_of(t: &IdTriple, position: Position) -> (k: u64)
    ensures
        k == part(*t, position),
{
    match position {
        Position::Subject => t.subject,
        Position::Predicate => t.predicate,
        Position::Object => t.object,
    }
}

/// The ids that the triples have in a position, ascending, each once.
pub fn keys_of(v: &Vec<IdTriple>, position: Position) -> (keys: Vec<u64>)
    ensures
        forall|i: int, j: int| 0 <= i < j < keys@.len() ==> keys@[i] < keys@[j],
        forall|k: u64|
            keys@.contains(k) <==> exists|i: int|
                0 <= i < v@.len() && part(#[trigger] v@[i], position) == k,
{
    let mut keys: Vec<u64> = Vec::new();
    let mut n: usize = 0;
    while n < v.len()
        invariant
            n <= v.len(),
            forall|i: int, j: int| 0 <= i < j < keys@.len() ==> keys@[i] < keys@[j],
            forall|k: u64|
                keys@.contains(k) <==> exists|i: int|
                    0 <= i < n && part(#[trigger] v@[i], position) == k,
        decreases v.len() - n,
    {
        let key = part_of(&v[n], position);
        let mut at: usize = 0;
        while at < keys.len() && keys[at] < key
            invariant
                at <= keys.len(),
                forall|i: int, j: int| 0 <= i < j < keys@.len() ==> keys@[i] < keys@[j],
                forall|i: int| 0 <= i < at ==> keys@[i] < key,
            decreases keys.len() - at,
        {
            at = at + 1;
        }
        let ghost before = keys@;
        if at < keys.len() && keys[at] == key {
            proof {
                assert forall|k: u64|
                    keys@.contains(k) <==> exists|i: int|
                        0 <= i < n + 1 && part(#[trigger] v@[i], position) == k by {
                    if keys@.contains(k) {
                        let i = choose|i: int| 0 <= i < n && part(#[trigger] v@[i], position) == k;
                        assert(part(v@[i], position) == k);
                    }
                    if exists|i: int| 0 <= i < n + 1 && part(#[trigger] v@[i], position) == k {
                        let i = choose|i: int|
                            0 <= i < n + 1 && part(#[trigger] v@[i], position) == k;
                        if i == n {
                            assert(keys@[at as int] == k);
                        } else {
                            assert(part(v@[i], position) == k);
                        }
                    }
                }
            }
        } else {
            keys.insert(at, key);
            proof {
                assert forall|i: int, j: int| 0 <= i < j < keys@.len() implies keys@[i]
                    < keys@[j] by {
                    let a = if i < at { before[i] } else if i == at { key } else { before[i - 1] };
                    let b = if j < at { before[j] } else if j == at { key } else { before[j - 1] };
                    assert(keys@[i] == a && keys@[j] == b);
                    if j > at && at < before.len() {
                        if j - 1 > at {
                            assert(before[at as int] < before[j - 1]);
                        }
                    }
                }
                assert forall|k: u64|
                    keys@.contains(k) <==> exists|i: int|
                        0 <= i < n + 1 && part(#[trigger] v@[i], position) == k by {
                    if keys@.contains(k) {
                        let m = choose|m: int| 0 <= m < keys@.len() && keys@[m] == k;
                        if m == at {
                            assert(part(v@[n as int], position) == k);
                        } else {
                            let m0 = if m < at { m } else { m - 1 };
                            assert(before[m0] == k);
                            assert(before.contains(k));
                            let i = choose|i: int|
                                0 <= i < n && part(#[trigger] v@[i], position) == k;
                            assert(part(v@[i], position) == k);
                        }
                    }
                    if exists|i: int| 0 <= i < n + 1 && part(#[trigger] v@[i], position) == k {
                        let i = choose|i: int|
                            0 <= i < n + 1 && part(#[trigger] v@[i], position) == k;
                        if i == n {
                            assert(keys@[at as int] == k);
                        } else {
                            assert(part(v@[i], position) == k);
                            assert(before.contains(k));
                            let m = choose|m: int| 0 <= m < before.len() && before[m] == k;
                            let m1 = if m < at { m } else { m + 1 };
                            assert(keys@[m1] == k);
                        }
                    }
                }
            }
        }
        n = n + 1;
    }
    keys
}

/// The triples of the ascending vector that have the id `key` in a position.
pub fn lookup_in(v: &Vec<IdTriple>, position: Position, key: u64) -> (r: Option<Lookup>)
    requires
        sorted(v@),
    ensures
        match r {
            Some(l) => is_lookup(l, v@.to_set(), position) && l.key == key,
            None => keyed(v@.to_set(), position, key) == Set::<IdTriple>::empty(),
        },
{
    let triples = match position {
        Position::Subject => select(v, Some(key), None, None),
        Position::Predicate => select(v, None, Some(key), None),
        Position::Object => select(v, None, None, Some(key)),
    };
    proof {
        let pattern = match position {
            Position::Subject => restrict(v@.to_set(), Some(key), None, None),
            Position::Predicate => restrict(v@.to_set(), None, Some(key), None),
            Position::Object => restrict(v@.to_set(), None, None, Some(key)),
        };
        assert(pattern =~= keyed(v@.to_set(), position, key));
        if triples@.len() == 0 {
            assert(triples@.to_set() =~= Set::<IdTriple>::empty());
        }
    }
    if triples.len() == 0 {
        None
    } else {
        Some(Lookup { position, key, triples })
    }
}

/// The lookups of the ascending vector in a position.
pub fn lookups_in(v: &Vec<IdTriple>, position: Position) -> (r: Vec<Lookup>)
    requires
        sorted(v@),
    ensures
        are_lookups(r@, v@.to_set(), position),
{
    let keys = keys_of(v, position);
    let mut r: Vec<Lookup> = Vec::new();
    let mut i: usize = 0;
    while i < keys.len()
        invariant
            i <= keys.len(),
            sorted(v@),
            r@.len() == i,
            forall|a: int, b: int| 0 <= a < b < keys@.len() ==> keys@[a] < keys@[b],
            forall|k: u64|
                keys@.contains(k) <==> exists|m: int|
                    0 <= m < v@.len() && part(#[trigger] v@[m], position) == k,
            forall|m: int|
                0 <= m < i ==> is_lookup(#[trigger] r@[m], v@.to_set(), position) && r@[m].key
                    == keys@[m],
        decreases keys.len() - i,
    {
        match lookup_in(v, position, keys[i]) {
            Some(l) => {
                r.push(l);
            },
            None => {
                proof {
                    assert(keys@.contains(keys@[i as int]));
                    let m = choose|m: int|
                        0 <= m < v@.len() && part(#[trigger] v@[m], position) == keys@[i as int];
                    assert(v@.to_set().contains(v@[m]));
                    assert(keyed(v@.to_set(), position, keys@[i as int]).contains(v@[m]));
                }
                assert(false);
            },
        }
        i = i + 1;
    }
    proof {
        assert forall|t: IdTriple| v@.to_set().contains(t) implies exists|m: int|
            0 <= m < r@.len() && #[trigger] r@[m].key == part(t, position) by {
            let n = choose|n: int| 0 <= n < v@.len() && v@[n] == t;
            assert(part(v@[n], position) == part(t, position));
            assert(keys@.contains(part(t, position)));
            let m = choose|m: int| 0 <= m < keys@.len() && keys@[m] == part(t, position);
            assert(r@[m].key == part(t, position));
        }
    }
    r
}

impl StoreLayer {
    /// The triples, among those that `source` names, that have the id `key`
    /// in a position; `None` where there is none.
    pub fn lookup(&self, source: Source, position: Position, key: u64) -> (r: Option<Lookup>)
        requires
            self.wf(),
        ensures
            match r {
                Some(l) => is_lookup(l, source_set(*self, source), position) && l.key == key,
                None => keyed(source_set(*self, source), position, key) == Set::<IdTriple>::empty(),
            },
    {
        let v = match source {
            Source::Effective => self.triples(),
            Source::Additions => self.triple_additions(),
            Source::Removals => self.triple_removals(),
        };
        proof {
            self.lemma_wf();
        }
        lookup_in(&v, position, key)
    }

    /// The lookups, among the triples that `source` names, in a position.
    pub fn lookups(&self, source: Source, position: Position) -> (r: Vec<Lookup>)
        requires
            self.wf(),
        ensures
            are_lookups(r@, source_set(*self, source), position),
    {
        let v = match source {
            Source::Effective => self.triples(),
            Source::Additions => self.triple_additions(),
            Source::Removals => self.triple_removals(),
        };
        proof {
            self.lemma_wf();
        }
        lookups_in(&v, position)
    }
}

impl StoreLayer {
    /// The triples that the chain holds, grouped by subject.
    pub fn subjects(&self) -> (r: Vec<Lookup>)
        requires
            self.wf(),
        ensures
            are_lookups(r@, source_set(*self, Source::Effective), Position::Subject),
    {
        self.lookups(Source::Effective, Position::Subject)
    }

    /// The triples that the chain holds and that have the given subject; `None` where there is none.
    pub fn lookup_subject(&self, subject: u64) -> (r: Option<Lookup>)
        requires
            self.wf(),
        ensures
            match r {
                Some(l) => is_lookup(l, source_set(*self, Source::Effective), Position::Subject) && l.key
                    == subject,
                None => keyed(source_set(*self, Source::Effective), Position::Subject, subject)
                    == Set::<IdTriple>::empty(),
            },
    {
        self.lookup(Source::Effective, Position::Subject, subject)
    }

    /// The triples that this layer adds, grouped by subject.
    pub fn subject_additions(&self) -> (r: Vec<Lookup>)
        requires
            self.wf(),
        ensures
            are_lookups(r@, source_set(*self, Source::Additions), Position::Subject),
    {
        self.lookups(Source::Additions, Position::Subject)
    }

    /// The triples that this layer adds and that have the given subject; `None` where there is none.
    pub fn lookup_subject_addition(&self, subject: u64) -> (r: Option<Lookup>)
        requires
            self.wf(),
        ensures
            match r {
                Some(l) => is_lookup(l, source_set(*self, Source::Additions), Position::Subject) && l.key
                    == subject,
                None => keyed(source_set(*self, Source::Additions), Position::Subject, subject)
                    == Set::<IdTriple>::empty(),
            },
    {
        self.lookup(Source::Additions, Position::Subject, subject)
    }

    /// The triples that this layer removes, grouped by subject.
    pub fn subject_removals(&self) -> (r: Vec<Lookup>)
        requires
            self.wf(),
        ensures
            are_lookups(r@, source_set(*self, Source::Removals), Position::Subject),
    {
        self.lookups(Source::Removals, Position::Subject)
    }

    /// The triples that this layer removes and that have the given subject; `None` where there is none.
    pub fn lookup_subject_removal(&self, subject: u64) -> (r: Option<Lookup>)
        requires
            self.wf(),
        ensures
            match r {
                Some(l) => is_lookup(l, source_set(*self, Source::Removals), Position::Subject) && l.key
                    == subject,
                None => keyed(source_set(*self, Source::Removals), Position::Subject, subject)
                    == Set::<IdTriple>::empty(),
            },
    {
        self.lookup(Source::Removals, Position::Subject, subject)
    }

    /// The triples that the chain holds, grouped by predicate.
    pub fn predicates(&self) -> (r: Vec<Lookup>)
        requires
            self.wf(),
        ensures
            are_lookups(r@, source_set(*self, Source::Effective), Position::Predicate),
    {
        self.lookups(Source::Effective, Position::Predicate)
    }

    /// The triples that the chain holds and that have the given predicate; `None` where there is none.
    pub fn lookup_predicate(&self, predicate: u64) -> (r: Option<Lookup>)
        requires
            self.wf(),
        ensures
            match r {
                Some(l) => is_lookup(l, source_set(*self, Source::Effective), Position::Predicate) && l.key
                    == predicate,
                None => keyed(source_set(*self, Source::Effective), Position::Predicate, predicate)
                    == Set::<IdTriple>::empty(),
            },
    {
        self.lookup(Source::Effective, Position::Predicate, predicate)
    }

    /// The triples that this layer adds, grouped by predicate.
    pub fn predicate_additions(&self) -> (r: Vec<Lookup>)
        requires
            self.wf(),
        ensures
            are_lookups(r@, source_set(*self, Source::Additions), Position::Predicate),
    {
        self.lookups(Source::Additions, Position::Predicate)
    }

    /// The triples that this layer adds and that have the given predicate; `None` where there is none.
    pub fn lookup_predicate_addition(&self, predicate: u64) -> (r: Option<Lookup>)
        requires
            self.wf(),
        ensures
            match r {
                Some(l) => is_lookup(l, source_set(*self, Source::Additions), Position::Predicate) && l.key
                    == predicate,
                None => keyed(source_set(*self, Source::Additions), Position::Predicate, predicate)
                    == Set::<IdTriple>::empty(),
            },
    {
        self.lookup(Source::Additions, Position::Predicate, predicate)
    }

    /// The triples that this layer removes, grouped by predicate.
    pub fn predicate_removals(&self) -> (r: Vec<Lookup>)
        requires
            self.wf(),
        ensures
            are_lookups(r@, source_set(*self, Source::Removals), Position::Predicate),
    {
        self.lookups(Source::Removals, Position::Predicate)
    }

    /// The triples that this layer removes and that have the given predicate; `None` where there is none.
    pub fn lookup_predicate_removal(&self, predicate: u64) -> (r: Option<Lookup>)
        requires
            self.wf(),
        ensures
            match r {
                Some(l) => is_lookup(l, source_set(*self, Source::Removals), Position::Predicate) && l.key
                    == predicate,
                None => keyed(source_set(*self, Source::Removals), Position::Predicate, predicate)
                    == Set::<IdTriple>::empty(),
            },
    {
        self.lookup(Source::Removals, Position::Predicate, predicate)
    }

    /// The triples that the chain holds, grouped by object.
    pub fn objects(&self) -> (r: Vec<Lookup>)
        requires
            self.wf(),
        ensures
            are_lookups(r@, source_set(*self, Source::Effective), Position::Object),
    {
        self.lookups(Source::Effective, Position::Object)
    }

    /// The triples that the chain holds and that have the given object; `None` where there is none.
    pub fn lookup_object(&self, object: u64) -> (r: Option<Lookup>)
        requires
            self.wf(),
        ensures
            match r {
                Some(l) => is_lookup(l, source_set(*self, Source::Effective), Position::Object) && l.key
                    == object,
                None => keyed(source_set(*self, Source::Effective), Position::Object, object)
                    == Set::<IdTriple>::empty(),
            },
    {
        self.lookup(Source::Effective, Position::Object, object)
    }

    /// The triples that this layer adds, grouped by object.
    pub fn object_additions(&self) -> (r: Vec<Lookup>)
        requires
            self.wf(),
        ensures
            are_lookups(r@, source_set(*self, Source::Additions), Position::Object),
    {
        self.lookups(Source::Additions, Position::Object)
    }

    /// The triples that this layer adds and that have the given object; `None` where there is none.
    pub fn lookup_object_addition(&self, object: u64) -> (r: Option<Lookup>)
        requires
            self.wf(),
        ensures
            match r {
                Some(l) => is_lookup(l, source_set(*self, Source::Additions), Position::Object) && l.key
                    == object,
                None => keyed(source_set(*self, Source::Additions), Position::Object, object)
                    == Set::<IdTriple>::empty(),
            },
    {
        self.lookup(Source::Additions, Position::Object, object)
    }

    /// The triples that this layer removes, grouped by object.
    pub fn object_removals(&self) -> (r: Vec<Lookup>)
        requires
            self.wf(),
        ensures
            are_lookups(r@, source_set(*self, Source::Removals), Position::Object),
    {
        self.lookups(Source::Removals, Position::Object)
    }

    /// The triples that this layer removes and that have the given object; `None` where there is none.
    pub fn lookup_object_removal(&self, object: u64) -> (r: Option<Lookup>)
        requires
            self.wf(),
        ensures
            match r {
                Some(l) => is_lookup(l, source_set(*self, Source::Removals), Position::Object) && l.key
                    == object,
                None => keyed(source_set(*self, Source::Removals), Position::Object, object)
                    == Set::<IdTriple>::empty(),
            },
    {
        self.lookup(Source::Removals, Position::Object, object)
    }
}

} // verus!
