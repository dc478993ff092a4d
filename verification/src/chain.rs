//! The mathematical model of a layer chain.
//!
//! A chain is a sequence of layer records, the base layer first and the
//! newest layer last. Its dictionaries are the concatenation of the layers'
//! own dictionaries, and an id is the position of an entry in that
//! concatenation, counted from one.

use vstd::prelude::*;
use crate::triple::{IdTriple, ObjectView, StringTripleView};
use crate::tripleset::sorted;

verus! {

/// The mathematical form of one layer's record.
pub struct LayerView {
    /// The layer's name: five 32-bit words.
    pub name: Seq<u32>,
    /// The parent's name, absent for a base layer.
    pub parent_name: Option<Seq<u32>>,
    /// The nodes and values that this layer adds to the dictionary.
    pub entries: Seq<ObjectView>,
    /// The predicates that this layer adds to the dictionary.
    pub predicates: Seq<Seq<char>>,
    /// The triples that this layer adds, ascending.
    pub additions: Seq<IdTriple>,
    /// The triples that this layer removes, ascending.
    pub removals: Seq<IdTriple>,
}

/// The record of a layer that defines nothing and changes nothing.
pub open spec fn empty_layer(name: Seq<u32>, parent_name: Option<Seq<u32>>) -> LayerView {
    LayerView {
        name,
        parent_name,
        entries: Seq::empty(),
        predicates: Seq::empty(),
        additions: Seq::empty(),
        removals: Seq::empty(),
    }
}

/// The name of the last layer of a chain, if the chain has one.
pub open spec fn top_name(c: Seq<LayerView>) -> Option<Seq<u32>> {
    if c.len() == 0 {
        None
    } else {
        Some(c.last().name)
    }
}

/// The node-and-value dictionary of a chain: id `i` names entry `i - 1`.
pub open spec fn all_entries(c: Seq<LayerView>) -> Seq<ObjectView>
    decreases c.len(),
{
    if c.len() == 0 {
        Seq::empty()
    } else {
        all_entries(c.drop_last()) + c.last().entries
    }
}

/// The predicate dictionary of a chain: id `i` names predicate `i - 1`.
pub open spec fn all_predicates(c: Seq<LayerView>) -> Seq<Seq<char>>
    decreases c.len(),
{
    if c.len() == 0 {
        Seq::empty()
    } else {
        all_predicates(c.drop_last()) + c.last().predicates
    }
}

/// The effective triple set of a chain: from the base layer upwards, each
/// layer's additions are joined in and its removals taken out.
pub open spec fn effective(c: Seq<LayerView>) -> Set<IdTriple>
    decreases c.len(),
{
    if c.len() == 0 {
        Set::empty()
    } else {
        effective(c.drop_last()).union(c.last().additions.to_set()).difference(
            c.last().removals.to_set(),
        )
    }
}

/// The text of a dictionary entry, whatever its tag.
pub open spec fn text(o: ObjectView) -> Seq<char> {
    match o {
        ObjectView::Node(s) => s,
        ObjectView::Value(s) => s,
    }
}

/// Every id of `t` is defined in the dictionaries, and its subject is a node.
pub open spec fn valid_triple(
    entries: Seq<ObjectView>,
    predicates: Seq<Seq<char>>,
    t: IdTriple,
) -> bool {
    &&& 1 <= t.subject <= entries.len()
    &&& entries[t.subject - 1] is Node
    &&& 1 <= t.predicate <= predicates.len()
    &&& 1 <= t.object <= entries.len()
}

/// The human-readable form of a valid id triple.
pub open spec fn resolve(
    entries: Seq<ObjectView>,
    predicates: Seq<Seq<char>>,
    t: IdTriple,
) -> StringTripleView {
    StringTripleView {
        subject: text(entries[t.subject - 1]),
        predicate: predicates[t.predicate - 1],
        object: entries[t.object - 1],
    }
}

/// The human-readable triples that a set of valid id triples stands for.
pub open spec fn string_image(
    entries: Seq<ObjectView>,
    predicates: Seq<Seq<char>>,
    ids: Set<IdTriple>,
) -> Set<StringTripleView> {
    Set::new(
        |st: StringTripleView|
            exists|t: IdTriple| #[trigger]
                ids.contains(t) && valid_triple(entries, predicates, t) && resolve(
                    entries,
                    predicates,
                    t,
                ) == st,
    )
}

/// The human-readable triples that a chain holds.
pub open spec fn string_triples(c: Seq<LayerView>) -> Set<StringTripleView> {
    string_image(all_entries(c), all_predicates(c), effective(c))
}

/// The id under which `e` stands in a dictionary, if it stands there.
pub open spec fn entry_id<T>(dict: Seq<T>, e: T) -> Option<u64> {
    if dict.contains(e) {
        Some((dict.index_of(e) + 1) as u64)
    } else {
        None
    }
}

/// The dictionary entry that `id` names, if the id is defined.
pub open spec fn entry_at<T>(dict: Seq<T>, id: u64) -> Option<T> {
    if 1 <= id <= dict.len() {
        Some(dict[id - 1])
    } else {
        None
    }
}

/// The id triple that stands for `st`, if each of its parts is in the dictionaries.
pub open spec fn intern(
    entries: Seq<ObjectView>,
    predicates: Seq<Seq<char>>,
    st: StringTripleView,
) -> Option<IdTriple> {
    let s = entry_id(entries, ObjectView::Node(st.subject));
    let p = entry_id(predicates, st.predicate);
    let o = entry_id(entries, st.object);
    if s is Some && p is Some && o is Some {
        Some(IdTriple { subject: s.unwrap(), predicate: p.unwrap(), object: o.unwrap() })
    } else {
        None
    }
}

/// In a dictionary without duplicates, the id of the entry at position `i` is `i + 1`.
pub proof fn lemma_entry_id<T>(dict: Seq<T>, i: int)
    requires
        dict.no_duplicates(),
        0 <= i < dict.len(),
        dict.len() < u64::MAX,
    ensures
        entry_id(dict, dict[i]) == Some((i + 1) as u64),
{
    assert(dict.contains(dict[i]));
    let j = dict.index_of(dict[i]);
    assert(0 <= j < dict.len() && dict[j] == dict[i]);
}

/// Interning and resolving are inverse to each other on dictionaries without duplicates.
pub proof fn lemma_intern_resolve(
    entries: Seq<ObjectView>,
    predicates: Seq<Seq<char>>,
    t: IdTriple,
)
    requires
        entries.no_duplicates(),
        predicates.no_duplicates(),
        entries.len() < u64::MAX,
        predicates.len() < u64::MAX,
        valid_triple(entries, predicates, t),
    ensures
        intern(entries, predicates, resolve(entries, predicates, t)) == Some(t),
{
    let e = entries[t.subject - 1];
    assert(e == ObjectView::Node(text(e)));
    lemma_entry_id(entries, t.subject - 1);
    lemma_entry_id(predicates, t.predicate - 1);
    lemma_entry_id(entries, t.object - 1);
}

/// What interning finds is valid and reads as the triple that was looked up.
pub proof fn lemma_intern_valid(
    entries: Seq<ObjectView>,
    predicates: Seq<Seq<char>>,
    st: StringTripleView,
)
    requires
        entries.len() < u64::MAX,
        predicates.len() < u64::MAX,
        intern(entries, predicates, st) is Some,
    ensures
        valid_triple(entries, predicates, intern(entries, predicates, st).unwrap()),
        resolve(entries, predicates, intern(entries, predicates, st).unwrap()) == st,
{
    let n = ObjectView::Node(st.subject);
    let i = entries.index_of(n);
    assert(0 <= i < entries.len() && entries[i] == n);
    let j = predicates.index_of(st.predicate);
    assert(0 <= j < predicates.len() && predicates[j] == st.predicate);
    let k = entries.index_of(st.object);
    assert(0 <= k < entries.len() && entries[k] == st.object);
}

/// A string triple is among those of a set of valid id triples exactly when
/// it interns to a member of the set.
pub proof fn lemma_string_image_intern(
    entries: Seq<ObjectView>,
    predicates: Seq<Seq<char>>,
    ids: Set<IdTriple>,
    st: StringTripleView,
)
    requires
        entries.no_duplicates(),
        predicates.no_duplicates(),
        entries.len() < u64::MAX,
        predicates.len() < u64::MAX,
    ensures
        string_image(entries, predicates, ids).contains(st) <==> (intern(
            entries,
            predicates,
            st,
        ) is Some && ids.contains(intern(entries, predicates, st).unwrap())),
{
    if string_image(entries, predicates, ids).contains(st) {
        let t = choose|t: IdTriple| #[trigger]
            ids.contains(t) && valid_triple(entries, predicates, t) && resolve(
                entries,
                predicates,
                t,
            ) == st;
        lemma_intern_resolve(entries, predicates, t);
    }
    if intern(entries, predicates, st) is Some && ids.contains(
        intern(entries, predicates, st).unwrap(),
    ) {
        lemma_intern_valid(entries, predicates, st);
    }
}

/// What a layer record must satisfy on top of the chain `below` it.
pub open spec fn layer_ok(below: Seq<LayerView>, l: LayerView) -> bool {
    let entries = all_entries(below) + l.entries;
    let predicates = all_predicates(below) + l.predicates;
    &&& l.name.len() == 5
    &&& l.parent_name == (if below.len() == 0 {
        None
    } else {
        Some(below.last().name)
    })
    &&& sorted(l.additions)
    &&& sorted(l.removals)
    &&& entries.no_duplicates()
    &&& predicates.no_duplicates()
    &&& entries.len() < u64::MAX
    &&& predicates.len() < u64::MAX
    &&& forall|t: IdTriple| #[trigger]
        l.additions.contains(t) ==> valid_triple(entries, predicates, t) && !effective(
            below,
        ).contains(t)
    &&& forall|t: IdTriple| #[trigger] l.removals.contains(t) ==> effective(below).contains(t)
}

/// A well-formed chain: it is not empty, and each layer is in order on top
/// of the layers below it.
pub open spec fn wf_chain(c: Seq<LayerView>) -> bool
    decreases c.len(),
{
    &&& c.len() > 0
    &&& layer_ok(c.drop_last(), c.last())
    &&& (c.len() > 1 ==> wf_chain(c.drop_last()))
}

/// Pushing a layer extends the dictionaries and folds its changes into the
/// effective set.
pub proof fn lemma_push(c: Seq<LayerView>, l: LayerView)
    ensures
        all_entries(c.push(l)) == all_entries(c) + l.entries,
        all_predicates(c.push(l)) == all_predicates(c) + l.predicates,
        effective(c.push(l)) == effective(c).union(l.additions.to_set()).difference(
            l.removals.to_set(),
        ),
        wf_chain(c.push(l)) <==> layer_ok(c, l) && (c.len() > 0 ==> wf_chain(c)),
{
    assert(c.push(l).drop_last() =~= c);
    assert(c.push(l).last() == l);
}

/// A triple that is valid stays valid, with the same reading, when the
/// dictionaries grow at their ends.
pub proof fn lemma_valid_grows(
    entries: Seq<ObjectView>,
    predicates: Seq<Seq<char>>,
    more_entries: Seq<ObjectView>,
    more_predicates: Seq<Seq<char>>,
    t: IdTriple,
)
    requires
        valid_triple(entries, predicates, t),
    ensures
        valid_triple(entries + more_entries, predicates + more_predicates, t),
        resolve(entries + more_entries, predicates + more_predicates, t) == resolve(
            entries,
            predicates,
            t,
        ),
{
}

/// In dictionaries without duplicates, two valid triples that read the same
/// are the same.
pub proof fn lemma_resolve_injective(
    entries: Seq<ObjectView>,
    predicates: Seq<Seq<char>>,
    t: IdTriple,
    u: IdTriple,
)
    requires
        entries.no_duplicates(),
        predicates.no_duplicates(),
        valid_triple(entries, predicates, t),
        valid_triple(entries, predicates, u),
        resolve(entries, predicates, t) == resolve(entries, predicates, u),
    ensures
        t == u,
{
    let a = entries[t.subject - 1];
    let b = entries[u.subject - 1];
    assert(a == ObjectView::Node(text(a)));
    assert(b == ObjectView::Node(text(b)));
    assert(a == b);
}

/// Every triple of a well-formed chain is valid in the chain's dictionaries,
/// and the set is finite.
pub proof fn lemma_effective_valid(c: Seq<LayerView>)
    requires
        wf_chain(c),
    ensures
        effective(c).finite(),
        forall|t: IdTriple| #[trigger]
            effective(c).contains(t) ==> valid_triple(all_entries(c), all_predicates(c), t),
    decreases c.len(),
{
    let below = c.drop_last();
    let l = c.last();
    if c.len() > 1 {
        lemma_effective_valid(below);
    }
    vstd::seq_lib::seq_to_set_is_finite(l.additions);
    assert(effective(below).finite());
    assert(effective(below).union(l.additions.to_set()).finite());
    assert(effective(c).finite());
    assert forall|t: IdTriple| #[trigger] effective(c).contains(t) implies valid_triple(
        all_entries(c),
        all_predicates(c),
        t,
    ) by {
        if effective(below).contains(t) {
            lemma_valid_grows(all_entries(below), all_predicates(below), l.entries, l.predicates, t);
        } else {
            assert(l.additions.contains(t));
        }
    }
}

/// In a well-formed chain, the first layer has no parent and every other
/// layer names the layer below it as its parent.
pub proof fn lemma_links(c: Seq<LayerView>, i: int)
    requires
        wf_chain(c),
        0 <= i < c.len(),
    ensures
        i == 0 ==> c[i].parent_name is None,
        i > 0 ==> c[i].parent_name == Some(c[i - 1].name),
    decreases c.len(),
{
    if i < c.len() - 1 {
        lemma_links(c.drop_last(), i);
    } else if i > 0 {
        assert(c.drop_last().last() == c[i - 1]);
    }
}

/// A base layer removes nothing.
pub proof fn lemma_base_has_no_removals(c: Seq<LayerView>)
    requires
        wf_chain(c),
        c.len() == 1,
    ensures
        c[0].removals.len() == 0,
        c[0].parent_name is None,
{
    if c[0].removals.len() > 0 {
        assert(c[0].removals.contains(c[0].removals[0]));
    }
}

/// The dictionary after `e` has been looked up and, where it was missing,
/// given the next id.
pub open spec fn with_entry<T>(dict: Seq<T>, e: T) -> Seq<T> {
    if dict.contains(e) {
        dict
    } else {
        dict.push(e)
    }
}

/// Joining a valid triple to a set of valid triples, while the dictionaries
/// grow at their ends, adds exactly its reading to the readings of the set.
pub proof fn lemma_string_image_insert(
    entries: Seq<ObjectView>,
    predicates: Seq<Seq<char>>,
    more_entries: Seq<ObjectView>,
    more_predicates: Seq<Seq<char>>,
    ids: Set<IdTriple>,
    t: IdTriple,
)
    requires
        forall|u: IdTriple| #[trigger] ids.contains(u) ==> valid_triple(entries, predicates, u),
        valid_triple(entries + more_entries, predicates + more_predicates, t),
    ensures
        string_image(entries + more_entries, predicates + more_predicates, ids.insert(t))
            == string_image(entries, predicates, ids).insert(
            resolve(entries + more_entries, predicates + more_predicates, t),
        ),
{
    let wide_e = entries + more_entries;
    let wide_p = predicates + more_predicates;
    let lhs = string_image(wide_e, wide_p, ids.insert(t));
    let rhs = string_image(entries, predicates, ids).insert(resolve(wide_e, wide_p, t));
    assert forall|st: StringTripleView| lhs.contains(st) <==> rhs.contains(st) by {
        if lhs.contains(st) {
            let u = choose|u: IdTriple| #[trigger]
                ids.insert(t).contains(u) && valid_triple(wide_e, wide_p, u) && resolve(wide_e, wide_p, u) == st;
            if u != t {
                assert(ids.contains(u));
                lemma_valid_grows(entries, predicates, more_entries, more_predicates, u);
            }
        }
        if rhs.contains(st) {
            if st == resolve(wide_e, wide_p, t) {
                assert(ids.insert(t).contains(t));
            } else {
                let u = choose|u: IdTriple| #[trigger]
                    ids.contains(u) && valid_triple(entries, predicates, u) && resolve(
                        entries,
                        predicates,
                        u,
                    ) == st;
                lemma_valid_grows(entries, predicates, more_entries, more_predicates, u);
                assert(ids.insert(t).contains(u));
            }
        }
    }
    assert(lhs =~= rhs);
}

/// Taking a valid triple out of a set of valid triples takes exactly its
/// reading out of the readings of the set.
pub proof fn lemma_string_image_remove(
    entries: Seq<ObjectView>,
    predicates: Seq<Seq<char>>,
    ids: Set<IdTriple>,
    t: IdTriple,
)
    requires
        entries.no_duplicates(),
        predicates.no_duplicates(),
        forall|u: IdTriple| #[trigger] ids.contains(u) ==> valid_triple(entries, predicates, u),
        valid_triple(entries, predicates, t),
    ensures
        string_image(entries, predicates, ids.remove(t)) == string_image(
            entries,
            predicates,
            ids,
        ).remove(resolve(entries, predicates, t)),
{
    let lhs = string_image(entries, predicates, ids.remove(t));
    let rhs = string_image(entries, predicates, ids).remove(resolve(entries, predicates, t));
    assert forall|st: StringTripleView| lhs.contains(st) <==> rhs.contains(st) by {
        if lhs.contains(st) {
            let u = choose|u: IdTriple| #[trigger]
                ids.remove(t).contains(u) && valid_triple(entries, predicates, u) && resolve(
                    entries,
                    predicates,
                    u,
                ) == st;
            assert(ids.contains(u));
            if st == resolve(entries, predicates, t) {
                lemma_resolve_injective(entries, predicates, t, u);
            }
        }
        if rhs.contains(st) {
            let u = choose|u: IdTriple| #[trigger]
                ids.contains(u) && valid_triple(entries, predicates, u) && resolve(
                    entries,
                    predicates,
                    u,
                ) == st;
            assert(ids.remove(t).contains(u));
        }
    }
    assert(lhs =~= rhs);
}

/// The readings of a sequence of id triples, in the same order.
pub open spec fn readings(
    entries: Seq<ObjectView>,
    predicates: Seq<Seq<char>>,
    ts: Seq<IdTriple>,
) -> Seq<StringTripleView> {
    Seq::new(ts.len(), |i: int| resolve(entries, predicates, ts[i]))
}

/// The readings of a sequence of valid triples, as a set, are the readings of its set.
pub proof fn lemma_readings(entries: Seq<ObjectView>, predicates: Seq<Seq<char>>, ts: Seq<IdTriple>)
    requires
        forall|k: int| 0 <= k < ts.len() ==> valid_triple(entries, predicates, #[trigger] ts[k]),
    ensures
        readings(entries, predicates, ts).to_set() == string_image(
            entries,
            predicates,
            ts.to_set(),
        ),
{
    let r = readings(entries, predicates, ts);
    let img = string_image(entries, predicates, ts.to_set());
    assert forall|st: StringTripleView| r.to_set().contains(st) <==> img.contains(st) by {
        if r.contains(st) {
            let k = choose|k: int| 0 <= k < r.len() && r[k] == st;
            assert(ts.contains(ts[k]));
            assert(ts.to_set().contains(ts[k]));
        }
        if img.contains(st) {
            let t = choose|t: IdTriple| #[trigger]
                ts.to_set().contains(t) && valid_triple(entries, predicates, t) && resolve(
                    entries,
                    predicates,
                    t,
                ) == st;
            assert(ts.contains(t));
            let k = choose|k: int| 0 <= k < ts.len() && ts[k] == t;
            assert(r[k] == st);
        }
    }
    assert(r.to_set() =~= img);
}

/// The triples that the last layer of a well-formed chain adds and removes
/// are valid in the chain's dictionaries.
pub proof fn lemma_changes_valid(c: Seq<LayerView>)
    requires
        wf_chain(c),
    ensures
        forall|k: int|
            0 <= k < c.last().additions.len() ==> valid_triple(
                all_entries(c),
                all_predicates(c),
                #[trigger] c.last().additions[k],
            ),
        forall|k: int|
            0 <= k < c.last().removals.len() ==> valid_triple(
                all_entries(c),
                all_predicates(c),
                #[trigger] c.last().removals[k],
            ),
{
    let below = c.drop_last();
    let l = c.last();
    assert forall|k: int| 0 <= k < l.additions.len() implies valid_triple(
        all_entries(c),
        all_predicates(c),
        #[trigger] l.additions[k],
    ) by {
        assert(l.additions.contains(l.additions[k]));
    }
    assert forall|k: int| 0 <= k < l.removals.len() implies valid_triple(
        all_entries(c),
        all_predicates(c),
        #[trigger] l.removals[k],
    ) by {
        let t = l.removals[k];
        assert(l.removals.contains(t));
        assert(effective(below).contains(t));
        if c.len() > 1 {
            lemma_effective_valid(below);
            lemma_valid_grows(all_entries(below), all_predicates(below), l.entries, l.predicates, t);
        }
    }
}

/// Adding the triple that reads as `st`, after each of its parts has been
/// looked up or given the next id, adds exactly `st` to the readings.
pub proof fn lemma_add_reading(
    entries: Seq<ObjectView>,
    predicates: Seq<Seq<char>>,
    ids: Set<IdTriple>,
    st: StringTripleView,
    t: IdTriple,
)
    requires
        forall|u: IdTriple| #[trigger] ids.contains(u) ==> valid_triple(entries, predicates, u),
        ({
            let grown = with_entry(with_entry(entries, ObjectView::Node(st.subject)), st.object);
            let grown_p = with_entry(predicates, st.predicate);
            &&& grown.no_duplicates()
            &&& grown_p.no_duplicates()
            &&& grown.len() < u64::MAX
            &&& grown_p.len() < u64::MAX
            &&& entry_id(with_entry(entries, ObjectView::Node(st.subject)), ObjectView::Node(st.subject))
                == Some(t.subject)
            &&& entry_id(grown, st.object) == Some(t.object)
            &&& entry_id(grown_p, st.predicate) == Some(t.predicate)
        }),
    ensures
        ({
            let grown = with_entry(with_entry(entries, ObjectView::Node(st.subject)), st.object);
            let grown_p = with_entry(predicates, st.predicate);
            &&& valid_triple(grown, grown_p, t)
            &&& intern(grown, grown_p, st) == Some(t)
            &&& string_image(grown, grown_p, ids.insert(t)) == string_image(
                entries,
                predicates,
                ids,
            ).insert(st)
        }),
{
    let n = ObjectView::Node(st.subject);
    let mid = with_entry(entries, n);
    let grown = with_entry(mid, st.object);
    let grown_p = with_entry(predicates, st.predicate);
    let i = mid.index_of(n);
    assert(mid.contains(n));
    assert(0 <= i < mid.len() && mid[i] == n);
    assert(grown[i] == n);
    lemma_entry_id(grown, i);
    assert(intern(grown, grown_p, st) == Some(t));
    lemma_intern_valid(grown, grown_p, st);
    let more = grown.subrange(entries.len() as int, grown.len() as int);
    let more_p = grown_p.subrange(predicates.len() as int, grown_p.len() as int);
    assert(grown =~= entries + more);
    assert(grown_p =~= predicates + more_p);
    lemma_string_image_insert(entries, predicates, more, more_p, ids, t);
}

/// What a chain holds: its dictionaries and its effective triples.
pub struct Holdings {
    pub entries: Seq<ObjectView>,
    pub predicates: Seq<Seq<char>>,
    pub triples: Set<IdTriple>,
}

/// What the chain `c` holds.
pub open spec fn holdings(c: Seq<LayerView>) -> Holdings {
    Holdings { entries: all_entries(c), predicates: all_predicates(c), triples: effective(c) }
}

/// The dictionaries have room for the entries that the triple still needs:
/// after each of its parts has been looked up or given the next id, the
/// dictionaries are still within the id space.
pub open spec fn fits_one(h: Holdings, st: StringTripleView) -> bool {
    &&& with_entry(with_entry(h.entries, ObjectView::Node(st.subject)), st.object).len()
        < u64::MAX
    &&& with_entry(h.predicates, st.predicate).len() < u64::MAX
}

/// The holdings after the triple that reads as `st` has been added: each of
/// its parts is looked up or given the next id, and the triple is joined in.
/// Where the dictionaries lack room for it, nothing changes.
pub open spec fn add_one(h: Holdings, st: StringTripleView) -> Holdings {
    if fits_one(h, st) {
        let entries = with_entry(with_entry(h.entries, ObjectView::Node(st.subject)), st.object);
        let predicates = with_entry(h.predicates, st.predicate);
        Holdings {
            entries,
            predicates,
            triples: h.triples.insert(intern(entries, predicates, st).unwrap()),
        }
    } else {
        h
    }
}

/// The holdings after the triple that reads as `st` has been removed. The
/// dictionaries stay as they are.
pub open spec fn remove_one(h: Holdings, st: StringTripleView) -> Holdings {
    match intern(h.entries, h.predicates, st) {
        Some(t) => Holdings { entries: h.entries, predicates: h.predicates, triples: h.triples.remove(t) },
        None => h,
    }
}

/// The holdings after each triple of a sequence has been added, in order.
pub open spec fn add_each(h: Holdings, sts: Seq<StringTripleView>) -> Holdings
    decreases sts.len(),
{
    if sts.len() == 0 {
        h
    } else {
        add_one(add_each(h, sts.drop_last()), sts.last())
    }
}

/// The holdings after each triple of a sequence has been removed, in order.
pub open spec fn remove_each(h: Holdings, sts: Seq<StringTripleView>) -> Holdings
    decreases sts.len(),
{
    if sts.len() == 0 {
        h
    } else {
        remove_one(remove_each(h, sts.drop_last()), sts.last())
    }
}

/// None of the triples of the sequence is refused for want of room when
/// they are added in order.
pub open spec fn all_fit(h: Holdings, sts: Seq<StringTripleView>) -> bool
    decreases sts.len(),
{
    sts.len() == 0 || (all_fit(h, sts.drop_last()) && fits_one(
        add_each(h, sts.drop_last()),
        sts.last(),
    ))
}

/// The triples of a sequence that are not in the set, in the same order.
pub open spec fn without(sts: Seq<StringTripleView>, held: Set<StringTripleView>) -> Seq<
    StringTripleView,
>
    decreases sts.len(),
{
    if sts.len() == 0 {
        Seq::empty()
    } else if held.contains(sts.last()) {
        without(sts.drop_last(), held)
    } else {
        without(sts.drop_last(), held).push(sts.last())
    }
}

/// The readings of all that a chain holds, ascending by id.
pub open spec fn all_readings(c: Seq<LayerView>) -> Seq<StringTripleView> {
    readings(all_entries(c), all_predicates(c), crate::tripleset::ascending(effective(c)))
}

/// Holdings without dictionary entries and without triples.
pub open spec fn no_holdings() -> Holdings {
    Holdings { entries: Seq::empty(), predicates: Seq::empty(), triples: Set::empty() }
}

/// The entries of `small` are all different and all among those of `big`.
pub open spec fn drawn_from<T>(small: Seq<T>, big: Seq<T>) -> bool {
    &&& small.no_duplicates()
    &&& forall|i: int| 0 <= i < small.len() ==> big.contains(#[trigger] small[i])
}

/// A dictionary whose entries are drawn from another is no longer than the other.
pub proof fn lemma_drawn_len<T>(small: Seq<T>, big: Seq<T>)
    requires
        drawn_from(small, big),
        big.no_duplicates(),
    ensures
        small.len() <= big.len(),
{
    small.unique_seq_to_set();
    big.unique_seq_to_set();
    vstd::seq_lib::seq_to_set_is_finite(big);
    assert forall|x: T| small.to_set().contains(x) implies big.to_set().contains(x) by {
        let i = choose|i: int| 0 <= i < small.len() && small[i] == x;
        assert(big.contains(small[i]));
    }
    vstd::set_lib::lemma_len_subset(small.to_set(), big.to_set());
}

/// Looking up an entry of `big`, or giving it the next id, keeps a
/// dictionary drawn from `big`.
pub proof fn lemma_drawn_with_entry<T>(small: Seq<T>, big: Seq<T>, e: T)
    requires
        drawn_from(small, big),
        big.contains(e),
    ensures
        drawn_from(with_entry(small, e), big),
{
    let grown = with_entry(small, e);
    if !small.contains(e) {
        assert forall|i: int, j: int| 0 <= i < grown.len() && 0 <= j < grown.len() && i
            != j implies grown[i] != grown[j] by {
            if i == small.len() {
                assert(small.contains(small[j]));
            } else if j == small.len() {
                assert(small.contains(small[i]));
            }
        }
        assert forall|i: int| 0 <= i < grown.len() implies big.contains(#[trigger] grown[i]) by {
            if i < small.len() {
                assert(grown[i] == small[i]);
            }
        }
    }
}

/// Adding the readings of valid triples of one chain to empty holdings
/// refuses none of them: the dictionaries that grow are drawn from those of
/// the chain, which are within the id space.
pub proof fn lemma_readings_fit(
    entries: Seq<ObjectView>,
    predicates: Seq<Seq<char>>,
    ts: Seq<IdTriple>,
    k: int,
)
    requires
        entries.no_duplicates(),
        predicates.no_duplicates(),
        entries.len() < u64::MAX,
        predicates.len() < u64::MAX,
        forall|i: int| 0 <= i < ts.len() ==> valid_triple(entries, predicates, #[trigger] ts[i]),
        0 <= k <= ts.len(),
    ensures
        all_fit(no_holdings(), readings(entries, predicates, ts).take(k)),
        drawn_from(
            add_each(no_holdings(), readings(entries, predicates, ts).take(k)).entries,
            entries,
        ),
        drawn_from(
            add_each(no_holdings(), readings(entries, predicates, ts).take(k)).predicates,
            predicates,
        ),
    decreases k,
{
    let all = readings(entries, predicates, ts);
    if k > 0 {
        lemma_readings_fit(entries, predicates, ts, k - 1);
        assert(all.take(k).drop_last() =~= all.take(k - 1));
        let before = add_each(no_holdings(), all.take(k - 1));
        let st = all[k - 1];
        assert(all.take(k).last() == st);
        let t = ts[k - 1];
        assert(valid_triple(entries, predicates, t));
        let a = ObjectView::Node(st.subject);
        assert(entries[t.subject - 1] == a);
        assert(entries.contains(a));
        assert(entries[t.object - 1] == st.object);
        assert(entries.contains(st.object));
        assert(predicates[t.predicate - 1] == st.predicate);
        assert(predicates.contains(st.predicate));
        lemma_drawn_with_entry(before.entries, entries, a);
        lemma_drawn_with_entry(with_entry(before.entries, a), entries, st.object);
        lemma_drawn_with_entry(before.predicates, predicates, st.predicate);
        lemma_drawn_len(with_entry(with_entry(before.entries, a), st.object), entries);
        lemma_drawn_len(with_entry(before.predicates, st.predicate), predicates);
    }
}

/// On dictionaries without duplicates, an ascending sequence of valid
/// triples has as many readings as triples.
pub proof fn lemma_reading_count(
    entries: Seq<ObjectView>,
    predicates: Seq<Seq<char>>,
    ts: Seq<IdTriple>,
)
    requires
        entries.no_duplicates(),
        predicates.no_duplicates(),
        sorted(ts),
        forall|i: int| 0 <= i < ts.len() ==> valid_triple(entries, predicates, #[trigger] ts[i]),
    ensures
        string_image(entries, predicates, ts.to_set()).finite(),
        string_image(entries, predicates, ts.to_set()).len() == ts.len(),
        ts.to_set().len() == ts.len(),
{
    let r = readings(entries, predicates, ts);
    crate::tripleset::lemma_sorted_len(ts);
    assert forall|i: int, j: int| 0 <= i < r.len() && 0 <= j < r.len() && i != j implies r[i]
        != r[j] by {
        if r[i] == r[j] {
            lemma_resolve_injective(entries, predicates, ts[i], ts[j]);
        }
    }
    r.unique_seq_to_set();
    vstd::seq_lib::seq_to_set_is_finite(r);
    lemma_readings(entries, predicates, ts);
}

/// Removing triples leaves the dictionaries as they are.
pub proof fn lemma_remove_keeps_dictionaries(h: Holdings, sts: Seq<StringTripleView>)
    ensures
        remove_each(h, sts).entries == h.entries,
        remove_each(h, sts).predicates == h.predicates,
    decreases sts.len(),
{
    if sts.len() > 0 {
        lemma_remove_keeps_dictionaries(h, sts.drop_last());
    }
}

/// Where the dictionaries have room for two entries and one predicate for
/// each triple of a sequence, none of them is refused.
pub proof fn lemma_room_fits(h: Holdings, sts: Seq<StringTripleView>)
    requires
        h.entries.len() + 2 * sts.len() < u64::MAX,
        h.predicates.len() + sts.len() < u64::MAX,
    ensures
        all_fit(h, sts),
        add_each(h, sts).entries.len() <= h.entries.len() + 2 * sts.len(),
        add_each(h, sts).predicates.len() <= h.predicates.len() + sts.len(),
    decreases sts.len(),
{
    if sts.len() > 0 {
        lemma_room_fits(h, sts.drop_last());
    }
}

} // verus!
