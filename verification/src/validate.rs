//! Checking a record that comes from outside before it is taken into a store.

use vstd::prelude::*;
use crate::chain::{all_entries, all_predicates, effective, layer_ok, valid_triple, LayerView};
use crate::dictionary::{find_object, find_string, object_views, same_name, string_views};
use crate::layer::{LayerData, StoreLayer};
use crate::triple::{IdTriple, ObjectType};
use crate::tripleset::is_sorted;

verus! {

/// The chain behind an optional layer; empty where there is none.
pub open spec fn chain_of(below: Option<&StoreLayer>) -> Seq<LayerView> {
    match below {
        Some(p) => p@,
        None => Seq::empty(),
    }
}

fn parent_matches(below: Option<&StoreLayer>, rec: &LayerData) -> (b: bool)
    requires
        below is Some ==> below.unwrap().wf(),
    ensures
        b == (rec@.parent_name == (if chain_of(below).len() == 0 {
            None
        } else {
            Some(chain_of(below).last().name)
        })),
{
    match below {
        Some(p) => {
            proof {
                p.lemma_wf();
            }
            match rec.parent_name {
                Some(n) => same_name(&n, &p.name()),
                None => false,
            }
        },
        None => rec.parent_name.is_none(),
    }
}

fn entries_are_new(below: Option<&StoreLayer>, rec: &LayerData) -> (b: bool)
    requires
        below is Some ==> below.unwrap().wf(),
    ensures
        b == (all_entries(chain_of(below)) + rec@.entries).no_duplicates(),
{
    let ghost old_ones = all_entries(chain_of(below));
    let ghost new_ones = rec@.entries;
    proof {
        match below {
            Some(p) => {
                p.lemma_wf();
            },
            None => {
                assert(old_ones =~= Seq::empty());
            },
        }
        assert(old_ones + new_ones.take(0) =~= old_ones);
    }
    let mut i: usize = 0;
    while i < rec.entries.len()
        invariant
            i <= rec.entries.len(),
            below is Some ==> below.unwrap().wf(),
            old_ones == all_entries(chain_of(below)),
            new_ones == object_views(rec.entries@),
            (old_ones + new_ones.take(i as int)).no_duplicates(),
        decreases rec.entries.len() - i,
    {
        let known = match below {
            Some(p) => p.object_id(&rec.entries[i]).is_some(),
            None => false,
        };
        let first = find_object(&rec.entries, &rec.entries[i]);
        let ghost e = new_ones[i as int];
        let ghost all = old_ones + new_ones;
        if known {
            proof {
                let k = old_ones.index_of(e);
                assert(0 <= k < old_ones.len() && old_ones[k] == e);
                assert(all[k] == e && all[old_ones.len() + i] == e);
            }
            return false;
        }
        match first {
            Some(j) => {
                if j != i {
                    proof {
                        assert(all[old_ones.len() + j] == e && all[old_ones.len() + i] == e);
                    }
                    return false;
                }
            },
            None => {
                proof {
                    assert(new_ones[i as int] == e);
                }
            },
        }
        proof {
            let now = old_ones + new_ones.take(i as int);
            let next = old_ones + new_ones.take(i + 1);
            assert(next =~= now.push(e));
            assert forall|k: int| 0 <= k < now.len() implies now[k] != e by {
                if k < old_ones.len() {
                    assert(old_ones.contains(now[k]));
                } else {
                    assert(now[k] == new_ones[k - old_ones.len()]);
                }
            }
        }
        i = i + 1;
    }
    proof {
        assert(new_ones.take(i as int) =~= new_ones);
    }
    true
}

fn predicates_are_new(below: Option<&StoreLayer>, rec: &LayerData) -> (b: bool)
    requires
        below is Some ==> below.unwrap().wf(),
    ensures
        b == (all_predicates(chain_of(below)) + rec@.predicates).no_duplicates(),
{
    let ghost old_ones = all_predicates(chain_of(below));
    let ghost new_ones = rec@.predicates;
    proof {
        match below {
            Some(p) => {
                p.lemma_wf();
            },
            None => {
                assert(old_ones =~= Seq::empty());
            },
        }
        assert(old_ones + new_ones.take(0) =~= old_ones);
    }
    let mut i: usize = 0;
    while i < rec.predicates.len()
        invariant
            i <= rec.predicates.len(),
            below is Some ==> below.unwrap().wf(),
            old_ones == all_predicates(chain_of(below)),
            new_ones == string_views(rec.predicates@),
            (old_ones + new_ones.take(i as int)).no_duplicates(),
        decreases rec.predicates.len() - i,
    {
        let known = match below {
            Some(p) => p.predicate_id(rec.predicates[i].as_str()).is_some(),
            None => false,
        };
        let first = find_string(&rec.predicates, &rec.predicates[i]);
        let ghost e = new_ones[i as int];
        let ghost all = old_ones + new_ones;
        if known {
            proof {
                let k = old_ones.index_of(e);
                assert(0 <= k < old_ones.len() && old_ones[k] == e);
                assert(all[k] == e && all[old_ones.len() + i] == e);
            }
            return false;
        }
        match first {
            Some(j) => {
                if j != i {
                    proof {
                        assert(all[old_ones.len() + j] == e && all[old_ones.len() + i] == e);
                    }
                    return false;
                }
            },
            None => {
                proof {
                    assert(new_ones[i as int] == e);
                }
            },
        }
        proof {
            let now = old_ones + new_ones.take(i as int);
            let next = old_ones + new_ones.take(i + 1);
            assert(next =~= now.push(e));
            assert forall|k: int| 0 <= k < now.len() implies now[k] != e by {
                if k < old_ones.len() {
                    assert(old_ones.contains(now[k]));
                } else {
                    assert(now[k] == new_ones[k - old_ones.len()]);
                }
            }
        }
        i = i + 1;
    }
    proof {
        assert(new_ones.take(i as int) =~= new_ones);
    }
    true
}

fn counts_fit(below: Option<&StoreLayer>, rec: &LayerData) -> (r: Option<(u64, u64)>)
    requires
        below is Some ==> below.unwrap().wf(),
    ensures
        match r {
            Some((n, m)) => {
                &&& n == (all_entries(chain_of(below)) + rec@.entries).len()
                &&& m == (all_predicates(chain_of(below)) + rec@.predicates).len()
                &&& n < u64::MAX
                &&& m < u64::MAX
            },
            None => (all_entries(chain_of(below)) + rec@.entries).len() >= u64::MAX || (
            all_predicates(chain_of(below)) + rec@.predicates).len() >= u64::MAX,
        },
{
    let (pn, pm): (u64, u64) = match below {
        Some(p) => {
            proof {
                p.lemma_wf();
            }
            (p.node_and_value_count() as u64, p.predicate_count() as u64)
        },
        None => {
            proof {
                assert(all_entries(chain_of(below)) =~= Seq::empty());
                assert(all_predicates(chain_of(below)) =~= Seq::empty());
            }
            (0, 0)
        },
    };
    let ln: u64 = rec.entries.len() as u64;
    let lm: u64 = rec.predicates.len() as u64;
    if pn >= u64::MAX - ln || pm >= u64::MAX - lm {
        None
    } else {
        Some((pn + ln, pm + lm))
    }
}

fn triple_is_valid(below: Option<&StoreLayer>, rec: &LayerData, n: u64, m: u64, t: &IdTriple) -> (b:
    bool)
    requires
        below is Some ==> below.unwrap().wf(),
        n == (all_entries(chain_of(below)) + rec@.entries).len(),
        m == (all_predicates(chain_of(below)) + rec@.predicates).len(),
    ensures
        b == valid_triple(
            all_entries(chain_of(below)) + rec@.entries,
            all_predicates(chain_of(below)) + rec@.predicates,
            *t,
        ),
{
    if t.subject < 1 || t.subject > n || t.predicate < 1 || t.predicate > m || t.object < 1
        || t.object > n {
        return false;
    }
    let ghost old_ones = all_entries(chain_of(below));
    let ghost new_ones = rec@.entries;
    let known: u64 = n - rec.entries.len() as u64;
    if t.subject <= known {
        assert((old_ones + new_ones)[t.subject - 1] == old_ones[t.subject - 1]);
        match below {
            Some(p) => p.id_subject(t.subject).is_some(),
            None => false,
        }
    } else {
        let k: u64 = t.subject - 1 - known;
        assert(k < rec.entries.len());
        assert((old_ones + new_ones)[t.subject - 1] == new_ones[k as int]);
        match &rec.entries[k as usize] {
            ObjectType::Node(_) => true,
            ObjectType::Value(_) => false,
        }
    }
}

fn holds(below: Option<&StoreLayer>, t: &IdTriple) -> (b: bool)
    requires
        below is Some ==> below.unwrap().wf(),
    ensures
        b == effective(chain_of(below)).contains(*t),
{
    match below {
        Some(p) => p.triple_exists(t.subject, t.predicate, t.object),
        None => false,
    }
}

/// Whether the record is in order on top of the chain `below`: its parent
/// name is that of the chain, its lists are ascending, its dictionary
/// entries are new and leave room in the id space, its additions are valid
/// and not held by the chain, and its removals are held by the chain.
pub fn check_record(below: Option<&StoreLayer>, rec: &LayerData) -> (b: bool)
    requires
        below is Some ==> below.unwrap().wf(),
    ensures
        b == layer_ok(chain_of(below), rec@),
{
    if !parent_matches(below, rec) {
        return false;
    }
    if !is_sorted(&rec.additions) || !is_sorted(&rec.removals) {
        return false;
    }
    if !entries_are_new(below, rec) || !predicates_are_new(below, rec) {
        return false;
    }
    let (n, m) = match counts_fit(below, rec) {
        Some(x) => x,
        None => {
            return false;
        },
    };
    let ghost entries = all_entries(chain_of(below)) + rec@.entries;
    let ghost predicates = all_predicates(chain_of(below)) + rec@.predicates;
    let ghost held = effective(chain_of(below));
    let mut i: usize = 0;
    while i < rec.additions.len()
        invariant
            i <= rec.additions.len(),
            below is Some ==> below.unwrap().wf(),
            entries == all_entries(chain_of(below)) + rec@.entries,
            predicates == all_predicates(chain_of(below)) + rec@.predicates,
            held == effective(chain_of(below)),
            n == entries.len(),
            m == predicates.len(),
            forall|k: int|
                0 <= k < i ==> valid_triple(entries, predicates, #[trigger] rec.additions@[k])
                    && !held.contains(rec.additions@[k]),
        decreases rec.additions.len() - i,
    {
        if !triple_is_valid(below, rec, n, m, &rec.additions[i]) || holds(
            below,
            &rec.additions[i],
        ) {
            assert(rec@.additions.contains(rec.additions@[i as int]));
            return false;
        }
        i = i + 1;
    }
    let mut j: usize = 0;
    while j < rec.removals.len()
        invariant
            j <= rec.removals.len(),
            below is Some ==> below.unwrap().wf(),
            held == effective(chain_of(below)),
            forall|k: int| 0 <= k < j ==> held.contains(#[trigger] rec.removals@[k]),
        decreases rec.removals.len() - j,
    {
        if !holds(below, &rec.removals[j]) {
            assert(rec@.removals.contains(rec.removals@[j as int]));
            return false;
        }
        j = j + 1;
    }
    proof {
        assert(rec@.name.len() == 5);
    }
    true
}

} // verus!
