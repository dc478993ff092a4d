//! Sets of id triples kept as strictly ascending vectors.

use vstd::prelude::*;
use crate::triple::{triple_lt, IdTriple};

verus! {

/// The sequence is strictly ascending in (subject, predicate, object) order.
pub open spec fn sorted(s: Seq<IdTriple>) -> bool {
    forall|i: int, j: int| 0 <= i < j < s.len() ==> triple_lt(#[trigger] s[i], #[trigger] s[j])
}

/// A strictly ascending sequence is determined by the set of its elements.
pub proof fn lemma_sorted_unique(a: Seq<IdTriple>, b: Seq<IdTriple>)
    requires
        sorted(a),
        sorted(b),
        a.to_set() == b.to_set(),
    ensures
        a == b,
    decreases a.len(),
{
    if a.len() == 0 {
        if b.len() > 0 {
            assert(b.to_set().contains(b[0]));
            assert(a.contains(b[0]));
        }
        assert(a =~= b);
    } else {
        assert(a.to_set().contains(a[0]));
        assert(b.contains(a[0]));
        let j = choose|j: int| 0 <= j < b.len() && b[j] == a[0];
        assert(b.to_set().contains(b[0]));
        assert(a.contains(b[0]));
        let k = choose|k: int| 0 <= k < a.len() && a[k] == b[0];
        assert(a[0] == b[0]) by {
            if j > 0 {
                assert(triple_lt(b[0], b[j]));
            }
            if k > 0 {
                assert(triple_lt(a[0], a[k]));
            }
        }
        let a1 = a.drop_first();
        let b1 = b.drop_first();
        assert(sorted(a1)) by {
            assert forall|i: int, j: int| 0 <= i < j < a1.len() implies triple_lt(
                #[trigger] a1[i],
                #[trigger] a1[j],
            ) by {
                assert(triple_lt(a[i + 1], a[j + 1]));
            }
        }
        assert(sorted(b1)) by {
            assert forall|i: int, j: int| 0 <= i < j < b1.len() implies triple_lt(
                #[trigger] b1[i],
                #[trigger] b1[j],
            ) by {
                assert(triple_lt(b[i + 1], b[j + 1]));
            }
        }
        assert(a1.to_set() =~= b1.to_set()) by {
            assert forall|t: IdTriple| a1.to_set().contains(t) <==> b1.to_set().contains(t) by {
                if a1.contains(t) {
                    let i = choose|i: int| 0 <= i < a1.len() && a1[i] == t;
                    assert(a[i + 1] == t);
                    assert(triple_lt(a[0], a[i + 1]));
                    assert(a.to_set().contains(t));
                    assert(b.contains(t));
                    let m = choose|m: int| 0 <= m < b.len() && b[m] == t;
                    assert(m > 0);
                    assert(b1[m - 1] == t);
                }
                if b1.contains(t) {
                    let i = choose|i: int| 0 <= i < b1.len() && b1[i] == t;
                    assert(b[i + 1] == t);
                    assert(triple_lt(b[0], b[i + 1]));
                    assert(b.to_set().contains(t));
                    assert(a.contains(t));
                    let m = choose|m: int| 0 <= m < a.len() && a[m] == t;
                    assert(m > 0);
                    assert(a1[m - 1] == t);
                }
            }
        }
        lemma_sorted_unique(a1, b1);
        assert(a =~= b) by {
            assert(a.len() == b.len());
            assert forall|i: int| 0 <= i < a.len() implies a[i] == b[i] by {
                if i > 0 {
                    assert(a1[i - 1] == b1[i - 1]);
                }
            }
        }
    }
}

/// The elements of a prefix that is one longer are those of the prefix and the next element.
pub proof fn lemma_take_to_set<T>(s: Seq<T>, i: int)
    requires
        0 <= i < s.len(),
    ensures
        s.take(i + 1).to_set() == s.take(i).to_set().insert(s[i]),
        s.take(0).to_set() == Set::<T>::empty(),
        s.take(s.len() as int) == s,
{
    let a = s.take(i);
    let b = s.take(i + 1);
    assert forall|t: T| b.to_set().contains(t) <==> a.to_set().insert(s[i]).contains(t) by {
        if b.contains(t) {
            let k = choose|k: int| 0 <= k < b.len() && b[k] == t;
            if k < i {
                assert(a[k] == t);
            }
        }
        if a.contains(t) {
            let k = choose|k: int| 0 <= k < a.len() && a[k] == t;
            assert(b[k] == t);
        }
        if t == s[i] {
            assert(b[i] == t);
        }
    }
    assert(b.to_set() =~= a.to_set().insert(s[i]));
    assert(s.take(0).to_set() =~= Set::<T>::empty());
    assert(s.take(s.len() as int) =~= s);
}

/// Whether `t` has the given subject, predicate and object, where one is given.
pub open spec fn fits(t: IdTriple, s: Option<u64>, p: Option<u64>, o: Option<u64>) -> bool {
    &&& s is Some ==> t.subject == s.unwrap()
    &&& p is Some ==> t.predicate == p.unwrap()
    &&& o is Some ==> t.object == o.unwrap()
}

/// The triples of `set` that have the given subject, predicate and object, where one is given.
pub open spec fn restrict(set: Set<IdTriple>, s: Option<u64>, p: Option<u64>, o: Option<u64>) -> Set<
    IdTriple,
> {
    Set::new(|t: IdTriple| set.contains(t) && fits(t, s, p, o))
}

/// The elements of a finite set of triples as an ascending sequence.
pub open spec fn ascending(set: Set<IdTriple>) -> Seq<IdTriple> {
    choose|s: Seq<IdTriple>| sorted(s) && s.to_set() == set
}

/// An ascending sequence is the ascending sequence of its set.
pub proof fn lemma_ascending(s: Seq<IdTriple>)
    requires
        sorted(s),
    ensures
        ascending(s.to_set()) == s,
{
    let again = ascending(s.to_set());
    assert(sorted(again) && again.to_set() == s.to_set());
    lemma_sorted_unique(again, s);
}

/// An ascending sequence has as many elements as its set.
pub proof fn lemma_sorted_len(s: Seq<IdTriple>)
    requires
        sorted(s),
    ensures
        s.no_duplicates(),
        s.to_set().finite(),
        s.to_set().len() == s.len(),
{
    assert forall|i: int, j: int| 0 <= i < s.len() && 0 <= j < s.len() && i != j implies s[i]
        != s[j] by {
        if i < j {
            assert(triple_lt(s[i], s[j]));
        } else {
            assert(triple_lt(s[j], s[i]));
        }
    }
    s.unique_seq_to_set();
    vstd::seq_lib::seq_to_set_is_finite(s);
}

/// The index of the first element that does not come before `t`.
pub fn lower_bound(v: &Vec<IdTriple>, t: &IdTriple) -> (i: usize)
    requires
        sorted(v@),
    ensures
        i <= v.len(),
        forall|k: int| 0 <= k < i ==> triple_lt(#[trigger] v@[k], *t),
        forall|k: int| i <= k < v.len() ==> !triple_lt(#[trigger] v@[k], *t),
{
    let mut i: usize = 0;
    while i < v.len() && v[i].precedes(t)
        invariant
            i <= v.len(),
            sorted(v@),
            forall|k: int| 0 <= k < i ==> triple_lt(#[trigger] v@[k], *t),
        decreases v.len() - i,
    {
        i = i + 1;
    }
    proof {
        assert forall|k: int| i <= k < v.len() implies !triple_lt(#[trigger] v@[k], *t) by {
            if k > i {
                assert(triple_lt(v@[i as int], v@[k]));
            }
        }
    }
    i
}

/// Whether `t` is an element of the ascending vector.
pub fn contains(v: &Vec<IdTriple>, t: &IdTriple) -> (b: bool)
    requires
        sorted(v@),
    ensures
        b == v@.to_set().contains(*t),
{
    let i = lower_bound(v, t);
    let found = i < v.len() && v[i] == *t;
    proof {
        if !found && v@.contains(*t) {
            let k = choose|k: int| 0 <= k < v.len() && v@[k] == *t;
            if k < i {
                assert(triple_lt(v@[k], *t));
            } else if k > i {
                assert(triple_lt(v@[i as int], v@[k]));
            }
        }
    }
    found
}

/// Adds `t` to the set, keeping the vector ascending.
pub fn insert(v: &mut Vec<IdTriple>, t: IdTriple)
    requires
        sorted(old(v)@),
    ensures
        sorted(final(v)@),
        final(v)@.to_set() == old(v)@.to_set().insert(t),
{
    let i = lower_bound(v, &t);
    if i < v.len() && v[i] == t {
        assert(v@.to_set().contains(t));
        assert(v@.to_set() =~= v@.to_set().insert(t));
    } else {
        let ghost before = v@;
        v.insert(i, t);
        proof {
            assert forall|a: int, b: int| 0 <= a < b < v@.len() implies triple_lt(
                #[trigger] v@[a],
                #[trigger] v@[b],
            ) by {
                let x = if a < i { before[a] } else if a == i { t } else { before[a - 1] };
                let y = if b < i { before[b] } else if b == i { t } else { before[b - 1] };
                assert(v@[a] == x && v@[b] == y);
                if a < i && b > i {
                    assert(triple_lt(before[a], t));
                    assert(!triple_lt(before[b - 1], t));
                } else if a == i {
                    assert(!triple_lt(before[b - 1], t));
                    if b - 1 > i {
                        assert(triple_lt(before[i as int], before[b - 1]));
                    }
                } else if b == i {
                    assert(triple_lt(before[a], t));
                } else if a < i {
                    assert(triple_lt(before[a], before[b]));
                } else {
                    assert(triple_lt(before[a - 1], before[b - 1]));
                }
            }
            assert(v@.to_set() =~= before.to_set().insert(t)) by {
                assert forall|u: IdTriple| v@.to_set().contains(u) <==> before.to_set().insert(
                    t,
                ).contains(u) by {
                    if v@.contains(u) {
                        let k = choose|k: int| 0 <= k < v@.len() && v@[k] == u;
                        if k < i {
                            assert(before[k] == u);
                        } else if k > i {
                            assert(before[k - 1] == u);
                        }
                    }
                    if before.contains(u) {
                        let k = choose|k: int| 0 <= k < before.len() && before[k] == u;
                        if k < i {
                            assert(v@[k] == u);
                        } else {
                            assert(v@[k + 1] == u);
                        }
                    }
                    if u == t {
                        assert(v@[i as int] == u);
                    }
                }
            }
        }
    }
}

/// Takes `t` out of the set, keeping the vector ascending.
pub fn remove(v: &mut Vec<IdTriple>, t: IdTriple)
    requires
        sorted(old(v)@),
    ensures
        sorted(final(v)@),
        final(v)@.to_set() == old(v)@.to_set().remove(t),
{
    let i = lower_bound(v, &t);
    if i < v.len() && v[i] == t {
        let ghost before = v@;
        v.remove(i);
        proof {
            assert forall|a: int, b: int| 0 <= a < b < v@.len() implies triple_lt(
                #[trigger] v@[a],
                #[trigger] v@[b],
            ) by {
                let a0 = if a < i { a } else { a + 1 };
                let b0 = if b < i { b } else { b + 1 };
                assert(v@[a] == before[a0] && v@[b] == before[b0]);
                assert(triple_lt(before[a0], before[b0]));
            }
            assert(v@.to_set() =~= before.to_set().remove(t)) by {
                assert forall|u: IdTriple| v@.to_set().contains(u) <==> before.to_set().remove(
                    t,
                ).contains(u) by {
                    if v@.contains(u) {
                        let k = choose|k: int| 0 <= k < v@.len() && v@[k] == u;
                        let k0 = if k < i { k } else { k + 1 };
                        assert(before[k0] == u);
                        if k0 < i {
                            assert(triple_lt(before[k0], before[i as int]));
                        } else {
                            assert(triple_lt(before[i as int], before[k0]));
                        }
                    }
                    if before.contains(u) && u != t {
                        let k = choose|k: int| 0 <= k < before.len() && before[k] == u;
                        if k < i {
                            assert(v@[k] == u);
                        } else {
                            assert(v@[k - 1] == u);
                        }
                    }
                }
            }
        }
    } else {
        proof {
            if v@.contains(t) {
                let k = choose|k: int| 0 <= k < v.len() && v@[k] == t;
                if k < i {
                    assert(triple_lt(v@[k], t));
                } else if k > i {
                    assert(triple_lt(v@[i as int], v@[k]));
                }
            }
            assert(v@.to_set() =~= v@.to_set().remove(t));
        }
    }
}

/// The triples of the ascending vector that have the given subject,
/// predicate and object, where one is given, in the same order.
pub fn select(v: &Vec<IdTriple>, s: Option<u64>, p: Option<u64>, o: Option<u64>) -> (r: Vec<
    IdTriple,
>)
    requires
        sorted(v@),
    ensures
        sorted(r@),
        r@.to_set() == restrict(v@.to_set(), s, p, o),
{
    let mut r: Vec<IdTriple> = Vec::new();
    let mut i: usize = 0;
    while i < v.len()
        invariant
            i <= v.len(),
            sorted(v@),
            sorted(r@),
            forall|k: int|
                0 <= k < r.len() ==> exists|m: int| 0 <= m < i && v@[m] == #[trigger] r@[k],
            forall|m: int| 0 <= m < i && fits(#[trigger] v@[m], s, p, o) ==> r@.contains(v@[m]),
            forall|k: int| 0 <= k < r.len() ==> fits(#[trigger] r@[k], s, p, o),
        decreases v.len() - i,
    {
        let t = v[i];
        let ok_s = match s {
            Some(x) => t.subject == x,
            None => true,
        };
        let ok_p = match p {
            Some(x) => t.predicate == x,
            None => true,
        };
        let ok_o = match o {
            Some(x) => t.object == x,
            None => true,
        };
        if ok_s && ok_p && ok_o {
            let ghost before = r@;
            r.push(t);
            proof {
                assert forall|a: int, b: int| 0 <= a < b < r@.len() implies triple_lt(
                    #[trigger] r@[a],
                    #[trigger] r@[b],
                ) by {
                    if b == before.len() {
                        let m = choose|m: int| 0 <= m < i && v@[m] == before[a];
                        assert(triple_lt(v@[m], v@[i as int]));
                    } else {
                        assert(triple_lt(before[a], before[b]));
                    }
                }
                assert forall|k: int| 0 <= k < r.len() implies exists|m: int|
                    0 <= m < i + 1 && v@[m] == #[trigger] r@[k] by {
                    if k < before.len() {
                        let m = choose|m: int| 0 <= m < i && v@[m] == before[k];
                        assert(v@[m] == r@[k]);
                    } else {
                        assert(v@[i as int] == r@[k]);
                    }
                }
                assert forall|m: int|
                    0 <= m < i + 1 && fits(#[trigger] v@[m], s, p, o) implies r@.contains(
                    v@[m],
                ) by {
                    if m < i {
                        let k = choose|k: int| 0 <= k < before.len() && before[k] == v@[m];
                        assert(r@[k] == v@[m]);
                    } else {
                        assert(r@[before.len() as int] == v@[m]);
                    }
                }
            }
        }
        i = i + 1;
    }
    proof {
        assert(r@.to_set() =~= restrict(v@.to_set(), s, p, o)) by {
            assert forall|t: IdTriple| r@.to_set().contains(t) <==> restrict(
                v@.to_set(),
                s,
                p,
                o,
            ).contains(t) by {
                if r@.contains(t) {
                    let k = choose|k: int| 0 <= k < r@.len() && r@[k] == t;
                    let m = choose|m: int| 0 <= m < i && v@[m] == r@[k];
                    assert(v@.contains(t));
                }
                if v@.contains(t) && fits(t, s, p, o) {
                    let m = choose|m: int| 0 <= m < v@.len() && v@[m] == t;
                    assert(r@.contains(v@[m]));
                }
            }
        }
    }
    r
}

/// Whether the vector is strictly ascending.
pub fn is_sorted(v: &Vec<IdTriple>) -> (b: bool)
    ensures
        b == sorted(v@),
{
    if v.len() == 0 {
        return true;
    }
    let mut i: usize = 1;
    while i < v.len()
        invariant
            1 <= i <= v.len(),
            sorted(v@.take(i as int)),
        decreases v.len() - i,
    {
        if !v[i - 1].precedes(&v[i]) {
            return false;
        }
        proof {
            let s = v@.take(i + 1);
            assert forall|a: int, b: int| 0 <= a < b < s.len() implies triple_lt(
                #[trigger] s[a],
                #[trigger] s[b],
            ) by {
                if b < i {
                    assert(triple_lt(v@.take(i as int)[a], v@.take(i as int)[b]));
                } else if a < i - 1 {
                    assert(triple_lt(v@.take(i as int)[a], v@.take(i as int)[i - 1]));
                }
            }
        }
        i = i + 1;
    }
    proof {
        assert(v@.take(i as int) =~= v@);
    }
    true
}

} // verus!
