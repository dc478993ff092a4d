//! Helpers over the vectors that hold dictionary entries.

use vstd::prelude::*;
use crate::triple::{IdTriple, ObjectType, ObjectView};

verus! {

/// The mathematical form of a vector of objects.
pub open spec fn object_views(s: Seq<ObjectType>) -> Seq<ObjectView> {
    Seq::new(s.len(), |i: int| s[i]@)
}

/// The mathematical form of a vector of strings.
pub open spec fn string_views(s: Seq<String>) -> Seq<Seq<char>> {
    Seq::new(s.len(), |i: int| s[i]@)
}

/// The position of the first object equal to `e`.
pub fn find_object(v: &Vec<ObjectType>, e: &ObjectType) -> (r: Option<usize>)
    ensures
        match r {
            Some(i) => i < v.len() && object_views(v@)[i as int] == e@ && forall|k: int|
                0 <= k < i ==> #[trigger] object_views(v@)[k] != e@,
            None => !object_views(v@).contains(e@),
        },
{
    let mut i: usize = 0;
    while i < v.len()
        invariant
            i <= v.len(),
            forall|k: int| 0 <= k < i ==> #[trigger] object_views(v@)[k] != e@,
        decreases v.len() - i,
    {
        if v[i].same(e) {
            return Some(i);
        }
        i = i + 1;
    }
    None
}

/// The position of the first string equal to `s`.
pub fn find_string(v: &Vec<String>, s: &String) -> (r: Option<usize>)
    ensures
        match r {
            Some(i) => i < v.len() && string_views(v@)[i as int] == s@ && forall|k: int|
                0 <= k < i ==> #[trigger] string_views(v@)[k] != s@,
            None => !string_views(v@).contains(s@),
        },
{
    let mut i: usize = 0;
    while i < v.len()
        invariant
            i <= v.len(),
            forall|k: int| 0 <= k < i ==> #[trigger] string_views(v@)[k] != s@,
        decreases v.len() - i,
    {
        if v[i] == *s {
            return Some(i);
        }
        i = i + 1;
    }
    None
}

/// Appends copies of the objects of `src` to `dst`.
pub fn append_objects(dst: &mut Vec<ObjectType>, src: &Vec<ObjectType>)
    ensures
        object_views(final(dst)@) == object_views(old(dst)@) + object_views(src@),
{
    let mut i: usize = 0;
    while i < src.len()
        invariant
            i <= src.len(),
            object_views(dst@) == object_views(old(dst)@) + object_views(src@).take(i as int),
        decreases src.len() - i,
    {
        let ghost before = dst@;
        dst.push(src[i].duplicate());
        proof {
            assert(object_views(dst@) =~= object_views(before).push(src@[i as int]@));
            assert(object_views(src@).take(i + 1) =~= object_views(src@).take(i as int).push(
                src@[i as int]@,
            ));
            assert(object_views(dst@) =~= object_views(old(dst)@) + object_views(src@).take(
                i + 1,
            ));
        }
        i = i + 1;
    }
    proof {
        assert(object_views(src@).take(i as int) =~= object_views(src@));
    }
}

/// Appends copies of the strings of `src` to `dst`.
pub fn append_strings(dst: &mut Vec<String>, src: &Vec<String>)
    ensures
        string_views(final(dst)@) == string_views(old(dst)@) + string_views(src@),
{
    let mut i: usize = 0;
    while i < src.len()
        invariant
            i <= src.len(),
            string_views(dst@) == string_views(old(dst)@) + string_views(src@).take(i as int),
        decreases src.len() - i,
    {
        let ghost before = dst@;
        dst.push(src[i].clone());
        proof {
            assert(string_views(dst@) =~= string_views(before).push(src@[i as int]@));
            assert(string_views(src@).take(i + 1) =~= string_views(src@).take(i as int).push(
                src@[i as int]@,
            ));
            assert(string_views(dst@) =~= string_views(old(dst)@) + string_views(src@).take(
                i + 1,
            ));
        }
        i = i + 1;
    }
    proof {
        assert(string_views(src@).take(i as int) =~= string_views(src@));
    }
}

/// A copy of a vector of triples.
pub fn copy_triples(v: &Vec<IdTriple>) -> (r: Vec<IdTriple>)
    ensures
        r@ == v@,
{
    let mut r: Vec<IdTriple> = Vec::new();
    let mut i: usize = 0;
    while i < v.len()
        invariant
            i <= v.len(),
            r@ == v@.take(i as int),
        decreases v.len() - i,
    {
        r.push(v[i]);
        proof {
            assert(v@.take(i + 1) =~= v@.take(i as int).push(v@[i as int]));
        }
        i = i + 1;
    }
    proof {
        assert(v@.take(i as int) =~= v@);
    }
    r
}

/// Whether two layer names are the same five words.
pub fn same_name(a: &[u32; 5], b: &[u32; 5]) -> (r: bool)
    ensures
        r == (a@ == b@),
{
    let r = a[0] == b[0] && a[1] == b[1] && a[2] == b[2] && a[3] == b[3] && a[4] == b[4];
    proof {
        if r {
            assert(a@ =~= b@);
        }
    }
    r
}

/// Whether two vectors hold the same objects in the same order.
pub fn same_objects(a: &Vec<ObjectType>, b: &Vec<ObjectType>) -> (r: bool)
    ensures
        r == (object_views(a@) == object_views(b@)),
{
    if a.len() != b.len() {
        assert(object_views(a@).len() != object_views(b@).len());
        return false;
    }
    let mut i: usize = 0;
    while i < a.len()
        invariant
            i <= a.len(),
            a.len() == b.len(),
            forall|k: int| 0 <= k < i ==> #[trigger] object_views(a@)[k] == object_views(b@)[k],
        decreases a.len() - i,
    {
        if !a[i].same(&b[i]) {
            assert(object_views(a@)[i as int] != object_views(b@)[i as int]);
            return false;
        }
        i = i + 1;
    }
    assert(object_views(a@) =~= object_views(b@));
    true
}

/// Whether two vectors hold the same strings in the same order.
pub fn same_strings(a: &Vec<String>, b: &Vec<String>) -> (r: bool)
    ensures
        r == (string_views(a@) == string_views(b@)),
{
    if a.len() != b.len() {
        assert(string_views(a@).len() != string_views(b@).len());
        return false;
    }
    let mut i: usize = 0;
    while i < a.len()
        invariant
            i <= a.len(),
            a.len() == b.len(),
            forall|k: int| 0 <= k < i ==> #[trigger] string_views(a@)[k] == string_views(b@)[k],
        decreases a.len() - i,
    {
        if a[i] != b[i] {
            assert(string_views(a@)[i as int] != string_views(b@)[i as int]);
            return false;
        }
        i = i + 1;
    }
    assert(string_views(a@) =~= string_views(b@));
    true
}

/// Whether two vectors hold the same triples in the same order.
pub fn same_triples(a: &Vec<IdTriple>, b: &Vec<IdTriple>) -> (r: bool)
    ensures
        r == (a@ == b@),
{
    if a.len() != b.len() {
        assert(a@.len() != b@.len());
        return false;
    }
    let mut i: usize = 0;
    while i < a.len()
        invariant
            i <= a.len(),
            a.len() == b.len(),
            forall|k: int| 0 <= k < i ==> a@[k] == b@[k],
        decreases a.len() - i,
    {
        if a[i] != b[i] {
            assert(a@[i as int] != b@[i as int]);
            return false;
        }
        i = i + 1;
    }
    assert(a@ =~= b@);
    true
}

} // verus!
