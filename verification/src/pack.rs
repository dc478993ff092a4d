//! The pack: a set of layer records as one string of bytes.
//!
//! A pack is a list of records. A list is its length followed by its
//! items; a number is eight bytes, least significant first; a text is the
//! length of its UTF-8 form followed by that form.

use vstd::prelude::*;
use vstd::bytes::{
    lemma_auto_spec_u64_to_from_le_bytes, spec_u64_from_le_bytes, spec_u64_to_le_bytes,
    u64_from_le_bytes, u64_to_le_bytes,
};
use vstd::utf8::{
    decode_utf8, encode_utf8, encode_utf8_decode_utf8, encode_utf8_valid_utf8, valid_utf8,
};
use crate::chain::LayerView;
use crate::dictionary::{object_views, string_views};
use crate::label::{name_view, Label, LabelView};
use crate::layer::LayerData;
use crate::triple::{IdTriple, ObjectType, ObjectView};

verus! {

/// A number as bytes.
pub open spec fn enc_word(x: u64) -> Seq<u8> {
    spec_u64_to_le_bytes(x)
}

/// A text as bytes.
pub open spec fn enc_text(s: Seq<char>) -> Seq<u8> {
    enc_word(encode_utf8(s).len() as u64) + encode_utf8(s)
}

/// A layer name as bytes.
pub open spec fn enc_name(n: Seq<u32>) -> Seq<u8> {
    enc_word(n[0] as u64) + enc_word(n[1] as u64) + enc_word(n[2] as u64) + enc_word(n[3] as u64)
        + enc_word(n[4] as u64)
}

/// An optional layer name as bytes.
pub open spec fn enc_parent(p: Option<Seq<u32>>) -> Seq<u8> {
    match p {
        None => enc_word(0),
        Some(n) => enc_word(1) + enc_name(n),
    }
}

/// A dictionary entry as bytes.
pub open spec fn enc_object(o: ObjectView) -> Seq<u8> {
    match o {
        ObjectView::Node(s) => enc_word(0) + enc_text(s),
        ObjectView::Value(s) => enc_word(1) + enc_text(s),
    }
}

/// An id triple as bytes.
pub open spec fn enc_triple(t: IdTriple) -> Seq<u8> {
    enc_word(t.subject) + enc_word(t.predicate) + enc_word(t.object)
}

/// The items of a list as bytes, one after the other.
pub open spec fn enc_items<T>(items: Seq<T>, enc: spec_fn(T) -> Seq<u8>) -> Seq<u8>
    decreases items.len(),
{
    if items.len() == 0 {
        Seq::empty()
    } else {
        enc(items[0]) + enc_items(items.drop_first(), enc)
    }
}

/// A list as bytes.
pub open spec fn enc_list<T>(items: Seq<T>, enc: spec_fn(T) -> Seq<u8>) -> Seq<u8> {
    enc_word(items.len() as u64) + enc_items(items, enc)
}

/// A layer record as bytes.
pub open spec fn enc_layer(l: LayerView) -> Seq<u8> {
    enc_name(l.name) + enc_parent(l.parent_name) + enc_list(
        l.entries,
        |o: ObjectView| enc_object(o),
    ) + enc_list(l.predicates, |s: Seq<char>| enc_text(s)) + enc_list(
        l.additions,
        |t: IdTriple| enc_triple(t),
    ) + enc_list(l.removals, |t: IdTriple| enc_triple(t))
}

/// A pack of layer records as bytes.
pub open spec fn enc_pack(ls: Seq<LayerView>) -> Seq<u8> {
    enc_list(ls, |l: LayerView| enc_layer(l))
}

/// Reads a number off the front of the bytes.
pub open spec fn dec_word(b: Seq<u8>) -> Option<(u64, Seq<u8>)> {
    if b.len() >= 8 {
        Some((spec_u64_from_le_bytes(b.take(8)), b.skip(8)))
    } else {
        None
    }
}

/// Reads a text off the front of the bytes.
pub open spec fn dec_text(b: Seq<u8>) -> Option<(Seq<char>, Seq<u8>)> {
    match dec_word(b) {
        Some((n, r)) => if n <= r.len() && valid_utf8(r.take(n as int)) {
            Some((decode_utf8(r.take(n as int)), r.skip(n as int)))
        } else {
            None
        },
        None => None,
    }
}

/// Reads one word of a layer name off the front of the bytes.
pub open spec fn dec_part(b: Seq<u8>) -> Option<(u32, Seq<u8>)> {
    match dec_word(b) {
        Some((x, r)) => if x <= u32::MAX {
            Some((x as u32, r))
        } else {
            None
        },
        None => None,
    }
}

/// Reads a layer name off the front of the bytes.
pub open spec fn dec_name(b: Seq<u8>) -> Option<(Seq<u32>, Seq<u8>)> {
    match dec_part(b) {
        Some((a0, r0)) => match dec_part(r0) {
            Some((a1, r1)) => match dec_part(r1) {
                Some((a2, r2)) => match dec_part(r2) {
                    Some((a3, r3)) => match dec_part(r3) {
                        Some((a4, r4)) => Some((seq![a0, a1, a2, a3, a4], r4)),
                        None => None,
                    },
                    None => None,
                },
                None => None,
            },
            None => None,
        },
        None => None,
    }
}

/// Reads an optional layer name off the front of the bytes.
pub open spec fn dec_parent(b: Seq<u8>) -> Option<(Option<Seq<u32>>, Seq<u8>)> {
    match dec_word(b) {
        Some((flag, r)) => if flag == 0 {
            Some((None, r))
        } else if flag == 1 {
            match dec_name(r) {
                Some((n, r1)) => Some((Some(n), r1)),
                None => None,
            }
        } else {
            None
        },
        None => None,
    }
}

/// Reads a dictionary entry off the front of the bytes.
pub open spec fn dec_object(b: Seq<u8>) -> Option<(ObjectView, Seq<u8>)> {
    match dec_word(b) {
        Some((tag, r)) => if tag <= 1 {
            match dec_text(r) {
                Some((s, r1)) => Some(
                    (
                        if tag == 0 {
                            ObjectView::Node(s)
                        } else {
                            ObjectView::Value(s)
                        },
                        r1,
                    ),
                ),
                None => None,
            }
        } else {
            None
        },
        None => None,
    }
}

/// Reads an id triple off the front of the bytes.
pub open spec fn dec_triple(b: Seq<u8>) -> Option<(IdTriple, Seq<u8>)> {
    match dec_word(b) {
        Some((s, r0)) => match dec_word(r0) {
            Some((p, r1)) => match dec_word(r1) {
                Some((o, r2)) => Some((IdTriple { subject: s, predicate: p, object: o }, r2)),
                None => None,
            },
            None => None,
        },
        None => None,
    }
}

/// Reads `n` items off the front of the bytes.
pub open spec fn dec_items<T>(
    n: nat,
    b: Seq<u8>,
    dec: spec_fn(Seq<u8>) -> Option<(T, Seq<u8>)>,
) -> Option<(Seq<T>, Seq<u8>)>
    decreases n,
{
    if n == 0 {
        Some((Seq::empty(), b))
    } else {
        match dec(b) {
            Some((x, r)) => match dec_items((n - 1) as nat, r, dec) {
                Some((xs, r1)) => Some((seq![x] + xs, r1)),
                None => None,
            },
            None => None,
        }
    }
}

/// Reads a list off the front of the bytes.
pub open spec fn dec_list<T>(b: Seq<u8>, dec: spec_fn(Seq<u8>) -> Option<(T, Seq<u8>)>) -> Option<
    (Seq<T>, Seq<u8>),
> {
    match dec_word(b) {
        Some((n, r)) => dec_items(n as nat, r, dec),
        None => None,
    }
}

/// Reads a layer record off the front of the bytes.
pub open spec fn dec_layer(b: Seq<u8>) -> Option<(LayerView, Seq<u8>)> {
    match dec_name(b) {
        Some((name, r0)) => match dec_parent(r0) {
            Some((parent_name, r1)) => match dec_list(r1, |x: Seq<u8>| dec_object(x)) {
                Some((entries, r2)) => match dec_list(r2, |x: Seq<u8>| dec_text(x)) {
                    Some((predicates, r3)) => match dec_list(r3, |x: Seq<u8>| dec_triple(x)) {
                        Some((additions, r4)) => match dec_list(r4, |x: Seq<u8>| dec_triple(x)) {
                            Some((removals, r5)) => Some(
                                (
                                    LayerView {
                                        name,
                                        parent_name,
                                        entries,
                                        predicates,
                                        additions,
                                        removals,
                                    },
                                    r5,
                                ),
                            ),
                            None => None,
                        },
                        None => None,
                    },
                    None => None,
                },
                None => None,
            },
            None => None,
        },
        None => None,
    }
}

/// Reads a pack: a list of layer records with nothing after it.
pub open spec fn dec_pack(b: Seq<u8>) -> Option<Seq<LayerView>> {
    match dec_list(b, |x: Seq<u8>| dec_layer(x)) {
        Some((ls, r)) => if r.len() == 0 {
            Some(ls)
        } else {
            None
        },
        None => None,
    }
}

/// The lengths in a layer record fit in the numbers that a pack writes.
pub open spec fn fits(l: LayerView) -> bool {
    &&& l.name.len() == 5
    &&& l.parent_name matches Some(p) ==> p.len() == 5
    &&& l.entries.len() <= u64::MAX
    &&& l.predicates.len() <= u64::MAX
    &&& l.additions.len() <= u64::MAX
    &&& l.removals.len() <= u64::MAX
    &&& forall|i: int|
        0 <= i < l.entries.len() ==> encode_utf8(crate::chain::text(#[trigger] l.entries[i])).len()
            <= u64::MAX
    &&& forall|i: int|
        0 <= i < l.predicates.len() ==> encode_utf8(#[trigger] l.predicates[i]).len() <= u64::MAX
}

/// What was written as a number is read back as that number.
pub proof fn lemma_word(x: u64, rest: Seq<u8>)
    ensures
        dec_word(enc_word(x) + rest) == Some((x, rest)),
        enc_word(x).len() == 8,
{
    lemma_auto_spec_u64_to_from_le_bytes();
    assert((enc_word(x) + rest).take(8) =~= enc_word(x));
    assert((enc_word(x) + rest).skip(8) =~= rest);
}

/// What was written as a text is read back as that text.
pub proof fn lemma_text(s: Seq<char>, rest: Seq<u8>)
    requires
        encode_utf8(s).len() <= u64::MAX,
    ensures
        dec_text(enc_text(s) + rest) == Some((s, rest)),
{
    let body = encode_utf8(s);
    let n = body.len() as u64;
    assert(enc_text(s) + rest =~= enc_word(n) + (body + rest));
    lemma_word(n, body + rest);
    assert((body + rest).take(n as int) =~= body);
    assert((body + rest).skip(n as int) =~= rest);
    encode_utf8_valid_utf8(s);
    encode_utf8_decode_utf8(s);
}

/// What was written as a layer name is read back as that name.
pub proof fn lemma_name(n: Seq<u32>, rest: Seq<u8>)
    requires
        n.len() == 5,
    ensures
        dec_name(enc_name(n) + rest) == Some((n, rest)),
{
    let w0 = enc_word(n[0] as u64);
    let w1 = enc_word(n[1] as u64);
    let w2 = enc_word(n[2] as u64);
    let w3 = enc_word(n[3] as u64);
    let w4 = enc_word(n[4] as u64);
    assert(enc_name(n) + rest =~= w0 + (w1 + (w2 + (w3 + (w4 + rest)))));
    lemma_word(n[0] as u64, w1 + (w2 + (w3 + (w4 + rest))));
    lemma_word(n[1] as u64, w2 + (w3 + (w4 + rest)));
    lemma_word(n[2] as u64, w3 + (w4 + rest));
    lemma_word(n[3] as u64, w4 + rest);
    lemma_word(n[4] as u64, rest);
    assert(seq![n[0], n[1], n[2], n[3], n[4]] =~= n);
}

/// What was written as an optional layer name is read back as it was.
pub proof fn lemma_parent(p: Option<Seq<u32>>, rest: Seq<u8>)
    requires
        p matches Some(n) ==> n.len() == 5,
    ensures
        dec_parent(enc_parent(p) + rest) == Some((p, rest)),
{
    match p {
        None => {
            lemma_word(0, rest);
        },
        Some(n) => {
            assert(enc_parent(p) + rest =~= enc_word(1) + (enc_name(n) + rest));
            lemma_word(1, enc_name(n) + rest);
            lemma_name(n, rest);
        },
    }
}

/// What was written as a dictionary entry is read back as that entry.
pub proof fn lemma_object(o: ObjectView, rest: Seq<u8>)
    requires
        encode_utf8(crate::chain::text(o)).len() <= u64::MAX,
    ensures
        dec_object(enc_object(o) + rest) == Some((o, rest)),
{
    match o {
        ObjectView::Node(s) => {
            assert(enc_object(o) + rest =~= enc_word(0) + (enc_text(s) + rest));
            lemma_word(0, enc_text(s) + rest);
            lemma_text(s, rest);
        },
        ObjectView::Value(s) => {
            assert(enc_object(o) + rest =~= enc_word(1) + (enc_text(s) + rest));
            lemma_word(1, enc_text(s) + rest);
            lemma_text(s, rest);
        },
    }
}

/// What was written as an id triple is read back as that triple.
pub proof fn lemma_triple(t: IdTriple, rest: Seq<u8>)
    ensures
        dec_triple(enc_triple(t) + rest) == Some((t, rest)),
{
    let w1 = enc_word(t.predicate);
    let w2 = enc_word(t.object);
    assert(enc_triple(t) + rest =~= enc_word(t.subject) + (w1 + (w2 + rest)));
    lemma_word(t.subject, w1 + (w2 + rest));
    lemma_word(t.predicate, w2 + rest);
    lemma_word(t.object, rest);
}

/// Items that are each read back as written are read back as written one after the other.
pub proof fn lemma_items<T>(
    items: Seq<T>,
    enc: spec_fn(T) -> Seq<u8>,
    dec: spec_fn(Seq<u8>) -> Option<(T, Seq<u8>)>,
    rest: Seq<u8>,
)
    requires
        forall|i: int, r: Seq<u8>|
            0 <= i < items.len() ==> #[trigger] dec(enc(items[i]) + r) == Some((items[i], r)),
    ensures
        dec_items(items.len(), enc_items(items, enc) + rest, dec) == Some((items, rest)),
    decreases items.len(),
{
    if items.len() == 0 {
        assert(enc_items(items, enc) + rest =~= rest);
        assert(items =~= Seq::empty());
    } else {
        let tail = items.drop_first();
        assert(enc_items(items, enc) + rest =~= enc(items[0]) + (enc_items(tail, enc) + rest));
        assert(dec(enc(items[0]) + (enc_items(tail, enc) + rest)) == Some(
            (items[0], enc_items(tail, enc) + rest),
        ));
        assert forall|i: int, r: Seq<u8>| 0 <= i < tail.len() implies #[trigger] dec(
            enc(tail[i]) + r,
        ) == Some((tail[i], r)) by {
            assert(tail[i] == items[i + 1]);
            assert(dec(enc(items[i + 1]) + r) == Some((items[i + 1], r)));
        }
        lemma_items(tail, enc, dec, rest);
        assert(seq![items[0]] + tail =~= items);
    }
}

/// A list whose items are each read back as written is read back as written.
pub proof fn lemma_list<T>(
    items: Seq<T>,
    enc: spec_fn(T) -> Seq<u8>,
    dec: spec_fn(Seq<u8>) -> Option<(T, Seq<u8>)>,
    rest: Seq<u8>,
)
    requires
        items.len() <= u64::MAX,
        forall|i: int, r: Seq<u8>|
            0 <= i < items.len() ==> #[trigger] dec(enc(items[i]) + r) == Some((items[i], r)),
    ensures
        dec_list(enc_list(items, enc) + rest, dec) == Some((items, rest)),
{
    assert(enc_list(items, enc) + rest =~= enc_word(items.len() as u64) + (enc_items(items, enc)
        + rest));
    lemma_word(items.len() as u64, enc_items(items, enc) + rest);
    lemma_items(items, enc, dec, rest);
}

/// What was written as a layer record is read back as that record.
pub proof fn lemma_layer(l: LayerView, rest: Seq<u8>)
    requires
        fits(l),
    ensures
        dec_layer(enc_layer(l) + rest) == Some((l, rest)),
{
    let e_obj = |o: ObjectView| enc_object(o);
    let d_obj = |x: Seq<u8>| dec_object(x);
    let e_txt = |s: Seq<char>| enc_text(s);
    let d_txt = |x: Seq<u8>| dec_text(x);
    let e_tri = |t: IdTriple| enc_triple(t);
    let d_tri = |x: Seq<u8>| dec_triple(x);
    let b5 = enc_list(l.removals, e_tri) + rest;
    let b4 = enc_list(l.additions, e_tri) + b5;
    let b3 = enc_list(l.predicates, e_txt) + b4;
    let b2 = enc_list(l.entries, e_obj) + b3;
    let b1 = enc_parent(l.parent_name) + b2;
    assert(enc_layer(l) + rest =~= enc_name(l.name) + b1);
    lemma_name(l.name, b1);
    lemma_parent(l.parent_name, b2);
    assert forall|i: int, r: Seq<u8>| 0 <= i < l.entries.len() implies #[trigger] d_obj(
        e_obj(l.entries[i]) + r,
    ) == Some((l.entries[i], r)) by {
        lemma_object(l.entries[i], r);
    }
    lemma_list(l.entries, e_obj, d_obj, b3);
    assert forall|i: int, r: Seq<u8>| 0 <= i < l.predicates.len() implies #[trigger] d_txt(
        e_txt(l.predicates[i]) + r,
    ) == Some((l.predicates[i], r)) by {
        lemma_text(l.predicates[i], r);
    }
    lemma_list(l.predicates, e_txt, d_txt, b4);
    assert forall|i: int, r: Seq<u8>| 0 <= i < l.additions.len() implies #[trigger] d_tri(
        e_tri(l.additions[i]) + r,
    ) == Some((l.additions[i], r)) by {
        lemma_triple(l.additions[i], r);
    }
    lemma_list(l.additions, e_tri, d_tri, b5);
    assert forall|i: int, r: Seq<u8>| 0 <= i < l.removals.len() implies #[trigger] d_tri(
        e_tri(l.removals[i]) + r,
    ) == Some((l.removals[i], r)) by {
        lemma_triple(l.removals[i], r);
    }
    lemma_list(l.removals, e_tri, d_tri, rest);
}

/// A pack is read back as the records that were written into it.
pub proof fn law_pack_round_trip(ls: Seq<LayerView>)
    requires
        ls.len() <= u64::MAX,
        forall|i: int| 0 <= i < ls.len() ==> fits(#[trigger] ls[i]),
    ensures
        dec_pack(enc_pack(ls)) == Some(ls),
{
    let e = |l: LayerView| enc_layer(l);
    let d = |x: Seq<u8>| dec_layer(x);
    assert forall|i: int, r: Seq<u8>| 0 <= i < ls.len() implies #[trigger] d(e(ls[i]) + r)
        == Some((ls[i], r)) by {
        lemma_layer(ls[i], r);
    }
    lemma_list(ls, e, d, Seq::empty());
    assert(enc_pack(ls) + Seq::<u8>::empty() =~= enc_pack(ls));
}

/// Writing one more item after a list of items appends its bytes.
pub proof fn lemma_enc_items_push<T>(items: Seq<T>, x: T, enc: spec_fn(T) -> Seq<u8>)
    ensures
        enc_items(items.push(x), enc) == enc_items(items, enc) + enc(x),
    decreases items.len(),
{
    if items.len() == 0 {
        assert(items.push(x).drop_first() =~= Seq::<T>::empty());
        assert(enc_items(items.push(x), enc) =~= enc(x) + enc_items(Seq::<T>::empty(), enc));
        assert(enc_items(items, enc) + enc(x) =~= enc(x));
        assert(enc(x) + enc_items(Seq::<T>::empty(), enc) =~= enc(x));
    } else {
        assert(items.push(x).drop_first() =~= items.drop_first().push(x));
        lemma_enc_items_push(items.drop_first(), x, enc);
        assert(enc_items(items.push(x), enc) =~= enc_items(items, enc) + enc(x));
    }
}

/// What has been read so far, put in front of what is read next.
pub open spec fn prepend<T>(done: Seq<T>, next: Option<(Seq<T>, Seq<u8>)>) -> Option<
    (Seq<T>, Seq<u8>),
> {
    match next {
        Some((xs, rest)) => Some((done + xs, rest)),
        None => None,
    }
}

/// Reading `n` items is reading one item and then the other `n - 1`.
pub proof fn lemma_items_step<T>(
    done: Seq<T>,
    n: nat,
    b: Seq<u8>,
    dec: spec_fn(Seq<u8>) -> Option<(T, Seq<u8>)>,
)
    requires
        n > 0,
    ensures
        prepend(done, dec_items(n, b, dec)) == (match dec(b) {
            Some((x, r)) => prepend(done.push(x), dec_items((n - 1) as nat, r, dec)),
            None => None,
        }),
        prepend(done, dec_items(0, b, dec)) == Some((done, b)),
{
    assert(done + Seq::<T>::empty() =~= done);
    match dec(b) {
        Some((x, r)) => {
            match dec_items((n - 1) as nat, r, dec) {
                Some((xs, r1)) => {
                    assert(done + (seq![x] + xs) =~= done.push(x) + xs);
                },
                None => {},
            }
        },
        None => {},
    }
}

/// `String::from_utf8` makes a string of the bytes exactly when they are
/// valid UTF-8, and the UTF-8 form of that string is then those bytes.
#[verifier::external_body]
fn text_from_utf8(bytes: Vec<u8>) -> (r: Option<String>)
    ensures
        r is Some <==> valid_utf8(bytes@),
        r matches Some(s) ==> encode_utf8(s@) == bytes@,
{
    String::from_utf8(bytes).ok()
}

/// Appends the bytes of a number.
pub fn write_word(out: &mut Vec<u8>, x: u64)
    ensures
        final(out)@ == old(out)@ + enc_word(x),
{
    let mut w = u64_to_le_bytes(x);
    out.append(&mut w);
}

fn write_text(out: &mut Vec<u8>, s: &str)
    ensures
        final(out)@ == old(out)@ + enc_text(s@),
        encode_utf8(s@).len() <= u64::MAX,
{
    let bytes = s.as_bytes();
    write_word(out, bytes.len() as u64);
    let ghost start = out@;
    let mut i: usize = 0;
    while i < bytes.len()
        invariant
            i <= bytes.len(),
            out@ == start + bytes@.take(i as int),
        decreases bytes.len() - i,
    {
        out.push(bytes[i]);
        proof {
            assert(bytes@.take(i + 1) =~= bytes@.take(i as int).push(bytes@[i as int]));
            assert(out@ =~= start + bytes@.take(i + 1));
        }
        i = i + 1;
    }
    proof {
        assert(bytes@.take(i as int) =~= bytes@);
        assert(out@ =~= old(out)@ + enc_text(s@));
    }
}

fn write_name(out: &mut Vec<u8>, n: &[u32; 5])
    ensures
        final(out)@ == old(out)@ + enc_name(n@),
{
    write_word(out, n[0] as u64);
    write_word(out, n[1] as u64);
    write_word(out, n[2] as u64);
    write_word(out, n[3] as u64);
    write_word(out, n[4] as u64);
    proof {
        assert(out@ =~= old(out)@ + enc_name(n@));
    }
}

fn write_parent(out: &mut Vec<u8>, p: &Option<[u32; 5]>)
    ensures
        final(out)@ == old(out)@ + enc_parent(crate::label::name_view(*p)),
{
    match p {
        None => {
            write_word(out, 0);
        },
        Some(n) => {
            write_word(out, 1);
            write_name(out, n);
            proof {
                assert(out@ =~= old(out)@ + enc_parent(Some(n@)));
            }
        },
    }
}

fn write_object(out: &mut Vec<u8>, o: &ObjectType)
    ensures
        final(out)@ == old(out)@ + enc_object(o@),
        encode_utf8(crate::chain::text(o@)).len() <= u64::MAX,
{
    match o {
        ObjectType::Node(s) => {
            write_word(out, 0);
            write_text(out, s.as_str());
        },
        ObjectType::Value(s) => {
            write_word(out, 1);
            write_text(out, s.as_str());
        },
    }
    proof {
        assert(out@ =~= old(out)@ + enc_object(o@));
    }
}

fn write_triple(out: &mut Vec<u8>, t: &IdTriple)
    ensures
        final(out)@ == old(out)@ + enc_triple(*t),
{
    write_word(out, t.subject);
    write_word(out, t.predicate);
    write_word(out, t.object);
    proof {
        assert(out@ =~= old(out)@ + enc_triple(*t));
    }
}

fn write_objects(out: &mut Vec<u8>, v: &Vec<ObjectType>)
    ensures
        final(out)@ == old(out)@ + enc_list(object_views(v@), |o: ObjectView| enc_object(o)),
        forall|i: int|
            0 <= i < v@.len() ==> encode_utf8(
                crate::chain::text(#[trigger] object_views(v@)[i]),
            ).len() <= u64::MAX,
{
    let ghost enc = |o: ObjectView| enc_object(o);
    let ghost items = object_views(v@);
    write_word(out, v.len() as u64);
    let ghost start = out@;
    let mut i: usize = 0;
    proof {
        assert(items.take(0) =~= Seq::empty());
        assert(out@ =~= start + enc_items(items.take(0), enc));
    }
    while i < v.len()
        invariant
            i <= v.len(),
            items == object_views(v@),
            enc == (|o: ObjectView| enc_object(o)),
            out@ == start + enc_items(items.take(i as int), enc),
            forall|k: int|
                0 <= k < i ==> encode_utf8(crate::chain::text(#[trigger] items[k])).len()
                    <= u64::MAX,
        decreases v.len() - i,
    {
        write_object(out, &v[i]);
        proof {
            lemma_enc_items_push(items.take(i as int), items[i as int], enc);
            assert(items.take(i + 1) =~= items.take(i as int).push(items[i as int]));
            assert(out@ =~= start + enc_items(items.take(i + 1), enc));
        }
        i = i + 1;
    }
    proof {
        assert(items.take(i as int) =~= items);
        assert(out@ =~= old(out)@ + enc_list(items, enc));
    }
}

fn write_strings(out: &mut Vec<u8>, v: &Vec<String>)
    ensures
        final(out)@ == old(out)@ + enc_list(string_views(v@), |s: Seq<char>| enc_text(s)),
        forall|i: int|
            0 <= i < v@.len() ==> encode_utf8(#[trigger] string_views(v@)[i]).len() <= u64::MAX,
{
    let ghost enc = |s: Seq<char>| enc_text(s);
    let ghost items = string_views(v@);
    write_word(out, v.len() as u64);
    let ghost start = out@;
    let mut i: usize = 0;
    proof {
        assert(items.take(0) =~= Seq::empty());
        assert(out@ =~= start + enc_items(items.take(0), enc));
    }
    while i < v.len()
        invariant
            i <= v.len(),
            items == string_views(v@),
            enc == (|s: Seq<char>| enc_text(s)),
            out@ == start + enc_items(items.take(i as int), enc),
            forall|k: int| 0 <= k < i ==> encode_utf8(#[trigger] items[k]).len() <= u64::MAX,
        decreases v.len() - i,
    {
        write_text(out, v[i].as_str());
        proof {
            lemma_enc_items_push(items.take(i as int), items[i as int], enc);
            assert(items.take(i + 1) =~= items.take(i as int).push(items[i as int]));
            assert(out@ =~= start + enc_items(items.take(i + 1), enc));
        }
        i = i + 1;
    }
    proof {
        assert(items.take(i as int) =~= items);
        assert(out@ =~= old(out)@ + enc_list(items, enc));
    }
}

fn write_triples(out: &mut Vec<u8>, v: &Vec<IdTriple>)
    ensures
        final(out)@ == old(out)@ + enc_list(v@, |t: IdTriple| enc_triple(t)),
{
    let ghost enc = |t: IdTriple| enc_triple(t);
    let ghost items = v@;
    write_word(out, v.len() as u64);
    let ghost start = out@;
    let mut i: usize = 0;
    proof {
        assert(items.take(0) =~= Seq::empty());
        assert(out@ =~= start + enc_items(items.take(0), enc));
    }
    while i < v.len()
        invariant
            i <= v.len(),
            items == v@,
            enc == (|t: IdTriple| enc_triple(t)),
            out@ == start + enc_items(items.take(i as int), enc),
        decreases v.len() - i,
    {
        write_triple(out, &v[i]);
        proof {
            lemma_enc_items_push(items.take(i as int), items[i as int], enc);
            assert(items.take(i + 1) =~= items.take(i as int).push(items[i as int]));
            assert(out@ =~= start + enc_items(items.take(i + 1), enc));
        }
        i = i + 1;
    }
    proof {
        assert(items.take(i as int) =~= items);
        assert(out@ =~= old(out)@ + enc_list(items, enc));
    }
}

/// Appends the bytes of one layer record.
pub fn write_layer(out: &mut Vec<u8>, l: &LayerData)
    ensures
        final(out)@ == old(out)@ + enc_layer(l@),
        fits(l@),
{
    write_name(out, &l.name);
    write_parent(out, &l.parent_name);
    write_objects(out, &l.entries);
    write_strings(out, &l.predicates);
    write_triples(out, &l.additions);
    write_triples(out, &l.removals);
    proof {
        assert(out@ =~= old(out)@ + enc_layer(l@));
        assert(l@.entries.len() == l.entries.len() <= usize::MAX);
        assert(l@.predicates.len() == l.predicates.len() <= usize::MAX);
        assert(l@.additions.len() == l.additions.len() <= usize::MAX);
        assert(l@.removals.len() == l.removals.len() <= usize::MAX);
        assert forall|i: int| 0 <= i < l@.entries.len() implies encode_utf8(
            crate::chain::text(#[trigger] l@.entries[i]),
        ).len() <= u64::MAX by {
            assert(l@.entries[i] == object_views(l.entries@)[i]);
        }
        assert forall|i: int| 0 <= i < l@.predicates.len() implies encode_utf8(
            #[trigger] l@.predicates[i],
        ).len() <= u64::MAX by {
            assert(l@.predicates[i] == string_views(l.predicates@)[i]);
        }
    }
}

fn read_word(b: &[u8], pos: usize) -> (r: Option<(u64, usize)>)
    requires
        pos <= b@.len(),
    ensures
        match r {
            Some((x, next)) => pos <= next <= b@.len() && dec_word(b@.skip(pos as int)) == Some(
                (x, b@.skip(next as int)),
            ),
            None => dec_word(b@.skip(pos as int)) is None,
        },
{
    if b.len() - pos < 8 {
        return None;
    }
    let mut w: Vec<u8> = Vec::new();
    let mut i: usize = 0;
    while i < 8
        invariant
            i <= 8,
            pos + 8 <= b@.len() <= usize::MAX,
            w@ == b@.subrange(pos as int, pos + i),
        decreases 8 - i,
    {
        w.push(b[pos + i]);
        proof {
            assert(w@ =~= b@.subrange(pos as int, pos + i + 1));
        }
        i = i + 1;
    }
    let x = u64_from_le_bytes(w.as_slice());
    proof {
        assert(b@.skip(pos as int).take(8) =~= w@);
        assert(b@.skip(pos as int).skip(8) =~= b@.skip(pos + 8));
    }
    Some((x, pos + 8))
}

fn read_text(b: &[u8], pos: usize) -> (r: Option<(String, usize)>)
    requires
        pos <= b@.len(),
    ensures
        match r {
            Some((s, next)) => pos <= next <= b@.len() && dec_text(b@.skip(pos as int)) == Some(
                (s@, b@.skip(next as int)),
            ),
            None => dec_text(b@.skip(pos as int)) is None,
        },
{
    let (n, start) = match read_word(b, pos) {
        Some(x) => x,
        None => {
            return None;
        },
    };
    if n > (b.len() - start) as u64 {
        return None;
    }
    let len: usize = n as usize;
    let mut body: Vec<u8> = Vec::new();
    let mut i: usize = 0;
    while i < len
        invariant
            i <= len,
            start + len <= b@.len() <= usize::MAX,
            body@ == b@.subrange(start as int, start + i),
        decreases len - i,
    {
        body.push(b[start + i]);
        proof {
            assert(body@ =~= b@.subrange(start as int, start + i + 1));
        }
        i = i + 1;
    }
    proof {
        assert(b@.skip(start as int).take(n as int) =~= body@);
        assert(b@.skip(start as int).skip(n as int) =~= b@.skip(start + len));
    }
    match text_from_utf8(body) {
        Some(s) => {
            proof {
                encode_utf8_decode_utf8(s@);
            }
            Some((s, start + len))
        },
        None => None,
    }
}

fn read_part(b: &[u8], pos: usize) -> (r: Option<(u32, usize)>)
    requires
        pos <= b@.len(),
    ensures
        match r {
            Some((x, next)) => pos <= next <= b@.len() && dec_part(b@.skip(pos as int)) == Some(
                (x, b@.skip(next as int)),
            ),
            None => dec_part(b@.skip(pos as int)) is None,
        },
{
    match read_word(b, pos) {
        Some((x, next)) => if x <= 0xffff_ffff {
            Some((x as u32, next))
        } else {
            None
        },
        None => None,
    }
}

fn read_name(b: &[u8], pos: usize) -> (r: Option<([u32; 5], usize)>)
    requires
        pos <= b@.len(),
    ensures
        match r {
            Some((n, next)) => pos <= next <= b@.len() && dec_name(b@.skip(pos as int)) == Some(
                (n@, b@.skip(next as int)),
            ),
            None => dec_name(b@.skip(pos as int)) is None,
        },
{
    let (a0, at0) = match read_part(b, pos) {
        Some(x) => x,
        None => {
            return None;
        },
    };
    let (a1, at1) = match read_part(b, at0) {
        Some(x) => x,
        None => {
            return None;
        },
    };
    let (a2, at2) = match read_part(b, at1) {
        Some(x) => x,
        None => {
            return None;
        },
    };
    let (a3, at3) = match read_part(b, at2) {
        Some(x) => x,
        None => {
            return None;
        },
    };
    let (a4, at4) = match read_part(b, at3) {
        Some(x) => x,
        None => {
            return None;
        },
    };
    let n: [u32; 5] = [a0, a1, a2, a3, a4];
    proof {
        assert(n@ =~= seq![a0, a1, a2, a3, a4]);
    }
    Some((n, at4))
}

fn read_parent(b: &[u8], pos: usize) -> (r: Option<(Option<[u32; 5]>, usize)>)
    requires
        pos <= b@.len(),
    ensures
        match r {
            Some((p, next)) => pos <= next <= b@.len() && dec_parent(b@.skip(pos as int)) == Some(
                (name_view(p), b@.skip(next as int)),
            ),
            None => dec_parent(b@.skip(pos as int)) is None,
        },
{
    let (flag, at0) = match read_word(b, pos) {
        Some(x) => x,
        None => {
            return None;
        },
    };
    if flag == 0 {
        Some((None, at0))
    } else if flag == 1 {
        match read_name(b, at0) {
            Some((n, at1)) => Some((Some(n), at1)),
            None => None,
        }
    } else {
        None
    }
}

fn read_object(b: &[u8], pos: usize) -> (r: Option<(ObjectType, usize)>)
    requires
        pos <= b@.len(),
    ensures
        match r {
            Some((o, next)) => pos <= next <= b@.len() && dec_object(b@.skip(pos as int)) == Some(
                (o@, b@.skip(next as int)),
            ),
            None => dec_object(b@.skip(pos as int)) is None,
        },
{
    let (tag, at0) = match read_word(b, pos) {
        Some(x) => x,
        None => {
            return None;
        },
    };
    if tag > 1 {
        return None;
    }
    match read_text(b, at0) {
        Some((s, at1)) => if tag == 0 {
            Some((ObjectType::Node(s), at1))
        } else {
            Some((ObjectType::Value(s), at1))
        },
        None => None,
    }
}

fn read_triple(b: &[u8], pos: usize) -> (r: Option<(IdTriple, usize)>)
    requires
        pos <= b@.len(),
    ensures
        match r {
            Some((t, next)) => pos <= next <= b@.len() && dec_triple(b@.skip(pos as int)) == Some(
                (t, b@.skip(next as int)),
            ),
            None => dec_triple(b@.skip(pos as int)) is None,
        },
{
    let (s, at0) = match read_word(b, pos) {
        Some(x) => x,
        None => {
            return None;
        },
    };
    let (p, at1) = match read_word(b, at0) {
        Some(x) => x,
        None => {
            return None;
        },
    };
    let (o, at2) = match read_word(b, at1) {
        Some(x) => x,
        None => {
            return None;
        },
    };
    Some((IdTriple { subject: s, predicate: p, object: o }, at2))
}

fn read_objects(b: &[u8], pos: usize) -> (r: Option<(Vec<ObjectType>, usize)>)
    requires
        pos <= b@.len(),
    ensures
        match r {
            Some((v, next)) => pos <= next <= b@.len() && dec_list(
                b@.skip(pos as int),
                |x: Seq<u8>| dec_object(x),
            ) == Some((object_views(v@), b@.skip(next as int))),
            None => dec_list(b@.skip(pos as int), |x: Seq<u8>| dec_object(x)) is None,
        },
{
    let ghost dec = |x: Seq<u8>| dec_object(x);
    let (n, start) = match read_word(b, pos) {
        Some(x) => x,
        None => {
            return None;
        },
    };
    let mut v: Vec<ObjectType> = Vec::new();
    let mut cur: usize = start;
    let mut i: u64 = 0;
    let ghost whole = dec_items(n as nat, b@.skip(start as int), dec);
    proof {
        assert(object_views(v@) =~= Seq::empty());
        match whole {
            Some((xs, rest)) => {
                assert(Seq::<ObjectView>::empty() + xs =~= xs);
            },
            None => {},
        }
    }
    while i < n
        invariant
            i <= n,
            start <= cur <= b@.len(),
            dec == (|x: Seq<u8>| dec_object(x)),
            dec_list(b@.skip(pos as int), dec) == whole,
            whole == prepend(
                object_views(v@),
                dec_items((n - i) as nat, b@.skip(cur as int), dec),
            ),
        decreases n - i,
    {
        proof {
            lemma_items_step(object_views(v@), (n - i) as nat, b@.skip(cur as int), dec);
        }
        let ghost before = object_views(v@);
        match read_object(b, cur) {
            Some((o, next)) => {
                let ghost ov = o@;
                v.push(o);
                proof {
                    assert(object_views(v@) =~= before.push(ov));
                }
                cur = next;
            },
            None => {
                return None;
            },
        }
        i = i + 1;
    }
    proof {
        lemma_items_step(object_views(v@), 1, b@.skip(cur as int), dec);
    }
    Some((v, cur))
}

fn read_strings(b: &[u8], pos: usize) -> (r: Option<(Vec<String>, usize)>)
    requires
        pos <= b@.len(),
    ensures
        match r {
            Some((v, next)) => pos <= next <= b@.len() && dec_list(
                b@.skip(pos as int),
                |x: Seq<u8>| dec_text(x),
            ) == Some((string_views(v@), b@.skip(next as int))),
            None => dec_list(b@.skip(pos as int), |x: Seq<u8>| dec_text(x)) is None,
        },
{
    let ghost dec = |x: Seq<u8>| dec_text(x);
    let (n, start) = match read_word(b, pos) {
        Some(x) => x,
        None => {
            return None;
        },
    };
    let mut v: Vec<String> = Vec::new();
    let mut cur: usize = start;
    let mut i: u64 = 0;
    let ghost whole = dec_items(n as nat, b@.skip(start as int), dec);
    proof {
        assert(string_views(v@) =~= Seq::empty());
        match whole {
            Some((xs, rest)) => {
                assert(Seq::<Seq<char>>::empty() + xs =~= xs);
            },
            None => {},
        }
    }
    while i < n
        invariant
            i <= n,
            start <= cur <= b@.len(),
            dec == (|x: Seq<u8>| dec_text(x)),
            dec_list(b@.skip(pos as int), dec) == whole,
            whole == prepend(
                string_views(v@),
                dec_items((n - i) as nat, b@.skip(cur as int), dec),
            ),
        decreases n - i,
    {
        proof {
            lemma_items_step(string_views(v@), (n - i) as nat, b@.skip(cur as int), dec);
        }
        let ghost before = string_views(v@);
        match read_text(b, cur) {
            Some((s, next)) => {
                let ghost sv = s@;
                v.push(s);
                proof {
                    assert(string_views(v@) =~= before.push(sv));
                }
                cur = next;
            },
            None => {
                return None;
            },
        }
        i = i + 1;
    }
    proof {
        lemma_items_step(string_views(v@), 1, b@.skip(cur as int), dec);
    }
    Some((v, cur))
}

fn read_triples(b: &[u8], pos: usize) -> (r: Option<(Vec<IdTriple>, usize)>)
    requires
        pos <= b@.len(),
    ensures
        match r {
            Some((v, next)) => pos <= next <= b@.len() && dec_list(
                b@.skip(pos as int),
                |x: Seq<u8>| dec_triple(x),
            ) == Some((v@, b@.skip(next as int))),
            None => dec_list(b@.skip(pos as int), |x: Seq<u8>| dec_triple(x)) is None,
        },
{
    let ghost dec = |x: Seq<u8>| dec_triple(x);
    let (n, start) = match read_word(b, pos) {
        Some(x) => x,
        None => {
            return None;
        },
    };
    let mut v: Vec<IdTriple> = Vec::new();
    let mut cur: usize = start;
    let mut i: u64 = 0;
    let ghost whole = dec_items(n as nat, b@.skip(start as int), dec);
    proof {
        match whole {
            Some((xs, rest)) => {
                assert(Seq::<IdTriple>::empty() + xs =~= xs);
            },
            None => {},
        }
    }
    while i < n
        invariant
            i <= n,
            start <= cur <= b@.len(),
            dec == (|x: Seq<u8>| dec_triple(x)),
            dec_list(b@.skip(pos as int), dec) == whole,
            whole == prepend(v@, dec_items((n - i) as nat, b@.skip(cur as int), dec)),
        decreases n - i,
    {
        proof {
            lemma_items_step(v@, (n - i) as nat, b@.skip(cur as int), dec);
        }
        match read_triple(b, cur) {
            Some((t, next)) => {
                v.push(t);
                cur = next;
            },
            None => {
                return None;
            },
        }
        i = i + 1;
    }
    proof {
        lemma_items_step(v@, 1, b@.skip(cur as int), dec);
    }
    Some((v, cur))
}

fn read_layer(b: &[u8], pos: usize) -> (r: Option<(LayerData, usize)>)
    requires
        pos <= b@.len(),
    ensures
        match r {
            Some((l, next)) => pos <= next <= b@.len() && dec_layer(b@.skip(pos as int)) == Some(
                (l@, b@.skip(next as int)),
            ),
            None => dec_layer(b@.skip(pos as int)) is None,
        },
{
    let (name, at0) = match read_name(b, pos) {
        Some(x) => x,
        None => {
            return None;
        },
    };
    let (parent_name, at1) = match read_parent(b, at0) {
        Some(x) => x,
        None => {
            return None;
        },
    };
    let (entries, at2) = match read_objects(b, at1) {
        Some(x) => x,
        None => {
            return None;
        },
    };
    let (predicates, at3) = match read_strings(b, at2) {
        Some(x) => x,
        None => {
            return None;
        },
    };
    let (additions, at4) = match read_triples(b, at3) {
        Some(x) => x,
        None => {
            return None;
        },
    };
    let (removals, at5) = match read_triples(b, at4) {
        Some(x) => x,
        None => {
            return None;
        },
    };
    Some((LayerData { name, parent_name, entries, predicates, additions, removals }, at5))
}

/// The mathematical form of a vector of layer records.
pub open spec fn layer_views(s: Seq<LayerData>) -> Seq<LayerView> {
    Seq::new(s.len(), |i: int| s[i]@)
}

/// Reads a pack, or returns `None` where the bytes are no pack.
pub fn read_pack(b: &[u8]) -> (r: Option<Vec<LayerData>>)
    ensures
        match r {
            Some(v) => dec_pack(b@) == Some(layer_views(v@)),
            None => dec_pack(b@) is None,
        },
{
    let ghost dec = |x: Seq<u8>| dec_layer(x);
    proof {
        assert(b@.skip(0) =~= b@);
    }
    let (n, start) = match read_word(b, 0) {
        Some(x) => x,
        None => {
            return None;
        },
    };
    let mut v: Vec<LayerData> = Vec::new();
    let mut cur: usize = start;
    let mut i: u64 = 0;
    let ghost whole = dec_items(n as nat, b@.skip(start as int), dec);
    proof {
        assert(layer_views(v@) =~= Seq::empty());
        match whole {
            Some((xs, rest)) => {
                assert(Seq::<LayerView>::empty() + xs =~= xs);
            },
            None => {},
        }
    }
    while i < n
        invariant
            i <= n,
            start <= cur <= b@.len(),
            dec == (|x: Seq<u8>| dec_layer(x)),
            dec_list(b@, dec) == whole,
            whole == prepend(layer_views(v@), dec_items((n - i) as nat, b@.skip(cur as int), dec)),
        decreases n - i,
    {
        proof {
            lemma_items_step(layer_views(v@), (n - i) as nat, b@.skip(cur as int), dec);
        }
        let ghost before = layer_views(v@);
        match read_layer(b, cur) {
            Some((l, next)) => {
                let ghost lv = l@;
                v.push(l);
                proof {
                    assert(layer_views(v@) =~= before.push(lv));
                }
                cur = next;
            },
            None => {
                return None;
            },
        }
        i = i + 1;
    }
    proof {
        lemma_items_step(layer_views(v@), 1, b@.skip(cur as int), dec);
    }
    if cur == b.len() {
        Some(v)
    } else {
        None
    }
}

/// A label as bytes: its name, the layer it points at, and its version.
pub open spec fn enc_label(l: LabelView) -> Seq<u8> {
    enc_text(l.name) + enc_parent(l.layer) + enc_word(l.version)
}

/// Reads a label: its three parts with nothing after them.
pub open spec fn dec_label(b: Seq<u8>) -> Option<LabelView> {
    match dec_text(b) {
        Some((name, r0)) => match dec_parent(r0) {
            Some((layer, r1)) => match dec_word(r1) {
                Some((version, r2)) => if r2.len() == 0 {
                    Some(LabelView { name, layer, version })
                } else {
                    None
                },
                None => None,
            },
            None => None,
        },
        None => None,
    }
}

/// A label is read back as it was written.
pub proof fn law_label_round_trip(l: LabelView)
    requires
        encode_utf8(l.name).len() <= u64::MAX,
        l.layer matches Some(n) ==> n.len() == 5,
    ensures
        dec_label(enc_label(l)) == Some(l),
{
    let b2 = enc_word(l.version);
    let b1 = enc_parent(l.layer) + b2;
    assert(enc_label(l) =~= enc_text(l.name) + b1);
    lemma_text(l.name, b1);
    lemma_parent(l.layer, b2);
    assert(b2 + Seq::<u8>::empty() =~= b2);
    lemma_word(l.version, Seq::empty());
}

/// The bytes of a label.
pub fn label_to_bytes(l: &Label) -> (out: Vec<u8>)
    ensures
        out@ == enc_label(l@),
        dec_label(out@) == Some(l@),
{
    let mut out: Vec<u8> = Vec::new();
    write_text(&mut out, l.name.as_str());
    write_parent(&mut out, &l.layer);
    write_word(&mut out, l.version);
    proof {
        assert(out@ =~= enc_label(l@));
        match l.layer {
            Some(n) => {
                assert(n@.len() == 5);
            },
            None => {},
        }
        law_label_round_trip(l@);
    }
    out
}

/// The label that the bytes stand for, or `None` where they are no label.
pub fn label_from_bytes(b: &[u8]) -> (r: Option<Label>)
    ensures
        match r {
            Some(l) => dec_label(b@) == Some(l@),
            None => dec_label(b@) is None,
        },
{
    proof {
        assert(b@.skip(0) =~= b@);
    }
    let (name, at0) = match read_text(b, 0) {
        Some(x) => x,
        None => {
            return None;
        },
    };
    let (layer, at1) = match read_parent(b, at0) {
        Some(x) => x,
        None => {
            return None;
        },
    };
    let (version, at2) = match read_word(b, at1) {
        Some(x) => x,
        None => {
            return None;
        },
    };
    if at2 == b.len() {
        Some(Label { name, layer, version })
    } else {
        None
    }
}

} // verus!
