//! Asset-list selection for the file picker: keep the file names that
//! carry a wanted dot-extension and order them bytewise.
//!
//! The host program enumerates the asset directory and hands the names
//! over as byte strings; [`select_assets`] returns exactly the matching
//! ones, sorted, and the host maps them back to paths.

use vstd::prelude::*;

verus! {

use vstd::multiset::{group_multiset_axioms, Multiset};
use vstd::seq_lib::{group_filter_ensures, group_to_multiset_ensures, lemma_multiset_commutative};

/// The dot that separates a file name's stem from its extension.
pub const DOT_BYTE: u8 = 0x2E;

/// Bytewise lexicographic order on byte strings.
pub open spec fn lex_le(a: Seq<u8>, b: Seq<u8>) -> bool
    decreases a.len(),
{
    if a.len() == 0 {
        true
    } else if b.len() == 0 {
        false
    } else if a[0] < b[0] {
        true
    } else if a[0] > b[0] {
        false
    } else {
        lex_le(a.drop_first(), b.drop_first())
    }
}

/// Any two byte strings compare in at least one direction.
pub proof fn lemma_lex_le_total(a: Seq<u8>, b: Seq<u8>)
    ensures
        lex_le(a, b) || lex_le(b, a),
    decreases a.len(),
{
    if a.len() > 0 && b.len() > 0 && a[0] == b[0] {
        lemma_lex_le_total(a.drop_first(), b.drop_first());
    }
}

/// The order is transitive.
pub proof fn lemma_lex_le_trans(a: Seq<u8>, b: Seq<u8>, c: Seq<u8>)
    requires
        lex_le(a, b),
        lex_le(b, c),
    ensures
        lex_le(a, c),
    decreases a.len(),
{
    if a.len() > 0 && b.len() > 0 && c.len() > 0 && a[0] == b[0] && b[0] == c[0] {
        lemma_lex_le_trans(a.drop_first(), b.drop_first(), c.drop_first());
    }
}

/// Decide [`lex_le`] on two byte strings.
fn lex_le_bytes(a: &Vec<u8>, b: &Vec<u8>) -> (r: bool)
    ensures
        r == lex_le(a@, b@),
{
    let mut i: usize = 0;
    proof {
        assert(a@.skip(0) =~= a@);
        assert(b@.skip(0) =~= b@);
    }
    loop
        invariant
            i <= a@.len(),
            i <= b@.len(),
            lex_le(a@, b@) == lex_le(a@.skip(i as int), b@.skip(i as int)),
        decreases a@.len() - i,
    {
        if i == a.len() {
            return true;
        }
        if i == b.len() {
            return false;
        }
        let ca = a[i];
        let cb = b[i];
        if ca < cb {
            return true;
        }
        if ca > cb {
            return false;
        }
        proof {
            assert(a@.skip(i as int + 1) =~= a@.skip(i as int).drop_first());
            assert(b@.skip(i as int + 1) =~= b@.skip(i as int).drop_first());
        }
        i = i + 1;
    }
}

/// `name` is `stem.ext` for a non-empty stem: it ends in [`DOT_BYTE`]
/// followed by exactly `ext`.
pub open spec fn has_dot_ext(name: Seq<u8>, ext: Seq<u8>) -> bool {
    &&& name.len() > ext.len() + 1
    &&& name[name.len() - ext.len() - 1] == DOT_BYTE
    &&& name.subrange(name.len() - ext.len(), name.len() as int) == ext
}

/// Decide [`has_dot_ext`].
fn is_dot_ext(name: &Vec<u8>, ext: &Vec<u8>) -> (r: bool)
    ensures
        r == has_dot_ext(name@, ext@),
{
    let nlen = name.len();
    let elen = ext.len();
    if nlen <= elen {
        return false;
    }
    if nlen - elen < 2 {
        return false;
    }
    let base = nlen - elen;
    if name[base - 1] != DOT_BYTE {
        return false;
    }
    let mut k: usize = 0;
    while k < elen
        invariant
            k <= elen,
            nlen == name@.len(),
            elen == ext@.len(),
            base == nlen - elen,
            nlen - elen >= 2,
            name@[base - 1] == DOT_BYTE,
            forall|t: int| 0 <= t < k ==> name@[base + t] == ext@[t],
        decreases elen - k,
    {
        if name[base + k] != ext[k] {
            proof {
                assert(name@.subrange(base as int, nlen as int)[k as int] == name@[base + k]);
            }
            return false;
        }
        k = k + 1;
    }
    proof {
        assert(name@.subrange(base as int, nlen as int) =~= ext@);
    }
    true
}

/// Inserting an element anywhere adds exactly it to the multiset.
proof fn lemma_insert_to_multiset<T>(s: Seq<T>, p: int, v: T)
    requires
        0 <= p <= s.len(),
    ensures
        s.insert(p, v).to_multiset() == s.to_multiset().insert(v),
{
    broadcast use group_to_multiset_ensures;

    let pre = s.subrange(0, p);
    let post = s.subrange(p, s.len() as int);
    lemma_multiset_commutative(pre.push(v), post);
    lemma_multiset_commutative(pre, post);
    assert(s =~= pre + post);
    assert(s.insert(p, v).to_multiset() =~= s.to_multiset().insert(v));
}

/// First position of the sorted list whose entry is not at or below `v`;
/// inserting `v` there keeps the list sorted.
fn insertion_point(out: &Vec<Vec<u8>>, v: &Vec<u8>) -> (p: usize)
    requires
        forall|i: int, j: int|
            0 <= i <= j < out@.len() ==> lex_le((#[trigger] out@[i])@, (#[trigger] out@[j])@),
    ensures
        p <= out@.len(),
        forall|t: int| 0 <= t < p ==> lex_le((#[trigger] out@[t])@, v@),
        (p as int) < out@.len() ==> !lex_le((out@[p as int])@, v@),
{
    let mut p: usize = 0;
    while p < out.len()
        invariant
            p <= out@.len(),
            forall|t: int| 0 <= t < p ==> lex_le((#[trigger] out@[t])@, v@),
        decreases out@.len() - p,
    {
        if !lex_le_bytes(&out[p], v) {
            return p;
        }
        p = p + 1;
    }
    p
}

/// Keep the names that end in `.ext` and return them in bytewise order:
/// every returned name carries the extension, the list is sorted, and the
/// returned names are exactly the matching inputs.
pub fn select_assets(names: Vec<Vec<u8>>, ext: &Vec<u8>) -> (r: Vec<Vec<u8>>)
    ensures
        forall|i: int, j: int|
            0 <= i <= j < r@.len() ==> lex_le((#[trigger] r@[i])@, (#[trigger] r@[j])@),
        forall|i: int| 0 <= i < r@.len() ==> has_dot_ext((#[trigger] r@[i])@, ext@),
        r@.to_multiset() == names@.filter(|n: Vec<u8>| has_dot_ext(n@, ext@)).to_multiset(),
{
    let ghost orig = names@;
    let ghost pred = |n: Vec<u8>| has_dot_ext(n@, ext@);
    let mut names = names;
    let mut out: Vec<Vec<u8>> = Vec::new();
    proof {
        broadcast use group_filter_ensures;
        broadcast use group_to_multiset_ensures;

        reveal(Seq::filter);
        assert(names@ =~= orig.subrange(0, orig.len() as int));
        assert(orig.subrange(orig.len() as int, orig.len() as int) =~= Seq::<Vec<u8>>::empty());
        assert(Seq::<Vec<u8>>::empty().filter(pred) =~= Seq::<Vec<u8>>::empty());
        assert(out@ =~= Seq::<Vec<u8>>::empty());
    }
    while names.len() > 0
        invariant
            pred == (|n: Vec<u8>| has_dot_ext(n@, ext@)),
            names@ =~= orig.subrange(0, names@.len() as int),
            names@.len() <= orig.len(),
            forall|i: int, j: int|
                0 <= i <= j < out@.len() ==> lex_le((#[trigger] out@[i])@, (#[trigger] out@[j])@),
            forall|i: int| 0 <= i < out@.len() ==> has_dot_ext((#[trigger] out@[i])@, ext@),
            out@.to_multiset() == orig.subrange(names@.len() as int, orig.len() as int).filter(
                pred,
            ).to_multiset(),
        decreases names@.len(),
    {
        let ghost k = names@.len() as int;
        let v = names.pop().unwrap();
        proof {
            broadcast use group_filter_ensures;
            broadcast use group_to_multiset_ensures;
            broadcast use group_multiset_axioms;

            reveal(Seq::filter);
            assert(v == orig[k - 1]);
            assert(names@ =~= orig.subrange(0, k - 1));
            // the unprocessed suffix gains the popped name at its front
            let rest = orig.subrange(k, orig.len() as int);
            assert(orig.subrange(k - 1, orig.len() as int) =~= seq![orig[k - 1]] + rest);
            Seq::filter_distributes_over_add(seq![orig[k - 1]], rest, pred);
            lemma_multiset_commutative(seq![orig[k - 1]].filter(pred), rest.filter(pred));
            assert(seq![orig[k - 1]] =~= Seq::<Vec<u8>>::empty().push(orig[k - 1]));
            Seq::<Vec<u8>>::empty().lemma_filter_push(orig[k - 1], pred);
            assert(Seq::<Vec<u8>>::empty().filter(pred) =~= Seq::<Vec<u8>>::empty());
            assert(Seq::<Vec<u8>>::empty().to_multiset() =~= Multiset::<Vec<u8>>::empty());
            if pred(orig[k - 1]) {
                assert(seq![orig[k - 1]].filter(pred) =~= seq![orig[k - 1]]);
                assert(seq![orig[k - 1]].to_multiset() =~= Multiset::<Vec<u8>>::empty().insert(
                    orig[k - 1],
                ));
                assert(orig.subrange(k - 1, orig.len() as int).filter(pred).to_multiset()
                    =~= rest.filter(pred).to_multiset().insert(orig[k - 1]));
            } else {
                assert(seq![orig[k - 1]].filter(pred) =~= Seq::<Vec<u8>>::empty());
                assert(orig.subrange(k - 1, orig.len() as int).filter(pred).to_multiset()
                    =~= rest.filter(pred).to_multiset());
            }
        }
        if is_dot_ext(&v, ext) {
            let p = insertion_point(&out, &v);
            let ghost out0 = out@;
            out.insert(p, v);
            proof {
                broadcast use group_to_multiset_ensures;

                assert(pred(orig[k - 1]));
                lemma_insert_to_multiset(out0, p as int, v);
                assert(out@.to_multiset() == out0.to_multiset().insert(v));
                assert(out@.to_multiset() == orig.subrange(
                    k - 1,
                    orig.len() as int,
                ).filter(pred).to_multiset());
                out0.insert_ensures(p as int, v);
                lemma_lex_le_total(v@, v@);
                assert forall|i: int, j: int| 0 <= i <= j < out@.len() implies lex_le(
                    (#[trigger] out@[i])@,
                    (#[trigger] out@[j])@,
                ) by {
                    if j == p {
                        if i < p {
                            assert(lex_le((out0[i])@, v@));
                        }
                    } else if i == p && j > p {
                        // the scan stopped at an entry not at or below `v`
                        assert(!lex_le((out0[p as int])@, v@));
                        lemma_lex_le_total((out0[p as int])@, v@);
                        if j - 1 > p {
                            assert(lex_le((out0[p as int])@, (out0[j - 1])@));
                        }
                        lemma_lex_le_trans(v@, (out0[p as int])@, (out0[j - 1])@);
                    } else if i < p && j > p {
                        assert(lex_le((out0[i])@, (out0[j - 1])@));
                    } else if i > p && j > p {
                        assert(lex_le((out0[i - 1])@, (out0[j - 1])@));
                    }
                }
            }
        } else {
            proof {
                assert(!pred(orig[k - 1]));
                assert(out@.to_multiset() == orig.subrange(
                    k - 1,
                    orig.len() as int,
                ).filter(pred).to_multiset());
            }
        }
    }
    proof {
        assert(orig.subrange(0, orig.len() as int) =~= orig);
    }
    out
}

} // verus!
