//! State-file names and their ordering.
//!
//! A versioned state file is named `<stem>.<stamp>-<seq>.<ext>`, with the
//! timestamp and the sequence number as fixed-width, zero-padded decimals,
//! so that the byte-wise lexicographic order of the names matches their
//! chronological order.  Pruning keeps the lexicographically greatest names.

use vstd::multiset::Multiset;
use vstd::prelude::*;

verus! {

/// Strict byte-wise lexicographic order: a proper prefix comes first,
/// otherwise the first differing byte decides.
pub open spec fn lex_lt(a: Seq<u8>, b: Seq<u8>) -> bool
    decreases a.len(),
{
    if b.len() == 0 {
        false
    } else if a.len() == 0 {
        true
    } else if a[0] < b[0] {
        true
    } else if a[0] > b[0] {
        false
    } else {
        lex_lt(a.drop_first(), b.drop_first())
    }
}

/// No sequence is lexicographically before itself.
pub proof fn lemma_lex_irrefl(a: Seq<u8>)
    ensures
        !lex_lt(a, a),
    decreases a.len(),
{
    if a.len() > 0 {
        lemma_lex_irrefl(a.drop_first());
    }
}

/// Whether `a` comes strictly before `b` in byte-wise lexicographic order.
#[verifier::loop_isolation(false)]
pub fn lex_less(a: &Vec<u8>, b: &Vec<u8>) -> (r: bool)
    ensures
        r == lex_lt(a@, b@),
{
    let mut k: usize = 0;
    proof {
        assert(a@.skip(0) =~= a@);
        assert(b@.skip(0) =~= b@);
    }
    while k < a.len() && k < b.len()
        invariant
            k <= a.len(),
            k <= b.len(),
            lex_lt(a@, b@) == lex_lt(a@.skip(k as int), b@.skip(k as int)),
        decreases a.len() - k,
    {
        proof {
            assert(a@.skip(k as int)[0] == a@[k as int]);
            assert(b@.skip(k as int)[0] == b@[k as int]);
            assert(a@.skip(k as int).drop_first() =~= a@.skip(k + 1));
            assert(b@.skip(k as int).drop_first() =~= b@.skip(k + 1));
        }
        if a[k] < b[k] {
            return true;
        }
        if a[k] > b[k] {
            return false;
        }
        k = k + 1;
    }
    proof {
        if k >= a.len() {
            assert(a@.skip(k as int) =~= Seq::<u8>::empty());
        }
        if k >= b.len() {
            assert(b@.skip(k as int) =~= Seq::<u8>::empty());
        }
    }
    k >= a.len() && k < b.len()
}

/// Whether `p` is a prefix of `n`.
#[verifier::loop_isolation(false)]
pub fn starts_with(n: &Vec<u8>, p: &Vec<u8>) -> (r: bool)
    ensures
        r == p@.is_prefix_of(n@),
{
    if p.len() > n.len() {
        return false;
    }
    let mut k: usize = 0;
    while k < p.len()
        invariant
            k <= p.len(),
            p.len() <= n.len(),
            forall|i: int| 0 <= i < k ==> p@[i] == n@[i],
        decreases p.len() - k,
    {
        if p[k] != n[k] {
            proof {
                assert(n@.subrange(0, p@.len() as int)[k as int] == n@[k as int]);
            }
            return false;
        }
        k = k + 1;
    }
    proof {
        assert(p@ =~= n@.subrange(0, p@.len() as int));
    }
    true
}

// ---------------------------------------------------------------------------
// Fixed-width decimals
// ---------------------------------------------------------------------------
/// `v` written as `width` decimal digits, zero-padded on the left (the most
/// significant digits beyond `width` are dropped).
pub open spec fn spec_dec(v: u64, width: nat) -> Seq<u8>
    decreases width,
{
    if width == 0 {
        Seq::empty()
    } else {
        spec_dec(v / 10, (width - 1) as nat).push((48 + (v % 10)) as u8)
    }
}

/// Appends `v` as `width` zero-padded decimal digits.
pub fn push_decimal(out: &mut Vec<u8>, v: u64, width: usize)
    ensures
        final(out)@ == old(out)@ + spec_dec(v, width as nat),
    decreases width,
{
    if width == 0 {
        proof {
            assert(out@ =~= out@ + spec_dec(v, 0));
        }
        return;
    }
    push_decimal(out, v / 10, width - 1);
    out.push(48 + (v % 10) as u8);
    proof {
        assert(out@ =~= old(out)@ + spec_dec(v, width as nat));
    }
}

// ---------------------------------------------------------------------------
// Versioned file names
// ---------------------------------------------------------------------------
/// The name of the versioned state file written for timestamp `stamp` and
/// per-instance sequence number `seqno`:
/// `<stem>.<stamp as 20 digits>-<seqno as 5 digits>.<ext>`.
pub open spec fn spec_versioned_name(
    stem: Seq<u8>,
    ext: Seq<u8>,
    stamp: u64,
    seqno: u16,
) -> Seq<u8> {
    stem + seq![46u8] + spec_dec(stamp, 20) + seq![45u8] + spec_dec(seqno as u64, 5) + seq![46u8]
        + ext
}

/// The name of the stable pointer: `<stem>.<ext>`.
pub open spec fn spec_stable_name(stem: Seq<u8>, ext: Seq<u8>) -> Seq<u8> {
    stem + seq![46u8] + ext
}

/// The name of the staging link used during a commit: `<stem>.<ext>.tmp`.
pub open spec fn spec_staging_name(stem: Seq<u8>, ext: Seq<u8>) -> Seq<u8> {
    spec_stable_name(stem, ext) + seq![46u8, 116u8, 109u8, 112u8]
}

/// Appends all of `src` to `out`.
#[verifier::loop_isolation(false)]
pub fn push_bytes(out: &mut Vec<u8>, src: &Vec<u8>)
    ensures
        final(out)@ == old(out)@ + src@,
    decreases 0int,
{
    let mut k: usize = 0;
    proof {
        assert(out@ =~= out@ + src@.take(0));
    }
    while k < src.len()
        invariant
            k <= src.len(),
            out@ == old(out)@ + src@.take(k as int),
        decreases src.len() - k,
    {
        out.push(src[k]);
        proof {
            assert(old(out)@ + src@.take(k + 1) =~= (old(out)@ + src@.take(k as int)).push(
                src@[k as int],
            ));
        }
        k = k + 1;
    }
    proof {
        assert(src@.take(src@.len() as int) =~= src@);
    }
}

/// Builds the versioned file name for `stamp` and `seqno`.
pub fn versioned_file_name(stem: &Vec<u8>, ext: &Vec<u8>, stamp: u64, seqno: u16) -> (r: Vec<u8>)
    ensures
        r@ == spec_versioned_name(stem@, ext@, stamp, seqno),
{
    let mut r: Vec<u8> = Vec::new();
    push_bytes(&mut r, stem);
    r.push(46);
    push_decimal(&mut r, stamp, 20);
    r.push(45);
    push_decimal(&mut r, seqno as u64, 5);
    r.push(46);
    push_bytes(&mut r, ext);
    proof {
        assert(r@ =~= spec_versioned_name(stem@, ext@, stamp, seqno));
    }
    r
}

/// Builds the stable pointer name.
pub fn stable_file_name(stem: &Vec<u8>, ext: &Vec<u8>) -> (r: Vec<u8>)
    ensures
        r@ == spec_stable_name(stem@, ext@),
{
    let mut r: Vec<u8> = Vec::new();
    push_bytes(&mut r, stem);
    r.push(46);
    push_bytes(&mut r, ext);
    proof {
        assert(r@ =~= spec_stable_name(stem@, ext@));
    }
    r
}

/// Builds the staging link name.
pub fn staging_file_name(stem: &Vec<u8>, ext: &Vec<u8>) -> (r: Vec<u8>)
    ensures
        r@ == spec_staging_name(stem@, ext@),
{
    let mut r = stable_file_name(stem, ext);
    r.push(46);
    r.push(116);
    r.push(109);
    r.push(112);
    proof {
        assert(r@ =~= spec_staging_name(stem@, ext@));
    }
    r
}

// ---------------------------------------------------------------------------
// Sorting names, newest first
// ---------------------------------------------------------------------------
/// Sorts names in descending byte-wise lexicographic order by repeatedly
/// extracting a maximum.
#[verifier::loop_isolation(false)]
pub fn sort_names_desc(names: Vec<Vec<u8>>) -> (r: Vec<Vec<u8>>)
    ensures
        r.deep_view().to_multiset() == names.deep_view().to_multiset(),
        forall|i: int, j: int|
            0 <= i <= j < r.deep_view().len() ==> !lex_lt(
                #[trigger] r.deep_view()[i],
                #[trigger] r.deep_view()[j],
            ),
{
    broadcast use vstd::seq_lib::group_to_multiset_ensures;

    let ghost orig = names.deep_view();
    let mut v = names;
    let mut out: Vec<Vec<u8>> = Vec::new();
    proof {
        assert(out.deep_view() =~= Seq::<Seq<u8>>::empty());
        assert(out.deep_view().to_multiset().add(v.deep_view().to_multiset())
            =~= orig.to_multiset());
    }
    while v.len() > 0
        invariant
            out.deep_view().to_multiset().add(v.deep_view().to_multiset()) == orig.to_multiset(),
            forall|i: int, j: int|
                0 <= i <= j < out.deep_view().len() ==> !lex_lt(
                    #[trigger] out.deep_view()[i],
                    #[trigger] out.deep_view()[j],
                ),
            forall|i: int, j: int|
                0 <= i < out.deep_view().len() && 0 <= j < v.deep_view().len() ==> !lex_lt(
                    #[trigger] out.deep_view()[i],
                    #[trigger] v.deep_view()[j],
                ),
        decreases v.len(),
    {
        let mut m: usize = 0;
        let mut k: usize = 1;
        proof {
            lemma_lex_irrefl(v.deep_view()[0]);
        }
        while k < v.len()
            invariant
                m < k <= v.len(),
                v.len() > 0,
                forall|j: int| 0 <= j < k ==> !lex_lt(v.deep_view()[m as int], #[trigger] v.deep_view()[j]),
            decreases v.len() - k,
        {
            proof {
                assert(v[m as int]@ == v.deep_view()[m as int]);
                assert(v[k as int]@ == v.deep_view()[k as int]);
            }
            if lex_less(&v[m], &v[k]) {
                proof {
                    assert forall|j: int| 0 <= j < k + 1 implies !lex_lt(
                        v.deep_view()[k as int],
                        #[trigger] v.deep_view()[j],
                    ) by {
                        if j < k {
                            if lex_lt(v.deep_view()[k as int], v.deep_view()[j]) {
                                lemma_lex_trans(
                                    v.deep_view()[m as int],
                                    v.deep_view()[k as int],
                                    v.deep_view()[j],
                                );
                            }
                        } else {
                            lemma_lex_irrefl(v.deep_view()[k as int]);
                        }
                    }
                }
                m = k;
            } else {
                proof {
                    assert forall|j: int| 0 <= j < k + 1 implies !lex_lt(
                        v.deep_view()[m as int],
                        #[trigger] v.deep_view()[j],
                    ) by {}
                }
            }
            k = k + 1;
        }
        let ghost vpre = v.deep_view();
        let x = v.remove(m);
        proof {
            assert(x.deep_view() == vpre[m as int]);
            assert(v.deep_view() =~= vpre.remove(m as int));
            assert(v.deep_view().to_multiset() =~= vpre.to_multiset().remove(vpre[m as int]));
        }
        let ghost opre = out.deep_view();
        out.push(x);
        proof {
            assert(out.deep_view() =~= opre.push(vpre[m as int]));
            assert(out.deep_view().to_multiset() =~= opre.to_multiset().insert(vpre[m as int]));
            assert(out.deep_view().to_multiset().add(v.deep_view().to_multiset())
                =~= orig.to_multiset());
            assert forall|i: int, j: int|
                0 <= i < out.deep_view().len() && 0 <= j < v.deep_view().len() implies !lex_lt(
                #[trigger] out.deep_view()[i],
                #[trigger] v.deep_view()[j],
            ) by {
                let y = v.deep_view()[j];
                assert(vpre.remove(m as int)[j] == (if j < m { vpre[j] } else { vpre[j + 1] }));
                if i < opre.len() {
                    assert(!lex_lt(opre[i], y));
                } else {
                    assert(out.deep_view()[i] == vpre[m as int]);
                    assert(!lex_lt(vpre[m as int], y));
                }
            }
        }
    }
    proof {
        assert(v.deep_view().to_multiset() =~= Multiset::<Seq<u8>>::empty());
        assert(out.deep_view().to_multiset().add(Multiset::<Seq<u8>>::empty())
            =~= out.deep_view().to_multiset());
    }
    out
}

// ---------------------------------------------------------------------------
// Lexicographic order matches chronological order
// ---------------------------------------------------------------------------
/// Powers of ten.
pub open spec fn pow10(w: nat) -> int
    decreases w,
{
    if w == 0 {
        1
    } else {
        10 * pow10((w - 1) as nat)
    }
}

/// A fixed-width decimal has its width.
pub proof fn lemma_dec_len(v: u64, w: nat)
    ensures
        spec_dec(v, w).len() == w,
    decreases w,
{
    if w > 0 {
        lemma_dec_len(v / 10, (w - 1) as nat);
    }
}

/// A shared prefix does not decide the order.
proof fn lemma_lex_common_prefix(p: Seq<u8>, x: Seq<u8>, y: Seq<u8>)
    ensures
        lex_lt(p + x, p + y) == lex_lt(x, y),
    decreases p.len(),
{
    if p.len() == 0 {
        assert(p + x =~= x);
        assert(p + y =~= y);
    } else {
        assert((p + x)[0] == p[0]);
        assert((p + y)[0] == p[0]);
        assert((p + x).drop_first() =~= p.drop_first() + x);
        assert((p + y).drop_first() =~= p.drop_first() + y);
        lemma_lex_common_prefix(p.drop_first(), x, y);
    }
}

/// Two equal-length sequences that are strictly ordered stay ordered under
/// any extensions: the deciding byte lies within them.
proof fn lemma_lex_eqlen_extend(x: Seq<u8>, y: Seq<u8>, u: Seq<u8>, w: Seq<u8>)
    requires
        x.len() == y.len(),
        lex_lt(x, y),
    ensures
        lex_lt(x + u, y + w),
    decreases x.len(),
{
    if x.len() > 0 {
        assert((x + u)[0] == x[0]);
        assert((y + w)[0] == y[0]);
        if x[0] == y[0] {
            assert((x + u).drop_first() =~= x.drop_first() + u);
            assert((y + w).drop_first() =~= y.drop_first() + w);
            lemma_lex_eqlen_extend(x.drop_first(), y.drop_first(), u, w);
        }
    }
}

/// Zero-padded decimals of the same width are ordered as their values.
pub proof fn lemma_dec_order(v1: u64, v2: u64, w: nat)
    requires
        v1 < v2,
        v2 < pow10(w),
    ensures
        lex_lt(spec_dec(v1, w), spec_dec(v2, w)),
    decreases w,
{
    if w == 0 {
    } else {
        let q1 = v1 / 10;
        let q2 = v2 / 10;
        let r1 = v1 % 10;
        let r2 = v2 % 10;
        assert(q2 < pow10((w - 1) as nat) && q1 <= q2 && (q1 == q2 ==> r1 < r2) && r1 < 10 && r2
            < 10) by (nonlinear_arith)
            requires
                v1 < v2,
                v2 < 10 * pow10((w - 1) as nat),
                q1 == v1 / 10,
                q2 == v2 / 10,
                r1 == v1 % 10,
                r2 == v2 % 10,
        ;
        lemma_dec_len(q1, (w - 1) as nat);
        lemma_dec_len(q2, (w - 1) as nat);
        if q1 < q2 {
            lemma_dec_order(q1, q2, (w - 1) as nat);
            assert(spec_dec(v1, w) =~= spec_dec(q1, (w - 1) as nat) + seq![(48 + r1) as u8]);
            assert(spec_dec(v2, w) =~= spec_dec(q2, (w - 1) as nat) + seq![(48 + r2) as u8]);
            lemma_lex_eqlen_extend(
                spec_dec(q1, (w - 1) as nat),
                spec_dec(q2, (w - 1) as nat),
                seq![(48 + r1) as u8],
                seq![(48 + r2) as u8],
            );
        } else {
            assert(spec_dec(v1, w) =~= spec_dec(q1, (w - 1) as nat) + seq![(48 + r1) as u8]);
            assert(spec_dec(v2, w) =~= spec_dec(q1, (w - 1) as nat) + seq![(48 + r2) as u8]);
            lemma_lex_common_prefix(
                spec_dec(q1, (w - 1) as nat),
                seq![(48 + r1) as u8],
                seq![(48 + r2) as u8],
            );
            assert(lex_lt(seq![(48 + r1) as u8], seq![(48 + r2) as u8])) by {
                assert(seq![(48 + r1) as u8][0] == (48 + r1) as u8);
                assert(seq![(48 + r2) as u8][0] == (48 + r2) as u8);
            }
        }
    }
}

/// The naming scheme orders versioned file names chronologically: a later
/// timestamp — or the same timestamp with a later sequence number — gives a
/// lexicographically greater name, because both components are fixed-width
/// and zero-padded.
pub proof fn lemma_versioned_name_order(
    stem: Seq<u8>,
    ext: Seq<u8>,
    s1: u64,
    q1: u16,
    s2: u64,
    q2: u16,
)
    requires
        s1 < s2 || (s1 == s2 && q1 < q2),
    ensures
        lex_lt(
            spec_versioned_name(stem, ext, s1, q1),
            spec_versioned_name(stem, ext, s2, q2),
        ),
{
    let head = stem + seq![46u8];
    let d1 = spec_dec(s1, 20);
    let d2 = spec_dec(s2, 20);
    let e1 = spec_dec(q1 as u64, 5);
    let e2 = spec_dec(q2 as u64, 5);
    let t1 = seq![45u8] + e1 + seq![46u8] + ext;
    let t2 = seq![45u8] + e2 + seq![46u8] + ext;
    assert(spec_versioned_name(stem, ext, s1, q1) =~= head + (d1 + t1));
    assert(spec_versioned_name(stem, ext, s2, q2) =~= head + (d2 + t2));
    lemma_dec_len(s1, 20);
    lemma_dec_len(s2, 20);
    lemma_dec_len(q1 as u64, 5);
    lemma_dec_len(q2 as u64, 5);
    if s1 < s2 {
        assert(s2 < pow10(20)) by {
            reveal_with_fuel(pow10, 21);
        }
        lemma_dec_order(s1, s2, 20);
        lemma_lex_eqlen_extend(d1, d2, t1, t2);
        lemma_lex_common_prefix(head, d1 + t1, d2 + t2);
    } else {
        assert((q2 as u64) < pow10(5)) by {
            reveal_with_fuel(pow10, 6);
        }
        lemma_dec_order(q1 as u64, q2 as u64, 5);
        let head2 = head + d1 + seq![45u8];
        let u1 = seq![46u8] + ext;
        assert(head + (d1 + t1) =~= head2 + (e1 + u1));
        assert(head + (d2 + t2) =~= head2 + (e2 + u1));
        lemma_lex_eqlen_extend(e1, e2, u1, u1);
        lemma_lex_common_prefix(head2, e1 + u1, e2 + u1);
    }
}

/// Every element a filter keeps occurs in the sequence it was taken from.
pub proof fn lemma_filter_subset(s: Seq<Seq<u8>>, pred: spec_fn(Seq<u8>) -> bool)
    ensures
        forall|x: Seq<u8>| #[trigger] s.filter(pred).contains(x) ==> s.contains(x),
    decreases s.len(),
{
    reveal(Seq::filter);
    if s.len() != 0 {
        let dl = s.drop_last();
        lemma_filter_subset(dl, pred);
        assert forall|x: Seq<u8>| #[trigger] s.filter(pred).contains(x) implies s.contains(x) by {
            let f = s.filter(pred);
            let i = choose|i: int| 0 <= i < f.len() && f[i] == x;
            if pred(s.last()) && i == f.len() - 1 {
                assert(x == s.last());
                assert(s[s.len() - 1] == x);
            } else {
                assert(dl.filter(pred)[i] == x);
                assert(dl.filter(pred).contains(x));
                assert(dl.contains(x));
                let j = choose|j: int| 0 <= j < dl.len() && dl[j] == x;
                assert(s[j] == x);
            }
        }
    }
}

/// Filtering a duplicate-free sequence yields a duplicate-free sequence.
pub proof fn lemma_filter_nodup(s: Seq<Seq<u8>>, pred: spec_fn(Seq<u8>) -> bool)
    requires
        s.no_duplicates(),
    ensures
        s.filter(pred).no_duplicates(),
    decreases s.len(),
{
    reveal(Seq::filter);
    if s.len() != 0 {
        let dl = s.drop_last();
        assert(dl.no_duplicates()) by {
            assert forall|i: int, j: int| 0 <= i < j < dl.len() implies dl[i] != dl[j] by {
                assert(dl[i] == s[i]);
                assert(dl[j] == s[j]);
            }
        }
        lemma_filter_nodup(dl, pred);
        if pred(s.last()) {
            lemma_filter_subset(dl, pred);
            if dl.filter(pred).contains(s.last()) {
                assert(dl.contains(s.last()));
                let j = choose|j: int| 0 <= j < dl.len() && dl[j] == s.last();
                assert(s[j] == s.last());
                assert(s[s.len() - 1] == s.last());
            }
            assert(s.filter(pred) == dl.filter(pred).push(s.last()));
            assert forall|i: int, j: int|
                0 <= i < j < s.filter(pred).len() implies s.filter(pred)[i] != s.filter(
                pred,
            )[j] by {
                if j < s.filter(pred).len() - 1 {
                } else {
                    assert(s.filter(pred)[i] == dl.filter(pred)[i]);
                    assert(dl.filter(pred).contains(dl.filter(pred)[i]));
                    assert(s.filter(pred)[j] == s.last());
                }
            }
        } else {
            assert(s.filter(pred) == dl.filter(pred));
        }
    }
}

/// Removing entry `i` drops exactly that entry's contribution to a filter's
/// length.
pub proof fn lemma_filter_remove_len(s: Seq<Seq<u8>>, i: int, pred: spec_fn(Seq<u8>) -> bool)
    requires
        0 <= i < s.len(),
    ensures
        s.remove(i).filter(pred).len() == s.filter(pred).len() - (if pred(s[i]) {
            1int
        } else {
            0int
        }),
{
    reveal(Seq::filter);
    let a = s.take(i);
    let mid = seq![s[i]];
    let b = s.skip(i + 1);
    assert(s =~= a + (mid + b));
    assert(s.remove(i) =~= a + b);
    Seq::filter_distributes_over_add(a, mid + b, pred);
    Seq::filter_distributes_over_add(mid, b, pred);
    Seq::filter_distributes_over_add(a, b, pred);
    assert(mid.drop_last() =~= Seq::<Seq<u8>>::empty());
    assert(Seq::<Seq<u8>>::empty().filter(pred) =~= Seq::<Seq<u8>>::empty());
    assert(mid.last() == s[i]);
    if pred(s[i]) {
        assert(mid.filter(pred) =~= Seq::<Seq<u8>>::empty().push(s[i]));
    } else {
        assert(mid.filter(pred) =~= Seq::<Seq<u8>>::empty());
    }
}

/// The order is transitive.
pub proof fn lemma_lex_trans(a: Seq<u8>, b: Seq<u8>, c: Seq<u8>)
    requires
        lex_lt(a, b),
        lex_lt(b, c),
    ensures
        lex_lt(a, c),
    decreases a.len() + b.len() + c.len(),
{
    if b.len() == 0 || c.len() == 0 {
    } else if a.len() == 0 {
    } else {
        if a[0] == b[0] && b[0] == c[0] {
            lemma_lex_trans(a.drop_first(), b.drop_first(), c.drop_first());
        }
    }
}

} // verus!
