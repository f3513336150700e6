//! The binary layout shared by both on-disk encodings.
//!
//! Every value kind that can appear in a persisted snapshot implements
//! [`Wire`]: a length-delimited binary layout with a specification-level
//! parser (`wparse`), an encoder (`wwrite`) whose output provably parses back
//! to the encoded value, and a decoder (`wread`) that provably follows the
//! specification parser.  Round-trip identity of the codecs is derived from
//! these contracts.

use vstd::bytes::{
    lemma_auto_spec_u64_to_from_le_bytes, spec_u64_from_le_bytes, spec_u64_to_le_bytes,
    u64_from_le_bytes, u64_to_le_bytes,
};
use vstd::prelude::*;
use vstd::slice::slice_subrange;
use crate::state::QoS;

verus! {

/// A value with a binary wire layout.
///
/// `Self::V` (through [`DeepView`]) is the mathematical model of the value;
/// `wparse` is the one specification both the encoder and the decoder are
/// held to.
pub trait Wire: DeepView + Sized {
    /// What one encoded value, starting at position `i` of `b`, parses to,
    /// together with the position just past its encoding.
    spec fn wparse(b: Seq<u8>, i: int) -> Option<(Self::V, int)>;

    /// Parsing consumes a well-delimited range of the buffer and is not
    /// affected by bytes appended after it.
    proof fn wparse_props(b: Seq<u8>, c: Seq<u8>, i: int)
        ensures
            Self::wparse(b, i) matches Some(r) ==> 0 <= i <= r.1 <= b.len(),
            (b.is_prefix_of(c) && Self::wparse(b, i) is Some) ==> Self::wparse(c, i)
                == Self::wparse(b, i),
    ;

    /// Appends the encoding of `self` to `out`; what was appended parses back
    /// to `self`'s model.
    fn wwrite(&self, out: &mut Vec<u8>)
        ensures
            old(out)@.is_prefix_of(final(out)@),
            Self::wparse(final(out)@, old(out)@.len() as int) == Some(
                (self.deep_view(), final(out)@.len() as int),
            ),
    ;

    /// Reads one value at `*pos`, advancing `*pos` past it, exactly as the
    /// specification parser does.
    fn wread(b: &[u8], pos: &mut usize) -> (r: Option<Self>)
        requires
            *old(pos) <= b@.len(),
        ensures
            r matches Some(v) ==> Self::wparse(b@, *old(pos) as int) == Some(
                (v.deep_view(), *final(pos) as int),
            ) && *final(pos) <= b@.len(),
            r is None ==> Self::wparse(b@, *old(pos) as int) is None,
    ;
}

/// A sequence contained in another is unchanged as a prefix of any further
/// extension of it.
pub proof fn prefix_trans<T>(a: Seq<T>, b: Seq<T>, c: Seq<T>)
    requires
        a.is_prefix_of(b),
        b.is_prefix_of(c),
    ensures
        a.is_prefix_of(c),
{
    assert(a =~= c.subrange(0, a.len() as int));
}

/// Every sequence is a prefix of itself.
pub proof fn prefix_refl<T>(a: Seq<T>)
    ensures
        a.is_prefix_of(a),
{
    assert(a =~= a.subrange(0, a.len() as int));
}

/// A sequence is a prefix of itself extended by one element.
pub proof fn prefix_push<T>(a: Seq<T>, x: T)
    ensures
        a.is_prefix_of(a.push(x)),
{
    assert(a =~= a.push(x).subrange(0, a.len() as int));
}

/// A prefix agrees with the longer sequence index for index.
pub proof fn prefix_index<T>(a: Seq<T>, b: Seq<T>)
    requires
        a.is_prefix_of(b),
    ensures
        forall|i: int| 0 <= i < a.len() ==> a[i] == b[i],
{
    assert(a =~= b.subrange(0, a.len() as int));
}

// ---------------------------------------------------------------------------
// u8
// ---------------------------------------------------------------------------
impl Wire for u8 {
    open spec fn wparse(b: Seq<u8>, i: int) -> Option<(u8, int)> {
        if 0 <= i < b.len() {
            Some((b[i], i + 1))
        } else {
            None
        }
    }

    proof fn wparse_props(b: Seq<u8>, c: Seq<u8>, i: int) {
    }

    fn wwrite(&self, out: &mut Vec<u8>) {
        out.push(*self);
    }

    fn wread(b: &[u8], pos: &mut usize) -> (r: Option<Self>) {
        if *pos < b.len() {
            let v = b[*pos];
            *pos = *pos + 1;
            Some(v)
        } else {
            None
        }
    }
}

// ---------------------------------------------------------------------------
// u64: eight bytes, little endian
// ---------------------------------------------------------------------------
impl Wire for u64 {
    open spec fn wparse(b: Seq<u8>, i: int) -> Option<(u64, int)> {
        if 0 <= i && i + 8 <= b.len() {
            Some((spec_u64_from_le_bytes(b.subrange(i, i + 8)), i + 8))
        } else {
            None
        }
    }

    proof fn wparse_props(b: Seq<u8>, c: Seq<u8>, i: int) {
        if b.is_prefix_of(c) && Self::wparse(b, i) is Some {
            assert(c.subrange(i, i + 8) =~= b.subrange(i, i + 8));
        }
    }

    fn wwrite(&self, out: &mut Vec<u8>) {
        let mut bytes = u64_to_le_bytes(*self);
        out.append(&mut bytes);
        proof {
            lemma_auto_spec_u64_to_from_le_bytes();
            assert(out@.subrange(old(out)@.len() as int, old(out)@.len() as int + 8)
                =~= spec_u64_to_le_bytes(*self));
        }
    }

    fn wread(b: &[u8], pos: &mut usize) -> (r: Option<Self>) {
        if b.len() - *pos >= 8 {
            let s = slice_subrange(b, *pos, *pos + 8);
            let v = u64_from_le_bytes(s);
            *pos = *pos + 8;
            Some(v)
        } else {
            None
        }
    }
}

// ---------------------------------------------------------------------------
// bool: one byte, 0 or 1
// ---------------------------------------------------------------------------
impl Wire for bool {
    open spec fn wparse(b: Seq<u8>, i: int) -> Option<(bool, int)> {
        if 0 <= i < b.len() {
            if b[i] == 0 {
                Some((false, i + 1))
            } else if b[i] == 1 {
                Some((true, i + 1))
            } else {
                None
            }
        } else {
            None
        }
    }

    proof fn wparse_props(b: Seq<u8>, c: Seq<u8>, i: int) {
    }

    fn wwrite(&self, out: &mut Vec<u8>) {
        if *self {
            out.push(1);
        } else {
            out.push(0);
        }
    }

    fn wread(b: &[u8], pos: &mut usize) -> (r: Option<Self>) {
        if *pos < b.len() {
            let v = b[*pos];
            if v == 0 {
                *pos = *pos + 1;
                Some(false)
            } else if v == 1 {
                *pos = *pos + 1;
                Some(true)
            } else {
                None
            }
        } else {
            None
        }
    }
}

// ---------------------------------------------------------------------------
// QoS: one byte, 0, 1 or 2
// ---------------------------------------------------------------------------
impl Wire for QoS {
    open spec fn wparse(b: Seq<u8>, i: int) -> Option<(QoS, int)> {
        if 0 <= i < b.len() {
            if b[i] == 0 {
                Some((QoS::AtMostOnce, i + 1))
            } else if b[i] == 1 {
                Some((QoS::AtLeastOnce, i + 1))
            } else if b[i] == 2 {
                Some((QoS::ExactlyOnce, i + 1))
            } else {
                None
            }
        } else {
            None
        }
    }

    proof fn wparse_props(b: Seq<u8>, c: Seq<u8>, i: int) {
    }

    fn wwrite(&self, out: &mut Vec<u8>) {
        match *self {
            QoS::AtMostOnce => out.push(0),
            QoS::AtLeastOnce => out.push(1),
            QoS::ExactlyOnce => out.push(2),
        }
    }

    fn wread(b: &[u8], pos: &mut usize) -> (r: Option<Self>) {
        if *pos < b.len() {
            let v = b[*pos];
            if v == 0 {
                *pos = *pos + 1;
                Some(QoS::AtMostOnce)
            } else if v == 1 {
                *pos = *pos + 1;
                Some(QoS::AtLeastOnce)
            } else if v == 2 {
                *pos = *pos + 1;
                Some(QoS::ExactlyOnce)
            } else {
                None
            }
        } else {
            None
        }
    }
}

// ---------------------------------------------------------------------------
// Sequences of wire values: a u64 count followed by the elements
// ---------------------------------------------------------------------------
/// What `n` consecutive encoded `W` values, starting at position `i` of `b`,
/// parse to.
pub open spec fn wparse_items<W: Wire>(b: Seq<u8>, i: int, n: nat) -> Option<
    (Seq<<W as DeepView>::V>, int),
>
    decreases n,
{
    if n == 0 {
        if 0 <= i <= b.len() {
            Some((Seq::empty(), i))
        } else {
            None
        }
    } else {
        match W::wparse(b, i) {
            None => None,
            Some((v, j)) => match wparse_items::<W>(b, j, (n - 1) as nat) {
                None => None,
                Some((vs, k)) => Some((seq![v] + vs, k)),
            },
        }
    }
}

/// Bounds and prefix-stability of `wparse_items`, as in [`Wire::wparse_props`].
pub proof fn wparse_items_props<W: Wire>(b: Seq<u8>, c: Seq<u8>, i: int, n: nat)
    ensures
        wparse_items::<W>(b, i, n) matches Some(r) ==> 0 <= i <= r.1 <= b.len() && r.0.len() == n,
        (b.is_prefix_of(c) && wparse_items::<W>(b, i, n) is Some) ==> wparse_items::<W>(c, i, n)
            == wparse_items::<W>(b, i, n),
    decreases n,
{
    if n == 0 {
        if b.is_prefix_of(c) && 0 <= i <= b.len() {
            assert(i <= c.len());
        }
    } else {
        W::wparse_props(b, c, i);
        if let Some((v, j)) = W::wparse(b, i) {
            wparse_items_props::<W>(b, c, j, (n - 1) as nat);
        }
    }
}

/// Parsing one more element after `n` parsed elements extends the parsed
/// sequence by that element.
pub proof fn wparse_items_snoc<W: Wire>(
    b: Seq<u8>,
    i: int,
    n: nat,
    vs: Seq<<W as DeepView>::V>,
    j: int,
    v: <W as DeepView>::V,
    e: int,
)
    requires
        wparse_items::<W>(b, i, n) == Some((vs, j)),
        W::wparse(b, j) == Some((v, e)),
    ensures
        wparse_items::<W>(b, i, (n + 1) as nat) == Some((vs.push(v), e)),
    decreases n,
{
    W::wparse_props(b, b, j);
    if n == 0 {
        assert(vs =~= Seq::<<W as DeepView>::V>::empty());
        assert(j == i);
        assert(0 <= e <= b.len());
        assert(wparse_items::<W>(b, e, 0) == Some((Seq::<<W as DeepView>::V>::empty(), e)));
        assert(wparse_items::<W>(b, i, 1) == Some(
            (seq![v] + Seq::<<W as DeepView>::V>::empty(), e),
        ));
        assert(seq![v] + Seq::<<W as DeepView>::V>::empty() =~= vs.push(v));
    } else {
        let (v0, j1) = W::wparse(b, i)->Some_0;
        let (vs1, j2) = wparse_items::<W>(b, j1, (n - 1) as nat)->Some_0;
        assert(vs == seq![v0] + vs1 && j2 == j);
        wparse_items_snoc::<W>(b, j1, (n - 1) as nat, vs1, j, v, e);
        assert(wparse_items::<W>(b, i, (n + 1) as nat) == Some((seq![v0] + vs1.push(v), e)));
        assert(seq![v0] + vs1.push(v) =~= vs.push(v));
    }
}

/// `wparse_items` with a sequence of already-parsed elements in front.
pub open spec fn wparse_items_from<W: Wire>(
    b: Seq<u8>,
    i: int,
    n: nat,
    acc: Seq<<W as DeepView>::V>,
) -> Option<(Seq<<W as DeepView>::V>, int)> {
    match wparse_items::<W>(b, i, n) {
        None => None,
        Some((vs, e)) => Some((acc + vs, e)),
    }
}

impl<W: Wire> Wire for Vec<W> {
    open spec fn wparse(b: Seq<u8>, i: int) -> Option<(Seq<<W as DeepView>::V>, int)> {
        match <u64 as Wire>::wparse(b, i) {
            None => None,
            Some((n, j)) => wparse_items::<W>(b, j, n as nat),
        }
    }

    proof fn wparse_props(b: Seq<u8>, c: Seq<u8>, i: int) {
        <u64 as Wire>::wparse_props(b, c, i);
        if let Some((n, j)) = <u64 as Wire>::wparse(b, i) {
            wparse_items_props::<W>(b, c, j, n as nat);
        }
    }

    fn wwrite(&self, out: &mut Vec<u8>) {
        let ghost i0 = out@.len() as int;
        let n: u64 = self.len() as u64;
        n.wwrite(out);
        let ghost j0 = out@.len() as int;
        let mut k: usize = 0;
        proof {
            assert(self.deep_view().take(0) =~= Seq::<<W as DeepView>::V>::empty());
        }
        while k < self.len()
            invariant
                k <= self.len(),
                n == self.len() as u64,
                old(out)@.is_prefix_of(out@),
                i0 == old(out)@.len() as int,
                j0 <= out@.len(),
                <u64 as Wire>::wparse(out@, i0) == Some((n, j0)),
                wparse_items::<W>(out@, j0, k as nat) == Some(
                    (self.deep_view().take(k as int), out@.len() as int),
                ),
            decreases self.len() - k,
        {
            let ghost prev = out@;
            self[k].wwrite(out);
            proof {
                <u64 as Wire>::wparse_props(prev, out@, i0);
                wparse_items_props::<W>(prev, out@, j0, k as nat);
                wparse_items_snoc::<W>(
                    out@,
                    j0,
                    k as nat,
                    self.deep_view().take(k as int),
                    prev.len() as int,
                    self[k as int].deep_view(),
                    out@.len() as int,
                );
                assert(self.deep_view().take(k + 1) =~= self.deep_view().take(k as int).push(
                    self[k as int].deep_view(),
                ));
                prefix_trans(old(out)@, prev, out@);
            }
            k = k + 1;
        }
        proof {
            assert(self.deep_view().take(self.len() as int) =~= self.deep_view());
        }
    }

    fn wread(b: &[u8], pos: &mut usize) -> (r: Option<Self>) {
        let ghost start = *pos as int;
        let n_opt = <u64 as Wire>::wread(b, pos);
        match n_opt {
            None => None,
            Some(n) => {
                let ghost j0 = *pos as int;
                let mut acc: Vec<W> = Vec::new();
                let mut k: u64 = 0;
                proof {
                    assert(acc.deep_view() =~= Seq::<<W as DeepView>::V>::empty());
                    assert(wparse_items_from::<W>(b@, j0, n as nat, acc.deep_view())
                        == wparse_items::<W>(b@, j0, n as nat));
                }
                while k < n
                    invariant
                        k <= n,
                        *pos <= b@.len(),
                        acc.len() == k,
                        start == *old(pos) as int,
                        <u64 as Wire>::wparse(b@, start) == Some((n, j0)),
                        wparse_items::<W>(b@, j0, n as nat) == wparse_items_from::<W>(
                            b@,
                            *pos as int,
                            (n - k) as nat,
                            acc.deep_view(),
                        ),
                    decreases n - k,
                {
                    let ghost p0 = *pos as int;
                    let v_opt = W::wread(b, pos);
                    match v_opt {
                        None => {
                            proof {
                                assert(<u64 as Wire>::wparse(b@, start) == Some((n, j0)));
                                assert(W::wparse(b@, p0) is None);
                                assert(wparse_items::<W>(b@, p0, (n - k) as nat) is None);
                                assert(wparse_items::<W>(b@, j0, n as nat) is None);
                                assert(Self::wparse(b@, start) is None);
                            }
                            return None;
                        },
                        Some(v) => {
                            let ghost acc0 = acc.deep_view();
                            let ghost vm = v.deep_view();
                            acc.push(v);
                            proof {
                                assert(acc.deep_view() =~= acc0.push(vm));
                                if let Some((vs, e)) = wparse_items::<W>(
                                    b@,
                                    *pos as int,
                                    (n - k - 1) as nat,
                                ) {
                                    assert(acc0 + (seq![vm] + vs) =~= acc0.push(vm) + vs);
                                }
                            }
                            k = k + 1;
                        },
                    }
                }
                proof {
                    assert(acc.deep_view() + Seq::<<W as DeepView>::V>::empty() =~= acc.deep_view());
                }
                Some(acc)
            },
        }
    }
}

// ---------------------------------------------------------------------------
// Pairs of wire values, one after the other
// ---------------------------------------------------------------------------
impl<W1: Wire, W2: Wire> Wire for (W1, W2) {
    open spec fn wparse(b: Seq<u8>, i: int) -> Option<
        ((<W1 as DeepView>::V, <W2 as DeepView>::V), int),
    > {
        match W1::wparse(b, i) {
            None => None,
            Some((v1, j)) => match W2::wparse(b, j) {
                None => None,
                Some((v2, e)) => Some(((v1, v2), e)),
            },
        }
    }

    proof fn wparse_props(b: Seq<u8>, c: Seq<u8>, i: int) {
        W1::wparse_props(b, c, i);
        if let Some((v1, j)) = W1::wparse(b, i) {
            W2::wparse_props(b, c, j);
        }
    }

    fn wwrite(&self, out: &mut Vec<u8>) {
        let ghost b0 = out@;
        self.0.wwrite(out);
        let ghost b1 = out@;
        self.1.wwrite(out);
        proof {
            W1::wparse_props(b1, out@, b0.len() as int);
            prefix_trans(b0, b1, out@);
        }
    }

    fn wread(b: &[u8], pos: &mut usize) -> (r: Option<Self>) {
        let v1 = match W1::wread(b, pos) {
            None => {
                return None;
            },
            Some(v1) => v1,
        };
        let v2 = match W2::wread(b, pos) {
            None => {
                return None;
            },
            Some(v2) => v2,
        };
        Some((v1, v2))
    }
}

// ---------------------------------------------------------------------------
// String: its UTF-8 bytes, encoded like any other byte sequence
// ---------------------------------------------------------------------------
/// Relies on `String::from_utf8`: it succeeds exactly on the valid UTF-8 byte
/// sequences and decodes them to the characters they encode.
#[verifier::external_body]
fn string_from_utf8(v: Vec<u8>) -> (r: Option<String>)
    ensures
        r is Some <==> vstd::utf8::valid_utf8(v@),
        r matches Some(s) ==> s@ == vstd::utf8::decode_utf8(v@),
{
    String::from_utf8(v).ok()
}

impl Wire for String {
    open spec fn wparse(b: Seq<u8>, i: int) -> Option<(Seq<char>, int)> {
        match <Vec<u8> as Wire>::wparse(b, i) {
            None => None,
            Some((bs, j)) => if vstd::utf8::valid_utf8(bs) {
                Some((vstd::utf8::decode_utf8(bs), j))
            } else {
                None
            },
        }
    }

    proof fn wparse_props(b: Seq<u8>, c: Seq<u8>, i: int) {
        <Vec<u8> as Wire>::wparse_props(b, c, i);
    }

    fn wwrite(&self, out: &mut Vec<u8>) {
        let bv: Vec<u8> = self.as_str().as_bytes_vec();
        bv.wwrite(out);
        proof {
            broadcast use vstd::utf8::encode_utf8_valid_utf8;
            broadcast use vstd::utf8::encode_utf8_decode_utf8;

            assert(bv.deep_view() =~= bv@);
        }
    }

    fn wread(b: &[u8], pos: &mut usize) -> (r: Option<Self>) {
        let ghost p0 = *pos as int;
        let bs = match <Vec<u8> as Wire>::wread(b, pos) {
            None => {
                return None;
            },
            Some(bs) => bs,
        };
        proof {
            assert(bs.deep_view() =~= bs@);
        }
        match string_from_utf8(bs) {
            None => None,
            Some(s) => Some(s),
        }
    }
}

// ---------------------------------------------------------------------------
// The snapshot data model
// ---------------------------------------------------------------------------
impl Wire for crate::state::Publication {
    open spec fn wparse(b: Seq<u8>, i: int) -> Option<(crate::state::PublicationView, int)> {
        match <String as Wire>::wparse(b, i) {
            None => None,
            Some((topic, j1)) => match <QoS as Wire>::wparse(b, j1) {
                None => None,
                Some((q, j2)) => match <bool as Wire>::wparse(b, j2) {
                    None => None,
                    Some((rt, j3)) => match <Vec<u8> as Wire>::wparse(b, j3) {
                        None => None,
                        Some((pl, j4)) => Some(
                            (
                                crate::state::PublicationView {
                                    topic_name: topic,
                                    qos: q,
                                    retain: rt,
                                    payload: pl,
                                },
                                j4,
                            ),
                        ),
                    },
                },
            },
        }
    }

    proof fn wparse_props(b: Seq<u8>, c: Seq<u8>, i: int) {
        <String as Wire>::wparse_props(b, c, i);
        if let Some((topic, j1)) = <String as Wire>::wparse(b, i) {
            <QoS as Wire>::wparse_props(b, c, j1);
            if let Some((q, j2)) = <QoS as Wire>::wparse(b, j1) {
                <bool as Wire>::wparse_props(b, c, j2);
                if let Some((rt, j3)) = <bool as Wire>::wparse(b, j2) {
                    <Vec<u8> as Wire>::wparse_props(b, c, j3);
                }
            }
        }
    }

    fn wwrite(&self, out: &mut Vec<u8>) {
        let ghost b0 = out@;
        self.topic_name.wwrite(out);
        let ghost b1 = out@;
        self.qos.wwrite(out);
        let ghost b2 = out@;
        self.retain.wwrite(out);
        let ghost b3 = out@;
        self.payload.wwrite(out);
        proof {
            <String as Wire>::wparse_props(b1, out@, b0.len() as int);
            <QoS as Wire>::wparse_props(b2, out@, b1.len() as int);
            <bool as Wire>::wparse_props(b3, out@, b2.len() as int);
            prefix_trans(b1, b2, b3);
            prefix_trans(b1, b3, out@);
            prefix_trans(b2, b3, out@);
            prefix_trans(b0, b1, out@);
            assert(self.payload.deep_view() =~= self.payload@);
        }
    }

    fn wread(b: &[u8], pos: &mut usize) -> (r: Option<Self>) {
        let topic_name = match <String as Wire>::wread(b, pos) {
            None => {
                return None;
            },
            Some(v) => v,
        };
        let qos = match <QoS as Wire>::wread(b, pos) {
            None => {
                return None;
            },
            Some(v) => v,
        };
        let retain = match <bool as Wire>::wread(b, pos) {
            None => {
                return None;
            },
            Some(v) => v,
        };
        let payload = match <Vec<u8> as Wire>::wread(b, pos) {
            None => {
                return None;
            },
            Some(v) => v,
        };
        proof {
            assert(payload.deep_view() =~= payload@);
        }
        Some(crate::state::Publication { topic_name, qos, retain, payload })
    }
}

impl Wire for crate::state::Subscription {
    open spec fn wparse(b: Seq<u8>, i: int) -> Option<(crate::state::SubscriptionView, int)> {
        match <String as Wire>::wparse(b, i) {
            None => None,
            Some((filter, j1)) => match <QoS as Wire>::wparse(b, j1) {
                None => None,
                Some((q, j2)) => Some(
                    (crate::state::SubscriptionView { filter, max_qos: q }, j2),
                ),
            },
        }
    }

    proof fn wparse_props(b: Seq<u8>, c: Seq<u8>, i: int) {
        <String as Wire>::wparse_props(b, c, i);
        if let Some((filter, j1)) = <String as Wire>::wparse(b, i) {
            <QoS as Wire>::wparse_props(b, c, j1);
        }
    }

    fn wwrite(&self, out: &mut Vec<u8>) {
        let ghost b0 = out@;
        self.filter.wwrite(out);
        let ghost b1 = out@;
        self.max_qos.wwrite(out);
        proof {
            <String as Wire>::wparse_props(b1, out@, b0.len() as int);
            prefix_trans(b0, b1, out@);
        }
    }

    fn wread(b: &[u8], pos: &mut usize) -> (r: Option<Self>) {
        let filter = match <String as Wire>::wread(b, pos) {
            None => {
                return None;
            },
            Some(v) => v,
        };
        let max_qos = match <QoS as Wire>::wread(b, pos) {
            None => {
                return None;
            },
            Some(v) => v,
        };
        Some(crate::state::Subscription { filter, max_qos })
    }
}

impl Wire for crate::state::SessionState {
    open spec fn wparse(b: Seq<u8>, i: int) -> Option<(crate::state::SessionStateView, int)> {
        match <String as Wire>::wparse(b, i) {
            None => None,
            Some((cid, j1)) => match <Vec<crate::state::Subscription> as Wire>::wparse(b, j1) {
                None => None,
                Some((subs, j2)) => match <Vec<crate::state::Publication> as Wire>::wparse(
                    b,
                    j2,
                ) {
                    None => None,
                    Some((pubs, j3)) => Some(
                        (
                            crate::state::SessionStateView {
                                client_id: cid,
                                subscriptions: subs,
                                waiting_to_be_sent: pubs,
                            },
                            j3,
                        ),
                    ),
                },
            },
        }
    }

    proof fn wparse_props(b: Seq<u8>, c: Seq<u8>, i: int) {
        <String as Wire>::wparse_props(b, c, i);
        if let Some((cid, j1)) = <String as Wire>::wparse(b, i) {
            <Vec<crate::state::Subscription> as Wire>::wparse_props(b, c, j1);
            if let Some((subs, j2)) = <Vec<crate::state::Subscription> as Wire>::wparse(b, j1) {
                <Vec<crate::state::Publication> as Wire>::wparse_props(b, c, j2);
            }
        }
    }

    fn wwrite(&self, out: &mut Vec<u8>) {
        let ghost b0 = out@;
        self.client_id.wwrite(out);
        let ghost b1 = out@;
        self.subscriptions.wwrite(out);
        let ghost b2 = out@;
        self.waiting_to_be_sent.wwrite(out);
        proof {
            <String as Wire>::wparse_props(b1, out@, b0.len() as int);
            <Vec<crate::state::Subscription> as Wire>::wparse_props(b2, out@, b1.len() as int);
            prefix_trans(b1, b2, out@);
            prefix_trans(b0, b1, out@);
        }
    }

    fn wread(b: &[u8], pos: &mut usize) -> (r: Option<Self>) {
        let client_id = match <String as Wire>::wread(b, pos) {
            None => {
                return None;
            },
            Some(v) => v,
        };
        let subscriptions = match <Vec<crate::state::Subscription> as Wire>::wread(b, pos) {
            None => {
                return None;
            },
            Some(v) => v,
        };
        let waiting_to_be_sent = match <Vec<crate::state::Publication> as Wire>::wread(b, pos) {
            None => {
                return None;
            },
            Some(v) => v,
        };
        Some(crate::state::SessionState { client_id, subscriptions, waiting_to_be_sent })
    }
}

impl Wire for crate::state::BrokerState {
    open spec fn wparse(b: Seq<u8>, i: int) -> Option<(crate::state::BrokerStateView, int)> {
        match <Vec<(String, crate::state::Publication)> as Wire>::wparse(b, i) {
            None => None,
            Some((retained, j1)) => match <Vec<crate::state::SessionState> as Wire>::wparse(
                b,
                j1,
            ) {
                None => None,
                Some((sessions, j2)) => Some(
                    (crate::state::BrokerStateView { retained, sessions }, j2),
                ),
            },
        }
    }

    proof fn wparse_props(b: Seq<u8>, c: Seq<u8>, i: int) {
        <Vec<(String, crate::state::Publication)> as Wire>::wparse_props(b, c, i);
        if let Some((retained, j1)) = <Vec<(String, crate::state::Publication)> as Wire>::wparse(
            b,
            i,
        ) {
            <Vec<crate::state::SessionState> as Wire>::wparse_props(b, c, j1);
        }
    }

    fn wwrite(&self, out: &mut Vec<u8>) {
        let ghost b0 = out@;
        self.retained.wwrite(out);
        let ghost b1 = out@;
        self.sessions.wwrite(out);
        proof {
            <Vec<(String, crate::state::Publication)> as Wire>::wparse_props(
                b1,
                out@,
                b0.len() as int,
            );
            prefix_trans(b0, b1, out@);
        }
    }

    fn wread(b: &[u8], pos: &mut usize) -> (r: Option<Self>) {
        let retained = match <Vec<(String, crate::state::Publication)> as Wire>::wread(b, pos) {
            None => {
                return None;
            },
            Some(v) => v,
        };
        let sessions = match <Vec<crate::state::SessionState> as Wire>::wread(b, pos) {
            None => {
                return None;
            },
            Some(v) => v,
        };
        Some(crate::state::BrokerState { retained, sessions })
    }
}

} // verus!
