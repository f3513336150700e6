//! The payload-deduplicating transform.
//!
//! Consolidation walks every publication of a snapshot — retained values
//! first, then each session's queue — and replaces each payload by a dense
//! id (starting at 1; 0 is reserved) into a shared table keyed by exact byte
//! equality.  Resolution is its inverse: it replaces each id by the table
//! entry it names, and reports a missing entry as a distinct, recoverable
//! error rather than inventing a payload.

use vstd::prelude::*;
use vstd::seq_lib::*;
use vstd::std_specs::cmp::PartialEqSpec;
use crate::error::ErrorReason;
use crate::state::{
    BrokerState, BrokerStateView, Publication, PublicationView, QoS, SessionState,
    SessionStateView, Subscription, SubscriptionView,
};
use crate::wire::{prefix_trans, Wire};

verus! {

/// A publication whose payload has been replaced by a table id.
#[derive(Clone, Debug, PartialEq, Eq)]
pub struct SimplifiedPublication {
    pub topic_name: String,
    pub qos: QoS,
    pub retain: bool,
    pub payload: u64,
}

/// Mathematical view of a [`SimplifiedPublication`].
pub struct SimplifiedPublicationView {
    pub topic_name: Seq<char>,
    pub qos: QoS,
    pub retain: bool,
    pub payload: u64,
}

impl View for SimplifiedPublication {
    type V = SimplifiedPublicationView;

    open spec fn view(&self) -> SimplifiedPublicationView {
        SimplifiedPublicationView {
            topic_name: self.topic_name@,
            qos: self.qos,
            retain: self.retain,
            payload: self.payload,
        }
    }
}

impl DeepView for SimplifiedPublication {
    type V = SimplifiedPublicationView;

    open spec fn deep_view(&self) -> SimplifiedPublicationView {
        self.view()
    }
}

/// A session whose queued publications reference the payload table.
#[derive(Clone, Debug, PartialEq, Eq)]
pub struct ConsolidatedSession {
    pub client_id: String,
    pub subscriptions: Vec<Subscription>,
    pub waiting_to_be_sent: Vec<SimplifiedPublication>,
}

/// Mathematical view of a [`ConsolidatedSession`].
pub struct ConsolidatedSessionView {
    pub client_id: Seq<char>,
    pub subscriptions: Seq<SubscriptionView>,
    pub waiting_to_be_sent: Seq<SimplifiedPublicationView>,
}

impl View for ConsolidatedSession {
    type V = ConsolidatedSessionView;

    open spec fn view(&self) -> ConsolidatedSessionView {
        ConsolidatedSessionView {
            client_id: self.client_id@,
            subscriptions: self.subscriptions.deep_view(),
            waiting_to_be_sent: self.waiting_to_be_sent.deep_view(),
        }
    }
}

impl DeepView for ConsolidatedSession {
    type V = ConsolidatedSessionView;

    open spec fn deep_view(&self) -> ConsolidatedSessionView {
        self.view()
    }
}

/// A snapshot in consolidated form: the payload table and the same retained
/// and session structures as [`BrokerState`], with payloads replaced by ids.
#[derive(Clone, Debug, PartialEq, Eq)]
pub struct ConsolidatedState {
    pub payloads: Vec<(u64, Vec<u8>)>,
    pub retained: Vec<(String, SimplifiedPublication)>,
    pub sessions: Vec<ConsolidatedSession>,
}

/// Mathematical view of a [`ConsolidatedState`].
pub struct ConsolidatedStateView {
    pub payloads: Seq<(u64, Seq<u8>)>,
    pub retained: Seq<(Seq<char>, SimplifiedPublicationView)>,
    pub sessions: Seq<ConsolidatedSessionView>,
}

impl View for ConsolidatedState {
    type V = ConsolidatedStateView;

    open spec fn view(&self) -> ConsolidatedStateView {
        ConsolidatedStateView {
            payloads: self.payloads.deep_view(),
            retained: self.retained.deep_view(),
            sessions: self.sessions.deep_view(),
        }
    }
}

impl DeepView for ConsolidatedState {
    type V = ConsolidatedStateView;

    open spec fn deep_view(&self) -> ConsolidatedStateView {
        self.view()
    }
}

// ---------------------------------------------------------------------------
// Wire layout of the consolidated form
// ---------------------------------------------------------------------------
impl Wire for SimplifiedPublication {
    open spec fn wparse(b: Seq<u8>, i: int) -> Option<(SimplifiedPublicationView, int)> {
        match <String as Wire>::wparse(b, i) {
            None => None,
            Some((topic, j1)) => match <QoS as Wire>::wparse(b, j1) {
                None => None,
                Some((q, j2)) => match <bool as Wire>::wparse(b, j2) {
                    None => None,
                    Some((rt, j3)) => match <u64 as Wire>::wparse(b, j3) {
                        None => None,
                        Some((id, j4)) => Some(
                            (
                                SimplifiedPublicationView {
                                    topic_name: topic,
                                    qos: q,
                                    retain: rt,
                                    payload: id,
                                },
                                j4,
                            ),
                        ),
                    },
                },
            },
        }
    }

    proof fn wparse_props(b: Seq<u8>, c: Seq<u8>, i: int) {
        <String as Wire>::wparse_props(b, c, i);
        if let Some((topic, j1)) = <String as Wire>::wparse(b, i) {
            <QoS as Wire>::wparse_props(b, c, j1);
            if let Some((q, j2)) = <QoS as Wire>::wparse(b, j1) {
                <bool as Wire>::wparse_props(b, c, j2);
                if let Some((rt, j3)) = <bool as Wire>::wparse(b, j2) {
                    <u64 as Wire>::wparse_props(b, c, j3);
                }
            }
        }
    }

    fn wwrite(&self, out: &mut Vec<u8>) {
        let ghost b0 = out@;
        self.topic_name.wwrite(out);
        let ghost b1 = out@;
        self.qos.wwrite(out);
        let ghost b2 = out@;
        self.retain.wwrite(out);
        let ghost b3 = out@;
        self.payload.wwrite(out);
        proof {
            <String as Wire>::wparse_props(b1, out@, b0.len() as int);
            <QoS as Wire>::wparse_props(b2, out@, b1.len() as int);
            <bool as Wire>::wparse_props(b3, out@, b2.len() as int);
            prefix_trans(b1, b2, b3);
            prefix_trans(b1, b3, out@);
            prefix_trans(b2, b3, out@);
            prefix_trans(b0, b1, out@);
        }
    }

    fn wread(b: &[u8], pos: &mut usize) -> (r: Option<Self>) {
        let topic_name = match <String as Wire>::wread(b, pos) {
            None => {
                return None;
            },
            Some(v) => v,
        };
        let qos = match <QoS as Wire>::wread(b, pos) {
            None => {
                return None;
            },
            Some(v) => v,
        };
        let retain = match <bool as Wire>::wread(b, pos) {
            None => {
                return None;
            },
            Some(v) => v,
        };
        let payload = match <u64 as Wire>::wread(b, pos) {
            None => {
                return None;
            },
            Some(v) => v,
        };
        Some(SimplifiedPublication { topic_name, qos, retain, payload })
    }
}

impl Wire for ConsolidatedSession {
    open spec fn wparse(b: Seq<u8>, i: int) -> Option<(ConsolidatedSessionView, int)> {
        match <String as Wire>::wparse(b, i) {
            None => None,
            Some((cid, j1)) => match <Vec<Subscription> as Wire>::wparse(b, j1) {
                None => None,
                Some((subs, j2)) => match <Vec<SimplifiedPublication> as Wire>::wparse(b, j2) {
                    None => None,
                    Some((pubs, j3)) => Some(
                        (
                            ConsolidatedSessionView {
                                client_id: cid,
                                subscriptions: subs,
                                waiting_to_be_sent: pubs,
                            },
                            j3,
                        ),
                    ),
                },
            },
        }
    }

    proof fn wparse_props(b: Seq<u8>, c: Seq<u8>, i: int) {
        <String as Wire>::wparse_props(b, c, i);
        if let Some((cid, j1)) = <String as Wire>::wparse(b, i) {
            <Vec<Subscription> as Wire>::wparse_props(b, c, j1);
            if let Some((subs, j2)) = <Vec<Subscription> as Wire>::wparse(b, j1) {
                <Vec<SimplifiedPublication> as Wire>::wparse_props(b, c, j2);
            }
        }
    }

    fn wwrite(&self, out: &mut Vec<u8>) {
        let ghost b0 = out@;
        self.client_id.wwrite(out);
        let ghost b1 = out@;
        self.subscriptions.wwrite(out);
        let ghost b2 = out@;
        self.waiting_to_be_sent.wwrite(out);
        proof {
            <String as Wire>::wparse_props(b1, out@, b0.len() as int);
            <Vec<Subscription> as Wire>::wparse_props(b2, out@, b1.len() as int);
            prefix_trans(b1, b2, out@);
            prefix_trans(b0, b1, out@);
        }
    }

    fn wread(b: &[u8], pos: &mut usize) -> (r: Option<Self>) {
        let client_id = match <String as Wire>::wread(b, pos) {
            None => {
                return None;
            },
            Some(v) => v,
        };
        let subscriptions = match <Vec<Subscription> as Wire>::wread(b, pos) {
            None => {
                return None;
            },
            Some(v) => v,
        };
        let waiting_to_be_sent = match <Vec<SimplifiedPublication> as Wire>::wread(b, pos) {
            None => {
                return None;
            },
            Some(v) => v,
        };
        Some(ConsolidatedSession { client_id, subscriptions, waiting_to_be_sent })
    }
}

impl Wire for ConsolidatedState {
    open spec fn wparse(b: Seq<u8>, i: int) -> Option<(ConsolidatedStateView, int)> {
        match <Vec<(u64, Vec<u8>)> as Wire>::wparse(b, i) {
            None => None,
            Some((payloads, j1)) => match <Vec<(String, SimplifiedPublication)> as Wire>::wparse(
                b,
                j1,
            ) {
                None => None,
                Some((retained, j2)) => match <Vec<ConsolidatedSession> as Wire>::wparse(b, j2) {
                    None => None,
                    Some((sessions, j3)) => Some(
                        (ConsolidatedStateView { payloads, retained, sessions }, j3),
                    ),
                },
            },
        }
    }

    proof fn wparse_props(b: Seq<u8>, c: Seq<u8>, i: int) {
        <Vec<(u64, Vec<u8>)> as Wire>::wparse_props(b, c, i);
        if let Some((payloads, j1)) = <Vec<(u64, Vec<u8>)> as Wire>::wparse(b, i) {
            <Vec<(String, SimplifiedPublication)> as Wire>::wparse_props(b, c, j1);
            if let Some((retained, j2)) = <Vec<(String, SimplifiedPublication)> as Wire>::wparse(
                b,
                j1,
            ) {
                <Vec<ConsolidatedSession> as Wire>::wparse_props(b, c, j2);
            }
        }
    }

    fn wwrite(&self, out: &mut Vec<u8>) {
        let ghost b0 = out@;
        self.payloads.wwrite(out);
        let ghost b1 = out@;
        self.retained.wwrite(out);
        let ghost b2 = out@;
        self.sessions.wwrite(out);
        proof {
            <Vec<(u64, Vec<u8>)> as Wire>::wparse_props(b1, out@, b0.len() as int);
            <Vec<(String, SimplifiedPublication)> as Wire>::wparse_props(
                b2,
                out@,
                b1.len() as int,
            );
            prefix_trans(b1, b2, out@);
            prefix_trans(b0, b1, out@);
        }
    }

    fn wread(b: &[u8], pos: &mut usize) -> (r: Option<Self>) {
        let payloads = match <Vec<(u64, Vec<u8>)> as Wire>::wread(b, pos) {
            None => {
                return None;
            },
            Some(v) => v,
        };
        let retained = match <Vec<(String, SimplifiedPublication)> as Wire>::wread(b, pos) {
            None => {
                return None;
            },
            Some(v) => v,
        };
        let sessions = match <Vec<ConsolidatedSession> as Wire>::wread(b, pos) {
            None => {
                return None;
            },
            Some(v) => v,
        };
        Some(ConsolidatedState { payloads, retained, sessions })
    }
}

// ---------------------------------------------------------------------------
// The payload table
// ---------------------------------------------------------------------------
/// The payload bytes that `id` names in the table `t`: the first entry
/// carrying that id, if any.
pub open spec fn table_lookup(t: Seq<(u64, Seq<u8>)>, id: u64) -> Option<Seq<u8>>
    decreases t.len(),
{
    if t.len() == 0 {
        None
    } else if t[0].0 == id {
        Some(t[0].1)
    } else {
        table_lookup(t.drop_first(), id)
    }
}

/// The table that assigns the dense ids `1..=tbl.len()` to the byte strings
/// of `tbl`, in order.
pub open spec fn dense_table(tbl: Seq<Seq<u8>>) -> Seq<(u64, Seq<u8>)> {
    Seq::new(tbl.len(), |k: int| ((k + 1) as u64, tbl[k]))
}

proof fn lemma_lookup_shifted(t: Seq<(u64, Seq<u8>)>, base: int, id: u64)
    requires
        forall|k: int| 0 <= k < t.len() ==> (#[trigger] t[k]).0 == base + k + 1,
        0 <= base,
        base + t.len() <= u64::MAX,
    ensures
        table_lookup(t, id) == (if base + 1 <= id <= base + t.len() {
            Some(t[id - base - 1].1)
        } else {
            None::<Seq<u8>>
        }),
    decreases t.len(),
{
    if t.len() > 0 && t[0].0 != id {
        lemma_lookup_shifted(t.drop_first(), base + 1, id);
    }
}

/// In a dense table, id `k + 1` names entry `k` and nothing else.
pub proof fn lemma_dense_lookup(tbl: Seq<Seq<u8>>, id: u64)
    requires
        tbl.len() <= u64::MAX,
    ensures
        table_lookup(dense_table(tbl), id) == (if 1 <= id <= tbl.len() {
            Some(tbl[id - 1])
        } else {
            None::<Seq<u8>>
        }),
{
    lemma_lookup_shifted(dense_table(tbl), 0, id);
}

// ---------------------------------------------------------------------------
// The payloads occurring in a snapshot
// ---------------------------------------------------------------------------
/// The payloads of a queue of publications, in order.
pub open spec fn pub_payloads(ps: Seq<PublicationView>) -> Seq<Seq<u8>> {
    ps.map_values(|p: PublicationView| p.payload)
}

/// The payloads of the retained publications, in map order.
pub open spec fn retained_payloads(es: Seq<(Seq<char>, PublicationView)>) -> Seq<Seq<u8>> {
    es.map_values(|e: (Seq<char>, PublicationView)| e.1.payload)
}

/// The payloads queued in a run of sessions, session by session.
pub open spec fn session_payloads(ss: Seq<SessionStateView>) -> Seq<Seq<u8>>
    decreases ss.len(),
{
    if ss.len() == 0 {
        Seq::empty()
    } else {
        pub_payloads(ss[0].waiting_to_be_sent) + session_payloads(ss.drop_first())
    }
}

/// Every payload byte string occurring in the snapshot: retained values
/// first, then each session's queue, in enumeration order.
pub open spec fn payload_seq(s: BrokerStateView) -> Seq<Seq<u8>> {
    retained_payloads(s.retained) + session_payloads(s.sessions)
}

/// `session_payloads` distributes over concatenation.
pub proof fn lemma_session_payloads_cat(a: Seq<SessionStateView>, b: Seq<SessionStateView>)
    ensures
        session_payloads(a + b) == session_payloads(a) + session_payloads(b),
    decreases a.len(),
{
    if a.len() == 0 {
        assert(a + b =~= b);
        assert(Seq::<Seq<u8>>::empty() + session_payloads(b) =~= session_payloads(b));
    } else {
        assert((a + b).drop_first() =~= a.drop_first() + b);
        lemma_session_payloads_cat(a.drop_first(), b);
        assert(pub_payloads((a + b)[0].waiting_to_be_sent) + (session_payloads(a.drop_first())
            + session_payloads(b)) =~= (pub_payloads(a[0].waiting_to_be_sent) + session_payloads(
            a.drop_first(),
        )) + session_payloads(b));
    }
}

/// Counts the publications of a snapshot — the length of [`payload_seq`] —
/// or reports that the count does not fit in 64 bits.
#[verifier::loop_isolation(false)]
pub fn count_payloads(state: &BrokerState) -> (r: Option<u64>)
    ensures
        r matches Some(n) ==> n == payload_seq(state@).len(),
        r is None ==> payload_seq(state@).len() > u64::MAX,
{
    let ghost sv = state@;
    let ghost ssv = sv.sessions;
    let mut count: u64 = state.retained.len() as u64;
    proof {
        assert(retained_payloads(sv.retained).len() == sv.retained.len());
        assert(sv.retained.len() == state.retained@.len());
        assert(session_payloads(ssv.take(0)) =~= Seq::<Seq<u8>>::empty());
    }
    let mut i: usize = 0;
    while i < state.sessions.len()
        invariant
            i <= state.sessions.len(),
            count == retained_payloads(sv.retained).len() + session_payloads(
                ssv.take(i as int),
            ).len(),
        decreases state.sessions.len() - i,
    {
        let w = state.sessions[i].waiting_to_be_sent.len();
        proof {
            assert(state.sessions[i as int]@ == ssv[i as int]);
            assert(pub_payloads(ssv[i as int].waiting_to_be_sent).len()
                == ssv[i as int].waiting_to_be_sent.len());
            assert(ssv.take(i + 1) =~= ssv.take(i as int) + seq![ssv[i as int]]);
            lemma_session_payloads_cat(ssv.take(i as int), seq![ssv[i as int]]);
            assert(seq![ssv[i as int]].drop_first() =~= Seq::<SessionStateView>::empty());
            assert(seq![ssv[i as int]][0] == ssv[i as int]);
            assert(session_payloads(seq![ssv[i as int]]) == pub_payloads(
                ssv[i as int].waiting_to_be_sent,
            ) + session_payloads(Seq::<SessionStateView>::empty()));
            assert(session_payloads(seq![ssv[i as int]]).len()
                == ssv[i as int].waiting_to_be_sent.len());
            // if this addition overflows, the total certainly does not fit
            assert(ssv =~= ssv.take(i as int) + ssv.skip(i as int));
            lemma_session_payloads_cat(ssv.take(i as int), ssv.skip(i as int));
            assert(ssv.skip(i as int)[0] == ssv[i as int]);
            assert(ssv.skip(i as int).drop_first() =~= ssv.skip(i + 1));
            assert(session_payloads(ssv.skip(i as int)) == pub_payloads(
                ssv[i as int].waiting_to_be_sent,
            ) + session_payloads(ssv.skip(i + 1)));
        }
        if w as u64 > u64::MAX - count {
            proof {
                assert(payload_seq(sv).len() >= count + w);
            }
            return None;
        }
        count = count + w as u64;
        i = i + 1;
    }
    proof {
        assert(ssv.take(ssv.len() as int) =~= ssv);
    }
    Some(count)
}

// ---------------------------------------------------------------------------
// What consolidation establishes
// ---------------------------------------------------------------------------
/// Field-for-field correspondence of a simplified publication with the
/// original, through the byte-string table `tbl` (entry `k` carries id
/// `k + 1`).
pub open spec fn sp_matches(
    tbl: Seq<Seq<u8>>,
    sp: SimplifiedPublicationView,
    p: PublicationView,
) -> bool {
    &&& sp.topic_name == p.topic_name
    &&& sp.qos == p.qos
    &&& sp.retain == p.retain
    &&& 1 <= sp.payload <= tbl.len()
    &&& tbl[sp.payload - 1] == p.payload
}

/// The relation consolidation establishes between a snapshot `s` and its
/// consolidated form `c`: the table assigns dense ids (starting at 1) to
/// pairwise distinct byte strings, which are exactly the payloads occurring
/// in `s` — deduplication is exact, with no false merges and no missed
/// merges — and the retained and session structures correspond field for
/// field, each publication's payload found at its id.
pub open spec fn consolidates(s: BrokerStateView, c: ConsolidatedStateView) -> bool {
    let tbl = c.payloads.map_values(|e: (u64, Seq<u8>)| e.1);
    &&& c.payloads.len() <= u64::MAX
    &&& c.payloads == dense_table(tbl)
    &&& tbl.no_duplicates()
    &&& tbl.to_set() == payload_seq(s).to_set()
    &&& c.retained.len() == s.retained.len()
    &&& (forall|k: int|
        0 <= k < s.retained.len() ==> (#[trigger] c.retained[k]).0 == s.retained[k].0
            && sp_matches(tbl, c.retained[k].1, s.retained[k].1))
    &&& c.sessions.len() == s.sessions.len()
    &&& (forall|k: int|
        0 <= k < s.sessions.len() ==> {
            let cs = #[trigger] c.sessions[k];
            let ses = s.sessions[k];
            &&& cs.client_id == ses.client_id
            &&& cs.subscriptions == ses.subscriptions
            &&& cs.waiting_to_be_sent.len() == ses.waiting_to_be_sent.len()
            &&& (forall|m: int|
                0 <= m < ses.waiting_to_be_sent.len() ==> sp_matches(
                    tbl,
                    #[trigger] cs.waiting_to_be_sent[m],
                    ses.waiting_to_be_sent[m],
                ))
        })
}

// ---------------------------------------------------------------------------
// Consolidation
// ---------------------------------------------------------------------------
/// Byte-for-byte equality of two byte vectors.
pub(crate) fn bytes_eq(a: &Vec<u8>, b: &Vec<u8>) -> (r: bool)
    ensures
        r == (a@ == b@),
{
    let r = a.eq(b);
    proof {
        if a@ == b@ {
            assert forall|i: int| 0 <= i < a@.len() implies a[i].eq_spec(&b[i]) by {
                assert(a@[i] == b@[i]);
            }
        }
        if r {
            assert(a@ =~= b@);
        }
    }
    r
}

/// A fresh copy of a byte vector.
#[verifier::loop_isolation(false)]
pub(crate) fn clone_bytes(v: &Vec<u8>) -> (r: Vec<u8>)
    ensures
        r@ == v@,
{
    let mut r: Vec<u8> = Vec::new();
    let mut k: usize = 0;
    while k < v.len()
        invariant
            k <= v.len(),
            r@ == v@.take(k as int),
        decreases v.len() - k,
    {
        r.push(v[k]);
        proof {
            assert(v@.take(k + 1) =~= v@.take(k as int).push(v@[k as int]));
        }
        k = k + 1;
    }
    proof {
        assert(v@.take(v@.len() as int) =~= v@);
    }
    r
}

/// Builds the payload table of one store call: byte strings are added in
/// first-seen order and assigned the dense ids `1, 2, ...`.
pub struct Consolidator {
    payloads: Vec<Vec<u8>>,
}

impl Consolidator {
    /// The byte strings of the table, in id order: entry `k` carries id
    /// `k + 1`.
    pub closed spec fn tbl(&self) -> Seq<Seq<u8>> {
        self.payloads.deep_view()
    }

    /// The table never holds the same byte string twice.
    pub closed spec fn inv(&self) -> bool {
        self.tbl().no_duplicates()
    }

    /// The id of `bytes` in the table, added to it if absent.
    #[verifier::loop_isolation(false)]
    fn get_id(&mut self, bytes: Vec<u8>) -> (id: u64)
        requires
            old(self).inv(),
            old(self).tbl().len() < u64::MAX,
        ensures
            final(self).inv(),
            final(self).tbl() == (if old(self).tbl().contains(bytes@) {
                old(self).tbl()
            } else {
                old(self).tbl().push(bytes@)
            }),
            1 <= id <= final(self).tbl().len(),
            final(self).tbl()[id - 1] == bytes@,
    {
        let ghost bv = bytes@;
        let n = self.payloads.len();
        let mut k: usize = 0;
        while k < n
            invariant
                k <= n,
                *self == *old(self),
                forall|j: int| 0 <= j < k ==> self.tbl()[j] != bv,
            decreases n - k,
        {
            proof {
                assert(self.tbl()[k as int] =~= self.payloads[k as int]@);
            }
            if bytes_eq(&self.payloads[k], &bytes) {
                return k as u64 + 1;
            }
            k = k + 1;
        }
        proof {
            if old(self).tbl().contains(bv) {
                let i = choose|i: int|
                    0 <= i < old(self).tbl().len() && old(self).tbl()[i] == bv;
                assert(false);
            }
        }
        self.payloads.push(bytes);
        proof {
            assert(self.tbl() =~~= old(self).tbl().push(bv));
            assert forall|i: int, j: int| 0 <= i < j < self.tbl().len() implies self.tbl()[i]
                != self.tbl()[j] by {
                if j < self.tbl().len() - 1 {
                    assert(old(self).tbl()[i] != old(self).tbl()[j]);
                }
            }
        }
        self.payloads.len() as u64
    }

    /// Consolidates one publication, replacing its payload by its table id.
    fn consolidate_publication(&mut self, publication: Publication) -> (r: SimplifiedPublication)
        requires
            old(self).inv(),
            old(self).tbl().len() < u64::MAX,
        ensures
            final(self).inv(),
            final(self).tbl() == (if old(self).tbl().contains(publication@.payload) {
                old(self).tbl()
            } else {
                old(self).tbl().push(publication@.payload)
            }),
            r@.topic_name == publication@.topic_name,
            r@.qos == publication@.qos,
            r@.retain == publication@.retain,
            sp_matches(final(self).tbl(), r@, publication@),
    {
        let Publication { topic_name, qos, retain, payload } = publication;
        let id = self.get_id(payload);
        SimplifiedPublication { topic_name, qos, retain, payload: id }
    }

    /// Consolidates one session: its queued publications, in order.
    #[verifier::loop_isolation(false)]
    fn consolidate_session(&mut self, session: SessionState) -> (r: ConsolidatedSession)
        requires
            old(self).inv(),
            old(self).tbl().len() + session@.waiting_to_be_sent.len() <= u64::MAX,
        ensures
            final(self).inv(),
            old(self).tbl().is_prefix_of(final(self).tbl()),
            final(self).tbl().len() <= old(self).tbl().len()
                + session@.waiting_to_be_sent.len(),
            final(self).tbl().to_set() == old(self).tbl().to_set().union(
                pub_payloads(session@.waiting_to_be_sent).to_set(),
            ),
            r@.client_id == session@.client_id,
            r@.subscriptions == session@.subscriptions,
            r@.waiting_to_be_sent.len() == session@.waiting_to_be_sent.len(),
            forall|m: int|
                0 <= m < session@.waiting_to_be_sent.len() ==> sp_matches(
                    final(self).tbl(),
                    #[trigger] r@.waiting_to_be_sent[m],
                    session@.waiting_to_be_sent[m],
                ),
    {
        let SessionState { client_id, subscriptions, waiting_to_be_sent } = session;
        let mut w = waiting_to_be_sent;
        let ghost worig = w.deep_view();
        let ghost t0 = self.tbl();
        let mut out: Vec<SimplifiedPublication> = Vec::new();
        let ghost mut m: int = 0;
        proof {
            assert(pub_payloads(worig.take(0)).to_set() =~= Set::<Seq<u8>>::empty());
            assert(t0.to_set().union(Set::<Seq<u8>>::empty()) =~= t0.to_set());
        }
        while w.len() > 0
            invariant
                self.inv(),
                m + w.len() == worig.len(),
                w.deep_view() == worig.skip(m),
                t0.is_prefix_of(self.tbl()),
                self.tbl().len() <= t0.len() + m,
                self.tbl().to_set() == t0.to_set().union(
                    pub_payloads(worig.take(m)).to_set(),
                ),
                out.deep_view().len() == m,
                forall|j: int|
                    0 <= j < m ==> sp_matches(
                        self.tbl(),
                        #[trigger] out.deep_view()[j],
                        worig[j],
                    ),
            decreases w.len(),
        {
            let ghost t_in = self.tbl();
            let ghost wpre = w.deep_view();
            let p = w.remove(0);
            proof {
                assert(wpre[0] == worig.skip(m)[0]);
                assert(worig.skip(m)[0] == worig[m]);
                assert(p.deep_view() == wpre[0]);
                assert forall|i: int| 0 <= i < w.deep_view().len() implies w.deep_view()[i]
                    == worig.skip(m + 1)[i] by {
                    assert(w.deep_view()[i] == wpre[i + 1]);
                    assert(wpre[i + 1] == worig.skip(m)[i + 1]);
                }
                assert(w.deep_view() =~= worig.skip(m + 1));
            }
            let sp = self.consolidate_publication(p);
            let ghost spv = sp@;
            let ghost opre = out.deep_view();
            out.push(sp);
            proof {
                let tbl = self.tbl();
                let pv = worig[m].payload;
                if tbl == t_in {
                    crate::wire::prefix_refl(t_in);
                } else {
                    crate::wire::prefix_push(t_in, pv);
                }
                crate::wire::prefix_trans(t0, t_in, tbl);
                crate::wire::prefix_index(t_in, tbl);
                assert(pub_payloads(worig.take(m + 1)) =~= pub_payloads(worig.take(m)).push(
                    pv,
                ));
                pub_payloads(worig.take(m)).lemma_push_to_set_commute(pv);
                assert(tbl.to_set() == t0.to_set().union(
                    pub_payloads(worig.take(m + 1)).to_set(),
                )) by {
                    if t_in.contains(pv) {
                        assert(t_in.to_set().contains(pv));
                        assert(tbl.to_set() =~= t0.to_set().union(
                            pub_payloads(worig.take(m)).to_set().insert(pv),
                        ));
                    } else {
                        t_in.lemma_push_to_set_commute(pv);
                        assert(tbl.to_set() =~= t0.to_set().union(
                            pub_payloads(worig.take(m)).to_set().insert(pv),
                        ));
                    }
                }
                assert(out.deep_view() =~= opre.push(spv));
                assert forall|j: int| 0 <= j < m + 1 implies sp_matches(
                    tbl,
                    #[trigger] out.deep_view()[j],
                    worig[j],
                ) by {
                    if j < m {
                        assert(out.deep_view()[j] == opre[j]);
                        assert(sp_matches(t_in, opre[j], worig[j]));
                    } else {
                        assert(out.deep_view()[j] == spv);
                    }
                }
            }
            proof {
                m = m + 1;
            }
        }
        proof {
            assert(worig.take(worig.len() as int) =~= worig);
        }
        ConsolidatedSession { client_id, subscriptions, waiting_to_be_sent: out }
    }

    /// Consolidates a whole snapshot: retained publications first, then each
    /// session's queue, in enumeration order.  The bound on the number of
    /// payloads is forced by the 64-bit ids.
    #[verifier::loop_isolation(false)]
    pub fn consolidate_state(state: BrokerState) -> (r: ConsolidatedState)
        requires
            payload_seq(state@).len() <= u64::MAX,
        ensures
            consolidates(state@, r@),
    {
        let ghost sv = state@;
        let ghost rv = sv.retained;
        let ghost ssv = sv.sessions;
        let BrokerState { retained, sessions } = state;
        let mut rvec = retained;
        let mut svec = sessions;
        let mut this = Consolidator { payloads: Vec::new() };
        let mut out_ret: Vec<(String, SimplifiedPublication)> = Vec::new();
        let ghost mut k: int = 0;
        proof {
            assert(this.tbl() =~= Seq::<Seq<u8>>::empty());
            assert(this.tbl().to_set() =~= retained_payloads(rv.take(0)).to_set());
            assert(payload_seq(sv).len() == retained_payloads(rv).len() + session_payloads(
                ssv,
            ).len());
            assert(retained_payloads(rv).len() == rv.len());
        }
        while rvec.len() > 0
            invariant
                this.inv(),
                0 <= k,
                k + rvec.deep_view().len() == rv.len(),
                rvec.deep_view() == rv.skip(k),
                this.tbl().len() <= k,
                this.tbl().to_set() == retained_payloads(rv.take(k)).to_set(),
                out_ret.deep_view().len() == k,
                forall|j: int|
                    0 <= j < k ==> (#[trigger] out_ret.deep_view()[j]).0 == rv[j].0 && sp_matches(
                        this.tbl(),
                        out_ret.deep_view()[j].1,
                        rv[j].1,
                    ),
            decreases rvec.len(),
        {
            let ghost t_in = this.tbl();
            let ghost rpre = rvec.deep_view();
            let e = rvec.remove(0);
            proof {
                assert(rpre[0] == rv.skip(k)[0]);
                assert(rv.skip(k)[0] == rv[k]);
                assert(e.deep_view() == rpre[0]);
                assert forall|i: int| 0 <= i < rvec.deep_view().len() implies rvec.deep_view()[i]
                    == rv.skip(k + 1)[i] by {
                    assert(rvec.deep_view()[i] == rpre[i + 1]);
                    assert(rpre[i + 1] == rv.skip(k)[i + 1]);
                }
                assert(rvec.deep_view() =~= rv.skip(k + 1));
            }
            let (topic, publication) = e;
            proof {
                assert(publication@ == rv[k].1);
                assert(topic@ == rv[k].0);
            }
            let sp = this.consolidate_publication(publication);
            let ghost opre = out_ret.deep_view();
            out_ret.push((topic, sp));
            proof {
                let tbl = this.tbl();
                let pv = rv[k].1.payload;
                if tbl == t_in {
                    crate::wire::prefix_refl(t_in);
                } else {
                    crate::wire::prefix_push(t_in, pv);
                }
                crate::wire::prefix_index(t_in, tbl);
                assert(retained_payloads(rv.take(k + 1)) =~= retained_payloads(rv.take(k)).push(
                    pv,
                ));
                retained_payloads(rv.take(k)).lemma_push_to_set_commute(pv);
                assert(tbl.to_set() == retained_payloads(rv.take(k + 1)).to_set()) by {
                    if t_in.contains(pv) {
                        assert(t_in.to_set().contains(pv));
                        assert(tbl.to_set() =~= retained_payloads(rv.take(k)).to_set().insert(pv));
                    } else {
                        t_in.lemma_push_to_set_commute(pv);
                        assert(tbl.to_set() =~= retained_payloads(rv.take(k)).to_set().insert(pv));
                    }
                }
                assert(out_ret.deep_view() =~= opre.push((topic@, sp@)));
                assert forall|j: int|
                    0 <= j < k + 1 implies (#[trigger] out_ret.deep_view()[j]).0 == rv[j].0
                    && sp_matches(tbl, out_ret.deep_view()[j].1, rv[j].1) by {
                    if j < k {
                        assert(out_ret.deep_view()[j] == opre[j]);
                        assert(sp_matches(t_in, opre[j].1, rv[j].1));
                    } else {
                        assert(out_ret.deep_view()[j] == (topic@, sp@));
                    }
                }
                k = k + 1;
            }
        }
        proof {
            assert(rv.take(rv.len() as int) =~= rv);
        }
        let mut out_sess: Vec<ConsolidatedSession> = Vec::new();
        let ghost mut j: int = 0;
        proof {
            assert(session_payloads(ssv.take(0)) =~= Seq::<Seq<u8>>::empty());
            assert(this.tbl().to_set() =~= retained_payloads(rv).to_set().union(
                session_payloads(ssv.take(0)).to_set(),
            ));
        }
        while svec.len() > 0
            invariant
                this.inv(),
                0 <= j,
                j + svec.deep_view().len() == ssv.len(),
                svec.deep_view() == ssv.skip(j),
                this.tbl().len() <= rv.len() + session_payloads(ssv.take(j)).len(),
                this.tbl().to_set() == retained_payloads(rv).to_set().union(
                    session_payloads(ssv.take(j)).to_set(),
                ),
                out_sess.deep_view().len() == j,
                forall|i: int|
                    0 <= i < k ==> (#[trigger] out_ret.deep_view()[i]).0 == rv[i].0 && sp_matches(
                        this.tbl(),
                        out_ret.deep_view()[i].1,
                        rv[i].1,
                    ),
                forall|i: int|
                    0 <= i < j ==> {
                        let cs = #[trigger] out_sess.deep_view()[i];
                        &&& cs.client_id == ssv[i].client_id
                        &&& cs.subscriptions == ssv[i].subscriptions
                        &&& cs.waiting_to_be_sent.len() == ssv[i].waiting_to_be_sent.len()
                        &&& (forall|m2: int|
                            0 <= m2 < ssv[i].waiting_to_be_sent.len() ==> sp_matches(
                                this.tbl(),
                                #[trigger] cs.waiting_to_be_sent[m2],
                                ssv[i].waiting_to_be_sent[m2],
                            ))
                    },
            decreases svec.len(),
        {
            let ghost t_in = this.tbl();
            let ghost spre = svec.deep_view();
            let ses = svec.remove(0);
            proof {
                assert(spre[0] == ssv.skip(j)[0]);
                assert(ssv.skip(j)[0] == ssv[j]);
                assert(ses.deep_view() == spre[0]);
                assert forall|i: int| 0 <= i < svec.deep_view().len() implies svec.deep_view()[i]
                    == ssv.skip(j + 1)[i] by {
                    assert(svec.deep_view()[i] == spre[i + 1]);
                    assert(spre[i + 1] == ssv.skip(j)[i + 1]);
                }
                assert(svec.deep_view() =~= ssv.skip(j + 1));
                // the payload budget for this session's queue
                assert(ssv =~= ssv.take(j) + ssv.skip(j));
                lemma_session_payloads_cat(ssv.take(j), ssv.skip(j));
                assert(session_payloads(ssv.skip(j)) == pub_payloads(ssv[j].waiting_to_be_sent)
                    + session_payloads(ssv.skip(j).drop_first()));
                assert(pub_payloads(ssv[j].waiting_to_be_sent).len()
                    == ssv[j].waiting_to_be_sent.len());
            }
            let cs = this.consolidate_session(ses);
            let ghost opre = out_sess.deep_view();
            out_sess.push(cs);
            proof {
                let tbl = this.tbl();
                crate::wire::prefix_index(t_in, tbl);
                // table contents after folding in this session's queue
                assert(ssv.take(j + 1) =~= ssv.take(j) + seq![ssv[j]]);
                lemma_session_payloads_cat(ssv.take(j), seq![ssv[j]]);
                assert(seq![ssv[j]].drop_first() =~= Seq::<SessionStateView>::empty());
                assert(seq![ssv[j]][0] == ssv[j]);
                assert(session_payloads(seq![ssv[j]]) == pub_payloads(ssv[j].waiting_to_be_sent)
                    + session_payloads(Seq::<SessionStateView>::empty()));
                assert(session_payloads(Seq::<SessionStateView>::empty())
                    =~= Seq::<Seq<u8>>::empty());
                assert(pub_payloads(ssv[j].waiting_to_be_sent) + Seq::<Seq<u8>>::empty()
                    =~= pub_payloads(ssv[j].waiting_to_be_sent));
                assert(session_payloads(seq![ssv[j]]) =~= pub_payloads(ssv[j].waiting_to_be_sent));
                vstd::seq_lib::seq_to_set_distributes_over_add(
                    session_payloads(ssv.take(j)),
                    pub_payloads(ssv[j].waiting_to_be_sent),
                );
                assert(tbl.to_set() =~= retained_payloads(rv).to_set().union(
                    session_payloads(ssv.take(j + 1)).to_set(),
                ));
                assert(session_payloads(ssv.take(j + 1)).len() == session_payloads(
                    ssv.take(j),
                ).len() + ssv[j].waiting_to_be_sent.len());
                assert(out_sess.deep_view() =~= opre.push(cs@));
                assert forall|i: int|
                    0 <= i < j + 1 implies {
                    let cs2 = #[trigger] out_sess.deep_view()[i];
                    &&& cs2.client_id == ssv[i].client_id
                    &&& cs2.subscriptions == ssv[i].subscriptions
                    &&& cs2.waiting_to_be_sent.len() == ssv[i].waiting_to_be_sent.len()
                    &&& (forall|m2: int|
                        0 <= m2 < ssv[i].waiting_to_be_sent.len() ==> sp_matches(
                            tbl,
                            #[trigger] cs2.waiting_to_be_sent[m2],
                            ssv[i].waiting_to_be_sent[m2],
                        ))
                } by {
                    if i < j {
                        assert(out_sess.deep_view()[i] == opre[i]);
                        assert forall|m2: int|
                            0 <= m2 < ssv[i].waiting_to_be_sent.len() implies sp_matches(
                            tbl,
                            #[trigger] opre[i].waiting_to_be_sent[m2],
                            ssv[i].waiting_to_be_sent[m2],
                        ) by {
                            assert(sp_matches(
                                t_in,
                                opre[i].waiting_to_be_sent[m2],
                                ssv[i].waiting_to_be_sent[m2],
                            ));
                        }
                    } else {
                        assert(out_sess.deep_view()[i] == cs@);
                    }
                }
                // retained facts survive the extension of the table
                assert forall|i: int|
                    0 <= i < k implies (#[trigger] out_ret.deep_view()[i]).0 == rv[i].0
                    && sp_matches(tbl, out_ret.deep_view()[i].1, rv[i].1) by {
                    assert(sp_matches(t_in, out_ret.deep_view()[i].1, rv[i].1));
                }
                j = j + 1;
            }
        }
        proof {
            assert(ssv.take(ssv.len() as int) =~= ssv);
        }
        // emit the table: entry k carries id k + 1
        let ghost tb = this.tbl();
        let mut tvec = this.payloads;
        let mut entries: Vec<(u64, Vec<u8>)> = Vec::new();
        proof {
            assert(tb.len() <= rv.len() + session_payloads(ssv).len());
            assert(tb.len() <= u64::MAX);
        }
        while tvec.len() > 0
            invariant
                entries.deep_view().len() + tvec.deep_view().len() == tb.len(),
                tvec.deep_view() == tb.skip(entries.deep_view().len() as int),
                forall|i: int|
                    0 <= i < entries.deep_view().len() ==> (#[trigger] entries.deep_view()[i]) == (
                    (i + 1) as u64,
                    tb[i],
                ),
            decreases tvec.len(),
        {
            let ghost idxg = entries.deep_view().len() as int;
            let ghost tpre = tvec.deep_view();
            let bytes = tvec.remove(0);
            proof {
                assert(tpre[0] == tb.skip(idxg)[0]);
                assert(tb.skip(idxg)[0] == tb[idxg]);
                assert(bytes.deep_view() == tpre[0]);
                assert forall|i: int| 0 <= i < tvec.deep_view().len() implies tvec.deep_view()[i]
                    == tb.skip(idxg + 1)[i] by {
                    assert(tvec.deep_view()[i] == tpre[i + 1]);
                    assert(tpre[i + 1] == tb.skip(idxg)[i + 1]);
                }
                assert(tvec.deep_view() =~= tb.skip(idxg + 1));
                assert(bytes@ == tb[idxg]);
            }
            let ghost epre = entries.deep_view();
            let id = entries.len() as u64 + 1;
            entries.push((id, bytes));
            proof {
                assert(entries.deep_view() =~~= epre.push((id, tb[idxg])));
            }
        }
        let c = ConsolidatedState { payloads: entries, retained: out_ret, sessions: out_sess };
        proof {
            let tbl2 = c@.payloads.map_values(|e: (u64, Seq<u8>)| e.1);
            assert(tbl2 =~= tb);
            assert(c@.payloads =~= dense_table(tbl2));
            vstd::seq_lib::seq_to_set_distributes_over_add(
                retained_payloads(rv),
                session_payloads(ssv),
            );
            assert(tb.to_set() =~= payload_seq(sv).to_set());
            assert(consolidates(sv, c@));
        }
        c
    }
}

// ---------------------------------------------------------------------------
// Resolution
// ---------------------------------------------------------------------------
/// The publication a simplified one stands for, with its payload looked up
/// in the table; nothing if the table has no entry for its id.
pub open spec fn resolve_pub(
    t: Seq<(u64, Seq<u8>)>,
    sp: SimplifiedPublicationView,
) -> Option<PublicationView> {
    match table_lookup(t, sp.payload) {
        None => None,
        Some(p) => Some(
            PublicationView {
                topic_name: sp.topic_name,
                qos: sp.qos,
                retain: sp.retain,
                payload: p,
            },
        ),
    }
}

/// Resolves a queue of simplified publications, in order.
pub open spec fn resolve_pubs(
    t: Seq<(u64, Seq<u8>)>,
    sps: Seq<SimplifiedPublicationView>,
) -> Option<Seq<PublicationView>>
    decreases sps.len(),
{
    if sps.len() == 0 {
        Some(Seq::empty())
    } else {
        match resolve_pub(t, sps[0]) {
            None => None,
            Some(p) => match resolve_pubs(t, sps.drop_first()) {
                None => None,
                Some(ps) => Some(seq![p] + ps),
            },
        }
    }
}

/// Resolves the retained map, entry by entry.
pub open spec fn resolve_retained(
    t: Seq<(u64, Seq<u8>)>,
    es: Seq<(Seq<char>, SimplifiedPublicationView)>,
) -> Option<Seq<(Seq<char>, PublicationView)>>
    decreases es.len(),
{
    if es.len() == 0 {
        Some(Seq::empty())
    } else {
        match resolve_pub(t, es[0].1) {
            None => None,
            Some(p) => match resolve_retained(t, es.drop_first()) {
                None => None,
                Some(ps) => Some(seq![(es[0].0, p)] + ps),
            },
        }
    }
}

/// Resolves one session's queue.
pub open spec fn resolve_session(
    t: Seq<(u64, Seq<u8>)>,
    cs: ConsolidatedSessionView,
) -> Option<SessionStateView> {
    match resolve_pubs(t, cs.waiting_to_be_sent) {
        None => None,
        Some(ps) => Some(
            SessionStateView {
                client_id: cs.client_id,
                subscriptions: cs.subscriptions,
                waiting_to_be_sent: ps,
            },
        ),
    }
}

/// Resolves a run of sessions, in order.
pub open spec fn resolve_sessions(
    t: Seq<(u64, Seq<u8>)>,
    css: Seq<ConsolidatedSessionView>,
) -> Option<Seq<SessionStateView>>
    decreases css.len(),
{
    if css.len() == 0 {
        Some(Seq::empty())
    } else {
        match resolve_session(t, css[0]) {
            None => None,
            Some(s) => match resolve_sessions(t, css.drop_first()) {
                None => None,
                Some(ss) => Some(seq![s] + ss),
            },
        }
    }
}

/// What a consolidated snapshot resolves to: the snapshot with every payload
/// id replaced by its table entry, or nothing if any referenced id is
/// missing from the table.
pub open spec fn spec_resolve(c: ConsolidatedStateView) -> Option<BrokerStateView> {
    match resolve_retained(c.payloads, c.retained) {
        None => None,
        Some(rs) => match resolve_sessions(c.payloads, c.sessions) {
            None => None,
            Some(ss) => Some(BrokerStateView { retained: rs, sessions: ss }),
        },
    }
}

/// Rebuilds a snapshot from its consolidated form; every id must name a
/// table entry.
pub struct Resolver {
    payloads: Vec<(u64, Vec<u8>)>,
}

impl Resolver {
    /// The table resolution reads.
    pub closed spec fn table(&self) -> Seq<(u64, Seq<u8>)> {
        self.payloads.deep_view()
    }

    /// The payload that `id` names, cloned out of the table.
    #[verifier::loop_isolation(false)]
    fn get_payload(&self, id: u64) -> (r: Result<Vec<u8>, ErrorReason>)
        ensures
            r matches Ok(p) ==> table_lookup(self.table(), id) == Some(p@),
            r is Err ==> table_lookup(self.table(), id) is None && r == Err::<
                Vec<u8>,
                ErrorReason,
            >(ErrorReason::MissingPayload(id)),
    {
        let ghost t = self.table();
        let n = self.payloads.len();
        let mut k: usize = 0;
        proof {
            assert(t.skip(0) =~= t);
        }
        while k < n
            invariant
                k <= n,
                table_lookup(t, id) == table_lookup(t.skip(k as int), id),
            decreases n - k,
        {
            proof {
                assert(t.skip(k as int)[0] == t[k as int]);
                assert(t[k as int].0 == self.payloads[k as int].0);
                assert(t.skip(k as int).drop_first() =~= t.skip(k + 1));
            }
            if self.payloads[k].0 == id {
                let p = clone_bytes(&self.payloads[k].1);
                proof {
                    assert(t[k as int].1 =~= self.payloads[k as int].1@);
                }
                return Ok(p);
            }
            k = k + 1;
        }
        proof {
            assert(t.skip(n as int) =~= Seq::<(u64, Seq<u8>)>::empty());
        }
        Err(ErrorReason::MissingPayload(id))
    }

    /// Resolves one publication.
    fn resolve_publication(&self, publication: SimplifiedPublication) -> (r: Result<
        Publication,
        ErrorReason,
    >)
        ensures
            r matches Ok(p) ==> resolve_pub(self.table(), publication@) == Some(p@),
            r is Err ==> resolve_pub(self.table(), publication@) is None && r == Err::<
                Publication,
                ErrorReason,
            >(ErrorReason::MissingPayload(publication@.payload)),
    {
        let SimplifiedPublication { topic_name, qos, retain, payload } = publication;
        match self.get_payload(payload) {
            Ok(p) => Ok(Publication { topic_name, qos, retain, payload: p }),
            Err(e) => Err(e),
        }
    }

    /// Resolves one session's queue, in order.
    #[verifier::loop_isolation(false)]
    fn resolve_one_session(&self, session: ConsolidatedSession) -> (r: Result<
        SessionState,
        ErrorReason,
    >)
        ensures
            r matches Ok(s) ==> resolve_session(self.table(), session@) == Some(s@),
            r is Err ==> resolve_session(self.table(), session@) is None && (r matches Err(e)
                && e matches ErrorReason::MissingPayload(_)),
    {
        let ghost t = self.table();
        let ConsolidatedSession { client_id, subscriptions, waiting_to_be_sent } = session;
        let mut w = waiting_to_be_sent;
        let ghost worig = w.deep_view();
        let mut out: Vec<Publication> = Vec::new();
        let ghost mut m: int = 0;
        proof {
            assert(worig.skip(0) =~= worig);
            if let Some(rest) = resolve_pubs(t, worig) {
                assert(out.deep_view() + rest =~= rest);
            }
        }
        while w.len() > 0
            invariant
                0 <= m,
                m + w.deep_view().len() == worig.len(),
                w.deep_view() == worig.skip(m),
                out.deep_view().len() == m,
                resolve_pubs(t, worig) == (match resolve_pubs(t, worig.skip(m)) {
                    None => None::<Seq<PublicationView>>,
                    Some(rest) => Some(out.deep_view() + rest),
                }),
            decreases w.len(),
        {
            let ghost wpre = w.deep_view();
            let p = w.remove(0);
            proof {
                assert(wpre[0] == worig.skip(m)[0]);
                assert(p.deep_view() == wpre[0]);
                assert forall|i: int| 0 <= i < w.deep_view().len() implies w.deep_view()[i]
                    == worig.skip(m + 1)[i] by {
                    assert(w.deep_view()[i] == wpre[i + 1]);
                    assert(wpre[i + 1] == worig.skip(m)[i + 1]);
                }
                assert(w.deep_view() =~= worig.skip(m + 1));
                assert(worig.skip(m).drop_first() =~= worig.skip(m + 1));
            }
            match self.resolve_publication(p) {
                Ok(rp) => {
                    let ghost opre = out.deep_view();
                    out.push(rp);
                    proof {
                        assert(out.deep_view() =~= opre.push(rp@));
                        if let Some(rest) = resolve_pubs(t, worig.skip(m + 1)) {
                            assert(opre + (seq![rp@] + rest) =~= opre.push(rp@) + rest);
                        }
                        m = m + 1;
                    }
                },
                Err(e) => {
                    return Err(e);
                },
            }
        }
        proof {
            assert(worig.skip(m) =~= Seq::<SimplifiedPublicationView>::empty());
            assert(out.deep_view() + Seq::<PublicationView>::empty() =~= out.deep_view());
        }
        Ok(SessionState { client_id, subscriptions, waiting_to_be_sent: out })
    }

    /// Resolves a whole consolidated snapshot.  Succeeds exactly when every
    /// referenced payload id has a table entry; a missing id is reported as
    /// a [`ErrorReason::MissingPayload`] error, never papered over.
    #[verifier::loop_isolation(false)]
    pub fn resolve_state(state: ConsolidatedState) -> (r: Result<BrokerState, ErrorReason>)
        ensures
            r matches Ok(s) ==> spec_resolve(state@) == Some(s@),
            r is Err <==> spec_resolve(state@) is None,
            r matches Err(e) ==> e matches ErrorReason::MissingPayload(_),
    {
        let ghost cv = state@;
        let ConsolidatedState { payloads, retained, sessions } = state;
        let this = Resolver { payloads };
        let ghost t = this.table();
        let ghost rv = cv.retained;
        let ghost ssv = cv.sessions;
        let mut rvec = retained;
        let mut out_ret: Vec<(String, Publication)> = Vec::new();
        let ghost mut k: int = 0;
        proof {
            assert(rv.skip(0) =~= rv);
            if let Some(rest) = resolve_retained(t, rv) {
                assert(out_ret.deep_view() + rest =~= rest);
            }
        }
        while rvec.len() > 0
            invariant
                0 <= k,
                k + rvec.deep_view().len() == rv.len(),
                rvec.deep_view() == rv.skip(k),
                out_ret.deep_view().len() == k,
                resolve_retained(t, rv) == (match resolve_retained(t, rv.skip(k)) {
                    None => None::<Seq<(Seq<char>, PublicationView)>>,
                    Some(rest) => Some(out_ret.deep_view() + rest),
                }),
            decreases rvec.len(),
        {
            let ghost rpre = rvec.deep_view();
            let e = rvec.remove(0);
            proof {
                assert(rpre[0] == rv.skip(k)[0]);
                assert(e.deep_view() == rpre[0]);
                assert forall|i: int| 0 <= i < rvec.deep_view().len() implies rvec.deep_view()[i]
                    == rv.skip(k + 1)[i] by {
                    assert(rvec.deep_view()[i] == rpre[i + 1]);
                    assert(rpre[i + 1] == rv.skip(k)[i + 1]);
                }
                assert(rvec.deep_view() =~= rv.skip(k + 1));
                assert(rv.skip(k).drop_first() =~= rv.skip(k + 1));
            }
            let (topic, sp) = e;
            match this.resolve_publication(sp) {
                Ok(rp) => {
                    let ghost opre = out_ret.deep_view();
                    out_ret.push((topic, rp));
                    proof {
                        assert(out_ret.deep_view() =~= opre.push((topic@, rp@)));
                        if let Some(rest) = resolve_retained(t, rv.skip(k + 1)) {
                            assert(opre + (seq![(rv[k].0, rp@)] + rest) =~= opre.push(
                                (topic@, rp@),
                            ) + rest);
                        }
                        k = k + 1;
                    }
                },
                Err(e2) => {
                    return Err(e2);
                },
            }
        }
        proof {
            assert(rv.skip(k) =~= Seq::<(Seq<char>, SimplifiedPublicationView)>::empty());
            assert(out_ret.deep_view() + Seq::<(Seq<char>, PublicationView)>::empty()
                =~= out_ret.deep_view());
        }
        let mut svec = sessions;
        let mut out_sess: Vec<SessionState> = Vec::new();
        let ghost mut j: int = 0;
        proof {
            assert(ssv.skip(0) =~= ssv);
            if let Some(rest) = resolve_sessions(t, ssv) {
                assert(out_sess.deep_view() + rest =~= rest);
            }
        }
        while svec.len() > 0
            invariant
                0 <= j,
                j + svec.deep_view().len() == ssv.len(),
                svec.deep_view() == ssv.skip(j),
                out_sess.deep_view().len() == j,
                resolve_sessions(t, ssv) == (match resolve_sessions(t, ssv.skip(j)) {
                    None => None::<Seq<SessionStateView>>,
                    Some(rest) => Some(out_sess.deep_view() + rest),
                }),
            decreases svec.len(),
        {
            let ghost spre = svec.deep_view();
            let cs = svec.remove(0);
            proof {
                assert(spre[0] == ssv.skip(j)[0]);
                assert(cs.deep_view() == spre[0]);
                assert forall|i: int| 0 <= i < svec.deep_view().len() implies svec.deep_view()[i]
                    == ssv.skip(j + 1)[i] by {
                    assert(svec.deep_view()[i] == spre[i + 1]);
                    assert(spre[i + 1] == ssv.skip(j)[i + 1]);
                }
                assert(svec.deep_view() =~= ssv.skip(j + 1));
                assert(ssv.skip(j).drop_first() =~= ssv.skip(j + 1));
            }
            match this.resolve_one_session(cs) {
                Ok(rs) => {
                    let ghost opre = out_sess.deep_view();
                    out_sess.push(rs);
                    proof {
                        assert(out_sess.deep_view() =~= opre.push(rs@));
                        if let Some(rest) = resolve_sessions(t, ssv.skip(j + 1)) {
                            assert(opre + (seq![rs@] + rest) =~= opre.push(rs@) + rest);
                        }
                        j = j + 1;
                    }
                },
                Err(e2) => {
                    return Err(e2);
                },
            }
        }
        proof {
            assert(ssv.skip(j) =~= Seq::<ConsolidatedSessionView>::empty());
            assert(out_sess.deep_view() + Seq::<SessionStateView>::empty()
                =~= out_sess.deep_view());
        }
        Ok(BrokerState { retained: out_ret, sessions: out_sess })
    }
}

// ---------------------------------------------------------------------------
// Consolidation followed by resolution is the identity
// ---------------------------------------------------------------------------
proof fn lemma_resolve_pubs_of(
    t: Seq<(u64, Seq<u8>)>,
    tbl: Seq<Seq<u8>>,
    sps: Seq<SimplifiedPublicationView>,
    ps: Seq<PublicationView>,
)
    requires
        t == dense_table(tbl),
        tbl.len() <= u64::MAX,
        sps.len() == ps.len(),
        forall|m: int| 0 <= m < ps.len() ==> sp_matches(tbl, #[trigger] sps[m], ps[m]),
    ensures
        resolve_pubs(t, sps) == Some(ps),
    decreases sps.len(),
{
    if sps.len() == 0 {
        assert(ps =~= Seq::<PublicationView>::empty());
    } else {
        lemma_dense_lookup(tbl, sps[0].payload);
        assert(resolve_pub(t, sps[0]) == Some(ps[0]));
        lemma_resolve_pubs_of(t, tbl, sps.drop_first(), ps.drop_first());
        assert(seq![ps[0]] + ps.drop_first() =~= ps);
    }
}

proof fn lemma_resolve_retained_of(
    t: Seq<(u64, Seq<u8>)>,
    tbl: Seq<Seq<u8>>,
    es: Seq<(Seq<char>, SimplifiedPublicationView)>,
    rs: Seq<(Seq<char>, PublicationView)>,
)
    requires
        t == dense_table(tbl),
        tbl.len() <= u64::MAX,
        es.len() == rs.len(),
        forall|m: int|
            0 <= m < rs.len() ==> (#[trigger] es[m]).0 == rs[m].0 && sp_matches(
                tbl,
                es[m].1,
                rs[m].1,
            ),
    ensures
        resolve_retained(t, es) == Some(rs),
    decreases es.len(),
{
    if es.len() == 0 {
        assert(rs =~= Seq::<(Seq<char>, PublicationView)>::empty());
    } else {
        lemma_dense_lookup(tbl, es[0].1.payload);
        assert(resolve_pub(t, es[0].1) == Some(rs[0].1));
        lemma_resolve_retained_of(t, tbl, es.drop_first(), rs.drop_first());
        assert(seq![(es[0].0, rs[0].1)] + rs.drop_first() =~= rs);
    }
}

proof fn lemma_resolve_sessions_of(
    t: Seq<(u64, Seq<u8>)>,
    tbl: Seq<Seq<u8>>,
    css: Seq<ConsolidatedSessionView>,
    ss: Seq<SessionStateView>,
)
    requires
        t == dense_table(tbl),
        tbl.len() <= u64::MAX,
        css.len() == ss.len(),
        forall|i: int|
            0 <= i < ss.len() ==> {
                let cs = #[trigger] css[i];
                &&& cs.client_id == ss[i].client_id
                &&& cs.subscriptions == ss[i].subscriptions
                &&& cs.waiting_to_be_sent.len() == ss[i].waiting_to_be_sent.len()
                &&& (forall|m: int|
                    0 <= m < ss[i].waiting_to_be_sent.len() ==> sp_matches(
                        tbl,
                        #[trigger] cs.waiting_to_be_sent[m],
                        ss[i].waiting_to_be_sent[m],
                    ))
            },
    ensures
        resolve_sessions(t, css) == Some(ss),
    decreases css.len(),
{
    if css.len() == 0 {
        assert(ss =~= Seq::<SessionStateView>::empty());
    } else {
        lemma_resolve_pubs_of(
            t,
            tbl,
            css[0].waiting_to_be_sent,
            ss[0].waiting_to_be_sent,
        );
        assert(resolve_session(t, css[0]) == Some(ss[0]));
        lemma_resolve_sessions_of(t, tbl, css.drop_first(), ss.drop_first());
        assert(seq![ss[0]] + ss.drop_first() =~= ss);
    }
}

/// Consolidation followed by resolution is the identity on snapshots, and
/// deduplication is exact: the payload table of the consolidated form holds
/// exactly one entry for each distinct payload byte string occurring in the
/// snapshot.
pub proof fn lemma_consolidate_resolve(s: BrokerStateView, c: ConsolidatedStateView)
    requires
        consolidates(s, c),
    ensures
        spec_resolve(c) == Some(s),
        c.payloads.len() == payload_seq(s).to_set().len(),
{
    let tbl = c.payloads.map_values(|e: (u64, Seq<u8>)| e.1);
    lemma_resolve_retained_of(c.payloads, tbl, c.retained, s.retained);
    lemma_resolve_sessions_of(c.payloads, tbl, c.sessions, s.sessions);
    assert(spec_resolve(c) == Some(BrokerStateView { retained: s.retained, sessions: s.sessions }));
    assert(BrokerStateView { retained: s.retained, sessions: s.sessions } == s);
    tbl.unique_seq_to_set();
}

} // verus!
