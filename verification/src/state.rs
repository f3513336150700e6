//! The in-memory broker state that gets persisted: retained publications and
//! per-client session records, together with the mathematical views that the
//! contracts of the rest of the crate are stated over.

use vstd::prelude::*;

verus! {

/// Delivery quality-of-service level of a publication.
#[derive(Clone, Copy, Debug, PartialEq, Eq, Structural)]
pub enum QoS {
    AtMostOnce,
    AtLeastOnce,
    ExactlyOnce,
}

impl View for QoS {
    type V = QoS;

    open spec fn view(&self) -> QoS {
        *self
    }
}

impl DeepView for QoS {
    type V = QoS;

    open spec fn deep_view(&self) -> QoS {
        *self
    }
}

/// A single MQTT publication: topic, delivery level, retain flag and payload.
#[derive(Clone, Debug, PartialEq, Eq)]
pub struct Publication {
    pub topic_name: String,
    pub qos: QoS,
    pub retain: bool,
    pub payload: Vec<u8>,
}

/// Mathematical view of a [`Publication`].
pub struct PublicationView {
    pub topic_name: Seq<char>,
    pub qos: QoS,
    pub retain: bool,
    pub payload: Seq<u8>,
}

impl View for Publication {
    type V = PublicationView;

    open spec fn view(&self) -> PublicationView {
        PublicationView {
            topic_name: self.topic_name@,
            qos: self.qos,
            retain: self.retain,
            payload: self.payload@,
        }
    }
}

impl DeepView for Publication {
    type V = PublicationView;

    open spec fn deep_view(&self) -> PublicationView {
        self.view()
    }
}

/// A subscription held by a session: the topic filter it was made with and
/// the maximum quality of service granted for it.
#[derive(Clone, Debug, PartialEq, Eq)]
pub struct Subscription {
    pub filter: String,
    pub max_qos: QoS,
}

/// Mathematical view of a [`Subscription`].
pub struct SubscriptionView {
    pub filter: Seq<char>,
    pub max_qos: QoS,
}

impl View for Subscription {
    type V = SubscriptionView;

    open spec fn view(&self) -> SubscriptionView {
        SubscriptionView { filter: self.filter@, max_qos: self.max_qos }
    }
}

impl DeepView for Subscription {
    type V = SubscriptionView;

    open spec fn deep_view(&self) -> SubscriptionView {
        self.view()
    }
}

/// One client session: its identifier, its subscriptions (a mapping from
/// topic filter to its descriptor; filters unique) and the queue of
/// publications waiting to be delivered to it (front of the vector = oldest).
#[derive(Clone, Debug, PartialEq, Eq)]
pub struct SessionState {
    pub client_id: String,
    pub subscriptions: Vec<Subscription>,
    pub waiting_to_be_sent: Vec<Publication>,
}

/// Mathematical view of a [`SessionState`].
pub struct SessionStateView {
    pub client_id: Seq<char>,
    pub subscriptions: Seq<SubscriptionView>,
    pub waiting_to_be_sent: Seq<PublicationView>,
}

impl View for SessionState {
    type V = SessionStateView;

    open spec fn view(&self) -> SessionStateView {
        SessionStateView {
            client_id: self.client_id@,
            subscriptions: self.subscriptions.deep_view(),
            waiting_to_be_sent: self.waiting_to_be_sent.deep_view(),
        }
    }
}

impl DeepView for SessionState {
    type V = SessionStateView;

    open spec fn deep_view(&self) -> SessionStateView {
        self.view()
    }
}

/// The full broker state at one point in time: the retained publication for
/// each topic (keys unique, order irrelevant) and the session records (order
/// kept stable by every transformation of this crate).
#[derive(Clone, Debug, PartialEq, Eq)]
pub struct BrokerState {
    pub retained: Vec<(String, Publication)>,
    pub sessions: Vec<SessionState>,
}

/// Mathematical view of a [`BrokerState`].
pub struct BrokerStateView {
    pub retained: Seq<(Seq<char>, PublicationView)>,
    pub sessions: Seq<SessionStateView>,
}

impl View for BrokerState {
    type V = BrokerStateView;

    open spec fn view(&self) -> BrokerStateView {
        BrokerStateView {
            retained: self.retained.deep_view(),
            sessions: self.sessions.deep_view(),
        }
    }
}

impl DeepView for BrokerState {
    type V = BrokerStateView;

    open spec fn deep_view(&self) -> BrokerStateView {
        self.view()
    }
}

impl BrokerStateView {
    /// A well-formed state maps each topic to at most one retained
    /// publication.
    pub open spec fn wf(self) -> bool {
        forall|i: int, j: int|
            0 <= i < j < self.retained.len() ==> self.retained[i].0 != self.retained[j].0
    }
}

impl BrokerState {
    /// Builds a state from its two parts.
    pub fn new(retained: Vec<(String, Publication)>, sessions: Vec<SessionState>) -> (r:
        BrokerState)
        ensures
            r.retained == retained,
            r.sessions == sessions,
    {
        BrokerState { retained, sessions }
    }

    /// The empty state: nothing retained, no sessions.
    pub fn empty() -> (r: BrokerState)
        ensures
            r@.retained.len() == 0,
            r@.sessions.len() == 0,
    {
        BrokerState { retained: Vec::new(), sessions: Vec::new() }
    }

    /// Splits the state into its two parts.
    pub fn into_parts(self) -> (r: (Vec<(String, Publication)>, Vec<SessionState>))
        ensures
            r.0 == self.retained,
            r.1 == self.sessions,
    {
        (self.retained, self.sessions)
    }
}

impl Default for BrokerState {
    /// The empty state.
    fn default() -> (r: BrokerState)
        ensures
            r@.retained.len() == 0,
            r@.sessions.len() == 0,
    {
        BrokerState::empty()
    }
}

impl SessionState {
    /// Builds a session record from its parts.
    pub fn from_parts(
        client_id: String,
        subscriptions: Vec<Subscription>,
        waiting_to_be_sent: Vec<Publication>,
    ) -> (r: SessionState)
        ensures
            r.client_id == client_id,
            r.subscriptions == subscriptions,
            r.waiting_to_be_sent == waiting_to_be_sent,
    {
        SessionState { client_id, subscriptions, waiting_to_be_sent }
    }

    /// Splits the session record into its parts.
    pub fn into_parts(self) -> (r: (String, Vec<Subscription>, Vec<Publication>))
        ensures
            r.0 == self.client_id,
            r.1 == self.subscriptions,
            r.2 == self.waiting_to_be_sent,
    {
        (self.client_id, self.subscriptions, self.waiting_to_be_sent)
    }
}

} // verus!
