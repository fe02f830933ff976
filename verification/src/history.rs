//! What holds along every run of the mediator.
//!
//! A run is a sequence of events: requests that arrive and reports that the
//! network makes.  This module follows the state of [`crate::model`] along a
//! run, counts for a key the lookups that the mediator starts and the
//! responses that it sends, and proves that the two alternate: a key is
//! never looked up twice at once, and each lookup is answered at most once.
use crate::model::MediatorView;
use crate::model::ProgressView;
use crate::model::QueryId;
use crate::model::RequestActionView;
use crate::message::RequestView;
use vstd::prelude::*;

verus! {

/// One thing that happens to the mediator.
pub enum EventView {
    /// A request arrives.  `query` is the name that the network gives to the
    /// lookup, should the mediator start one.
    Request { request: RequestView, query: QueryId },
    /// The network reports the progress of a query.
    Report { progress: ProgressView },
}

impl MediatorView {
    /// The state after an event.  A lookup that the mediator asks for is
    /// started and recorded at once.
    pub open spec fn after(self, event: EventView) -> MediatorView {
        match event {
            EventView::Request { request, query } => match self.request_action(request) {
                RequestActionView::Lookup { key } => self.lookup_started(key, query),
                _ => self,
            },
            EventView::Report { progress } => self.progressed(progress),
        }
    }

    /// Whether the mediator starts a lookup of `key` on this event.
    pub open spec fn starts_lookup(self, event: EventView, key: Seq<u8>) -> bool {
        event matches EventView::Request { request, .. } && self.request_action(request) == (
        RequestActionView::Lookup { key })
    }

    /// Whether the mediator sends a response for `key` on this event.
    pub open spec fn answers(self, event: EventView, key: Seq<u8>) -> bool {
        event matches EventView::Report { progress } && self.emitted(progress) matches Some(
            response,
        ) && response.key == key
    }

    /// The state after a run.
    pub open spec fn after_all(self, events: Seq<EventView>) -> MediatorView
        decreases events.len(),
    {
        if events.len() == 0 {
            self
        } else {
            self.after(events[0]).after_all(events.skip(1))
        }
    }

    /// The number of lookups of `key` that the mediator starts in a run.
    pub open spec fn lookups_started(self, events: Seq<EventView>, key: Seq<u8>) -> nat
        decreases events.len(),
    {
        if events.len() == 0 {
            0
        } else {
            let here: nat = if self.starts_lookup(events[0], key) {
                1
            } else {
                0
            };
            here + self.after(events[0]).lookups_started(events.skip(1), key)
        }
    }

    /// The number of responses for `key` that the mediator sends in a run.
    pub open spec fn responses_sent(self, events: Seq<EventView>, key: Seq<u8>) -> nat
        decreases events.len(),
    {
        if events.len() == 0 {
            0
        } else {
            let here: nat = if self.answers(events[0], key) {
                1
            } else {
                0
            };
            here + self.after(events[0]).responses_sent(events.skip(1), key)
        }
    }

    /// One if `key` is being looked up, zero if not.
    pub open spec fn outstanding(self, key: Seq<u8>) -> nat {
        if self.active.contains_key(key) {
            1
        } else {
            0
        }
    }

    /// An event keeps the state consistent.
    pub proof fn lemma_after_consistent(self, event: EventView)
        requires
            self.consistent(),
        ensures
            self.after(event).consistent(),
    {
        match event {
            EventView::Request { request, query } => {
                self.lemma_lookup_started_consistent(request.key, query);
            },
            EventView::Report { progress } => {
                self.lemma_progressed_consistent(progress);
            },
        }
    }

    /// A run keeps the state consistent.
    pub proof fn lemma_after_all_consistent(self, events: Seq<EventView>)
        requires
            self.consistent(),
        ensures
            self.after_all(events).consistent(),
        decreases events.len(),
    {
        if events.len() > 0 {
            self.lemma_after_consistent(events[0]);
            self.after(events[0]).lemma_after_all_consistent(events.skip(1));
        }
    }

    /// On one event, a key's lookups and responses are in balance: a lookup
    /// is started only for a key that is not being looked up and makes it
    /// outstanding, a response is sent only for a key that is being looked up
    /// and ends that, and nothing else changes whether the key is
    /// outstanding.
    pub proof fn lemma_event_balance(self, event: EventView, key: Seq<u8>)
        requires
            self.consistent(),
        ensures
            !(self.starts_lookup(event, key) && self.answers(event, key)),
            self.starts_lookup(event, key) ==> self.outstanding(key) == 0 && self.after(
                event,
            ).outstanding(key) == 1,
            self.answers(event, key) ==> self.outstanding(key) == 1 && self.after(
                event,
            ).outstanding(key) == 0,
            !self.starts_lookup(event, key) && !self.answers(event, key) ==> self.after(
                event,
            ).outstanding(key) == self.outstanding(key),
    {
        match event {
            EventView::Request { request, query } => {},
            EventView::Report { progress } => {
                self.lemma_active_until_answered(progress, key);
                self.lemma_response_only_to_active(progress);
            },
        }
    }

    /// Along a run, the lookups of a key that were outstanding or started
    /// are those that were answered or are still outstanding.
    pub proof fn lemma_run_balance(self, events: Seq<EventView>, key: Seq<u8>)
        requires
            self.consistent(),
        ensures
            self.outstanding(key) + self.lookups_started(events, key) == self.responses_sent(
                events,
                key,
            ) + self.after_all(events).outstanding(key),
        decreases events.len(),
    {
        if events.len() > 0 {
            self.lemma_event_balance(events[0], key);
            self.lemma_after_consistent(events[0]);
            self.after(events[0]).lemma_run_balance(events.skip(1), key);
        }
    }

    /// Requests for one key are answered one lookup at a time.
    ///
    /// In every run from the start, the mediator has started for each key
    /// as many lookups as it has sent responses, or one more.  Since this
    /// holds after every event of the run, lookups and responses for a key
    /// alternate: between two lookups of a key lies a response for it, and
    /// between two responses a lookup.
    pub proof fn lemma_lookups_and_responses_alternate(
        quorum: u32,
        events: Seq<EventView>,
        key: Seq<u8>,
    )
        ensures
            MediatorView::initial(quorum).responses_sent(events, key) <= MediatorView::initial(
                quorum,
            ).lookups_started(events, key),
            MediatorView::initial(quorum).lookups_started(events, key) <= MediatorView::initial(
                quorum,
            ).responses_sent(events, key) + 1,
    {
        MediatorView::lemma_initial_consistent(quorum);
        MediatorView::initial(quorum).lemma_run_balance(events, key);
    }

    /// A store leaves no trace: a request that carries a value changes
    /// nothing in the state, starts no lookup and sends no response.
    pub proof fn lemma_store_leaves_no_trace(self, request: RequestView, query: QueryId)
        requires
            request.put_value is Some,
        ensures
            self.after(EventView::Request { request, query }) == self,
            forall|key: Seq<u8>| !self.starts_lookup(EventView::Request { request, query }, key),
            forall|key: Seq<u8>| !self.answers(EventView::Request { request, query }, key),
    {
    }
}

} // verus!
