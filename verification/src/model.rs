//! The mediator as a mathematical state machine.
//!
//! The state is two tables.  The table of active queries maps a key to the
//! query that looks it up; the table of aggregators maps a query to the
//! response that is being gathered for it.  Three things happen to the state:
//! a request arrives, the network reports that a lookup was started, and the
//! table reports the progress of a query.  This module says, as functions on
//! the state, what each of them does and what the mediator answers, and
//! proves what holds of every state that can be reached.
//!
//! The executable [`crate::mediator::Mediator`] is proved to follow these
//! functions step by step.
use crate::message::RequestView;
use crate::message::ResponseView;
use vstd::prelude::*;

verus! {

/// The name that the network gives to a query.  The mediator never looks
/// inside it: it only compares.
pub type QueryId = u64;

/// How many of the peers that should hold a record must take it for a store
/// to count as done.
#[derive(Debug, Clone, Copy, PartialEq, Eq, Structural)]
pub enum QuorumPolicy {
    One,
    Majority,
    All,
}

/// What the mediator does about a request.
#[verifier::ext_equal]
pub enum RequestActionView {
    /// Store the value under the key with the given policy, and do not wait
    /// for the outcome.
    Store { key: Seq<u8>, value: Seq<u8>, quorum: QuorumPolicy },
    /// Start a lookup of the key and report the query it was given.
    Lookup { key: Seq<u8> },
    /// Nothing: the key is being looked up already.
    Nothing,
}

/// One report of a query's progress.
#[verifier::ext_equal]
pub struct ProgressView {
    /// The query that the report is about.
    pub id: QueryId,
    /// The value of the record that was found, if the report carries one.
    pub found: Option<Seq<u8>>,
    /// The number of reports that the query has made so far, this one
    /// included.
    pub count: nat,
    /// Whether this is the query's last report.
    pub last: bool,
}

/// The state of the mediator.
#[verifier::ext_equal]
pub struct MediatorView {
    /// The number of reports after which a lookup has gathered enough.
    pub quorum: u32,
    /// The table of active queries.
    pub active: Map<Seq<u8>, QueryId>,
    /// The table of aggregators.
    pub aggregators: Map<QueryId, ResponseView>,
}

impl MediatorView {
    /// The state at the start: nothing is being looked up.
    pub open spec fn initial(quorum: u32) -> MediatorView {
        MediatorView { quorum, active: Map::empty(), aggregators: Map::empty() }
    }

    /// What holds of every state that the mediator reaches: the tables are
    /// finite, the key of every aggregator is active under that aggregator's
    /// query, and no aggregator holds a value twice.
    pub open spec fn consistent(self) -> bool {
        &&& self.active.dom().finite()
        &&& self.aggregators.dom().finite()
        &&& forall|id: QueryId| #[trigger]
            self.aggregators.contains_key(id) ==> {
                &&& self.active.contains_key(self.aggregators[id].key)
                &&& self.active[self.aggregators[id].key] == id
                &&& self.aggregators[id].values.no_duplicates()
            }
    }

    /// Whether the two tables pair up: every active key has its aggregator.
    ///
    /// Together with [`MediatorView::consistent`] this makes the tables one
    /// to one.  It holds as long as the network never names a new query like
    /// one that is still outstanding.
    pub open spec fn paired(self) -> bool {
        forall|key: Seq<u8>| #[trigger]
            self.active.contains_key(key) ==> {
                &&& self.aggregators.contains_key(self.active[key])
                &&& self.aggregators[self.active[key]].key == key
            }
    }

    /// What the mediator does about `request`.  The state stays as it is.
    ///
    /// A value is stored on all the peers that should hold it.
    pub open spec fn request_action(self, request: RequestView) -> RequestActionView {
        match request.put_value {
            Some(value) => RequestActionView::Store {
                key: request.key,
                value,
                quorum: QuorumPolicy::All,
            },
            None => if self.active.contains_key(request.key) {
                RequestActionView::Nothing
            } else {
                RequestActionView::Lookup { key: request.key }
            },
        }
    }

    /// The state after the network has started query `id` for `key`.
    ///
    /// Where the key is active already, nothing changes.
    pub open spec fn lookup_started(self, key: Seq<u8>, id: QueryId) -> MediatorView {
        if self.active.contains_key(key) {
            self
        } else {
            MediatorView {
                quorum: self.quorum,
                active: self.active.insert(key, id),
                aggregators: self.aggregators.insert(
                    id,
                    ResponseView { key, values: Seq::empty() },
                ),
            }
        }
    }

    /// The state after the value of a report has been gathered: a value
    /// that the query's aggregator does not hold yet is added at the end.
    pub open spec fn gathered(self, progress: ProgressView) -> MediatorView {
        match progress.found {
            Some(value) if self.aggregators.contains_key(progress.id)
                && !self.aggregators[progress.id].values.contains(value) => {
                let before = self.aggregators[progress.id];
                MediatorView {
                    quorum: self.quorum,
                    active: self.active,
                    aggregators: self.aggregators.insert(
                        progress.id,
                        ResponseView { key: before.key, values: before.values.push(value) },
                    ),
                }
            },
            _ => self,
        }
    }

    /// Whether the mediator asks the network to finish the query early.
    ///
    /// It does so on a report that carries a value, when the query has no
    /// aggregator or has made at least `quorum` reports.
    pub open spec fn finish_requested(self, progress: ProgressView) -> bool {
        progress.found is Some && (!self.aggregators.contains_key(progress.id) || progress.count
            >= self.quorum)
    }

    /// The response that the mediator sends on a report: on the last report
    /// of a query that has an aggregator, what was gathered.
    pub open spec fn emitted(self, progress: ProgressView) -> Option<ResponseView> {
        let gathered = self.gathered(progress);
        if progress.last && gathered.aggregators.contains_key(progress.id) {
            Some(gathered.aggregators[progress.id])
        } else {
            None
        }
    }

    /// The state after a report.
    pub open spec fn progressed(self, progress: ProgressView) -> MediatorView {
        let gathered = self.gathered(progress);
        if progress.last && gathered.aggregators.contains_key(progress.id) {
            MediatorView {
                quorum: self.quorum,
                active: gathered.active.remove(gathered.aggregators[progress.id].key),
                aggregators: gathered.aggregators.remove(progress.id),
            }
        } else {
            gathered
        }
    }

    /// The start state is consistent and paired.
    pub proof fn lemma_initial_consistent(quorum: u32)
        ensures
            MediatorView::initial(quorum).consistent(),
            MediatorView::initial(quorum).paired(),
    {
    }

    /// Starting a lookup keeps the state consistent, and keeps it paired if
    /// the new query is not outstanding already.
    pub proof fn lemma_lookup_started_consistent(self, key: Seq<u8>, id: QueryId)
        requires
            self.consistent(),
        ensures
            self.lookup_started(key, id).consistent(),
            self.paired() && !self.aggregators.contains_key(id) ==> self.lookup_started(
                key,
                id,
            ).paired(),
    {
        let next = self.lookup_started(key, id);
        if !self.active.contains_key(key) {
            assert forall|other: QueryId| #[trigger]
                next.aggregators.contains_key(other) implies {
                &&& next.active.contains_key(next.aggregators[other].key)
                &&& next.active[next.aggregators[other].key] == other
                &&& next.aggregators[other].values.no_duplicates()
            } by {
                if other != id {
                    assert(self.aggregators.contains_key(other));
                }
            }
            if self.paired() && !self.aggregators.contains_key(id) {
                assert forall|k: Seq<u8>| #[trigger] next.active.contains_key(k) implies {
                    &&& next.aggregators.contains_key(next.active[k])
                    &&& next.aggregators[next.active[k]].key == k
                } by {
                    if k != key {
                        assert(self.active.contains_key(k));
                    }
                }
            }
        }
    }

    /// Gathering a value keeps the state consistent and paired.
    pub proof fn lemma_gathered_consistent(self, progress: ProgressView)
        requires
            self.consistent(),
        ensures
            self.gathered(progress).consistent(),
            self.paired() ==> self.gathered(progress).paired(),
            self.gathered(progress).active == self.active,
            self.gathered(progress).aggregators.dom() == self.aggregators.dom(),
    {
        let next = self.gathered(progress);
        if next != self {
            let value = progress.found->0;
            let before = self.aggregators[progress.id];
            assert(self.aggregators.contains_key(progress.id));
            assert(next.aggregators.dom() =~= self.aggregators.dom());
            assert forall|other: QueryId| #[trigger]
                next.aggregators.contains_key(other) implies {
                &&& next.active.contains_key(next.aggregators[other].key)
                &&& next.active[next.aggregators[other].key] == other
                &&& next.aggregators[other].values.no_duplicates()
            } by {
                assert(self.aggregators.contains_key(other));
                if other == progress.id {
                    lemma_push_keeps_distinct(before.values, value);
                }
            }
            if self.paired() {
                assert forall|k: Seq<u8>| #[trigger] next.active.contains_key(k) implies {
                    &&& next.aggregators.contains_key(next.active[k])
                    &&& next.aggregators[next.active[k]].key == k
                } by {
                    assert(self.active.contains_key(k));
                }
            }
        }
    }

    /// A report keeps the state consistent and paired.
    pub proof fn lemma_progressed_consistent(self, progress: ProgressView)
        requires
            self.consistent(),
        ensures
            self.progressed(progress).consistent(),
            self.paired() ==> self.progressed(progress).paired(),
    {
        self.lemma_gathered_consistent(progress);
        let gathered = self.gathered(progress);
        let next = self.progressed(progress);
        if progress.last && gathered.aggregators.contains_key(progress.id) {
            let gone = gathered.aggregators[progress.id].key;
            assert forall|other: QueryId| #[trigger]
                next.aggregators.contains_key(other) implies {
                &&& next.active.contains_key(next.aggregators[other].key)
                &&& next.active[next.aggregators[other].key] == other
                &&& next.aggregators[other].values.no_duplicates()
            } by {
                assert(gathered.aggregators.contains_key(other));
            }
            if self.paired() {
                assert forall|k: Seq<u8>| #[trigger] next.active.contains_key(k) implies {
                    &&& next.aggregators.contains_key(next.active[k])
                    &&& next.aggregators[next.active[k]].key == k
                } by {
                    assert(gathered.active.contains_key(k));
                }
            }
        }
    }
}

/// A sequence without repetition stays so when a value that it does not
/// hold is added.
pub proof fn lemma_push_keeps_distinct(values: Seq<Seq<u8>>, value: Seq<u8>)
    requires
        values.no_duplicates(),
        !values.contains(value),
    ensures
        values.push(value).no_duplicates(),
{
    let next = values.push(value);
    assert forall|i: int, j: int| 0 <= i < next.len() && 0 <= j < next.len() && i != j implies next[i]
        != next[j] by {
        if i < values.len() && j < values.len() {
        } else if i < values.len() {
            assert(values.contains(values[i]));
        } else {
            assert(values.contains(values[j]));
        }
    }
}

impl MediatorView {
    /// While a key is being looked up, a further request for it starts no
    /// lookup: from the moment a lookup of `key` is recorded, a request to
    /// look `key` up asks for nothing.
    pub proof fn lemma_second_request_starts_nothing(self, key: Seq<u8>, id: QueryId)
        ensures
            self.lookup_started(key, id).request_action(RequestView { key, put_value: None })
                == RequestActionView::Nothing,
    {
    }

    /// A key stays active until its response is sent: a report takes a key
    /// out of the table of active queries only by sending a response for
    /// that very key, and never puts one in.
    pub proof fn lemma_active_until_answered(self, progress: ProgressView, key: Seq<u8>)
        requires
            self.consistent(),
        ensures
            self.progressed(progress).active.contains_key(key) <==> self.active.contains_key(key)
                && !(self.emitted(progress) matches Some(response) && response.key == key),
    {
        self.lemma_gathered_consistent(progress);
    }

    /// No response is sent for a key that is not being looked up.
    pub proof fn lemma_response_only_to_active(self, progress: ProgressView)
        requires
            self.consistent(),
        ensures
            self.emitted(progress) matches Some(response) ==> self.active.contains_key(
                response.key,
            ),
    {
        self.lemma_gathered_consistent(progress);
        let gathered = self.gathered(progress);
        if progress.last && gathered.aggregators.contains_key(progress.id) {
            assert(gathered.active.contains_key(gathered.aggregators[progress.id].key));
        }
    }

    /// A response holds no value twice, however often the network reported
    /// it.
    pub proof fn lemma_response_values_distinct(self, progress: ProgressView)
        requires
            self.consistent(),
        ensures
            self.emitted(progress) matches Some(response) ==> response.values.no_duplicates(),
    {
        self.lemma_gathered_consistent(progress);
    }

    /// A store is silent: the mediator answers a request that carries a
    /// value with the store and nothing else, whatever its state, and a
    /// request never changes the state or sends a response.
    pub proof fn lemma_store_is_silent(self, request: RequestView)
        requires
            request.put_value is Some,
        ensures
            self.request_action(request) == (RequestActionView::Store {
                key: request.key,
                value: request.put_value->0,
                quorum: QuorumPolicy::All,
            }),
    {
    }

    /// A lookup that found nothing is answered with no values: when the
    /// last report of a query comes right after the query was started, and
    /// carries no value, the response is the key with an empty sequence.
    pub proof fn lemma_empty_on_miss(self, key: Seq<u8>, id: QueryId, count: nat)
        requires
            !self.active.contains_key(key),
        ensures
            self.lookup_started(key, id).emitted(
                ProgressView { id, found: None, count, last: true },
            ) == Some(ResponseView { key, values: Seq::empty() }),
    {
    }

    /// The last report of a query that has an aggregator always sends a
    /// response, and one that carries no value sends what was gathered
    /// before, unchanged.
    pub proof fn lemma_last_report_answers(self, progress: ProgressView)
        requires
            progress.last,
            self.aggregators.contains_key(progress.id),
        ensures
            self.emitted(progress) is Some,
            progress.found is None ==> self.emitted(progress) == Some(
                self.aggregators[progress.id],
            ),
    {
    }

    /// Once a query has made `quorum` reports, a report that carries a value
    /// asks the network to finish it, and what was gathered is kept: the
    /// aggregator holds the values it held, in their order, and after them
    /// at most the value of this report.
    pub proof fn lemma_quorum_finishes_and_keeps(self, progress: ProgressView)
        requires
            progress.found is Some,
            progress.count >= self.quorum,
            self.aggregators.contains_key(progress.id),
        ensures
            self.finish_requested(progress),
            self.gathered(progress).aggregators.contains_key(progress.id),
            self.gathered(progress).aggregators[progress.id].key
                == self.aggregators[progress.id].key,
            self.aggregators[progress.id].values.is_prefix_of(
                self.gathered(progress).aggregators[progress.id].values,
            ),
            self.gathered(progress).aggregators[progress.id].values.contains(progress.found->0),
    {
        let before = self.aggregators[progress.id].values;
        let value = progress.found->0;
        if !before.contains(value) {
            let after = before.push(value);
            assert(after[before.len() as int] == value);
            assert(before =~= after.subrange(0, before.len() as int));
        } else {
            assert(before =~= before.subrange(0, before.len() as int));
        }
    }

    /// Once a response is sent, its lookup is gone from both tables: the key
    /// is not active and the query has no aggregator.
    pub proof fn lemma_answered_leaves_tables(self, progress: ProgressView)
        requires
            self.consistent(),
        ensures
            self.emitted(progress) matches Some(response) ==> {
                &&& !self.progressed(progress).active.contains_key(response.key)
                &&& !self.progressed(progress).aggregators.contains_key(progress.id)
                &&& forall|id: QueryId| #[trigger]
                    self.progressed(progress).aggregators.contains_key(id)
                        ==> self.progressed(progress).aggregators[id].key != response.key
            },
    {
        self.lemma_gathered_consistent(progress);
        self.lemma_progressed_consistent(progress);
    }
}

} // verus!
