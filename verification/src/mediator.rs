//! The mediator: the bookkeeping between requests and lookups.
//!
//! A [`Mediator`] owns the two tables of [`crate::model`].  It performs no
//! input or output and calls nothing.  Its caller hands it what happened (a
//! request arrived, a lookup was started, a query made progress) and does
//! what the mediator answers: store a record, start a lookup, ask the network
//! to finish a query, send a response.
use crate::message::Request;
use crate::message::Response;
use crate::message::ResponseView;
use crate::model::MediatorView;
use crate::model::ProgressView;
use crate::model::QueryId;
use crate::model::QuorumPolicy;
use crate::model::RequestActionView;
use std::collections::HashMap;
use vstd::prelude::*;
use vstd::slice::slice_to_vec;
use vstd::std_specs::hash::group_hash_axioms;

verus! {

/// What the caller is to do about a request.
#[derive(Debug, Clone, PartialEq, Eq)]
pub enum RequestAction {
    /// Store `value` under `key` with the given policy.  The outcome is of
    /// no interest: nothing is ever sent about it.
    Store { key: Vec<u8>, value: Vec<u8>, quorum: QuorumPolicy },
    /// Start a lookup of `key`, then report the query with
    /// [`Mediator::on_lookup_started`].
    Lookup { key: Vec<u8> },
    /// Nothing.
    Nothing,
}

impl View for RequestAction {
    type V = RequestActionView;

    open spec fn view(&self) -> RequestActionView {
        match *self {
            RequestAction::Store { key, value, quorum } => RequestActionView::Store {
                key: key@,
                value: value@,
                quorum,
            },
            RequestAction::Lookup { key } => RequestActionView::Lookup { key: key@ },
            RequestAction::Nothing => RequestActionView::Nothing,
        }
    }
}

/// One report of a query's progress, as the network delivers it.
#[derive(Debug, Clone, PartialEq, Eq)]
pub struct Progress {
    /// The query that the report is about.
    pub id: QueryId,
    /// The value of the record that was found, if the report carries one.
    pub found: Option<Vec<u8>>,
    /// The number of reports that the query has made so far, this one
    /// included.
    pub count: usize,
    /// Whether this is the query's last report.
    pub last: bool,
}

impl View for Progress {
    type V = ProgressView;

    open spec fn view(&self) -> ProgressView {
        ProgressView {
            id: self.id,
            found: match self.found {
                Some(value) => Some(value@),
                None => None,
            },
            count: self.count as nat,
            last: self.last,
        }
    }
}

/// What the caller is to do about a report.
#[derive(Debug, Clone, PartialEq, Eq)]
pub struct ProgressAction {
    /// Whether to ask the network to finish the query early.  The network may
    /// report on the query again all the same.
    pub finish: bool,
    /// The response to send, if the report ended a lookup.
    pub response: Option<Response>,
}

impl ProgressAction {
    /// The response to send, as a mathematical value.
    pub open spec fn response_view(&self) -> Option<ResponseView> {
        match self.response {
            Some(response) => Some(response@),
            None => None,
        }
    }
}

/// A key that is being looked up, and the query that looks it up.
///
/// The active queries are kept in a list in which no key occurs twice, and
/// a key is found by comparing bytes: few lookups are under way at a time.
struct ActiveQuery {
    key: Vec<u8>,
    id: QueryId,
}

/// Whether `key` is the key of the `i`-th active query.
spec fn key_at(queries: Seq<ActiveQuery>, i: int, key: Seq<u8>) -> bool {
    0 <= i < queries.len() && queries[i].key@ == key
}

/// The table of active queries that a list of them stands for.
spec fn active_of(queries: Seq<ActiveQuery>) -> Map<Seq<u8>, QueryId> {
    Map::new(
        |key: Seq<u8>| exists|i: int| key_at(queries, i, key),
        |key: Seq<u8>| queries[choose|i: int| key_at(queries, i, key)].id,
    )
}

/// Whether no key occurs twice in a list of active queries.
spec fn distinct_keys(queries: Seq<ActiveQuery>) -> bool {
    forall|i: int, j: int|
        0 <= i < queries.len() && 0 <= j < queries.len() && i != j ==> #[trigger] queries[i].key@
            != #[trigger] queries[j].key@
}

/// The table of aggregators that a map of responses stands for.
spec fn aggregators_of(responses: Map<QueryId, Response>) -> Map<QueryId, ResponseView> {
    Map::new(|id: QueryId| responses.contains_key(id), |id: QueryId| responses[id]@)
}

/// In a list without repeated keys, each key leads to its own query.
proof fn lemma_active_at(queries: Seq<ActiveQuery>, i: int)
    requires
        distinct_keys(queries),
        0 <= i < queries.len(),
    ensures
        active_of(queries).contains_key(queries[i].key@),
        active_of(queries)[queries[i].key@] == queries[i].id,
{
    let key = queries[i].key@;
    assert(key_at(queries, i, key));
    let found = choose|j: int| key_at(queries, j, key);
    assert(found == i);
}

/// Adding a query for a key that is not in the list adds it to the table.
proof fn lemma_active_push(queries: Seq<ActiveQuery>, query: ActiveQuery)
    requires
        distinct_keys(queries),
        !active_of(queries).contains_key(query.key@),
    ensures
        distinct_keys(queries.push(query)),
        active_of(queries.push(query)) == active_of(queries).insert(query.key@, query.id),
{
    let next = queries.push(query);
    assert forall|i: int, j: int|
        0 <= i < next.len() && 0 <= j < next.len() && i != j implies #[trigger] next[i].key@
        != #[trigger] next[j].key@ by {
        if i < queries.len() && j < queries.len() {
        } else if i < queries.len() {
            assert(key_at(queries, i, queries[i].key@));
        } else {
            assert(key_at(queries, j, queries[j].key@));
        }
    }
    let wanted = active_of(queries).insert(query.key@, query.id);
    assert forall|key: Seq<u8>| active_of(next).contains_key(key) <==> wanted.contains_key(
        key,
    ) by {
        if active_of(next).contains_key(key) {
            let i = choose|i: int| key_at(next, i, key);
            if i < queries.len() {
                assert(key_at(queries, i, key));
            }
        }
        if wanted.contains_key(key) {
            if key == query.key@ {
                assert(key_at(next, queries.len() as int, key));
            } else {
                let i = choose|i: int| key_at(queries, i, key);
                assert(key_at(next, i, key));
            }
        }
    }
    assert forall|key: Seq<u8>| active_of(next).contains_key(key) implies active_of(next)[key]
        == wanted[key] by {
        let i = choose|i: int| key_at(next, i, key);
        lemma_active_at(next, i);
        if i < queries.len() {
            lemma_active_at(queries, i);
        }
    }
    assert(active_of(next) =~= wanted);
}

/// Taking a query out of the list takes its key out of the table.
proof fn lemma_active_remove(queries: Seq<ActiveQuery>, at: int)
    requires
        distinct_keys(queries),
        0 <= at < queries.len(),
    ensures
        distinct_keys(queries.remove(at)),
        active_of(queries.remove(at)) == active_of(queries).remove(queries[at].key@),
{
    let next = queries.remove(at);
    let gone = queries[at].key@;
    let back = |i: int| if i < at { i } else { i + 1 };
    assert forall|i: int| 0 <= i < next.len() implies next[i] == queries[back(i)] by {}
    assert forall|i: int, j: int|
        0 <= i < next.len() && 0 <= j < next.len() && i != j implies #[trigger] next[i].key@
        != #[trigger] next[j].key@ by {
        assert(next[i] == queries[back(i)]);
        assert(next[j] == queries[back(j)]);
    }
    let wanted = active_of(queries).remove(gone);
    assert forall|key: Seq<u8>| active_of(next).contains_key(key) <==> wanted.contains_key(
        key,
    ) by {
        if active_of(next).contains_key(key) {
            let i = choose|i: int| key_at(next, i, key);
            assert(next[i] == queries[back(i)]);
            assert(key_at(queries, back(i), key));
        }
        if wanted.contains_key(key) {
            let i = choose|i: int| key_at(queries, i, key);
            if i < at {
                assert(key_at(next, i, key));
            } else {
                assert(next[i - 1] == queries[back(i - 1)]);
                assert(key_at(next, i - 1, key));
            }
        }
    }
    assert forall|key: Seq<u8>| active_of(next).contains_key(key) implies active_of(next)[key]
        == wanted[key] by {
        let i = choose|i: int| key_at(next, i, key);
        assert(next[i] == queries[back(i)]);
        lemma_active_at(next, i);
        lemma_active_at(queries, back(i));
    }
    assert(active_of(next) =~= wanted);
}

/// Whether two byte strings are the same.
fn same_bytes(a: &[u8], b: &[u8]) -> (same: bool)
    ensures
        same == (a@ == b@),
{
    if a.len() != b.len() {
        return false;
    }
    let mut i: usize = 0;
    while i < a.len()
        invariant
            i <= a.len(),
            a.len() == b.len(),
            forall|j: int| 0 <= j < i ==> a@[j] == b@[j],
        decreases a.len() - i,
    {
        if a[i] != b[i] {
            return false;
        }
        i += 1;
    }
    assert(a@ =~= b@);
    true
}

/// Whether `values` holds `value`.
fn holds(values: &Vec<Vec<u8>>, value: &[u8]) -> (found: bool)
    ensures
        found == values.deep_view().contains(value@),
{
    let ghost all = values.deep_view();
    let mut i: usize = 0;
    while i < values.len()
        invariant
            i <= values.len(),
            all == values.deep_view(),
            forall|j: int| 0 <= j < i ==> all[j] != value@,
        decreases values.len() - i,
    {
        assert(all[i as int] =~= values[i as int]@);
        if same_bytes(values[i].as_slice(), value) {
            return true;
        }
        i += 1;
    }
    false
}

/// The place of `key` in the list of active queries.
fn find(queries: &Vec<ActiveQuery>, key: &[u8]) -> (place: Option<usize>)
    ensures
        match place {
            Some(i) => key_at(queries@, i as int, key@),
            None => !active_of(queries@).contains_key(key@),
        },
{
    let mut i: usize = 0;
    while i < queries.len()
        invariant
            i <= queries.len(),
            forall|j: int| 0 <= j < i ==> !key_at(queries@, j, key@),
        decreases queries.len() - i,
    {
        if same_bytes(queries[i].key.as_slice(), key) {
            return Some(i);
        }
        i += 1;
    }
    None
}

/// The bookkeeping between the parent's requests and the network's queries.
pub struct Mediator {
    quorum: u32,
    queries: Vec<ActiveQuery>,
    responses: HashMap<QueryId, Response>,
}

impl View for Mediator {
    type V = MediatorView;

    closed spec fn view(&self) -> MediatorView {
        MediatorView {
            quorum: self.quorum,
            active: active_of(self.queries@),
            aggregators: aggregators_of(self.responses@),
        }
    }
}

impl Mediator {
    /// The mediator's own consistency.  Every mediator that
    /// [`Mediator::new`] made and that only its methods have touched is well
    /// formed, and the view of a well-formed mediator is consistent.
    pub closed spec fn wf(&self) -> bool {
        distinct_keys(self.queries@) && self@.consistent()
    }

    /// The view of a well-formed mediator is a consistent state.
    pub proof fn lemma_wf_consistent(&self)
        requires
            self.wf(),
        ensures
            self@.consistent(),
    {
    }

    /// A mediator with nothing outstanding.
    pub fn new(quorum: u32) -> (mediator: Mediator)
        ensures
            mediator.wf(),
            mediator@ == MediatorView::initial(quorum),
    {
        broadcast use group_hash_axioms;

        let mediator = Mediator { quorum, queries: Vec::new(), responses: HashMap::new() };
        proof {
            assert(mediator@.active =~= Map::<Seq<u8>, QueryId>::empty()) by {
                assert forall|key: Seq<u8>| !mediator@.active.contains_key(key) by {
                    if mediator@.active.contains_key(key) {
                        let i = choose|i: int| key_at(mediator.queries@, i, key);
                        assert(key_at(mediator.queries@, i, key));
                    }
                }
            }
            assert(mediator@.aggregators =~= Map::<QueryId, ResponseView>::empty());
            assert(mediator@ =~= MediatorView::initial(quorum));
        }
        mediator
    }

    /// The number of reports after which a lookup has gathered enough.
    pub fn quorum(&self) -> (quorum: u32)
        ensures
            quorum == self@.quorum,
    {
        self.quorum
    }

    /// Whether `key` is being looked up.
    pub fn is_active(&self, key: &[u8]) -> (active: bool)
        requires
            self.wf(),
        ensures
            active == self@.active.contains_key(key@),
    {
        find(&self.queries, key).is_some()
    }

    /// The query that looks `key` up, if it is being looked up.
    pub fn query_of(&self, key: &[u8]) -> (query: Option<QueryId>)
        requires
            self.wf(),
        ensures
            query == if self@.active.contains_key(key@) {
                Some(self@.active[key@])
            } else {
                None
            },
    {
        match find(&self.queries, key) {
            Some(i) => {
                proof {
                    lemma_active_at(self.queries@, i as int);
                }
                Some(self.queries[i].id)
            },
            None => None,
        }
    }

    /// Whether a response is being gathered for `id`.
    pub fn has_aggregator(&self, id: QueryId) -> (present: bool)
        requires
            self.wf(),
        ensures
            present == self@.aggregators.contains_key(id),
    {
        broadcast use group_hash_axioms;

        self.responses.contains_key(&id)
    }

    /// Decides what to do about a request.
    ///
    /// A request with a value is a store on all the peers that should hold
    /// it.  A request without one starts a
    /// lookup, unless its key is being looked up already: then it asks for
    /// nothing, and the one response to the lookup under way answers it too.
    /// The mediator's state does not change.
    pub fn on_request(&self, request: Request) -> (action: RequestAction)
        requires
            self.wf(),
        ensures
            action@ == self@.request_action(request@),
    {
        let Request { key, put_value } = request;
        match put_value {
            Some(value) => RequestAction::Store { key, value, quorum: QuorumPolicy::All },
            None => {
                if find(&self.queries, key.as_slice()).is_some() {
                    RequestAction::Nothing
                } else {
                    RequestAction::Lookup { key }
                }
            },
        }
    }

    /// Records that the network has started query `id` to look `key` up, and
    /// opens an empty aggregator for it.
    ///
    /// Where `key` is being looked up already, nothing is recorded and the
    /// result is `false`.
    pub fn on_lookup_started(&mut self, key: Vec<u8>, id: QueryId) -> (recorded: bool)
        requires
            old(self).wf(),
        ensures
            final(self).wf(),
            final(self)@ == old(self)@.lookup_started(key@, id),
            recorded == !old(self)@.active.contains_key(key@),
    {
        broadcast use group_hash_axioms;

        if find(&self.queries, key.as_slice()).is_some() {
            return false;
        }
        let copy = slice_to_vec(key.as_slice());
        let query = ActiveQuery { key: copy, id };
        proof {
            lemma_active_push(self.queries@, query);
            old(self)@.lemma_lookup_started_consistent(key@, id);
        }
        self.queries.push(query);
        let fresh = Response { key, values: Vec::new() };
        assert(fresh@.values =~= Seq::<Seq<u8>>::empty());
        self.responses.insert(id, fresh);
        proof {
            let wanted = old(self)@.lookup_started(key@, id);
            assert(self@.aggregators =~= wanted.aggregators);
            assert(self@ =~= wanted);
        }
        true
    }

    /// Takes in one report of a query's progress.
    ///
    /// A value that the report carries is added to the query's aggregator
    /// unless it is there already.  The network is asked to finish the query
    /// when the report carries a value and either the query has no
    /// aggregator or it has made at least `quorum` reports.  On the last
    /// report of a query that has an aggregator, the aggregator and the key's
    /// entry leave the tables, and what was gathered is the response to send.
    pub fn on_progress(&mut self, progress: Progress) -> (action: ProgressAction)
        requires
            old(self).wf(),
        ensures
            final(self).wf(),
            final(self)@ == old(self)@.progressed(progress@),
            action.finish == old(self)@.finish_requested(progress@),
            action.response_view() == old(self)@.emitted(progress@),
            action.response_view() matches Some(response) ==> {
                &&& response.values.no_duplicates()
                &&& old(self)@.active.contains_key(response.key)
                &&& !final(self)@.active.contains_key(response.key)
                &&& !final(self)@.aggregators.contains_key(progress.id)
            },
    {
        broadcast use group_hash_axioms;

        let ghost before = self@;
        let ghost report = progress@;
        let Progress { id, found, count, last } = progress;
        let mut finish = false;
        if let Some(value) = found {
            let known = match self.responses.remove(&id) {
                Some(gathering) => {
                    let Response { key, values } = gathering;
                    let mut values = values;
                    let ghost held = values.deep_view();
                    if !holds(&values, value.as_slice()) {
                        values.push(value);
                        assert(values.deep_view() =~~= held.push(value@));
                    }
                    self.responses.insert(id, Response { key, values });
                    true
                },
                None => false,
            };
            finish = !known || count >= self.quorum as usize;
        }
        proof {
            before.lemma_gathered_consistent(report);
            assert(self@.aggregators =~= before.gathered(report).aggregators);
            assert(self@ =~= before.gathered(report));
        }
        let ghost gathered = self@;
        let mut response: Option<Response> = None;
        if last {
            if let Some(done) = self.responses.remove(&id) {
                let place = find(&self.queries, done.key.as_slice());
                proof {
                    assert(gathered.aggregators.contains_key(id));
                    assert(gathered.active.contains_key(done.key@));
                }
                if let Some(at) = place {
                    proof {
                        lemma_active_remove(self.queries@, at as int);
                    }
                    self.queries.remove(at);
                }
                response = Some(done);
            }
        }
        proof {
            before.lemma_progressed_consistent(report);
            assert(self@.aggregators =~= before.progressed(report).aggregators);
            assert(self@ =~= before.progressed(report));
            before.lemma_response_values_distinct(report);
            before.lemma_response_only_to_active(report);
            before.lemma_answered_leaves_tables(report);
        }
        ProgressAction { finish, response }
    }
}

} // verus!
