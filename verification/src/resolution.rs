//! The resolution of an arrivals request. Each requested identifier is
//! validated against the stop index and looked up in the arrivals cache; the
//! stops that the cache cannot answer are gathered into one batch for a
//! single upstream call; after the refresh they are looked up once more, and
//! whatever is then still unanswered makes the whole request fail.
//!
//! The caller performs the upstream call between [`missing_siri_ids`] and
//! [`retry_from_cache`], and only when the batch is not empty.

use crate::caches::{fresh_at, CacheDataWithKeys};
use crate::models::{
    cached_arrivals, rc_share, PostArrivalsResponse, RequestError, StopArrivalState,
    StopArrivalStateView, StopArrivals, StopArrivalsView, StopId, StopMap, StopMapView, ValidStop,
};
use crate::scan::{split, COMMA};
use crate::services::{ParsingUpstreamError, ParsingUpstreamErrorView};
use crate::str_utils::{insert_type, set_put, splits_commas, texts_of};
use std::rc::Rc;
use vstd::prelude::*;
use vstd::string::StringExecFns;

verus! {

/// The most stop identifiers that one request may name.
pub const MAX_STOPS_PER_REQUEST: usize = 5;

/// The view of a [`RequestError`].
pub enum RequestErrorView {
    MissingParameter(Seq<char>),
    InvalidParameter(Seq<char>),
}

impl DeepView for RequestError {
    type V = RequestErrorView;

    open spec fn deep_view(&self) -> RequestErrorView {
        match self {
            RequestError::MissingParameter(m) => RequestErrorView::MissingParameter(m@),
            RequestError::InvalidParameter(m) => RequestErrorView::InvalidParameter(m@),
        }
    }
}

/// The stop identifiers that a `stops` parameter names: its comma-separated
/// entries. An empty parameter counts as missing, one that is not valid
/// UTF-8 as invalid. How many identifiers a request may name is judged by
/// [`stop_count_allowed`].
pub open spec fn stops_request(param: Seq<u8>) -> Result<Seq<Seq<char>>, RequestErrorView> {
    if param.len() == 0 {
        Err(RequestErrorView::MissingParameter("missing stops query parameter"@))
    } else {
        match texts_of(split(param, COMMA)) {
            None => Err(RequestErrorView::InvalidParameter("invalid stops query parameter"@)),
            Some(ids) => Ok(ids),
        }
    }
}

/// Whether a request may name `count` stop identifiers: one to five.
pub fn stop_count_allowed(count: usize) -> (allowed: bool)
    ensures
        allowed == (1 <= count <= MAX_STOPS_PER_REQUEST),
{
    count >= 1 && count <= MAX_STOPS_PER_REQUEST
}

/// Reads the `stops` parameter of an arrivals request.
pub fn parse_stops_request(param: &[u8]) -> (r: Result<Vec<String>, RequestError>)
    ensures
        match stops_request(param@) {
            Ok(ids) => r matches Ok(v) && v.deep_view() == ids,
            Err(e) => r matches Err(x) && x.deep_view() == e,
        },
{
    if param.len() == 0 {
        return Err(RequestError::MissingParameter("missing stops query parameter".to_owned()));
    }
    match splits_commas(param) {
        Err(_) => Err(RequestError::InvalidParameter("invalid stops query parameter".to_owned())),
        Ok(ids) => Ok(ids),
    }
}

/// Where one identifier stands after validation and a cache pass at `now`:
/// `Invalid` when the stop index does not know it, `Ready` when the cache
/// holds arrivals of its stop that are not stale, else `Valid`.
pub open spec fn resolve_one(
    id: Seq<char>,
    stops: StopMapView,
    cache: CacheDataWithKeys<StopArrivals>,
    now: u32,
) -> StopArrivalStateView {
    if stops.contains_key(id) {
        match cached_arrivals(cache, stops[id].siri_id, now) {
            Some(arrivals) => StopArrivalStateView::Ready(arrivals),
            None => StopArrivalStateView::Valid(stops[id]),
        }
    } else {
        StopArrivalStateView::Invalid
    }
}

/// Where a state stands after one more cache pass at `now`: a `Valid` stop
/// becomes `Ready` when the cache now holds its arrivals; no other state
/// moves.
pub open spec fn retry_one(
    state: StopArrivalStateView,
    cache: CacheDataWithKeys<StopArrivals>,
    now: u32,
) -> StopArrivalStateView {
    match state {
        StopArrivalStateView::Valid(stop) => match cached_arrivals(cache, stop.siri_id, now) {
            Some(arrivals) => StopArrivalStateView::Ready(arrivals),
            None => StopArrivalStateView::Valid(stop),
        },
        other => other,
    }
}

/// The two caches answer alike from second `from` on: a cache pass evicts
/// only what is stale, which no later lookup would have found.
pub open spec fn answers_alike(
    a: CacheDataWithKeys<StopArrivals>,
    b: CacheDataWithKeys<StopArrivals>,
    from: u32,
) -> bool {
    &&& a.ttl() == b.ttl()
    &&& forall|key: Seq<char>, t: u32|
        t >= from ==> #[trigger] fresh_at(a.slot(key), t) == fresh_at(b.slot(key), t)
}

/// The cache key that a state is still waiting for: the siri id of a `Valid`
/// stop.
pub open spec fn pending_key(state: StopArrivalStateView) -> Option<Seq<char>> {
    match state {
        StopArrivalStateView::Valid(stop) => Some(stop.siri_id),
        _ => None,
    }
}

/// The cache keys that the states are still waiting for. A cache pass looks
/// each of them up and misses, which evicts what was stored under it.
pub open spec fn missed_keys(states: Seq<StopArrivalStateView>) -> Set<Seq<char>> {
    Set::new(
        |key: Seq<char>|
            exists|i: int| 0 <= i < states.len() && pending_key(#[trigger] states[i]) == Some(key),
    )
}

/// One more state adds its pending key, if it has one.
pub proof fn lemma_missed_keys_push(states: Seq<StopArrivalStateView>, state: StopArrivalStateView)
    ensures
        missed_keys(states.push(state)) == match pending_key(state) {
            Some(key) => missed_keys(states).insert(key),
            None => missed_keys(states),
        },
{
    let more = states.push(state);
    let expected = match pending_key(state) {
        Some(key) => missed_keys(states).insert(key),
        None => missed_keys(states),
    };
    assert forall|key: Seq<char>| missed_keys(more).contains(key) implies expected.contains(
        key,
    ) by {
        let i = choose|i: int| 0 <= i < more.len() && pending_key(#[trigger] more[i]) == Some(key);
        if i < states.len() {
            assert(pending_key(states[i]) == Some(key));
        }
    }
    assert forall|key: Seq<char>| expected.contains(key) implies missed_keys(more).contains(
        key,
    ) by {
        if missed_keys(states).contains(key) {
            let i = choose|i: int|
                0 <= i < states.len() && pending_key(#[trigger] states[i]) == Some(key);
            assert(pending_key(more[i]) == Some(key));
        } else {
            assert(pending_key(more[states.len() as int]) == Some(key));
        }
    }
    assert(missed_keys(more) =~= expected);
}

/// Validates each requested identifier and makes the first cache pass.
pub fn begin_resolution(
    stops_request: &Vec<String>,
    stop_map: &StopMap,
    arrivals_cache: &mut CacheDataWithKeys<StopArrivals>,
    now: u32,
) -> (states: Vec<StopArrivalState>)
    ensures
        states@.len() == stops_request@.len(),
        forall|i: int|
            0 <= i < states@.len() ==> (#[trigger] states@[i]).deep_view() == resolve_one(
                stops_request@[i]@,
                stop_map.deep_view(),
                *old(arrivals_cache),
                now,
            ),
        answers_alike(*final(arrivals_cache), *old(arrivals_cache), now),
        final(arrivals_cache).entries() == old(arrivals_cache).entries().remove_keys(
            missed_keys(states.deep_view()),
        ),
{
    let mut states: Vec<StopArrivalState> = Vec::new();
    let mut i: usize = 0;
    proof {
        assert(missed_keys(states.deep_view()) =~= Set::<Seq<char>>::empty());
        assert(arrivals_cache.entries() =~= arrivals_cache.entries().remove_keys(
            Set::<Seq<char>>::empty(),
        ));
    }
    while i < stops_request.len()
        invariant
            i <= stops_request@.len(),
            states@.len() == i,
            forall|j: int|
                0 <= j < i ==> (#[trigger] states@[j]).deep_view() == resolve_one(
                    stops_request@[j]@,
                    stop_map.deep_view(),
                    *old(arrivals_cache),
                    now,
                ),
            answers_alike(*arrivals_cache, *old(arrivals_cache), now),
            arrivals_cache.entries() == old(arrivals_cache).entries().remove_keys(
                missed_keys(states.deep_view()),
            ),
        decreases stops_request@.len() - i,
    {
        let ghost before = *arrivals_cache;
        let ghost views = states.deep_view();
        let id = StopId(stops_request[i].clone());
        let state = match id.validate(stop_map) {
            StopArrivalState::Valid(stop) => {
                let ghost siri = stop.data.siri_id@;
                let next = stop.fetch_arrivals_from_cache(arrivals_cache, now);
                proof {
                    assert(fresh_at(before.slot(siri), now) == fresh_at(
                        old(arrivals_cache).slot(siri),
                        now,
                    ));
                    lemma_pass_answers_alike(before, *arrivals_cache, siri, now);
                }
                next
            },
            other => other,
        };
        states.push(state);
        proof {
            assert(states.deep_view() =~= views.push(state.deep_view()));
            lemma_missed_keys_push(views, state.deep_view());
            assert(arrivals_cache.entries() =~= old(arrivals_cache).entries().remove_keys(
                missed_keys(states.deep_view()),
            ));
        }
        i = i + 1;
    }
    states
}

/// A lookup at `now` leaves a cache that answers as before from `now` on.
pub proof fn lemma_pass_answers_alike(
    before: CacheDataWithKeys<StopArrivals>,
    after: CacheDataWithKeys<StopArrivals>,
    key: Seq<char>,
    now: u32,
)
    requires
        after.ttl() == before.ttl(),
        after.entries() == before.entries() || (fresh_at(before.slot(key), now) is None
            && after.entries() == before.entries().remove(key)),
    ensures
        answers_alike(after, before, now),
{
    assert forall|k: Seq<char>, t: u32| t >= now implies #[trigger] fresh_at(after.slot(k), t)
        == fresh_at(before.slot(k), t) by {
        if after.entries() == before.entries() {
        } else if k == key {
        } else {
            assert(after.entries().contains_key(k) == before.entries().contains_key(k));
        }
    }
}

/// The distinct siri ids of the stops that are still `Valid`, in order of
/// first appearance.
pub open spec fn pending_ids(states: Seq<StopArrivalStateView>) -> Seq<Seq<char>>
    decreases states.len(),
{
    if states.len() == 0 {
        Seq::empty()
    } else {
        match states.last() {
            StopArrivalStateView::Valid(stop) => set_put(
                pending_ids(states.drop_last()),
                stop.siri_id,
            ),
            _ => pending_ids(states.drop_last()),
        }
    }
}

/// The batch key of `ids`: the ids joined by commas.
pub open spec fn join_commas(ids: Seq<Seq<char>>) -> Seq<char>
    decreases ids.len(),
{
    if ids.len() == 0 {
        Seq::empty()
    } else {
        let head = join_commas(ids.drop_last());
        if head.len() > 0 {
            head + ","@ + ids.last()
        } else {
            ids.last()
        }
    }
}

/// Whether an upstream call is needed: whether some stop is still `Valid`,
/// known to the stop index and not answered by the cache.
pub fn needs_refresh(states: &Vec<StopArrivalState>) -> (needed: bool)
    ensures
        needed == exists|i: int|
            0 <= i < states@.len() && (#[trigger] states@[i].deep_view()) is Valid,
{
    let mut i: usize = 0;
    while i < states.len()
        invariant
            i <= states@.len(),
            forall|j: int| 0 <= j < i ==> !((#[trigger] states@[j].deep_view()) is Valid),
        decreases states@.len() - i,
    {
        match &states[i] {
            StopArrivalState::Valid(_) => {
                assert(states@[i as int].deep_view() is Valid);
                return true;
            },
            _ => {},
        }
        i = i + 1;
    }
    false
}

/// The batch key for the upstream call: the siri ids of all stops that the
/// cache could not answer, each once, joined by commas. It is empty when no
/// stop is still `Valid`, and only then when no siri id is empty.
pub fn missing_siri_ids(states: &Vec<StopArrivalState>) -> (key: String)
    ensures
        key@ == join_commas(pending_ids(states.deep_view())),
{
    let ghost views = states.deep_view();
    let mut ids: Vec<String> = Vec::new();
    let mut i: usize = 0;
    proof {
        assert(views.take(0) =~= Seq::<StopArrivalStateView>::empty());
        assert(ids.deep_view() =~= Seq::<Seq<char>>::empty());
    }
    while i < states.len()
        invariant
            i <= states@.len(),
            views == states.deep_view(),
            ids.deep_view() == pending_ids(views.take(i as int)),
        decreases states@.len() - i,
    {
        proof {
            assert(views.take(i + 1).drop_last() =~= views.take(i as int));
            assert(views.take(i + 1).last() == states@[i as int].deep_view());
        }
        match &states[i] {
            StopArrivalState::Valid(stop) => {
                insert_type(&mut ids, stop.data.siri_id.clone());
            },
            _ => {},
        }
        i = i + 1;
    }
    proof {
        assert(views.take(i as int) =~= views);
    }
    let ghost all = ids.deep_view();
    let mut key = String::new();
    let mut j: usize = 0;
    proof {
        assert(all.take(0) =~= Seq::<Seq<char>>::empty());
    }
    while j < ids.len()
        invariant
            j <= ids@.len(),
            all == ids.deep_view(),
            key@ == join_commas(all.take(j as int)),
        decreases ids@.len() - j,
    {
        proof {
            assert(all.take(j + 1).drop_last() =~= all.take(j as int));
            assert(all.take(j + 1).last() == ids@[j as int]@);
        }
        if !crate::text::is_blank(&key) {
            key.append(",");
        }
        key.append(ids[j].as_str());
        proof {
            assert(key@ =~= join_commas(all.take(j + 1)));
        }
        j = j + 1;
    }
    proof {
        assert(all.take(j as int) =~= all);
    }
    key
}

/// Makes the second cache pass: every stop that is still `Valid` is looked
/// up again.
pub fn retry_from_cache(
    states: &mut Vec<StopArrivalState>,
    arrivals_cache: &mut CacheDataWithKeys<StopArrivals>,
    now: u32,
)
    ensures
        final(states)@.len() == old(states)@.len(),
        forall|i: int|
            0 <= i < old(states)@.len() ==> (#[trigger] final(states)@[i]).deep_view() == retry_one(
                old(states)@[i].deep_view(),
                *old(arrivals_cache),
                now,
            ),
        answers_alike(*final(arrivals_cache), *old(arrivals_cache), now),
        final(arrivals_cache).entries() == old(arrivals_cache).entries().remove_keys(
            missed_keys(final(states).deep_view()),
        ),
{
    let mut i: usize = 0;
    proof {
        assert(states.deep_view().take(0) =~= Seq::<StopArrivalStateView>::empty());
        assert(missed_keys(states.deep_view().take(0)) =~= Set::<Seq<char>>::empty());
        assert(arrivals_cache.entries() =~= arrivals_cache.entries().remove_keys(
            Set::<Seq<char>>::empty(),
        ));
    }
    while i < states.len()
        invariant
            i <= states@.len(),
            states@.len() == old(states)@.len(),
            forall|j: int|
                0 <= j < i ==> (#[trigger] states@[j]).deep_view() == retry_one(
                    old(states)@[j].deep_view(),
                    *old(arrivals_cache),
                    now,
                ),
            forall|j: int| i <= j < states@.len() ==> states@[j] == old(states)@[j],
            answers_alike(*arrivals_cache, *old(arrivals_cache), now),
            arrivals_cache.entries() == old(arrivals_cache).entries().remove_keys(
                missed_keys(states.deep_view().take(i as int)),
            ),
        decreases states@.len() - i,
    {
        let ghost before = *arrivals_cache;
        let ghost done = states.deep_view().take(i as int);
        let next = match &states[i] {
            StopArrivalState::Valid(stop) => {
                let again = ValidStop { data: rc_share(&stop.data) };
                let ghost siri = again.data.siri_id@;
                let next = again.fetch_arrivals_from_cache(arrivals_cache, now);
                proof {
                    assert(fresh_at(before.slot(siri), now) == fresh_at(
                        old(arrivals_cache).slot(siri),
                        now,
                    ));
                    lemma_pass_answers_alike(before, *arrivals_cache, siri, now);
                }
                Some(next)
            },
            _ => None,
        };
        if let Some(next) = next {
            states[i] = next;
        }
        proof {
            let view = states@[i as int].deep_view();
            assert(states.deep_view().take(i + 1) =~= done.push(view));
            lemma_missed_keys_push(done, view);
            assert(arrivals_cache.entries() =~= old(arrivals_cache).entries().remove_keys(
                missed_keys(states.deep_view().take(i + 1)),
            ));
        }
        i = i + 1;
    }
    proof {
        assert(states.deep_view().take(i as int) =~= states.deep_view());
    }
}

/// The answer that the states make up, when every one of them is final.
pub open spec fn response_of(states: Seq<StopArrivalStateView>) -> Result<
    Seq<Option<StopArrivalsView>>,
    ParsingUpstreamErrorView,
> {
    if forall|i: int|
        0 <= i < states.len() ==> (#[trigger] states[i]) is Ready || states[i] is Invalid {
        Ok(
            Seq::new(
                states.len(),
                |i: int|
                    match states[i] {
                        StopArrivalStateView::Ready(arrivals) => Some(arrivals),
                        _ => None,
                    },
            ),
        )
    } else {
        Err(
            ParsingUpstreamErrorView::Error(
                "unexpected state when fetching arrivals from cache"@,
            ),
        )
    }
}

/// Turns the states into the answer: the arrivals of each `Ready` stop and
/// an empty entry for each `Invalid` identifier, in request order. A state
/// that is neither makes the whole request fail.
pub fn finish_resolution(states: &Vec<StopArrivalState>) -> (r: Result<
    PostArrivalsResponse,
    ParsingUpstreamError,
>)
    ensures
        match response_of(states.deep_view()) {
            Ok(stops) => r matches Ok(response) && response.deep_view() == stops,
            Err(e) => r matches Err(x) && x.deep_view() == e,
        },
{
    let ghost views = states.deep_view();
    let mut stops: Vec<Option<Rc<StopArrivals>>> = Vec::new();
    let mut i: usize = 0;
    while i < states.len()
        invariant
            i <= states@.len(),
            views == states.deep_view(),
            stops@.len() == i,
            forall|j: int| 0 <= j < i ==> (#[trigger] views[j]) is Ready || views[j] is Invalid,
            forall|j: int|
                0 <= j < i ==> (#[trigger] stops@[j]).deep_view() == match views[j] {
                    StopArrivalStateView::Ready(arrivals) => Some(arrivals),
                    _ => None,
                },
        decreases states@.len() - i,
    {
        proof {
            assert(views[i as int] == states@[i as int].deep_view());
        }
        match &states[i] {
            StopArrivalState::Ready(ready) => {
                stops.push(Some(rc_share(&ready.0)));
            },
            StopArrivalState::Invalid => {
                stops.push(None);
            },
            _ => {
                proof {
                    assert(!(views[i as int] is Ready || views[i as int] is Invalid));
                }
                return Err(
                    ParsingUpstreamError::Error(
                        "unexpected state when fetching arrivals from cache".to_owned(),
                    ),
                );
            },
        }
        i = i + 1;
    }
    let response = PostArrivalsResponse { stops };
    proof {
        assert(response.deep_view() =~= response_of(views)->Ok_0);
    }
    Ok(response)
}

/// The batch names every key that a state is still waiting for, and names
/// none twice.
pub proof fn lemma_batch_is_deduplicated(states: Seq<StopArrivalStateView>)
    ensures
        pending_ids(states).no_duplicates(),
        forall|key: Seq<char>|
            pending_ids(states).contains(key) <==> missed_keys(states).contains(key),
    decreases states.len(),
{
    if states.len() == 0 {
        assert forall|key: Seq<char>| !missed_keys(states).contains(key) by {}
    } else {
        let head = states.drop_last();
        lemma_batch_is_deduplicated(head);
        assert(head.push(states.last()) =~= states);
        lemma_missed_keys_push(head, states.last());
        let before = pending_ids(head);
        match pending_key(states.last()) {
            Some(key) => {
                if before.contains(key) {
                } else {
                    let after = before.push(key);
                    assert(pending_ids(states) == after);
                    assert forall|i: int, j: int|
                        0 <= i < after.len() && 0 <= j < after.len() && i != j implies after[i]
                        != after[j] by {
                        if i < before.len() && j < before.len() {
                        } else if i < before.len() {
                            assert(before.contains(before[i]));
                        } else {
                            assert(before.contains(before[j]));
                        }
                    }
                    assert forall|k: Seq<char>| after.contains(k) <==> missed_keys(
                        states,
                    ).contains(k) by {
                        if after.contains(k) {
                            let i = choose|i: int| 0 <= i < after.len() && after[i] == k;
                            if i < before.len() {
                                assert(before.contains(k));
                            }
                        }
                        if missed_keys(states).contains(k) {
                            if k == key {
                                assert(after[before.len() as int] == k);
                            } else {
                                assert(before.contains(k));
                                let i = choose|i: int| 0 <= i < before.len() && before[i] == k;
                                assert(after[i] == k);
                            }
                        }
                    }
                }
            },
            None => {},
        }
    }
}

/// When the cache answered every stop, the batch is empty: no upstream call
/// is made.
pub proof fn lemma_warm_needs_no_call(states: Seq<StopArrivalStateView>)
    requires
        forall|i: int| 0 <= i < states.len() ==> !((#[trigger] states[i]) is Valid),
    ensures
        join_commas(pending_ids(states)) == Seq::<char>::empty(),
{
    lemma_pending_ids_of_settled(states);
}

/// States of which none is `Valid` wait for no key.
pub proof fn lemma_pending_ids_of_settled(states: Seq<StopArrivalStateView>)
    requires
        forall|i: int| 0 <= i < states.len() ==> !((#[trigger] states[i]) is Valid),
    ensures
        pending_ids(states) == Seq::<Seq<char>>::empty(),
    decreases states.len(),
{
    if states.len() > 0 {
        let head = states.drop_last();
        assert forall|i: int| 0 <= i < head.len() implies !((#[trigger] head[i]) is Valid) by {
            assert(head[i] == states[i]);
        }
        lemma_pending_ids_of_settled(head);
        assert(!(states[states.len() - 1] is Valid));
    }
}

/// A batch key is not empty when it joins at least one id and no id is
/// empty.
pub proof fn lemma_join_commas_nonempty(ids: Seq<Seq<char>>)
    requires
        ids.len() > 0,
        forall|i: int| 0 <= i < ids.len() ==> (#[trigger] ids[i]).len() > 0,
    ensures
        join_commas(ids).len() > 0,
{
}

/// When every stop that is still `Valid` has a siri id that is not empty,
/// the batch key is empty exactly when no stop is still `Valid`: the key
/// tells whether an upstream call is needed.
pub proof fn lemma_batch_empty_iff_settled(states: Seq<StopArrivalStateView>)
    requires
        forall|i: int|
            0 <= i < states.len() ==> ((#[trigger] states[i]) matches StopArrivalStateView::Valid(
                stop,
            ) ==> stop.siri_id.len() > 0),
    ensures
        join_commas(pending_ids(states)).len() == 0 <==> forall|i: int|
            0 <= i < states.len() ==> !((#[trigger] states[i]) is Valid),
{
    if forall|i: int| 0 <= i < states.len() ==> !((#[trigger] states[i]) is Valid) {
        lemma_pending_ids_of_settled(states);
    } else {
        let i = choose|i: int| 0 <= i < states.len() && (#[trigger] states[i]) is Valid;
        lemma_batch_is_deduplicated(states);
        let key = pending_key(states[i])->0;
        assert(missed_keys(states).contains(key));
        let ids = pending_ids(states);
        assert(ids.contains(key));
        assert forall|j: int| 0 <= j < ids.len() implies (#[trigger] ids[j]).len() > 0 by {
            assert(ids.contains(ids[j]));
            assert(missed_keys(states).contains(ids[j]));
            let k = choose|k: int|
                0 <= k < states.len() && pending_key(#[trigger] states[k]) == Some(ids[j]);
            assert(states[k] is Valid);
        }
        lemma_join_commas_nonempty(ids);
    }
}

/// With a well-formed stop index, the stops that a cache pass leaves
/// `Valid` have siri ids that are not empty, so that the batch key is empty
/// exactly when no upstream call is needed.
pub proof fn lemma_key_tells_need(
    request: Seq<Seq<char>>,
    stops: StopMapView,
    cache: CacheDataWithKeys<StopArrivals>,
    now: u32,
)
    requires
        crate::wellformed::stop_map_wf(stops),
    ensures
        ({
            let states = Seq::new(request.len(), |i: int| resolve_one(request[i], stops, cache, now));
            join_commas(pending_ids(states)).len() == 0 <==> forall|i: int|
                0 <= i < states.len() ==> !((#[trigger] states[i]) is Valid)
        }),
{
    let states = Seq::new(request.len(), |i: int| resolve_one(request[i], stops, cache, now));
    assert forall|i: int| 0 <= i < states.len() implies ((#[trigger] states[i])
        matches StopArrivalStateView::Valid(stop) ==> stop.siri_id.len() > 0) by {
        if states[i] is Valid {
            assert(stops.contains_key(request[i]));
        }
    }
    lemma_batch_empty_iff_settled(states);
}

} // verus!
