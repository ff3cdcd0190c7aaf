//! What holds of whole runs of the proxy: a run is a list of capability
//! calls, each served from the guest's call to the report of its result.

use crate::error::ErrorView;
use crate::index::recorded_for;
use crate::outcome::{encode_entry, entry_fits, EntryView, OutcomeView};
use crate::proxy::{fresh, next, pending_of, ActionView, EventView, ProxyMode, ProxyView, StateView};
use crate::request::{canonical_key, RequestView};
use crate::session::{all_fit, encode_session, lemma_session_round_trip, session_entries};
use vstd::prelude::*;

verus! {

/// How one call went.
pub struct Served {
    /// The proxy after the call.
    pub proxy: ProxyView,
    /// What was appended to the session file.
    pub written: Seq<u8>,
    /// The action that ended the call: `Deliver` or `Abort`.
    pub answer: ActionView,
}

/// One call, step by step, with a backend that answers `backend` when it
/// is asked and a session file that takes every record.
pub open spec fn serve(v: ProxyView, request: RequestView, backend: OutcomeView) -> Served {
    let (v1, a1) = next(v, EventView::Call { request });
    let (v2, a2) = next(v1, EventView::Proceed);
    let (v3, a3) = if a2 is InvokeBackend {
        next(v2, EventView::BackendReturned { outcome: backend })
    } else {
        (v2, a2)
    };
    let (v4, a4) = if a3 is Append {
        next(v3, EventView::Appended { ok: true })
    } else {
        (v3, a3)
    };
    let written = match a3 {
        ActionView::Append { record } => record,
        _ => Seq::empty(),
    };
    Served { proxy: next(v4, EventView::Reported).0, written, answer: a4 }
}

/// How a run went.
pub struct Ran {
    /// The proxy after the run.
    pub proxy: ProxyView,
    /// What was appended to the session file, in all.
    pub written: Seq<u8>,
    /// The answers to the calls, in the order of the calls.
    pub answers: Seq<ActionView>,
}

/// A run: the calls `requests` one after the other, where the backend
/// answers the `i`-th call with `backends[i]` if it is asked.
pub open spec fn run(v: ProxyView, requests: Seq<RequestView>, backends: Seq<OutcomeView>) -> Ran
    decreases requests.len(),
{
    if requests.len() == 0 {
        Ran { proxy: v, written: Seq::empty(), answers: Seq::empty() }
    } else {
        let before = run(v, requests.drop_last(), backends.drop_last());
        let last = serve(before.proxy, requests.last(), backends.last());
        Ran {
            proxy: last.proxy,
            written: before.written + last.written,
            answers: before.answers.push(last.answer),
        }
    }
}

/// The entries that a recording of the calls holds: the `i`-th has the key
/// of the `i`-th request, the number `i` and the `i`-th outcome.
pub open spec fn exchanges(requests: Seq<RequestView>, outcomes: Seq<OutcomeView>) -> Seq<
    EntryView,
> {
    Seq::new(
        requests.len(),
        |i: int| EntryView { key: canonical_key(requests[i]), sequence: i as u64, outcome: outcomes[i] },
    )
}

/// Each outcome, delivered.
pub open spec fn delivered(outcomes: Seq<OutcomeView>) -> Seq<ActionView> {
    Seq::new(outcomes.len(), |i: int| ActionView::Deliver { outcome: outcomes[i] })
}

/// In direct mode no step ever asks for a record to be appended.
pub proof fn lemma_direct_never_appends(v: ProxyView, e: EventView)
    requires
        v.mode is Direct,
    ensures
        !(next(v, e).1 is Append),
        next(v, e).0.mode is Direct,
{
}

/// A run in direct mode writes nothing, whatever the backend returns, be it
/// a success or a failure.
pub proof fn lemma_direct_run_writes_nothing(
    v: ProxyView,
    requests: Seq<RequestView>,
    backends: Seq<OutcomeView>,
)
    requires
        v.mode is Direct,
        requests.len() == backends.len(),
    ensures
        run(v, requests, backends).written.len() == 0,
        run(v, requests, backends).proxy.mode is Direct,
    decreases requests.len(),
{
    if requests.len() > 0 {
        lemma_direct_run_writes_nothing(v, requests.drop_last(), backends.drop_last());
    }
}

/// A call that is cancelled while the backend is being asked leaves no
/// trace: no record was asked for, and the proxy is as it was before the
/// call.
pub proof fn lemma_cancelled_call_leaves_no_trace(v: ProxyView, request: RequestView)
    requires
        v.state is Idle,
        !(v.mode is Replay),
    ensures
        ({
            let (v1, a1) = next(v, EventView::Call { request });
            let (v2, a2) = next(v1, EventView::Proceed);
            let (v3, a3) = next(v2, EventView::Cancelled);
            &&& a1 is Continue
            &&& a2 is InvokeBackend
            &&& a3 is Ready
            &&& v3 == v
        }),
{
    let (v1, a1) = next(v, EventView::Call { request });
    let (v2, a2) = next(v1, EventView::Proceed);
    let (v3, a3) = next(v2, EventView::Cancelled);
    assert(v3 =~= v);
}

/// While a record is being appended the call cannot be cancelled.
pub proof fn lemma_append_is_seen_through(v: ProxyView)
    requires
        v.state matches StateView::AwaitingBackend { unsaved: Some(_), .. },
    ensures
        next(v, EventView::Cancelled) == (v, ActionView::Rejected),
{
}

/// In direct mode the guest gets what the backend returned.
pub proof fn lemma_direct_passes_through(v: ProxyView, request: RequestView, backend: OutcomeView)
    requires
        v.mode is Direct,
        v.state is Idle,
    ensures
        serve(v, request, backend).answer == (ActionView::Deliver { outcome: backend }),
        serve(v, request, backend).proxy == v,
{
    assert(serve(v, request, backend).proxy =~= v);
}

/// A key without entries has nothing pending.
pub proof fn lemma_absent_key_has_nothing(es: Seq<EntryView>, key: Seq<u8>)
    requires
        forall|i: int| 0 <= i < es.len() ==> (#[trigger] es[i]).key != key,
    ensures
        recorded_for(es, key) == Seq::<OutcomeView>::empty(),
    decreases es.len(),
{
    if es.len() > 0 {
        let rest = es.drop_first();
        assert forall|i: int| 0 <= i < rest.len() implies (#[trigger] rest[i]).key != key by {
            assert(rest[i] == es[i + 1]);
        }
        lemma_absent_key_has_nothing(rest, key);
    }
}

/// Replay of a request for whose key nothing is pending fails with
/// `CapabilityNotRecorded`; no outcome is made up, and the backend's answer
/// plays no part.
pub proof fn lemma_replay_miss(v: ProxyView, request: RequestView, backend: OutcomeView)
    requires
        v.mode is Replay,
        v.state is Idle,
        v.pending[canonical_key(request)].len() == 0,
    ensures
        serve(v, request, backend).answer == (ActionView::Abort {
            error: ErrorView::CapabilityNotRecorded { key: canonical_key(request) },
        }),
        serve(v, request, backend).written.len() == 0,
        serve(v, request, backend).proxy == v,
{
    assert(serve(v, request, backend).proxy =~= v);
}

/// Replay over a session without an entry for the key of a request fails
/// that request with `CapabilityNotRecorded`.
pub proof fn lemma_replay_miss_on_session(
    source: String,
    es: Seq<EntryView>,
    request: RequestView,
    backend: OutcomeView,
)
    requires
        forall|i: int| 0 <= i < es.len() ==> (#[trigger] es[i]).key != canonical_key(request),
    ensures
        serve(fresh(ProxyMode::Replay { source }, es), request, backend).answer == (
        ActionView::Abort {
            error: ErrorView::CapabilityNotRecorded { key: canonical_key(request) },
        }),
{
    lemma_absent_key_has_nothing(es, canonical_key(request));
    lemma_replay_miss(fresh(ProxyMode::Replay { source }, es), request, backend);
}

/// Whether every exchange can be written down.
pub open spec fn recordable(requests: Seq<RequestView>, outcomes: Seq<OutcomeView>) -> bool {
    &&& requests.len() == outcomes.len()
    &&& requests.len() <= u64::MAX
    &&& all_fit(exchanges(requests, outcomes))
}

/// A run in record mode gives the guest what the backend returned, and
/// appends one record for every call, in the order of the calls.
pub proof fn lemma_record_run(
    destination: String,
    requests: Seq<RequestView>,
    outcomes: Seq<OutcomeView>,
)
    requires
        recordable(requests, outcomes),
    ensures
        run(fresh(ProxyMode::Record { destination }, Seq::empty()), requests, outcomes)
            == (Ran {
            proxy: ProxyView {
                sequence: requests.len() as u64,
                ..fresh(ProxyMode::Record { destination }, Seq::empty())
            },
            written: encode_session(exchanges(requests, outcomes)),
            answers: delivered(outcomes),
        }),
    decreases requests.len(),
{
    let start = fresh(ProxyMode::Record { destination }, Seq::empty());
    let es = exchanges(requests, outcomes);
    let r = run(start, requests, outcomes);
    if requests.len() == 0 {
        assert(delivered(outcomes) =~= Seq::empty());
        assert(r.proxy =~= start);
    } else {
        let n = requests.len() - 1;
        let rq = requests.drop_last();
        let os = outcomes.drop_last();
        assert(exchanges(rq, os) =~= es.drop_last());
        assert(all_fit(exchanges(rq, os))) by {
            assert forall|i: int| 0 <= i < es.drop_last().len() implies entry_fits(
                #[trigger] es.drop_last()[i],
            ) by {
                assert(es.drop_last()[i] == es[i]);
            }
        }
        lemma_record_run(destination, rq, os);
        let before = run(start, rq, os);
        let last = serve(before.proxy, requests.last(), outcomes.last());
        assert(es.last() == (EntryView {
            key: canonical_key(requests.last()),
            sequence: n as u64,
            outcome: outcomes.last(),
        }));
        assert(last.written == encode_entry(es.last()));
        assert(last.answer == (ActionView::Deliver { outcome: outcomes.last() }));
        assert(r.answers =~= delivered(outcomes));
        assert(last.proxy =~= ProxyView { sequence: requests.len() as u64, ..start });
    }
}

/// Replay of the first `m` calls of a recorded run, against the whole
/// session, repeats the first `m` outcomes and leaves the rest pending.
proof fn lemma_replay_prefix(
    source: String,
    requests: Seq<RequestView>,
    outcomes: Seq<OutcomeView>,
    ignored: Seq<OutcomeView>,
    m: int,
)
    requires
        requests.len() == outcomes.len(),
        requests.len() == ignored.len(),
        0 <= m <= requests.len(),
    ensures
        run(
            fresh(ProxyMode::Replay { source }, exchanges(requests, outcomes)),
            requests.take(m),
            ignored.take(m),
        ) == (Ran {
            proxy: fresh(
                ProxyMode::Replay { source },
                exchanges(requests, outcomes).skip(m),
            ),
            written: Seq::empty(),
            answers: delivered(outcomes.take(m)),
        }),
    decreases m,
{
    let es = exchanges(requests, outcomes);
    let start = fresh(ProxyMode::Replay { source }, es);
    let r = run(start, requests.take(m), ignored.take(m));
    if m == 0 {
        assert(es.skip(0) =~= es);
        assert(delivered(outcomes.take(0)) =~= Seq::empty());
    } else {
        lemma_replay_prefix(source, requests, outcomes, ignored, m - 1);
        assert(requests.take(m).drop_last() =~= requests.take(m - 1));
        assert(ignored.take(m).drop_last() =~= ignored.take(m - 1));
        let before = run(start, requests.take(m - 1), ignored.take(m - 1));
        let request = requests[m - 1];
        assert(requests.take(m).last() == request);
        let key = canonical_key(request);
        let last = serve(before.proxy, request, ignored.take(m).last());
        let here = es.skip(m - 1);
        assert(here[0] == es[m - 1]);
        assert(here.drop_first() =~= es.skip(m));
        assert(before.proxy.pending[key] == recorded_for(here, key));
        assert(recorded_for(here, key) == seq![outcomes[m - 1]] + recorded_for(es.skip(m), key));
        assert(recorded_for(here, key).drop_first() =~= recorded_for(es.skip(m), key));
        assert(last.answer == (ActionView::Deliver { outcome: outcomes[m - 1] }));
        assert(last.proxy.pending =~= pending_of(es.skip(m))) by {
            assert forall|k: Seq<u8>| #[trigger]
                last.proxy.pending[k] == recorded_for(es.skip(m), k) by {
                if k != key {
                    assert(before.proxy.pending[k] == recorded_for(here, k));
                }
            }
        }
        assert(last.proxy =~= fresh(ProxyMode::Replay { source }, es.skip(m)));
        assert(r.answers =~= delivered(outcomes.take(m)));
        assert(r.written =~= Seq::<u8>::empty());
    }
}

/// Record, then replay: a run in record mode leaves a session file from
/// which a run in replay mode answers the same calls with the same
/// outcomes, in the same order, without asking the backend and without
/// writing anything.
pub proof fn lemma_replay_repeats_recording(
    destination: String,
    source: String,
    requests: Seq<RequestView>,
    outcomes: Seq<OutcomeView>,
    ignored: Seq<OutcomeView>,
)
    requires
        recordable(requests, outcomes),
        ignored.len() == requests.len(),
    ensures
        ({
            let recording = run(
                fresh(ProxyMode::Record { destination }, Seq::empty()),
                requests,
                outcomes,
            );
            &&& recording.answers == delivered(outcomes)
            &&& session_entries(recording.written) matches Some(es)
            &&& es == exchanges(requests, outcomes)
            &&& run(fresh(ProxyMode::Replay { source }, es), requests, ignored).answers
                == delivered(outcomes)
            &&& run(fresh(ProxyMode::Replay { source }, es), requests, ignored).written.len() == 0
        }),
{
    lemma_record_run(destination, requests, outcomes);
    lemma_session_round_trip(exchanges(requests, outcomes));
    lemma_replay_prefix(source, requests, outcomes, ignored, requests.len() as int);
    assert(requests.take(requests.len() as int) =~= requests);
    assert(ignored.take(requests.len() as int) =~= ignored);
    assert(outcomes.take(requests.len() as int) =~= outcomes);
}

/// A request that was recorded twice, first with `first` and then with
/// `second`, is replayed with `first` and then with `second`: the two are
/// neither swapped nor folded into one.
pub proof fn lemma_repetition_is_kept(
    destination: String,
    source: String,
    request: RequestView,
    first: OutcomeView,
    second: OutcomeView,
    ignored: Seq<OutcomeView>,
)
    requires
        recordable(seq![request, request], seq![first, second]),
        ignored.len() == 2,
    ensures
        ({
            let recording = run(
                fresh(ProxyMode::Record { destination }, Seq::empty()),
                seq![request, request],
                seq![first, second],
            );
            &&& session_entries(recording.written) matches Some(es)
            &&& es.len() == 2
            &&& run(fresh(ProxyMode::Replay { source }, es), seq![request, request], ignored).answers
                == seq![
                ActionView::Deliver { outcome: first },
                ActionView::Deliver { outcome: second },
            ]
        }),
{
    lemma_replay_repeats_recording(
        destination,
        source,
        seq![request, request],
        seq![first, second],
        ignored,
    );
    assert(delivered(seq![first, second]) =~= seq![
        ActionView::Deliver { outcome: first },
        ActionView::Deliver { outcome: second },
    ]);
}

} // verus!
