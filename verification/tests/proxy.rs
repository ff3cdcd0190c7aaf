use kwctl::error::ProxyError;
use kwctl::outcome::{CapabilityOutcome, SessionEntry};
use kwctl::proxy::{Action, Event, Proxy, ProxyMode, ProxyState};
use kwctl::request::CapabilityRequest;
use kwctl::session::parse_session;

struct Served {
    result: Result<CapabilityOutcome, ProxyError>,
    written: Vec<u8>,
    backend_calls: usize,
}

/// Drives the proxy through one call, as an embedding program does.
fn serve(
    proxy: &mut Proxy,
    request: &CapabilityRequest,
    backend: &CapabilityOutcome,
    store_works: bool,
) -> Served {
    let mut written = Vec::new();
    let mut backend_calls = 0;
    let mut action = proxy.step(Event::Call { request: request.clone() });
    loop {
        action = match action {
            Action::Continue => proxy.step(Event::Proceed),
            Action::InvokeBackend => {
                backend_calls += 1;
                proxy.step(Event::BackendReturned { outcome: backend.clone() })
            }
            Action::Append { record } => {
                if store_works {
                    written.extend_from_slice(&record);
                }
                proxy.step(Event::Appended { ok: store_works })
            }
            Action::Deliver { outcome } => {
                assert_eq!(proxy.state(), &ProxyState::Completed { outcome: outcome.clone() });
                assert_eq!(proxy.step(Event::Reported), Action::Ready);
                return Served { result: Ok(outcome), written, backend_calls };
            }
            Action::Abort { error } => {
                assert_eq!(proxy.state(), &ProxyState::Failed { error: error.clone() });
                assert_eq!(proxy.step(Event::Reported), Action::Ready);
                return Served { result: Err(error), written, backend_calls };
            }
            Action::Ready | Action::Rejected => panic!("unexpected action"),
        };
    }
}

fn make(mode: ProxyMode, recorded: &[u8]) -> Proxy {
    match Proxy::new(mode, recorded) {
        Ok(p) => p,
        Err(e) => panic!("{:?}", e),
    }
}

fn record_mode() -> ProxyMode {
    ProxyMode::Record { destination: String::from("session.log") }
}

fn replay_mode() -> ProxyMode {
    ProxyMode::Replay { source: String::from("session.log") }
}

fn pods_request() -> CapabilityRequest {
    CapabilityRequest::new(b"cluster.pods", b"list").with_argument(b"namespace", b"default")
}

#[test]
fn recorded_pod_list_is_replayed_without_the_backend() {
    let request = pods_request();
    let pods = CapabilityOutcome::success(b"[\"pod-a\",\"pod-b\"]");

    let mut recorder = make(record_mode(), b"");
    let recorded = serve(&mut recorder, &request, &pods, true);
    assert_eq!(recorded.result, Ok(pods.clone()));
    assert_eq!(recorded.backend_calls, 1);
    assert_eq!(
        recorded.written,
        b"S0 45:12:cluster.pods,4:list,9:namespace,7:default,,17:[\"pod-a\",\"pod-b\"],\n".to_vec()
    );
    assert_eq!(
        parse_session(&recorded.written),
        Ok(vec![SessionEntry { key: request.canonicalize(), sequence: 0, outcome: pods.clone() }])
    );

    let mut replayer = make(replay_mode(), &recorded.written);
    let never = CapabilityOutcome::failure(b"unreachable", b"the backend must not be asked");
    let replayed = serve(&mut replayer, &request, &never, true);
    assert_eq!(replayed.result, Ok(pods));
    assert_eq!(replayed.backend_calls, 0);
    assert!(replayed.written.is_empty());
}

#[test]
fn direct_mode_passes_through_and_writes_nothing() {
    let mut proxy = make(ProxyMode::Direct, b"");
    let request = pods_request();
    let ok = CapabilityOutcome::success(b"[]");
    let failed = CapabilityOutcome::failure(b"timeout", b"no answer from the cluster");
    for backend in [&ok, &failed, &ok] {
        let served = serve(&mut proxy, &request, backend, false);
        assert_eq!(served.result, Ok(backend.clone()));
        assert_eq!(served.backend_calls, 1);
        assert!(served.written.is_empty());
    }
    assert_eq!(proxy.sequence(), 0);
    assert_eq!(proxy.mode(), &ProxyMode::Direct);
}

#[test]
fn record_then_replay_gives_the_same_outcomes_in_the_same_order() {
    let requests = vec![
        CapabilityRequest::new(b"dns", b"lookup").with_argument(b"host", b"example.org"),
        pods_request(),
        CapabilityRequest::new(b"dns", b"lookup").with_argument(b"host", b"example.org"),
        CapabilityRequest::new(b"oci", b"digest").with_argument(b"image", b"ghcr.io/x:v1"),
        pods_request(),
    ];
    let outcomes = vec![
        CapabilityOutcome::success(b"10.0.0.1"),
        CapabilityOutcome::success(b"[\"a\"]"),
        CapabilityOutcome::failure(b"nxdomain", b"gone"),
        CapabilityOutcome::success(b"sha256:abc"),
        CapabilityOutcome::success(b"[\"a\",\"b\"]"),
    ];
    let mut recorder = make(record_mode(), b"");
    let mut file = Vec::new();
    for (request, outcome) in requests.iter().zip(outcomes.iter()) {
        let served = serve(&mut recorder, request, outcome, true);
        assert_eq!(served.result, Ok(outcome.clone()));
        file.extend_from_slice(&served.written);
    }
    assert_eq!(recorder.sequence(), 5);

    let mut replayer = make(replay_mode(), &file);
    let never = CapabilityOutcome::success(b"made up");
    for (request, outcome) in requests.iter().zip(outcomes.iter()) {
        let served = serve(&mut replayer, request, &never, true);
        assert_eq!(served.result, Ok(outcome.clone()));
        assert_eq!(served.backend_calls, 0);
    }
}

#[test]
fn repeated_request_is_replayed_in_the_recorded_order() {
    let request = CapabilityRequest::new(b"counter", b"next");
    let one = CapabilityOutcome::success(b"1");
    let two = CapabilityOutcome::success(b"2");
    let mut recorder = make(record_mode(), b"");
    let mut file = serve(&mut recorder, &request, &one, true).written;
    file.extend_from_slice(&serve(&mut recorder, &request, &two, true).written);
    assert_eq!(file, b"S0 17:7:counter,4:next,,1:1,\nS1 17:7:counter,4:next,,1:2,\n".to_vec());

    let mut replayer = make(replay_mode(), &file);
    assert_eq!(serve(&mut replayer, &request, &two, true).result, Ok(one));
    assert_eq!(serve(&mut replayer, &request, &two, true).result, Ok(two.clone()));
    assert_eq!(
        serve(&mut replayer, &request, &two, true).result,
        Err(ProxyError::CapabilityNotRecorded { key: request.canonicalize() })
    );
}

#[test]
fn identical_outcomes_are_recorded_each_time() {
    let request = CapabilityRequest::new(b"counter", b"peek");
    let same = CapabilityOutcome::success(b"7");
    let mut recorder = make(record_mode(), b"");
    let mut file = Vec::new();
    for _ in 0..3 {
        file.extend_from_slice(&serve(&mut recorder, &request, &same, true).written);
    }
    let entries = match parse_session(&file) {
        Ok(entries) => entries,
        Err(e) => panic!("{:?}", e),
    };
    assert_eq!(entries.len(), 3);
    assert_eq!(entries[2].sequence, 2);
}

#[test]
fn replay_of_a_request_that_was_not_recorded_fails() {
    let recorded = CapabilityRequest::new(b"dns", b"lookup").with_argument(b"host", b"a");
    let other = CapabilityRequest::new(b"dns", b"lookup").with_argument(b"host", b"b");
    let answer = CapabilityOutcome::success(b"10.0.0.1");
    let mut recorder = make(record_mode(), b"");
    let file = serve(&mut recorder, &recorded, &answer, true).written;

    let mut replayer = make(replay_mode(), &file);
    let served = serve(&mut replayer, &other, &answer, true);
    assert_eq!(served.result, Err(ProxyError::CapabilityNotRecorded { key: other.canonicalize() }));
    assert_eq!(served.backend_calls, 0);
    // the miss took nothing away from the key that was recorded
    assert_eq!(serve(&mut replayer, &recorded, &answer, true).result, Ok(answer));
}

#[test]
fn backend_failure_is_recorded_and_replayed() {
    let request = pods_request();
    let failure = CapabilityOutcome::failure(b"forbidden", b"pods is forbidden");
    let mut recorder = make(record_mode(), b"");
    let recorded = serve(&mut recorder, &request, &failure, true);
    assert_eq!(recorded.result, Ok(failure.clone()));
    let mut replayer = make(replay_mode(), &recorded.written);
    let ok = CapabilityOutcome::success(b"[]");
    assert_eq!(serve(&mut replayer, &request, &ok, true).result, Ok(failure));
}

#[test]
fn failed_append_fails_the_call() {
    let request = pods_request();
    let pods = CapabilityOutcome::success(b"[]");
    let mut recorder = make(record_mode(), b"");
    let served = serve(&mut recorder, &request, &pods, false);
    assert_eq!(served.result, Err(ProxyError::StoreUnavailable));
    assert_eq!(served.backend_calls, 1);
    assert_eq!(recorder.state(), &ProxyState::Idle);
}

#[test]
fn replay_refuses_a_corrupt_session() {
    assert!(matches!(Proxy::new(replay_mode(), b"S0 1:k,1:v,\nnot a record\n"), Err(ProxyError::CorruptSession)));
}

#[test]
fn replay_refuses_an_empty_session() {
    assert!(matches!(Proxy::new(replay_mode(), b""), Err(ProxyError::StoreUnavailable)));
    assert!(matches!(Proxy::new(replay_mode(), b"S0 1:k,1:"), Err(ProxyError::StoreUnavailable)));
}

#[test]
fn other_modes_do_not_look_at_recorded_bytes() {
    let p = make(ProxyMode::Direct, b"not a session");
    assert_eq!(p.state(), &ProxyState::Idle);
    let q = make(record_mode(), b"not a session");
    assert_eq!(q.mode(), &record_mode());
    assert_eq!(q.sequence(), 0);
}

#[test]
fn replay_of_a_session_that_was_cut_short() {
    let request = CapabilityRequest::new(b"counter", b"next");
    let mut recorder = make(record_mode(), b"");
    let mut file = Vec::new();
    for n in [&b"1"[..], b"2", b"3"] {
        file.extend_from_slice(&serve(&mut recorder, &request, &CapabilityOutcome::success(n), true).written);
    }
    let cut = &file[..file.len() - 4];
    let mut replayer = make(replay_mode(), cut);
    let never = CapabilityOutcome::success(b"x");
    assert_eq!(serve(&mut replayer, &request, &never, true).result, Ok(CapabilityOutcome::success(b"1")));
    assert_eq!(serve(&mut replayer, &request, &never, true).result, Ok(CapabilityOutcome::success(b"2")));
    assert!(serve(&mut replayer, &request, &never, true).result.is_err());
}

#[test]
fn states_follow_one_another() {
    let request = pods_request();
    let mut proxy = make(record_mode(), b"");
    assert_eq!(proxy.state(), &ProxyState::Idle);
    assert_eq!(proxy.step(Event::Call { request: request.clone() }), Action::Continue);
    assert_eq!(proxy.state(), &ProxyState::Dispatching { key: request.canonicalize() });
    assert_eq!(proxy.step(Event::Proceed), Action::InvokeBackend);
    assert_eq!(
        proxy.state(),
        &ProxyState::AwaitingBackend { key: request.canonicalize(), unsaved: None }
    );
    let outcome = CapabilityOutcome::success(b"[]");
    let action = proxy.step(Event::BackendReturned { outcome: outcome.clone() });
    assert_eq!(
        action,
        Action::Append { record: b"S0 45:12:cluster.pods,4:list,9:namespace,7:default,,2:[],\n".to_vec() }
    );
    assert_eq!(
        proxy.state(),
        &ProxyState::AwaitingBackend { key: request.canonicalize(), unsaved: Some(outcome.clone()) }
    );
    assert_eq!(proxy.sequence(), 1);
    assert_eq!(proxy.step(Event::Appended { ok: true }), Action::Deliver { outcome: outcome.clone() });
    assert_eq!(proxy.state(), &ProxyState::Completed { outcome });
    assert_eq!(proxy.step(Event::Reported), Action::Ready);
    assert_eq!(proxy.state(), &ProxyState::Idle);
}

#[test]
fn event_that_does_not_fit_is_rejected() {
    let request = pods_request();
    let outcome = CapabilityOutcome::success(b"[]");
    let mut proxy = make(ProxyMode::Direct, b"");
    assert_eq!(proxy.step(Event::Proceed), Action::Rejected);
    assert_eq!(proxy.step(Event::Reported), Action::Rejected);
    assert_eq!(proxy.step(Event::BackendReturned { outcome: outcome.clone() }), Action::Rejected);
    assert_eq!(proxy.state(), &ProxyState::Idle);
    assert_eq!(proxy.step(Event::Call { request: request.clone() }), Action::Continue);
    assert_eq!(proxy.step(Event::Call { request: request.clone() }), Action::Rejected);
    assert_eq!(proxy.state(), &ProxyState::Dispatching { key: request.canonicalize() });
    assert_eq!(proxy.step(Event::Proceed), Action::InvokeBackend);
    assert_eq!(proxy.step(Event::Appended { ok: true }), Action::Rejected);
    assert_eq!(proxy.step(Event::BackendReturned { outcome: outcome.clone() }), Action::Deliver { outcome });
    assert_eq!(proxy.step(Event::Proceed), Action::Rejected);
    assert_eq!(proxy.step(Event::Reported), Action::Ready);
}

#[test]
fn replay_miss_is_a_failure_for_the_guest() {
    let miss = ProxyError::CapabilityNotRecorded { key: b"3:dns,6:lookup,".to_vec() };
    assert_eq!(
        miss.for_guest(),
        Some(CapabilityOutcome::failure(b"not_recorded", b"3:dns,6:lookup,"))
    );
    assert_eq!(ProxyError::StoreUnavailable.for_guest(), None);
    assert_eq!(ProxyError::CorruptSession.for_guest(), None);
}

#[test]
fn numbering_starts_again_with_a_new_evaluation() {
    let request = pods_request();
    let pods = CapabilityOutcome::success(b"[]");
    let mut recorder = make(record_mode(), b"");
    serve(&mut recorder, &request, &pods, true);
    serve(&mut recorder, &request, &pods, true);
    assert_eq!(recorder.sequence(), 2);
    recorder.begin_evaluation();
    assert_eq!(recorder.sequence(), 0);
    let served = serve(&mut recorder, &request, &pods, true);
    assert_eq!(parse_session(&served.written).map(|es| es[0].sequence), Ok(0));
    assert_eq!(recorder.step(Event::Call { request }), Action::Continue);
    recorder.begin_evaluation();
    assert_eq!(recorder.sequence(), 1);
}

#[test]
fn cancelled_call_leaves_no_trace() {
    let request = pods_request();
    let pods = CapabilityOutcome::success(b"[]");
    let mut recorder = make(record_mode(), b"");
    assert_eq!(recorder.step(Event::Cancelled), Action::Rejected);
    assert_eq!(recorder.step(Event::Call { request: request.clone() }), Action::Continue);
    assert_eq!(recorder.step(Event::Cancelled), Action::Rejected);
    assert_eq!(recorder.step(Event::Proceed), Action::InvokeBackend);
    assert_eq!(recorder.step(Event::Cancelled), Action::Ready);
    assert_eq!(recorder.state(), &ProxyState::Idle);
    assert_eq!(recorder.sequence(), 0);
    // the next call is recorded as the first one
    let served = serve(&mut recorder, &request, &pods, true);
    assert_eq!(parse_session(&served.written).map(|es| es[0].sequence), Ok(0));
}

#[test]
fn append_cannot_be_cancelled() {
    let request = pods_request();
    let pods = CapabilityOutcome::success(b"[]");
    let mut recorder = make(record_mode(), b"");
    recorder.step(Event::Call { request });
    recorder.step(Event::Proceed);
    assert!(matches!(
        recorder.step(Event::BackendReturned { outcome: pods.clone() }),
        Action::Append { .. }
    ));
    assert_eq!(recorder.step(Event::Cancelled), Action::Rejected);
    assert_eq!(recorder.step(Event::Appended { ok: true }), Action::Deliver { outcome: pods });
}
