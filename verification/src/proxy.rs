//! The callback proxy: the state machine that stands between a guest's
//! capability call and the backend that serves it.
//!
//! The proxy does no outside work itself. Each step takes an event, moves
//! to the next state and names the action that is to be performed outside:
//! calling the backend, appending a record to the session file, or handing
//! the result to the guest. The caller performs the action and comes back
//! with the event that tells how it went.

use crate::error::{ErrorView, ProxyError};
use crate::index::{recorded_for, Index};
use crate::outcome::{encode_entry, encode_record, CapabilityOutcome, EntryView, OutcomeView};
use crate::request::{canonical_key, CapabilityRequest, RequestView};
use crate::session::{entries_view, parse_session, session_entries};
use vstd::prelude::*;
use vstd::slice::*;

verus! {

/// How the proxy serves capability calls. The mode is chosen when the proxy
/// is made and never changes.
#[derive(Debug, Clone, PartialEq, Eq)]
pub enum ProxyMode {
    /// Every call goes to the backend; nothing is kept.
    Direct,
    /// Every call goes to the backend, and the exchange is appended to the
    /// session file at `destination`.
    Record { destination: String },
    /// Every call is answered from the session file at `source`; the
    /// backend is never contacted.
    Replay { source: String },
}

impl ProxyMode {
    /// The mode that the two session options of the command line ask for:
    /// replay from `replay` if it is given, else record to `record` if that
    /// is given, else direct.
    pub open spec fn selected(record: Option<String>, replay: Option<String>) -> ProxyMode {
        match replay {
            Some(source) => ProxyMode::Replay { source },
            None => match record {
                Some(destination) => ProxyMode::Record { destination },
                None => ProxyMode::Direct,
            },
        }
    }

    /// Picks the mode for a run from the session file to record to and the
    /// session file to replay from, as far as they were given.
    pub fn select(record: Option<String>, replay: Option<String>) -> (res: ProxyMode)
        ensures
            res == ProxyMode::selected(record, replay),
    {
        match replay {
            Some(source) => ProxyMode::Replay { source },
            None => match record {
                Some(destination) => ProxyMode::Record { destination },
                None => ProxyMode::Direct,
            },
        }
    }
}

/// Where the proxy stands in serving a call.
#[derive(Debug, PartialEq, Eq)]
pub enum ProxyState {
    /// No call is being served.
    Idle,
    /// A call came in and has its key.
    Dispatching { key: Vec<u8> },
    /// The backend was asked. `unsaved` is the backend's outcome while its
    /// record is being appended to the session file.
    AwaitingBackend { key: Vec<u8>, unsaved: Option<CapabilityOutcome> },
    /// The call has an outcome for the guest.
    Completed { outcome: CapabilityOutcome },
    /// The proxy could not serve the call.
    Failed { error: ProxyError },
}

/// A `ProxyState` in specifications.
pub enum StateView {
    Idle,
    Dispatching { key: Seq<u8> },
    AwaitingBackend { key: Seq<u8>, unsaved: Option<OutcomeView> },
    Completed { outcome: OutcomeView },
    Failed { error: ErrorView },
}

impl View for ProxyState {
    type V = StateView;

    open spec fn view(&self) -> StateView {
        match *self {
            ProxyState::Idle => StateView::Idle,
            ProxyState::Dispatching { key } => StateView::Dispatching { key: key@ },
            ProxyState::AwaitingBackend { key, unsaved } => StateView::AwaitingBackend {
                key: key@,
                unsaved: match unsaved {
                    Some(o) => Some(o@),
                    None => None,
                },
            },
            ProxyState::Completed { outcome } => StateView::Completed { outcome: outcome@ },
            ProxyState::Failed { error } => StateView::Failed { error: error@ },
        }
    }
}

/// What happened outside since the last step.
#[derive(Debug, PartialEq, Eq)]
pub enum Event {
    /// The guest made a capability call.
    Call { request: CapabilityRequest },
    /// Nothing: the proxy asked to be stepped again.
    Proceed,
    /// The backend returned; a failure of the backend is an outcome too.
    BackendReturned { outcome: CapabilityOutcome },
    /// The evaluation was cancelled while the backend was being asked; the
    /// call to the backend was given up.
    Cancelled,
    /// The record was appended to the session file and flushed (`ok`), or
    /// the file could not be written.
    Appended { ok: bool },
    /// The result was handed to the guest.
    Reported,
}

/// An `Event` in specifications.
pub enum EventView {
    Call { request: RequestView },
    Proceed,
    BackendReturned { outcome: OutcomeView },
    Cancelled,
    Appended { ok: bool },
    Reported,
}

impl View for Event {
    type V = EventView;

    open spec fn view(&self) -> EventView {
        match *self {
            Event::Call { request } => EventView::Call { request: request@ },
            Event::Proceed => EventView::Proceed,
            Event::BackendReturned { outcome } => EventView::BackendReturned { outcome: outcome@ },
            Event::Cancelled => EventView::Cancelled,
            Event::Appended { ok } => EventView::Appended { ok },
            Event::Reported => EventView::Reported,
        }
    }
}

/// What is to be done outside before the next step.
#[derive(Debug, PartialEq, Eq)]
pub enum Action {
    /// Nothing; step again with `Proceed`.
    Continue,
    /// Call the backend with the request, then step with `BackendReturned`.
    InvokeBackend,
    /// Append `record` to the session file and flush it, then step with
    /// `Appended`.
    Append { record: Vec<u8> },
    /// Hand `outcome` to the guest, then step with `Reported`.
    Deliver { outcome: CapabilityOutcome },
    /// Tell the guest that the call failed with `error`, then step with
    /// `Reported`.
    Abort { error: ProxyError },
    /// Nothing; the proxy is idle and takes the next call.
    Ready,
    /// The event does not fit the state; the proxy did not move.
    Rejected,
}

/// An `Action` in specifications.
pub enum ActionView {
    Continue,
    InvokeBackend,
    Append { record: Seq<u8> },
    Deliver { outcome: OutcomeView },
    Abort { error: ErrorView },
    Ready,
    Rejected,
}

impl View for Action {
    type V = ActionView;

    open spec fn view(&self) -> ActionView {
        match *self {
            Action::Continue => ActionView::Continue,
            Action::InvokeBackend => ActionView::InvokeBackend,
            Action::Append { record } => ActionView::Append { record: record@ },
            Action::Deliver { outcome } => ActionView::Deliver { outcome: outcome@ },
            Action::Abort { error } => ActionView::Abort { error: error@ },
            Action::Ready => ActionView::Ready,
            Action::Rejected => ActionView::Rejected,
        }
    }
}

/// All that the proxy carries from one step to the next.
#[verifier::ext_equal]
pub struct ProxyView {
    pub mode: ProxyMode,
    pub state: StateView,
    /// The number that the next record gets.
    pub sequence: u64,
    /// For every key the outcomes that replay has still to hand out, next
    /// one first.
    pub pending: Map<Seq<u8>, Seq<OutcomeView>>,
}

/// The outcomes that a session holds, by key.
pub open spec fn pending_of(es: Seq<EntryView>) -> Map<Seq<u8>, Seq<OutcomeView>> {
    Map::total(|key: Seq<u8>| recorded_for(es, key))
}

/// A proxy that has served nothing yet.
pub open spec fn fresh(mode: ProxyMode, es: Seq<EntryView>) -> ProxyView {
    ProxyView { mode, state: StateView::Idle, sequence: 0, pending: pending_of(es) }
}

/// The step out of `Dispatching`: replay answers from the session, the
/// other modes turn to the backend.
pub open spec fn dispatch(v: ProxyView, key: Seq<u8>) -> (ProxyView, ActionView) {
    if v.mode is Replay {
        if v.pending[key].len() > 0 {
            let outcome = v.pending[key][0];
            (
                ProxyView {
                    state: StateView::Completed { outcome },
                    pending: v.pending.insert(key, v.pending[key].drop_first()),
                    ..v
                },
                ActionView::Deliver { outcome },
            )
        } else {
            let error = ErrorView::CapabilityNotRecorded { key };
            (ProxyView { state: StateView::Failed { error }, ..v }, ActionView::Abort { error })
        }
    } else {
        (
            ProxyView { state: StateView::AwaitingBackend { key, unsaved: None }, ..v },
            ActionView::InvokeBackend,
        )
    }
}

/// The step on the backend's return: direct mode is done, record mode has
/// the exchange appended first. A session that has run out of sequence
/// numbers can take no record.
pub open spec fn backend_returned(v: ProxyView, key: Seq<u8>, outcome: OutcomeView) -> (
    ProxyView,
    ActionView,
) {
    if v.mode is Direct {
        (ProxyView { state: StateView::Completed { outcome }, ..v }, ActionView::Deliver { outcome })
    } else if v.mode is Record {
        if v.sequence < u64::MAX {
            (
                ProxyView {
                    state: StateView::AwaitingBackend { key, unsaved: Some(outcome) },
                    sequence: (v.sequence + 1) as u64,
                    ..v
                },
                ActionView::Append {
                    record: encode_entry(EntryView { key, sequence: v.sequence, outcome }),
                },
            )
        } else {
            let error = ErrorView::StoreUnavailable;
            (ProxyView { state: StateView::Failed { error }, ..v }, ActionView::Abort { error })
        }
    } else {
        (v, ActionView::Rejected)
    }
}

/// The step on the end of an append: the outcome goes to the guest only if
/// its record is safely in the file.
pub open spec fn appended(v: ProxyView, outcome: OutcomeView, ok: bool) -> (ProxyView, ActionView) {
    if ok {
        (ProxyView { state: StateView::Completed { outcome }, ..v }, ActionView::Deliver { outcome })
    } else {
        let error = ErrorView::StoreUnavailable;
        (ProxyView { state: StateView::Failed { error }, ..v }, ActionView::Abort { error })
    }
}

/// The transition function of the proxy: the state after `e`, and the
/// action to perform. A call can be cancelled only while the backend is
/// being asked: then nothing was written yet, and nothing will be. Once a
/// record is being appended, the append is seen through.
pub open spec fn next(v: ProxyView, e: EventView) -> (ProxyView, ActionView) {
    match v.state {
        StateView::Idle => match e {
            EventView::Call { request } => (
                ProxyView { state: StateView::Dispatching { key: canonical_key(request) }, ..v },
                ActionView::Continue,
            ),
            _ => (v, ActionView::Rejected),
        },
        StateView::Dispatching { key } => match e {
            EventView::Proceed => dispatch(v, key),
            _ => (v, ActionView::Rejected),
        },
        StateView::AwaitingBackend { key, unsaved: None } => match e {
            EventView::BackendReturned { outcome } => backend_returned(v, key, outcome),
            EventView::Cancelled => (ProxyView { state: StateView::Idle, ..v }, ActionView::Ready),
            _ => (v, ActionView::Rejected),
        },
        StateView::AwaitingBackend { key, unsaved: Some(outcome) } => match e {
            EventView::Appended { ok } => appended(v, outcome, ok),
            _ => (v, ActionView::Rejected),
        },
        StateView::Completed { .. } => match e {
            EventView::Reported => (ProxyView { state: StateView::Idle, ..v }, ActionView::Ready),
            _ => (v, ActionView::Rejected),
        },
        StateView::Failed { .. } => match e {
            EventView::Reported => (ProxyView { state: StateView::Idle, ..v }, ActionView::Ready),
            _ => (v, ActionView::Rejected),
        },
    }
}

/// The callback proxy.
pub struct Proxy {
    mode: ProxyMode,
    state: ProxyState,
    sequence: u64,
    index: Index,
}

impl View for Proxy {
    type V = ProxyView;

    closed spec fn view(&self) -> ProxyView {
        ProxyView {
            mode: self.mode,
            state: self.state@,
            sequence: self.sequence,
            pending: Map::total(|key: Seq<u8>| self.index.pending(key)),
        }
    }
}

impl Proxy {
    /// Makes the proxy for one run. In replay mode `recorded` is the content
    /// of the session file; in the other modes it is not looked at.
    ///
    /// Replay refuses to start on a session with a corrupt record
    /// (`CorruptSession`) and on one without any whole record
    /// (`StoreUnavailable`).
    pub fn new(mode: ProxyMode, recorded: &[u8]) -> (res: Result<Proxy, ProxyError>)
        ensures
            !(mode is Replay) ==> (res matches Ok(p) && p@ == fresh(mode, Seq::empty())),
            mode is Replay ==> (match session_entries(recorded@) {
                Some(es) => if es.len() > 0 {
                    res matches Ok(p) && p@ == fresh(mode, es)
                } else {
                    res matches Err(e) && e is StoreUnavailable
                },
                None => res matches Err(e) && e is CorruptSession,
            }),
    {
        let replaying = match &mode {
            ProxyMode::Replay { .. } => true,
            _ => false,
        };
        if replaying {
            match parse_session(recorded) {
                Ok(entries) => {
                    if entries.len() == 0 {
                        return Err(ProxyError::StoreUnavailable);
                    }
                    let ghost es = entries_view(entries@);
                    let index = Index::from_entries(entries);
                    let p = Proxy { mode, state: ProxyState::Idle, sequence: 0, index };
                    assert(p@ =~= fresh(mode, es));
                    Ok(p)
                },
                Err(_) => Err(ProxyError::CorruptSession),
            }
        } else {
            let index = Index::new();
            let p = Proxy { mode, state: ProxyState::Idle, sequence: 0, index };
            assert(p@ =~= fresh(mode, Seq::empty())) by {
                assert forall|key: Seq<u8>| recorded_for(Seq::<EntryView>::empty(), key)
                    == p.index.pending(key) by {}
            }
            Ok(p)
        }
    }

    /// The mode that the proxy was made with.
    pub fn mode(&self) -> (res: &ProxyMode)
        ensures
            *res == self@.mode,
    {
        &self.mode
    }

    /// Where the proxy stands.
    pub fn state(&self) -> (res: &ProxyState)
        ensures
            res@ == self@.state,
    {
        &self.state
    }

    /// The number that the next record gets: the count of records that
    /// this proxy has asked to be appended.
    pub fn sequence(&self) -> (res: u64)
        ensures
            res == self@.sequence,
    {
        self.sequence
    }

    /// Starts the numbering of records again at zero, for a new evaluation.
    /// Between two calls only: while a call is being served nothing changes.
    pub fn begin_evaluation(&mut self)
        ensures
            final(self)@ == if old(self)@.state is Idle {
                ProxyView { sequence: 0, ..old(self)@ }
            } else {
                old(self)@
            },
    {
        let idle = match &self.state {
            ProxyState::Idle => true,
            _ => false,
        };
        if idle {
            self.sequence = 0;
        }
        assert(self@ =~= if old(self)@.state is Idle {
            ProxyView { sequence: 0, ..old(self)@ }
        } else {
            old(self)@
        });
    }

    /// Takes one event, moves to the next state and names the action to
    /// perform, as `next` says. An event that does not fit the state is
    /// rejected and changes nothing.
    pub fn step(&mut self, event: Event) -> (action: Action)
        ensures
            final(self)@ == next(old(self)@, event@).0,
            action@ == next(old(self)@, event@).1,
    {
        let ghost before = self@;
        let mut state = ProxyState::Idle;
        core::mem::swap(&mut state, &mut self.state);
        let action = match state {
            ProxyState::Idle => match event {
                Event::Call { request } => {
                    let key = request.canonicalize();
                    self.state = ProxyState::Dispatching { key };
                    Action::Continue
                },
                _ => {
                    self.state = ProxyState::Idle;
                    Action::Rejected
                },
            },
            ProxyState::Dispatching { key } => match event {
                Event::Proceed => {
                    let replaying = match &self.mode {
                        ProxyMode::Replay { .. } => true,
                        _ => false,
                    };
                    if replaying {
                        match self.index.take(key.as_slice()) {
                            Some(outcome) => {
                                let copy = outcome.duplicate();
                                self.state = ProxyState::Completed { outcome };
                                Action::Deliver { outcome: copy }
                            },
                            None => {
                                let copy = slice_to_vec(key.as_slice());
                                self.state = ProxyState::Failed {
                                    error: ProxyError::CapabilityNotRecorded { key },
                                };
                                Action::Abort {
                                    error: ProxyError::CapabilityNotRecorded { key: copy },
                                }
                            },
                        }
                    } else {
                        self.state = ProxyState::AwaitingBackend { key, unsaved: None };
                        Action::InvokeBackend
                    }
                },
                _ => {
                    self.state = ProxyState::Dispatching { key };
                    Action::Rejected
                },
            },
            ProxyState::AwaitingBackend { key, unsaved: None } => match event {
                Event::BackendReturned { outcome } => {
                    match &self.mode {
                        ProxyMode::Direct => {
                            let copy = outcome.duplicate();
                            self.state = ProxyState::Completed { outcome };
                            Action::Deliver { outcome: copy }
                        },
                        ProxyMode::Record { .. } => {
                            if self.sequence < u64::MAX {
                                let record = encode_record(key.as_slice(), self.sequence, &outcome);
                                self.sequence = self.sequence + 1;
                                self.state = ProxyState::AwaitingBackend {
                                    key,
                                    unsaved: Some(outcome),
                                };
                                Action::Append { record }
                            } else {
                                self.state = ProxyState::Failed {
                                    error: ProxyError::StoreUnavailable,
                                };
                                Action::Abort { error: ProxyError::StoreUnavailable }
                            }
                        },
                        ProxyMode::Replay { .. } => {
                            self.state = ProxyState::AwaitingBackend { key, unsaved: None };
                            Action::Rejected
                        },
                    }
                },
                Event::Cancelled => {
                    self.state = ProxyState::Idle;
                    Action::Ready
                },
                _ => {
                    self.state = ProxyState::AwaitingBackend { key, unsaved: None };
                    Action::Rejected
                },
            },
            ProxyState::AwaitingBackend { key, unsaved: Some(outcome) } => match event {
                Event::Appended { ok } => {
                    if ok {
                        let copy = outcome.duplicate();
                        self.state = ProxyState::Completed { outcome };
                        Action::Deliver { outcome: copy }
                    } else {
                        self.state = ProxyState::Failed { error: ProxyError::StoreUnavailable };
                        Action::Abort { error: ProxyError::StoreUnavailable }
                    }
                },
                _ => {
                    self.state = ProxyState::AwaitingBackend { key, unsaved: Some(outcome) };
                    Action::Rejected
                },
            },
            ProxyState::Completed { outcome } => match event {
                Event::Reported => {
                    self.state = ProxyState::Idle;
                    Action::Ready
                },
                _ => {
                    self.state = ProxyState::Completed { outcome };
                    Action::Rejected
                },
            },
            ProxyState::Failed { error } => match event {
                Event::Reported => {
                    self.state = ProxyState::Idle;
                    Action::Ready
                },
                _ => {
                    self.state = ProxyState::Failed { error };
                    Action::Rejected
                },
            },
        };
        assert(self@ =~= next(before, event@).0);
        action
    }
}

} // verus!
