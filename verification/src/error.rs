//! The ways in which the proxy itself can fail.

use crate::outcome::{CapabilityOutcome, OutcomeView};
use vstd::prelude::*;
use vstd::slice::*;
use vstd::string::*;

verus! {

/// A failure of the proxy, as opposed to a failure that a capability
/// reports as its outcome.
#[derive(Debug, Clone, PartialEq, Eq)]
pub enum ProxyError {
    /// The session file cannot be opened, written or read, or holds nothing
    /// to replay.
    StoreUnavailable,
    /// A record of the session cannot be parsed.
    CorruptSession,
    /// The session holds no further outcome for the request with this key.
    CapabilityNotRecorded { key: Vec<u8> },
}

/// A `ProxyError` in specifications.
pub enum ErrorView {
    StoreUnavailable,
    CorruptSession,
    CapabilityNotRecorded { key: Seq<u8> },
}

impl View for ProxyError {
    type V = ErrorView;

    open spec fn view(&self) -> ErrorView {
        match *self {
            ProxyError::StoreUnavailable => ErrorView::StoreUnavailable,
            ProxyError::CorruptSession => ErrorView::CorruptSession,
            ProxyError::CapabilityNotRecorded { key } => ErrorView::CapabilityNotRecorded {
                key: key@,
            },
        }
    }
}

/// The kind under which a replay miss is shown to the guest.
pub open spec fn not_recorded_kind() -> Seq<u8> {
    seq![110u8, 111, 116, 95, 114, 101, 99, 111, 114, 100, 101, 100]
}

impl ProxyError {
    /// What the guest gets to see of the error: a replay miss is a failed
    /// capability call, whose message is the key that was asked for; the
    /// other errors end the run and are not shown to the guest.
    pub open spec fn guest_view(e: ErrorView) -> Option<OutcomeView> {
        match e {
            ErrorView::CapabilityNotRecorded { key } => Some(
                OutcomeView::Failure { kind: not_recorded_kind(), message: key },
            ),
            _ => None,
        }
    }

    /// The failure that stands for this error in front of the guest, if
    /// the guest is to see it at all.
    pub fn for_guest(&self) -> (res: Option<CapabilityOutcome>)
        ensures
            match ProxyError::guest_view(self@) {
                Some(o) => res matches Some(r) && r@ == o,
                None => res is None,
            },
    {
        match self {
            ProxyError::CapabilityNotRecorded { key } => {
                let mut kind: Vec<u8> = Vec::new();
                kind.push(110u8);
                kind.push(111u8);
                kind.push(116u8);
                kind.push(95u8);
                kind.push(114u8);
                kind.push(101u8);
                kind.push(99u8);
                kind.push(111u8);
                kind.push(114u8);
                kind.push(100u8);
                kind.push(101u8);
                kind.push(100u8);
                assert(kind@ =~= not_recorded_kind());
                Some(
                    CapabilityOutcome::Failure { kind, message: slice_to_vec(key.as_slice()) },
                )
            },
            _ => None,
        }
    }

    /// Whether the whole run has to stop: true of the failures that put the
    /// session itself in doubt, false of a replay miss, which only fails the
    /// call at hand.
    pub open spec fn spec_is_fatal(&self) -> bool {
        !(*self is CapabilityNotRecorded)
    }

    #[verifier::when_used_as_spec(spec_is_fatal)]
    pub fn is_fatal(&self) -> (res: bool)
        ensures
            res == self.spec_is_fatal(),
    {
        match self {
            ProxyError::CapabilityNotRecorded { .. } => false,
            _ => true,
        }
    }

    /// A one-line diagnostic for the user.
    pub fn message(&self) -> (res: String)
        ensures
            *self is StoreUnavailable ==> res@ == "session store unavailable"@,
            *self is CorruptSession ==> res@ == "session is corrupt"@,
            *self is CapabilityNotRecorded ==> res@ == "capability call was not recorded"@,
    {
        match self {
            ProxyError::StoreUnavailable => String::from_str("session store unavailable"),
            ProxyError::CorruptSession => String::from_str("session is corrupt"),
            ProxyError::CapabilityNotRecorded { .. } => String::from_str(
                "capability call was not recorded",
            ),
        }
    }
}

} // verus!
