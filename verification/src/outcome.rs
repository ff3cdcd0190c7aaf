//! What a capability call produced, and the record that keeps it.

use crate::wire::{
    lemma_digit_run_end_bounds, lemma_scan_netstring_written, lemma_scan_number_written, netstring,
    number, put_netstring, put_number, read_netstring, read_number, scan_netstring, scan_number,
    Scan, SpecScan, NEWLINE, SPACE,
};
use vstd::prelude::*;
use vstd::slice::*;

verus! {

/// The result of one capability call. The proxy never looks inside the
/// payloads: they are the serialized form that the caller handed over.
#[derive(Debug, Clone, PartialEq, Eq)]
pub enum CapabilityOutcome {
    /// The capability answered.
    Success { payload: Vec<u8> },
    /// The capability failed; the guest gets to see the failure.
    Failure { kind: Vec<u8>, message: Vec<u8> },
}

/// A `CapabilityOutcome` in specifications.
pub enum OutcomeView {
    Success { payload: Seq<u8> },
    Failure { kind: Seq<u8>, message: Seq<u8> },
}

impl View for CapabilityOutcome {
    type V = OutcomeView;

    open spec fn view(&self) -> OutcomeView {
        match *self {
            CapabilityOutcome::Success { payload } => OutcomeView::Success { payload: payload@ },
            CapabilityOutcome::Failure { kind, message } => OutcomeView::Failure {
                kind: kind@,
                message: message@,
            },
        }
    }
}

impl CapabilityOutcome {
    /// A successful outcome that carries `payload`.
    pub fn success(payload: &[u8]) -> (res: Self)
        ensures
            res@ == (OutcomeView::Success { payload: payload@ }),
    {
        CapabilityOutcome::Success { payload: slice_to_vec(payload) }
    }

    /// A failed outcome of the given kind.
    pub fn failure(kind: &[u8], message: &[u8]) -> (res: Self)
        ensures
            res@ == (OutcomeView::Failure { kind: kind@, message: message@ }),
    {
        CapabilityOutcome::Failure { kind: slice_to_vec(kind), message: slice_to_vec(message) }
    }

    pub open spec fn spec_is_success(&self) -> bool {
        *self is Success
    }

    /// Whether the capability answered.
    #[verifier::when_used_as_spec(spec_is_success)]
    pub fn is_success(&self) -> (res: bool)
        ensures
            res == (*self is Success),
    {
        match self {
            CapabilityOutcome::Success { .. } => true,
            CapabilityOutcome::Failure { .. } => false,
        }
    }

    /// A copy with the same content.
    pub fn duplicate(&self) -> (res: Self)
        ensures
            res@ == self@,
    {
        match self {
            CapabilityOutcome::Success { payload } => CapabilityOutcome::Success {
                payload: slice_to_vec(payload.as_slice()),
            },
            CapabilityOutcome::Failure { kind, message } => CapabilityOutcome::Failure {
                kind: slice_to_vec(kind.as_slice()),
                message: slice_to_vec(message.as_slice()),
            },
        }
    }
}

/// One record of a session: which request, its place in the run, and what
/// came back.
#[derive(Debug, Clone, PartialEq, Eq)]
pub struct SessionEntry {
    pub key: Vec<u8>,
    pub sequence: u64,
    pub outcome: CapabilityOutcome,
}

/// A `SessionEntry` in specifications.
pub struct EntryView {
    pub key: Seq<u8>,
    pub sequence: u64,
    pub outcome: OutcomeView,
}

impl View for SessionEntry {
    type V = EntryView;

    open spec fn view(&self) -> EntryView {
        EntryView { key: self.key@, sequence: self.sequence, outcome: self.outcome@ }
    }
}

pub const TAG_SUCCESS: u8 = 83;

pub const TAG_FAILURE: u8 = 70;

/// Whether every length in the entry can be written down as a `u64`.
pub open spec fn entry_fits(e: EntryView) -> bool {
    &&& e.key.len() <= u64::MAX
    &&& match e.outcome {
        OutcomeView::Success { payload } => payload.len() <= u64::MAX,
        OutcomeView::Failure { kind, message } => kind.len() <= u64::MAX && message.len()
            <= u64::MAX,
    }
}

/// The bytes that keep an outcome: one length-prefixed string for a success,
/// two for a failure.
pub open spec fn encode_outcome(o: OutcomeView) -> Seq<u8> {
    match o {
        OutcomeView::Success { payload } => netstring(payload),
        OutcomeView::Failure { kind, message } => netstring(kind) + netstring(message),
    }
}

pub open spec fn outcome_tag(o: OutcomeView) -> u8 {
    match o {
        OutcomeView::Success { .. } => TAG_SUCCESS,
        OutcomeView::Failure { .. } => TAG_FAILURE,
    }
}

/// The record of an entry: a tag (`S` or `F`), the sequence number and a
/// space, the key, the outcome, and a line feed.
pub open spec fn encode_entry(e: EntryView) -> Seq<u8> {
    seq![outcome_tag(e.outcome)] + number(e.sequence as nat, SPACE) + netstring(e.key)
        + encode_outcome(e.outcome) + seq![NEWLINE]
}

/// The outcome that follows tag `tag` at position `i`.
pub open spec fn scan_outcome(s: Seq<u8>, i: int, tag: u8) -> SpecScan<OutcomeView> {
    match scan_netstring(s, i) {
        SpecScan::Done { value: first, next: j } => {
            if tag == TAG_SUCCESS {
                SpecScan::Done { value: OutcomeView::Success { payload: first }, next: j }
            } else {
                match scan_netstring(s, j) {
                    SpecScan::Done { value: second, next: k } => SpecScan::Done {
                        value: OutcomeView::Failure { kind: first, message: second },
                        next: k,
                    },
                    SpecScan::Truncated => SpecScan::Truncated,
                    SpecScan::Corrupt => SpecScan::Corrupt,
                }
            }
        },
        SpecScan::Truncated => SpecScan::Truncated,
        SpecScan::Corrupt => SpecScan::Corrupt,
    }
}

/// The record at position `i`.
pub open spec fn scan_entry(s: Seq<u8>, i: int) -> SpecScan<EntryView> {
    if i >= s.len() {
        SpecScan::Truncated
    } else if s[i] != TAG_SUCCESS && s[i] != TAG_FAILURE {
        SpecScan::Corrupt
    } else {
        match scan_number(s, i + 1, SPACE) {
            SpecScan::Done { value: sequence, next: j } => match scan_netstring(s, j) {
                SpecScan::Done { value: key, next: k } => match scan_outcome(s, k, s[i]) {
                    SpecScan::Done { value: outcome, next: m } => {
                        if m >= s.len() {
                            SpecScan::Truncated
                        } else if s[m] != NEWLINE {
                            SpecScan::Corrupt
                        } else {
                            SpecScan::Done {
                                value: EntryView { key, sequence: sequence as u64, outcome },
                                next: m + 1,
                            }
                        }
                    },
                    SpecScan::Truncated => SpecScan::Truncated,
                    SpecScan::Corrupt => SpecScan::Corrupt,
                },
                SpecScan::Truncated => SpecScan::Truncated,
                SpecScan::Corrupt => SpecScan::Corrupt,
            },
            SpecScan::Truncated => SpecScan::Truncated,
            SpecScan::Corrupt => SpecScan::Corrupt,
        }
    }
}

pub open spec fn outcome_agrees(r: Scan<CapabilityOutcome>, m: SpecScan<OutcomeView>) -> bool {
    match m {
        SpecScan::Done { value, next } => {
            &&& r matches Scan::Done { value: v, next: n }
            &&& v@ == value
            &&& n == next
        },
        SpecScan::Truncated => r is Truncated,
        SpecScan::Corrupt => r is Corrupt,
    }
}

pub open spec fn entry_agrees(r: Scan<SessionEntry>, m: SpecScan<EntryView>) -> bool {
    match m {
        SpecScan::Done { value, next } => {
            &&& r matches Scan::Done { value: v, next: n }
            &&& v@ == value
            &&& n == next
        },
        SpecScan::Truncated => r is Truncated,
        SpecScan::Corrupt => r is Corrupt,
    }
}

/// Reads the outcome that follows tag `tag` at position `i`.
pub fn read_outcome(s: &[u8], i: usize, tag: u8) -> (r: Scan<CapabilityOutcome>)
    requires
        i <= s@.len(),
    ensures
        outcome_agrees(r, scan_outcome(s@, i as int, tag)),
{
    match read_netstring(s, i) {
        Scan::Done { value: first, next: j } => {
            if tag == TAG_SUCCESS {
                Scan::Done { value: CapabilityOutcome::Success { payload: first }, next: j }
            } else {
                match read_netstring(s, j) {
                    Scan::Done { value: second, next: k } => Scan::Done {
                        value: CapabilityOutcome::Failure { kind: first, message: second },
                        next: k,
                    },
                    Scan::Truncated => Scan::Truncated,
                    Scan::Corrupt => Scan::Corrupt,
                }
            }
        },
        Scan::Truncated => Scan::Truncated,
        Scan::Corrupt => Scan::Corrupt,
    }
}

/// Reads the record at position `i`.
pub fn read_entry(s: &[u8], i: usize) -> (r: Scan<SessionEntry>)
    requires
        i <= s@.len(),
    ensures
        entry_agrees(r, scan_entry(s@, i as int)),
        r matches Scan::Done { next, .. } ==> i < next <= s@.len(),
{
    if i >= s.len() {
        return Scan::Truncated;
    }
    let tag: u8 = s[i];
    if tag != TAG_SUCCESS && tag != TAG_FAILURE {
        return Scan::Corrupt;
    }
    let (sequence, j) = match read_number(s, i + 1, SPACE) {
        Scan::Done { value, next } => (value, next),
        Scan::Truncated => { return Scan::Truncated; },
        Scan::Corrupt => { return Scan::Corrupt; },
    };
    proof {
        lemma_digit_run_end_bounds(s@, i + 1);
    }
    let (key, k) = match read_netstring(s, j) {
        Scan::Done { value, next } => (value, next),
        Scan::Truncated => { return Scan::Truncated; },
        Scan::Corrupt => { return Scan::Corrupt; },
    };
    proof {
        lemma_digit_run_end_bounds(s@, j as int);
    }
    let (outcome, m) = match read_outcome(s, k, tag) {
        Scan::Done { value, next } => (value, next),
        Scan::Truncated => { return Scan::Truncated; },
        Scan::Corrupt => { return Scan::Corrupt; },
    };
    proof {
        lemma_scan_outcome_advances(s@, k as int, tag);
    }
    if m >= s.len() {
        Scan::Truncated
    } else if s[m] != NEWLINE {
        Scan::Corrupt
    } else {
        Scan::Done { value: SessionEntry { key, sequence, outcome }, next: m + 1 }
    }
}

/// Appends the record of an entry with the given parts.
pub fn put_entry(out: &mut Vec<u8>, key: &[u8], sequence: u64, outcome: &CapabilityOutcome)
    ensures
        final(out)@ == old(out)@ + encode_entry(
            EntryView { key: key@, sequence, outcome: outcome@ },
        ),
{
    let ghost e = EntryView { key: key@, sequence, outcome: outcome@ };
    match outcome {
        CapabilityOutcome::Success { payload } => {
            out.push(TAG_SUCCESS);
            put_number(out, sequence, SPACE);
            put_netstring(out, key);
            put_netstring(out, payload.as_slice());
        },
        CapabilityOutcome::Failure { kind, message } => {
            out.push(TAG_FAILURE);
            put_number(out, sequence, SPACE);
            put_netstring(out, key);
            put_netstring(out, kind.as_slice());
            put_netstring(out, message.as_slice());
        },
    }
    out.push(NEWLINE);
    assert(out@ =~= old(out)@ + encode_entry(e));
}

/// The record of an entry, as bytes of their own.
pub fn encode_record(key: &[u8], sequence: u64, outcome: &CapabilityOutcome) -> (res: Vec<u8>)
    ensures
        res@ == encode_entry(EntryView { key: key@, sequence, outcome: outcome@ }),
{
    let mut out: Vec<u8> = Vec::new();
    put_entry(&mut out, key, sequence, outcome);
    assert(out@ =~= encode_entry(EntryView { key: key@, sequence, outcome: outcome@ }));
    out
}

// ---------------------------------------------------------------------
// Facts about records
// ---------------------------------------------------------------------
/// A reader that is done has moved on, and has stayed inside the input.
pub proof fn lemma_scan_netstring_advances(s: Seq<u8>, i: int)
    requires
        0 <= i <= s.len(),
    ensures
        scan_netstring(s, i) matches SpecScan::Done { next, .. } ==> i < next <= s.len(),
{
    lemma_digit_run_end_bounds(s, i);
}

pub proof fn lemma_scan_outcome_advances(s: Seq<u8>, i: int, tag: u8)
    requires
        0 <= i <= s.len(),
    ensures
        scan_outcome(s, i, tag) matches SpecScan::Done { next, .. } ==> i < next <= s.len(),
{
    lemma_scan_netstring_advances(s, i);
    if let SpecScan::Done { next: j, .. } = scan_netstring(s, i) {
        lemma_scan_netstring_advances(s, j);
    }
}

/// If `a + b` stands at `i`, then `a` stands at `i` and `b` right behind it.
pub proof fn lemma_written_parts(s: Seq<u8>, i: int, a: Seq<u8>, b: Seq<u8>)
    requires
        0 <= i,
        i + a.len() + b.len() <= s.len(),
        s.subrange(i, i + a.len() + b.len()) == a + b,
    ensures
        s.subrange(i, i + a.len()) == a,
        s.subrange(i + a.len(), i + a.len() + b.len()) == b,
{
    let w = s.subrange(i, i + a.len() + b.len());
    assert(s.subrange(i, i + a.len()) =~= a) by {
        assert forall|k: int| 0 <= k < a.len() implies s.subrange(i, i + a.len())[k] == a[k] by {
            assert(w[k] == s[i + k]);
        }
    }
    assert(s.subrange(i + a.len(), i + a.len() + b.len()) =~= b) by {
        assert forall|k: int| 0 <= k < b.len() implies s.subrange(
            i + a.len(),
            i + a.len() + b.len(),
        )[k] == b[k] by {
            assert(w[a.len() + k] == s[i + a.len() + k]);
            assert((a + b)[a.len() + k] == b[k]);
        }
    }
}

/// An outcome that was written at `i` is read back.
pub proof fn lemma_scan_outcome_written(s: Seq<u8>, i: int, o: OutcomeView)
    requires
        0 <= i,
        i + encode_outcome(o).len() <= s.len(),
        s.subrange(i, i + encode_outcome(o).len()) == encode_outcome(o),
        match o {
            OutcomeView::Success { payload } => payload.len() <= u64::MAX,
            OutcomeView::Failure { kind, message } => kind.len() <= u64::MAX && message.len()
                <= u64::MAX,
        },
    ensures
        scan_outcome(s, i, outcome_tag(o)) == (SpecScan::Done {
            value: o,
            next: i + encode_outcome(o).len(),
        }),
{
    match o {
        OutcomeView::Success { payload } => {
            lemma_scan_netstring_written(s, i, payload);
        },
        OutcomeView::Failure { kind, message } => {
            lemma_written_parts(s, i, netstring(kind), netstring(message));
            lemma_scan_netstring_written(s, i, kind);
            lemma_scan_netstring_written(s, i + netstring(kind).len(), message);
        },
    }
}

/// A record that was written at `i` is read back, whatever follows it.
pub proof fn lemma_scan_entry_written(s: Seq<u8>, i: int, e: EntryView)
    requires
        0 <= i,
        entry_fits(e),
        i + encode_entry(e).len() <= s.len(),
        s.subrange(i, i + encode_entry(e).len()) == encode_entry(e),
    ensures
        scan_entry(s, i) == (SpecScan::Done { value: e, next: i + encode_entry(e).len() }),
{
    let tag = seq![outcome_tag(e.outcome)];
    let num = number(e.sequence as nat, SPACE);
    let key = netstring(e.key);
    let out = encode_outcome(e.outcome);
    let nl = seq![NEWLINE];
    let w = encode_entry(e);
    assert(w == tag + (num + (key + (out + nl)))) by {
        assert(w =~= tag + (num + (key + (out + nl))));
    }
    lemma_written_parts(s, i, tag, num + (key + (out + nl)));
    assert(s[i] == s.subrange(i, i + 1)[0]);
    let i1 = i + 1;
    lemma_written_parts(s, i1, num, key + (out + nl));
    lemma_scan_number_written(s, i1, e.sequence as nat, SPACE);
    let i2 = i1 + num.len();
    lemma_written_parts(s, i2, key, out + nl);
    lemma_scan_netstring_written(s, i2, e.key);
    let i3 = i2 + key.len();
    lemma_written_parts(s, i3, out, nl);
    lemma_scan_outcome_written(s, i3, e.outcome);
    let i4 = i3 + out.len();
    assert(s[i4] == s.subrange(i4, i4 + 1)[0]);
}

} // verus!
