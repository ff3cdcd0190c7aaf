//! The session: an append-only run of records, one per capability call.
//!
//! A session file is the records of its entries, one after the other. A
//! reader takes every whole record and stops without complaint at a last
//! record that was cut short; a byte that contradicts the format makes the
//! whole session corrupt.

use crate::error::ProxyError;
use crate::outcome::{
    encode_entry, entry_fits, lemma_scan_entry_written, put_entry, read_entry, scan_entry,
    EntryView, SessionEntry,
};
use crate::wire::{Scan, SpecScan};
use vstd::prelude::*;

verus! {

/// The entries of a list of records, in specifications.
pub open spec fn entries_view(v: Seq<SessionEntry>) -> Seq<EntryView> {
    Seq::new(v.len(), |i: int| v[i]@)
}

/// The bytes of a session that holds `es`, first entry first.
pub open spec fn encode_session(es: Seq<EntryView>) -> Seq<u8>
    decreases es.len(),
{
    if es.len() == 0 {
        Seq::empty()
    } else {
        encode_session(es.drop_last()) + encode_entry(es.last())
    }
}

/// The entries that stand in `s` from position `i` on: `None` where a record
/// is corrupt, else every whole record up to the end or up to a record that
/// the end of `s` cuts short.
pub open spec fn scan_session(s: Seq<u8>, i: int) -> Option<Seq<EntryView>>
    decreases s.len() - i,
{
    if i < 0 || i >= s.len() {
        Some(Seq::empty())
    } else {
        match scan_entry(s, i) {
            SpecScan::Done { value, next } => {
                if next <= i {
                    None
                } else {
                    match scan_session(s, next) {
                        Some(rest) => Some(seq![value] + rest),
                        None => None,
                    }
                }
            },
            SpecScan::Truncated => Some(Seq::empty()),
            SpecScan::Corrupt => None,
        }
    }
}

/// The entries of the session file with content `s`.
pub open spec fn session_entries(s: Seq<u8>) -> Option<Seq<EntryView>> {
    scan_session(s, 0)
}

pub open spec fn all_fit(es: Seq<EntryView>) -> bool {
    forall|i: int| 0 <= i < es.len() ==> entry_fits(#[trigger] es[i])
}

/// `front` followed by what a scan of the rest gave.
pub open spec fn behind(front: Seq<EntryView>, rest: Option<Seq<EntryView>>) -> Option<
    Seq<EntryView>,
> {
    match rest {
        Some(r) => Some(front + r),
        None => None,
    }
}

/// Reads a whole session. Fails with `CorruptSession` exactly when one of
/// its records is corrupt; a last record that was cut short is left out.
pub fn parse_session(bytes: &[u8]) -> (r: Result<Vec<SessionEntry>, ProxyError>)
    ensures
        match session_entries(bytes@) {
            Some(es) => r matches Ok(v) && entries_view(v@) == es,
            None => r matches Err(e) && e is CorruptSession,
        },
{
    let n: usize = bytes.len();
    let mut entries: Vec<SessionEntry> = Vec::new();
    let mut i: usize = 0;
    assert(entries_view(entries@) =~= Seq::empty());
    assert(behind(Seq::empty(), scan_session(bytes@, 0)) == scan_session(bytes@, 0)) by {
        if let Some(r) = scan_session(bytes@, 0) {
            assert(Seq::<EntryView>::empty() + r =~= r);
        }
    }
    while i < n
        invariant
            n == bytes@.len(),
            i <= n,
            session_entries(bytes@) == behind(
                entries_view(entries@),
                scan_session(bytes@, i as int),
            ),
        decreases n - i,
    {
        let ghost before = entries_view(entries@);
        match read_entry(bytes, i) {
            Scan::Done { value, next } => {
                proof {
                    let rest = scan_session(bytes@, next as int);
                    if let Some(r) = rest {
                        assert(before + (seq![value@] + r) =~= before.push(value@) + r);
                    }
                }
                entries.push(value);
                assert(entries_view(entries@) =~= before.push(value@));
                i = next;
            },
            Scan::Truncated => {
                assert(before + Seq::<EntryView>::empty() =~= before);
                return Ok(entries);
            },
            Scan::Corrupt => {
                return Err(ProxyError::CorruptSession);
            },
        }
    }
    assert(entries_view(entries@) + Seq::<EntryView>::empty() =~= entries_view(entries@));
    Ok(entries)
}

/// Writes a whole session.
pub fn write_session(entries: &Vec<SessionEntry>) -> (res: Vec<u8>)
    ensures
        res@ == encode_session(entries_view(entries@)),
{
    let mut out: Vec<u8> = Vec::new();
    let n: usize = entries.len();
    let mut i: usize = 0;
    let ghost es = entries_view(entries@);
    while i < n
        invariant
            n == entries@.len(),
            i <= n,
            es == entries_view(entries@),
            out@ == encode_session(es.take(i as int)),
        decreases n - i,
    {
        let e = &entries[i];
        put_entry(&mut out, e.key.as_slice(), e.sequence, &e.outcome);
        proof {
            assert(es.take(i + 1).drop_last() =~= es.take(i as int));
            assert(es.take(i + 1).last() == es[i as int]);
            assert(es[i as int] == (EntryView {
                key: e.key@,
                sequence: e.sequence,
                outcome: e.outcome@,
            }));
        }
        i = i + 1;
    }
    assert(es.take(n as int) =~= es);
    out
}

// ---------------------------------------------------------------------
// Laws of the format
// ---------------------------------------------------------------------
/// A session that starts with `e` is the record of `e` followed by the rest.
pub proof fn lemma_encode_session_front(e: EntryView, rest: Seq<EntryView>)
    ensures
        encode_session(seq![e] + rest) == encode_entry(e) + encode_session(rest),
    decreases rest.len(),
{
    let all = seq![e] + rest;
    if rest.len() == 0 {
        assert(all.drop_last() =~= Seq::<EntryView>::empty());
        assert(all.last() == e);
        assert(encode_session(all.drop_last()) =~= Seq::<u8>::empty());
        assert(encode_session(rest) =~= Seq::<u8>::empty());
        assert(encode_session(all) =~= encode_entry(e) + encode_session(rest));
    } else {
        lemma_encode_session_front(e, rest.drop_last());
        assert(all.drop_last() =~= seq![e] + rest.drop_last());
        assert(all.last() == rest.last());
        assert(encode_session(all) =~= encode_entry(e) + encode_session(rest));
    }
}

/// Appending a record to a session file appends its entry to the session.
pub proof fn lemma_encode_session_push(es: Seq<EntryView>, e: EntryView)
    ensures
        encode_session(es.push(e)) == encode_session(es) + encode_entry(e),
{
    assert(es.push(e).drop_last() =~= es);
}

/// The entries that were written from position `i` on are the entries that
/// are read from there.
pub proof fn lemma_scan_session_written(s: Seq<u8>, i: int, es: Seq<EntryView>)
    requires
        0 <= i <= s.len(),
        all_fit(es),
        s.subrange(i, s.len() as int) == encode_session(es),
    ensures
        scan_session(s, i) == Some(es),
    decreases es.len(),
{
    if es.len() == 0 {
        assert(s.subrange(i, s.len() as int).len() == 0);
    } else {
        let e = es[0];
        let rest = es.drop_first();
        assert(es =~= seq![e] + rest);
        lemma_encode_session_front(e, rest);
        let w = encode_entry(e);
        let tail = s.subrange(i, s.len() as int);
        assert(tail.len() == w.len() + encode_session(rest).len());
        assert(s.subrange(i, i + w.len()) =~= w) by {
            assert forall|k: int| 0 <= k < w.len() implies s.subrange(i, i + w.len())[k]
                == w[k] by {
                assert(tail[k] == s[i + k]);
            }
        }
        lemma_scan_entry_written(s, i, e);
        let next = i + w.len();
        assert(s.subrange(next, s.len() as int) =~= encode_session(rest)) by {
            assert forall|k: int| 0 <= k < encode_session(rest).len() implies s.subrange(
                next,
                s.len() as int,
            )[k] == encode_session(rest)[k] by {
                assert(tail[w.len() + k] == s[next + k]);
            }
        }
        assert(all_fit(rest)) by {
            assert forall|k: int| 0 <= k < rest.len() implies entry_fits(#[trigger] rest[k]) by {
                assert(rest[k] == es[k + 1]);
            }
        }
        lemma_scan_session_written(s, next, rest);
        assert(w.len() > 0);
    }
}

/// Reading what was written gives back every entry, in order.
pub proof fn lemma_session_round_trip(es: Seq<EntryView>)
    requires
        all_fit(es),
    ensures
        session_entries(encode_session(es)) == Some(es),
{
    let s = encode_session(es);
    assert(s.subrange(0, s.len() as int) =~= s);
    lemma_scan_session_written(s, 0, es);
}

/// Appending the record of an entry to a session file gives the file of
/// the session with that entry at its end, and it reads back as such.
pub proof fn lemma_append_reads_back(es: Seq<EntryView>, e: EntryView)
    requires
        all_fit(es),
        entry_fits(e),
    ensures
        all_fit(es.push(e)),
        encode_session(es.push(e)) == encode_session(es) + encode_entry(e),
        session_entries(encode_session(es) + encode_entry(e)) == Some(es.push(e)),
{
    lemma_encode_session_push(es, e);
    assert(all_fit(es.push(e))) by {
        assert forall|i: int| 0 <= i < es.push(e).len() implies entry_fits(
            #[trigger] es.push(e)[i],
        ) by {
            if i < es.len() {
                assert(es.push(e)[i] == es[i]);
            }
        }
    }
    lemma_session_round_trip(es.push(e));
}

/// A session file that is cut behind one of its records still loads, and
/// holds exactly the entries in front of the cut.
pub proof fn lemma_cut_after_record_loads(es: Seq<EntryView>, k: int)
    requires
        all_fit(es),
        0 <= k <= es.len(),
    ensures
        encode_session(es.take(k)).len() <= encode_session(es).len(),
        encode_session(es).take(encode_session(es.take(k)).len() as int) == encode_session(
            es.take(k),
        ),
        session_entries(encode_session(es).take(encode_session(es.take(k)).len() as int))
            == Some(es.take(k)),
    decreases es.len() - k,
{
    if k == es.len() {
        assert(es.take(k) =~= es);
        assert(encode_session(es).take(encode_session(es).len() as int) =~= encode_session(es));
    } else {
        lemma_cut_after_record_loads(es, k + 1);
        let longer = es.take(k + 1);
        assert(longer.drop_last() =~= es.take(k));
        let a = encode_session(es.take(k));
        let b = encode_session(longer);
        assert(b == a + encode_entry(longer.last()));
        assert(encode_session(es).take(a.len() as int) =~= a) by {
            assert(encode_session(es).take(b.len() as int) == b);
            assert forall|j: int| 0 <= j < a.len() implies encode_session(es).take(
                a.len() as int,
            )[j] == a[j] by {
                assert(encode_session(es).take(b.len() as int)[j] == encode_session(es)[j]);
                assert(b[j] == a[j]);
            }
        }
    }
    assert(all_fit(es.take(k)));
    lemma_session_round_trip(es.take(k));
}

} // verus!
