//! What a crash leaves behind: a session file whose last record was cut
//! short, at whatever byte, still loads, and holds the whole records.

use crate::outcome::{
    encode_entry, encode_outcome, entry_fits, lemma_scan_entry_written, lemma_scan_outcome_written,
    outcome_tag, scan_entry, scan_outcome, EntryView, OutcomeView,
};
use crate::session::{
    all_fit, encode_session, lemma_encode_session_front, lemma_session_round_trip, scan_session,
    session_entries,
};
use crate::wire::{
    decimal, lemma_decimal_shape, lemma_digit_run_end_is, lemma_digits_value_grows,
    lemma_scan_netstring_written, lemma_scan_number_written, netstring, number, scan_netstring,
    scan_number, is_digit, SpecScan, COLON, COMMA, NEWLINE, SPACE,
};
use vstd::prelude::*;

verus! {

/// Whether `s` ends, from position `i` on, with the first `c` bytes of `w`.
pub open spec fn ends_with_cut(s: Seq<u8>, i: int, w: Seq<u8>, c: int) -> bool {
    &&& 0 <= i <= s.len()
    &&& 0 <= c <= w.len()
    &&& s.subrange(i, s.len() as int) == w.take(c)
}

/// If `s` ends with a cut of `a + b`, then either the cut falls into `a`, or
/// `a` stands in full and `s` ends with a cut of `b`.
proof fn lemma_cut_parts(s: Seq<u8>, i: int, a: Seq<u8>, b: Seq<u8>, c: int)
    requires
        ends_with_cut(s, i, a + b, c),
    ensures
        c < a.len() ==> ends_with_cut(s, i, a, c),
        c >= a.len() ==> s.subrange(i, i + a.len()) == a && ends_with_cut(
            s,
            i + a.len(),
            b,
            c - a.len(),
        ),
{
    let w = a + b;
    let tail = s.subrange(i, s.len() as int);
    assert(tail.len() == c);
    if c < a.len() {
        assert(tail =~= a.take(c)) by {
            assert forall|k: int| 0 <= k < c implies tail[k] == a.take(c)[k] by {
                assert(w.take(c)[k] == w[k]);
            }
        }
    } else {
        assert(s.subrange(i, i + a.len()) =~= a) by {
            assert forall|k: int| 0 <= k < a.len() implies s.subrange(i, i + a.len())[k]
                == a[k] by {
                assert(tail[k] == s[i + k]);
                assert(w.take(c)[k] == w[k]);
            }
        }
        let rest = s.subrange(i + a.len(), s.len() as int);
        assert(rest =~= b.take(c - a.len())) by {
            assert forall|k: int| 0 <= k < c - a.len() implies rest[k] == b.take(c - a.len())[k] by {
                assert(tail[a.len() + k] == s[i + a.len() + k]);
                assert(w.take(c)[a.len() + k] == w[a.len() + k]);
            }
        }
    }
}

/// A number that was cut short reads as truncated.
proof fn lemma_scan_number_cut(s: Seq<u8>, i: int, n: nat, delim: u8, c: int)
    requires
        n <= u64::MAX,
        ends_with_cut(s, i, number(n, delim), c),
        c < number(n, delim).len(),
    ensures
        scan_number(s, i, delim) is Truncated,
{
    let d = decimal(n);
    let tail = s.subrange(i, s.len() as int);
    lemma_decimal_shape(n);
    assert(tail.len() == c);
    assert(tail =~= d.take(c)) by {
        assert forall|k: int| 0 <= k < c implies tail[k] == d.take(c)[k] by {
            assert(number(n, delim).take(c)[k] == number(n, delim)[k]);
        }
    }
    assert forall|k: int| i <= k < s.len() implies is_digit(#[trigger] s[k]) by {
        assert(s[k] == tail[k - i]);
        assert(d.take(c)[k - i] == d[k - i]);
    }
    lemma_digit_run_end_is(s, i, s.len() as int);
    lemma_digits_value_grows(d, c);
}

/// A length-prefixed byte string that was cut short reads as truncated.
proof fn lemma_scan_netstring_cut(s: Seq<u8>, i: int, x: Seq<u8>, c: int)
    requires
        x.len() <= u64::MAX,
        ends_with_cut(s, i, netstring(x), c),
        c < netstring(x).len(),
    ensures
        scan_netstring(s, i) is Truncated,
{
    let head = number(x.len(), COLON);
    let body = x + seq![COMMA];
    assert(netstring(x) =~= head + body);
    lemma_cut_parts(s, i, head, body, c);
    if c < head.len() {
        lemma_scan_number_cut(s, i, x.len(), COLON, c);
    } else {
        lemma_scan_number_written(s, i, x.len(), COLON);
        assert(s.subrange(i + head.len(), s.len() as int).len() == c - head.len());
    }
}

/// An outcome that was cut short reads as truncated.
proof fn lemma_scan_outcome_cut(s: Seq<u8>, i: int, o: OutcomeView, c: int)
    requires
        match o {
            OutcomeView::Success { payload } => payload.len() <= u64::MAX,
            OutcomeView::Failure { kind, message } => kind.len() <= u64::MAX && message.len()
                <= u64::MAX,
        },
        ends_with_cut(s, i, encode_outcome(o), c),
        c < encode_outcome(o).len(),
    ensures
        scan_outcome(s, i, outcome_tag(o)) is Truncated,
{
    match o {
        OutcomeView::Success { payload } => {
            lemma_scan_netstring_cut(s, i, payload, c);
        },
        OutcomeView::Failure { kind, message } => {
            let a = netstring(kind);
            let b = netstring(message);
            lemma_cut_parts(s, i, a, b, c);
            if c < a.len() {
                lemma_scan_netstring_cut(s, i, kind, c);
            } else {
                lemma_scan_netstring_written(s, i, kind);
                lemma_scan_netstring_cut(s, i + a.len(), message, c - a.len());
            }
        },
    }
}

/// A record that was cut short reads as truncated.
pub proof fn lemma_scan_entry_cut(s: Seq<u8>, i: int, e: EntryView, c: int)
    requires
        entry_fits(e),
        ends_with_cut(s, i, encode_entry(e), c),
        c < encode_entry(e).len(),
    ensures
        scan_entry(s, i) is Truncated,
{
    let tag = seq![outcome_tag(e.outcome)];
    let num = number(e.sequence as nat, SPACE);
    let key = netstring(e.key);
    let out = encode_outcome(e.outcome);
    let nl = seq![NEWLINE];
    assert(encode_entry(e) =~= tag + (num + (key + (out + nl))));
    assert(s.subrange(i, s.len() as int).len() == c);
    if c > 0 {
        lemma_cut_parts(s, i, tag, num + (key + (out + nl)), c);
        assert(s[i] == s.subrange(i, i + 1)[0]);
        let i1 = i + 1;
        lemma_cut_parts(s, i1, num, key + (out + nl), c - 1);
        if c - 1 < num.len() {
            lemma_scan_number_cut(s, i1, e.sequence as nat, SPACE, c - 1);
        } else {
            lemma_scan_number_written(s, i1, e.sequence as nat, SPACE);
            let i2 = i1 + num.len();
            let c2 = c - 1 - num.len();
            lemma_cut_parts(s, i2, key, out + nl, c2);
            if c2 < key.len() {
                lemma_scan_netstring_cut(s, i2, e.key, c2);
            } else {
                lemma_scan_netstring_written(s, i2, e.key);
                let i3 = i2 + key.len();
                let c3 = c2 - key.len();
                lemma_cut_parts(s, i3, out, nl, c3);
                if c3 < out.len() {
                    lemma_scan_outcome_cut(s, i3, e.outcome, c3);
                } else {
                    lemma_scan_outcome_written(s, i3, e.outcome);
                    assert(s.subrange(i3 + out.len(), s.len() as int).len() == 0);
                }
            }
        }
    }
}

proof fn lemma_scan_session_cut(s: Seq<u8>, i: int, es: Seq<EntryView>, e: EntryView, c: int)
    requires
        0 <= i <= s.len(),
        all_fit(es),
        entry_fits(e),
        0 <= c < encode_entry(e).len(),
        s.subrange(i, s.len() as int) == encode_session(es) + encode_entry(e).take(c),
    ensures
        scan_session(s, i) == Some(es),
    decreases es.len(),
{
    let tail = s.subrange(i, s.len() as int);
    if es.len() == 0 {
        assert(tail =~= encode_entry(e).take(c));
        if i < s.len() {
            lemma_scan_entry_cut(s, i, e, c);
        }
    } else {
        let first = es[0];
        let rest = es.drop_first();
        assert(es =~= seq![first] + rest);
        lemma_encode_session_front(first, rest);
        let w = encode_entry(first);
        let behind = encode_session(rest) + encode_entry(e).take(c);
        assert(tail =~= w + behind);
        assert(s.subrange(i, i + w.len()) =~= w) by {
            assert forall|k: int| 0 <= k < w.len() implies s.subrange(i, i + w.len())[k]
                == w[k] by {
                assert(tail[k] == s[i + k]);
            }
        }
        lemma_scan_entry_written(s, i, first);
        let next = i + w.len();
        assert(s.subrange(next, s.len() as int) =~= behind) by {
            assert forall|k: int| 0 <= k < behind.len() implies s.subrange(next, s.len() as int)[k]
                == behind[k] by {
                assert(tail[w.len() + k] == s[next + k]);
            }
        }
        assert(all_fit(rest)) by {
            assert forall|k: int| 0 <= k < rest.len() implies entry_fits(#[trigger] rest[k]) by {
                assert(rest[k] == es[k + 1]);
            }
        }
        lemma_scan_session_cut(s, next, rest, e, c);
    }
}

/// A session file that ends in a record that was cut short, at whatever
/// byte, loads without complaint and holds exactly the entries in front of
/// the cut.
pub proof fn lemma_cut_inside_record_loads(es: Seq<EntryView>, e: EntryView, c: int)
    requires
        all_fit(es),
        entry_fits(e),
        0 <= c < encode_entry(e).len(),
    ensures
        session_entries(encode_session(es) + encode_entry(e).take(c)) == Some(es),
{
    let s = encode_session(es) + encode_entry(e).take(c);
    assert(s.subrange(0, s.len() as int) =~= s);
    lemma_scan_session_cut(s, 0, es, e, c);
}

/// Whatever is left of a session file when it is cut, at whatever byte, it
/// loads, and what it holds are the first entries of the session.
pub proof fn lemma_every_prefix_loads(es: Seq<EntryView>, n: int)
    requires
        all_fit(es),
        0 <= n <= encode_session(es).len(),
    ensures
        exists|k: int|
            0 <= k <= es.len() && session_entries(encode_session(es).take(n)) == Some(
                #[trigger] es.take(k),
            ),
    decreases es.len(),
{
    let file = encode_session(es);
    if es.len() == 0 {
        assert(file.take(n) =~= encode_session(es.take(0)));
        lemma_session_round_trip(es.take(0));
    } else {
        let d = es.drop_last();
        let e = es.last();
        let head = encode_session(d);
        assert(file == head + encode_entry(e));
        assert(all_fit(d)) by {
            assert forall|i: int| 0 <= i < d.len() implies entry_fits(#[trigger] d[i]) by {
                assert(d[i] == es[i]);
            }
        }
        assert(entry_fits(es[es.len() - 1]));
        if n <= head.len() {
            lemma_every_prefix_loads(d, n);
            assert(file.take(n) =~= head.take(n));
            let k = choose|k: int|
                0 <= k <= d.len() && session_entries(head.take(n)) == Some(#[trigger] d.take(k));
            assert(es.take(k) =~= d.take(k));
        } else if n == file.len() {
            assert(file.take(n) =~= file);
            assert(es.take(es.len() as int) =~= es);
            lemma_session_round_trip(es);
        } else {
            let c = n - head.len();
            assert(file.take(n) =~= head + encode_entry(e).take(c));
            lemma_cut_inside_record_loads(d, e, c);
            assert(es.take(es.len() - 1) =~= d);
        }
    }
}

} // verus!
