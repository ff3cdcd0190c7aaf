//! Reading a canonical key back into the request that it stands for.

use crate::error::ProxyError;
use crate::order::{lemma_lex_transitive, lex_less};
use crate::outcome::{lemma_scan_netstring_advances, lemma_written_parts};
use crate::request::{
    arguments_in_order, arguments_map, canonical_key, comes_before, encode_arguments, in_order,
    ArgumentView, CapabilityRequest, RequestView,
};
use crate::wire::{lemma_scan_netstring_written, netstring, read_netstring, scan_netstring, Scan, SpecScan};
use vstd::prelude::*;
use vstd::slice::*;

verus! {

/// The arguments that stand in `s` from position `i` up to its end, or
/// `None` where the bytes are no list of arguments.
pub open spec fn scan_arguments(s: Seq<u8>, i: int) -> Option<Seq<ArgumentView>>
    decreases s.len() - i,
{
    if i < 0 || i >= s.len() {
        Some(Seq::empty())
    } else {
        match scan_netstring(s, i) {
            SpecScan::Done { value: name, next: j } => match scan_netstring(s, j) {
                SpecScan::Done { value, next: k } => {
                    if k <= i {
                        None
                    } else {
                        match scan_arguments(s, k) {
                            Some(rest) => Some(seq![ArgumentView { name, value }] + rest),
                            None => None,
                        }
                    }
                },
                _ => None,
            },
            _ => None,
        }
    }
}

/// The request that `key` is the canonical key of, or `None` where `key` is
/// no canonical key: where its bytes do not parse, or its arguments are not
/// in the order of their names.
pub open spec fn decode_key(key: Seq<u8>) -> Option<RequestView> {
    match scan_netstring(key, 0) {
        SpecScan::Done { value: capability, next: j } => match scan_netstring(key, j) {
            SpecScan::Done { value: operation, next: k } => match scan_arguments(key, k) {
                Some(args) => {
                    if in_order(args) {
                        Some(RequestView { capability, operation, arguments: arguments_map(args) })
                    } else {
                        None
                    }
                },
                None => None,
            },
            _ => None,
        },
        _ => None,
    }
}

/// Whether the content of a request can be written down: its arguments are
/// finitely many, and every length fits a `u64`.
pub open spec fn writable(r: RequestView) -> bool {
    let args = arguments_in_order(r.arguments);
    &&& in_order(args)
    &&& arguments_map(args) == r.arguments
    &&& r.capability.len() <= u64::MAX
    &&& r.operation.len() <= u64::MAX
    &&& forall|i: int|
        0 <= i < args.len() ==> (#[trigger] args[i]).name.len() <= u64::MAX && args[i].value.len()
            <= u64::MAX
}

spec fn behind(front: Seq<ArgumentView>, rest: Option<Seq<ArgumentView>>) -> Option<
    Seq<ArgumentView>,
> {
    match rest {
        Some(r) => Some(front + r),
        None => None,
    }
}

impl CapabilityRequest {
    /// Reads a canonical key back into its request. Fails with
    /// `CorruptSession` exactly when `key` is no canonical key.
    pub fn from_key(key: &[u8]) -> (res: Result<CapabilityRequest, ProxyError>)
        ensures
            match decode_key(key@) {
                Some(v) => res matches Ok(r) && r@ == v,
                None => res matches Err(e) && e is CorruptSession,
            },
    {
        let (capability, j) = match read_netstring(key, 0) {
            Scan::Done { value, next } => (value, next),
            _ => { return Err(ProxyError::CorruptSession); },
        };
        proof {
            lemma_scan_netstring_advances(key@, 0);
        }
        let (operation, k) = match read_netstring(key, j) {
            Scan::Done { value, next } => (value, next),
            _ => { return Err(ProxyError::CorruptSession); },
        };
        proof {
            lemma_scan_netstring_advances(key@, j as int);
        }
        let mut request = CapabilityRequest::new(capability.as_slice(), operation.as_slice());
        let mut last: Vec<u8> = Vec::new();
        let mut any: bool = false;
        let ghost mut acc: Seq<ArgumentView> = Seq::empty();
        let n: usize = key.len();
        let mut i: usize = k;
        proof {
            if let Some(r) = scan_arguments(key@, k as int) {
                assert(Seq::<ArgumentView>::empty() + r =~= r);
            }
        }
        while i < n
            invariant
                n == key@.len(),
                k <= i <= n,
                scan_netstring(key@, 0) == (SpecScan::Done {
                    value: capability@,
                    next: j as int,
                }),
                scan_netstring(key@, j as int) == (SpecScan::Done {
                    value: operation@,
                    next: k as int,
                }),
                scan_arguments(key@, k as int) == behind(acc, scan_arguments(key@, i as int)),
                in_order(acc),
                any == (acc.len() > 0),
                any ==> last@ == acc.last().name,
                request@ == (RequestView {
                    capability: capability@,
                    operation: operation@,
                    arguments: arguments_map(acc),
                }),
            decreases n - i,
        {
            let (name, j2) = match read_netstring(key, i) {
                Scan::Done { value, next } => (value, next),
                _ => { return Err(ProxyError::CorruptSession); },
            };
            proof {
                lemma_scan_netstring_advances(key@, i as int);
            }
            let (value, k2) = match read_netstring(key, j2) {
                Scan::Done { value, next } => (value, next),
                _ => { return Err(ProxyError::CorruptSession); },
            };
            proof {
                lemma_scan_netstring_advances(key@, j2 as int);
            }
            let ghost arg = ArgumentView { name: name@, value: value@ };
            let ghost grown = acc.push(arg);
            proof {
                if let Some(r) = scan_arguments(key@, k2 as int) {
                    assert(acc + (seq![arg] + r) =~= grown + r);
                }
                assert(grown.drop_last() =~= acc);
            }
            if any && !comes_before(last.as_slice(), name.as_slice()) {
                proof {
                    if let Some(r) = scan_arguments(key@, k2 as int) {
                        let all = grown + r;
                        assert(all[acc.len() - 1] == acc.last());
                        assert(all[acc.len() as int] == arg);
                    }
                }
                return Err(ProxyError::CorruptSession);
            }
            proof {
                assert forall|a: int, b: int| 0 <= a < b < grown.len() implies lex_less(
                    (#[trigger] grown[a]).name,
                    (#[trigger] grown[b]).name,
                ) by {
                    if b < acc.len() {
                        assert(lex_less(acc[a].name, acc[b].name));
                    } else if a < acc.len() - 1 {
                        assert(lex_less(acc[a].name, acc[acc.len() - 1].name));
                        lemma_lex_transitive(acc[a].name, acc.last().name, arg.name);
                    }
                }
            }
            request = request.with_argument(name.as_slice(), value.as_slice());
            last = name;
            any = true;
            proof {
                acc = grown;
            }
            i = k2;
        }
        proof {
            assert(acc + Seq::<ArgumentView>::empty() =~= acc);
        }
        Ok(request)
    }
}

// ---------------------------------------------------------------------
// Laws of the key
// ---------------------------------------------------------------------
/// A list that starts with `a` is written as `a` followed by the rest.
pub proof fn lemma_encode_arguments_front(a: ArgumentView, rest: Seq<ArgumentView>)
    ensures
        encode_arguments(seq![a] + rest) == netstring(a.name) + netstring(a.value)
            + encode_arguments(rest),
    decreases rest.len(),
{
    let all = seq![a] + rest;
    if rest.len() == 0 {
        assert(all.drop_last() =~= Seq::<ArgumentView>::empty());
        assert(all.last() == a);
        assert(encode_arguments(all.drop_last()) =~= Seq::<u8>::empty());
        assert(encode_arguments(rest) =~= Seq::<u8>::empty());
        assert(encode_arguments(all) =~= netstring(a.name) + netstring(a.value)
            + encode_arguments(rest));
    } else {
        lemma_encode_arguments_front(a, rest.drop_last());
        assert(all.drop_last() =~= seq![a] + rest.drop_last());
        assert(all.last() == rest.last());
        assert(encode_arguments(all) =~= netstring(a.name) + netstring(a.value)
            + encode_arguments(rest));
    }
}

/// The arguments that were written from position `i` to the end are the
/// arguments that are read from there.
pub proof fn lemma_scan_arguments_written(s: Seq<u8>, i: int, args: Seq<ArgumentView>)
    requires
        0 <= i <= s.len(),
        forall|j: int|
            0 <= j < args.len() ==> (#[trigger] args[j]).name.len() <= u64::MAX
                && args[j].value.len() <= u64::MAX,
        s.subrange(i, s.len() as int) == encode_arguments(args),
    ensures
        scan_arguments(s, i) == Some(args),
    decreases args.len(),
{
    if args.len() == 0 {
        assert(s.subrange(i, s.len() as int).len() == 0);
    } else {
        let a = args[0];
        let rest = args.drop_first();
        assert(args =~= seq![a] + rest);
        lemma_encode_arguments_front(a, rest);
        let n1 = netstring(a.name);
        let n2 = netstring(a.value);
        let tail = encode_arguments(rest);
        assert(encode_arguments(args) =~= n1 + (n2 + tail));
        assert(s.subrange(i, i + n1.len() + (n2 + tail).len()) =~= s.subrange(i, s.len() as int));
        lemma_written_parts(s, i, n1, n2 + tail);
        lemma_scan_netstring_written(s, i, a.name);
        let j = i + n1.len();
        lemma_written_parts(s, j, n2, tail);
        lemma_scan_netstring_written(s, j, a.value);
        let k = j + n2.len();
        assert(s.subrange(k, s.len() as int) =~= tail);
        assert forall|m: int| 0 <= m < rest.len() implies (#[trigger] rest[m]).name.len()
            <= u64::MAX && rest[m].value.len() <= u64::MAX by {
            assert(rest[m] == args[m + 1]);
        }
        lemma_scan_arguments_written(s, k, rest);
    }
}

/// Reading the canonical key of a request gives back the request: nothing
/// of its content is lost in the key.
pub proof fn lemma_key_round_trip(r: RequestView)
    requires
        writable(r),
    ensures
        decode_key(canonical_key(r)) == Some(r),
{
    let args = arguments_in_order(r.arguments);
    let c = netstring(r.capability);
    let o = netstring(r.operation);
    let a = encode_arguments(args);
    let s = canonical_key(r);
    assert(s =~= c + (o + a));
    assert(s.subrange(0, (c.len() + (o + a).len()) as int) =~= s);
    lemma_written_parts(s, 0, c, o + a);
    lemma_scan_netstring_written(s, 0, r.capability);
    let j = c.len() as int;
    lemma_written_parts(s, j, o, a);
    lemma_scan_netstring_written(s, j, r.operation);
    let k = j + o.len();
    assert(s.subrange(k, s.len() as int) =~= a);
    lemma_scan_arguments_written(s, k, args);
    assert(decode_key(s) == Some(r)) by {
        assert(r == (RequestView {
            capability: r.capability,
            operation: r.operation,
            arguments: arguments_map(args),
        }));
    }
}

/// Requests with different content have different keys.
pub proof fn lemma_key_tells_requests_apart(a: RequestView, b: RequestView)
    requires
        writable(a),
        writable(b),
        canonical_key(a) == canonical_key(b),
    ensures
        a == b,
{
    lemma_key_round_trip(a);
    lemma_key_round_trip(b);
}

} // verus!
