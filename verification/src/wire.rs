//! The two building blocks of the session format: decimal numbers that end
//! in a delimiter, and length-prefixed byte strings (`<len>:<bytes>,`).
//!
//! Every reader tells three outcomes apart: the item is there in full, the
//! input ends before the item does, or a byte contradicts the format.

use vstd::prelude::*;
use vstd::slice::*;

verus! {

pub const COLON: u8 = 58;

pub const COMMA: u8 = 44;

pub const SPACE: u8 = 32;

pub const NEWLINE: u8 = 10;

/// What a reader found at a position, in specifications.
pub enum SpecScan<T> {
    /// The item, and the position just behind it.
    Done { value: T, next: int },
    /// The input ended inside the item.
    Truncated,
    /// The bytes at the position are not an item.
    Corrupt,
}

/// What a reader found at a position.
#[derive(Debug, PartialEq, Eq)]
pub enum Scan<T> {
    /// The item, and the position just behind it.
    Done { value: T, next: usize },
    /// The input ended inside the item.
    Truncated,
    /// The bytes at the position are not an item.
    Corrupt,
}

pub open spec fn is_digit(b: u8) -> bool {
    48 <= b <= 57
}

pub open spec fn digit_of(b: u8) -> nat {
    if is_digit(b) {
        (b - 48) as nat
    } else {
        0
    }
}

/// The decimal digits of `n`, most significant first, without padding.
pub open spec fn decimal(n: nat) -> Seq<u8>
    decreases n,
{
    if n < 10 {
        seq![(48 + n) as u8]
    } else {
        decimal(n / 10).push((48 + n % 10) as u8)
    }
}

/// The number that a run of digits denotes.
pub open spec fn digits_value(d: Seq<u8>) -> nat
    decreases d.len(),
{
    if d.len() == 0 {
        0
    } else {
        digits_value(d.drop_last()) * 10 + digit_of(d.last())
    }
}

/// The first position at or after `i` that holds no digit.
pub open spec fn digit_run_end(s: Seq<u8>, i: int) -> int
    decreases s.len() - i,
{
    if 0 <= i < s.len() && is_digit(s[i]) {
        digit_run_end(s, i + 1)
    } else {
        i
    }
}

/// A number at position `i`: one or more digits, worth at most `u64::MAX`,
/// followed by `delim`.
pub open spec fn scan_number(s: Seq<u8>, i: int, delim: u8) -> SpecScan<nat> {
    let j = digit_run_end(s, i);
    let v = digits_value(s.subrange(i, j));
    if v > u64::MAX {
        SpecScan::Corrupt
    } else if j >= s.len() {
        SpecScan::Truncated
    } else if j == i || s[j] != delim {
        SpecScan::Corrupt
    } else {
        SpecScan::Done { value: v, next: j + 1 }
    }
}

/// The bytes that stand for `n` followed by `delim`.
pub open spec fn number(n: nat, delim: u8) -> Seq<u8> {
    decimal(n).push(delim)
}

/// A byte string with its length in front: `<len>:<bytes>,`.
pub open spec fn netstring(x: Seq<u8>) -> Seq<u8> {
    number(x.len(), COLON) + x + seq![COMMA]
}

/// A length-prefixed byte string at position `i`.
pub open spec fn scan_netstring(s: Seq<u8>, i: int) -> SpecScan<Seq<u8>> {
    match scan_number(s, i, COLON) {
        SpecScan::Done { value: n, next: j } => {
            if j + n >= s.len() {
                SpecScan::Truncated
            } else if s[j + n] != COMMA {
                SpecScan::Corrupt
            } else {
                SpecScan::Done { value: s.subrange(j, j + n), next: j + n + 1 }
            }
        },
        SpecScan::Truncated => SpecScan::Truncated,
        SpecScan::Corrupt => SpecScan::Corrupt,
    }
}

pub open spec fn number_agrees(r: Scan<u64>, m: SpecScan<nat>) -> bool {
    match m {
        SpecScan::Done { value, next } => r == (Scan::Done {
            value: value as u64,
            next: next as usize,
        }) && value <= u64::MAX && 0 <= next <= usize::MAX,
        SpecScan::Truncated => r is Truncated,
        SpecScan::Corrupt => r is Corrupt,
    }
}

pub open spec fn bytes_agree(r: Scan<Vec<u8>>, m: SpecScan<Seq<u8>>) -> bool {
    match m {
        SpecScan::Done { value, next } => {
            &&& r matches Scan::Done { value: v, next: n }
            &&& v@ == value
            &&& n == next
        },
        SpecScan::Truncated => r is Truncated,
        SpecScan::Corrupt => r is Corrupt,
    }
}

// ---------------------------------------------------------------------
// Facts about digits
// ---------------------------------------------------------------------
pub proof fn lemma_digit_run_end_bounds(s: Seq<u8>, i: int)
    requires
        0 <= i <= s.len(),
    ensures
        i <= digit_run_end(s, i) <= s.len(),
        forall|k: int| i <= k < digit_run_end(s, i) ==> is_digit(#[trigger] s[k]),
        digit_run_end(s, i) < s.len() ==> !is_digit(s[digit_run_end(s, i)]),
    decreases s.len() - i,
{
    if i < s.len() && is_digit(s[i]) {
        lemma_digit_run_end_bounds(s, i + 1);
    }
}

/// A run of digits that stops at `j` is the run that `digit_run_end` finds.
pub proof fn lemma_digit_run_end_is(s: Seq<u8>, i: int, j: int)
    requires
        0 <= i <= j <= s.len(),
        forall|k: int| i <= k < j ==> is_digit(#[trigger] s[k]),
        j < s.len() ==> !is_digit(s[j]),
    ensures
        digit_run_end(s, i) == j,
    decreases j - i,
{
    if i < j {
        lemma_digit_run_end_is(s, i + 1, j);
    }
}

/// Reading more digits never lowers the value.
pub proof fn lemma_digits_value_grows(d: Seq<u8>, k: int)
    requires
        0 <= k <= d.len(),
    ensures
        digits_value(d.take(k)) <= digits_value(d),
    decreases d.len() - k,
{
    if k == d.len() {
        assert(d.take(k) == d);
    } else {
        lemma_digits_value_grows(d, k + 1);
        assert(d.take(k + 1).drop_last() == d.take(k));
    }
}

pub proof fn lemma_decimal_shape(n: nat)
    ensures
        decimal(n).len() >= 1,
        forall|k: int| 0 <= k < decimal(n).len() ==> is_digit(#[trigger] decimal(n)[k]),
        digits_value(decimal(n)) == n,
    decreases n,
{
    if n < 10 {
        let d = decimal(n);
        assert(d.drop_last().len() == 0);
        assert(digits_value(d.drop_last()) == 0);
    } else {
        lemma_decimal_shape(n / 10);
        let d = decimal(n);
        assert(d.drop_last() == decimal(n / 10));
        assert(d.last() == (48 + n % 10) as u8);
    }
}

/// A number that was written at `i` is read back, whatever follows it.
pub proof fn lemma_scan_number_written(s: Seq<u8>, i: int, n: nat, delim: u8)
    requires
        0 <= i,
        n <= u64::MAX,
        !is_digit(delim),
        i + number(n, delim).len() <= s.len(),
        s.subrange(i, i + number(n, delim).len()) == number(n, delim),
    ensures
        scan_number(s, i, delim) == (SpecScan::Done {
            value: n,
            next: i + number(n, delim).len(),
        }),
{
    let d = decimal(n);
    let w = number(n, delim);
    let j = i + d.len();
    lemma_decimal_shape(n);
    assert forall|k: int| i <= k < j implies is_digit(#[trigger] s[k]) by {
        assert(s[k] == s.subrange(i, i + w.len())[k - i]);
        assert(w[k - i] == d[k - i]);
    }
    assert(s[j] == s.subrange(i, i + w.len())[j - i]);
    assert(w[d.len() as int] == delim);
    lemma_digit_run_end_is(s, i, j);
    assert(s.subrange(i, j) =~= d) by {
        assert forall|k: int| 0 <= k < d.len() implies s.subrange(i, j)[k] == d[k] by {
            assert(s[i + k] == s.subrange(i, i + w.len())[k]);
            assert(w[k] == d[k]);
        }
    }
}

/// A length-prefixed byte string that was written at `i` is read back.
pub proof fn lemma_scan_netstring_written(s: Seq<u8>, i: int, x: Seq<u8>)
    requires
        0 <= i,
        x.len() <= u64::MAX,
        i + netstring(x).len() <= s.len(),
        s.subrange(i, i + netstring(x).len()) == netstring(x),
    ensures
        scan_netstring(s, i) == (SpecScan::Done { value: x, next: i + netstring(x).len() }),
{
    let head = number(x.len(), COLON);
    let w = netstring(x);
    let j = i + head.len();
    assert(s.subrange(i, j) =~= head) by {
        assert forall|k: int| 0 <= k < head.len() implies s.subrange(i, j)[k] == head[k] by {
            assert(s[i + k] == s.subrange(i, i + w.len())[k]);
        }
    }
    lemma_scan_number_written(s, i, x.len(), COLON);
    assert(s[j + x.len()] == s.subrange(i, i + w.len())[(head.len() + x.len()) as int]);
    assert(s.subrange(j, j + x.len()) =~= x) by {
        assert forall|k: int| 0 <= k < x.len() implies s.subrange(j, j + x.len())[k] == x[k] by {
            assert(s[j + k] == s.subrange(i, i + w.len())[(head.len() + k) as int]);
        }
    }
}

// ---------------------------------------------------------------------
// Readers
// ---------------------------------------------------------------------
/// Reads a number that ends in `delim` at position `i`.
pub fn read_number(s: &[u8], i: usize, delim: u8) -> (r: Scan<u64>)
    requires
        i <= s@.len(),
    ensures
        number_agrees(r, scan_number(s@, i as int, delim)),
{
    let n: usize = s.len();
    let mut j: usize = i;
    let mut acc: u64 = 0;
    proof {
        lemma_digit_run_end_bounds(s@, i as int);
    }
    while j < n && 48 <= s[j] && s[j] <= 57
        invariant
            n == s@.len(),
            i <= j <= n,
            forall|k: int| i <= k < j ==> is_digit(#[trigger] s@[k]),
            acc == digits_value(s@.subrange(i as int, j as int)),
            j <= digit_run_end(s@, i as int) <= n,
        decreases n - j,
    {
        let d: u64 = (s[j] - 48) as u64;
        proof {
            lemma_digit_run_end_bounds(s@, i as int);
            let e = digit_run_end(s@, i as int);
            if e == j {
                assert(false);
            }
            let run = s@.subrange(i as int, e);
            assert(run.take(j + 1 - i) == s@.subrange(i as int, j + 1));
            lemma_digits_value_grows(run, j + 1 - i);
            assert(s@.subrange(i as int, j + 1).drop_last() == s@.subrange(i as int, j as int));
        }
        if acc > (u64::MAX - d) / 10 {
            return Scan::Corrupt;
        }
        acc = acc * 10 + d;
        j = j + 1;
    }
    proof {
        lemma_digit_run_end_is(s@, i as int, j as int);
    }
    if j >= n {
        Scan::Truncated
    } else if j == i || s[j] != delim {
        Scan::Corrupt
    } else {
        Scan::Done { value: acc, next: j + 1 }
    }
}

/// Reads a length-prefixed byte string at position `i`.
pub fn read_netstring(s: &[u8], i: usize) -> (r: Scan<Vec<u8>>)
    requires
        i <= s@.len(),
    ensures
        bytes_agree(r, scan_netstring(s@, i as int)),
{
    match read_number(s, i, COLON) {
        Scan::Done { value: len, next: j } => {
            let rest: usize = s.len() - j;
            if len >= rest as u64 {
                return Scan::Truncated;
            }
            let m: usize = len as usize;
            if s[j + m] != COMMA {
                return Scan::Corrupt;
            }
            let value = slice_to_vec(slice_subrange(s, j, j + m));
            Scan::Done { value, next: j + m + 1 }
        },
        Scan::Truncated => Scan::Truncated,
        Scan::Corrupt => Scan::Corrupt,
    }
}

// ---------------------------------------------------------------------
// Writers
// ---------------------------------------------------------------------
/// Appends the decimal digits of `n`.
pub fn put_decimal(out: &mut Vec<u8>, n: u64)
    ensures
        final(out)@ == old(out)@ + decimal(n as nat),
    decreases n,
{
    if n >= 10 {
        put_decimal(out, n / 10);
    }
    out.push(48 + (n % 10) as u8);
    assert(out@ =~= old(out)@ + decimal(n as nat));
}

/// Appends `n` followed by `delim`.
pub fn put_number(out: &mut Vec<u8>, n: u64, delim: u8)
    ensures
        final(out)@ == old(out)@ + number(n as nat, delim),
{
    put_decimal(out, n);
    out.push(delim);
    assert(out@ =~= old(out)@ + number(n as nat, delim));
}

/// Appends the bytes of `x`.
pub fn put_bytes(out: &mut Vec<u8>, x: &[u8])
    ensures
        final(out)@ == old(out)@ + x@,
{
    let n: usize = x.len();
    let mut k: usize = 0;
    while k < n
        invariant
            n == x@.len(),
            k <= n,
            out@ == old(out)@ + x@.take(k as int),
        decreases n - k,
    {
        out.push(x[k]);
        assert(x@.take(k + 1) == x@.take(k as int).push(x@[k as int]));
        k = k + 1;
    }
    assert(x@.take(n as int) == x@);
}

/// Appends `x` with its length in front.
pub fn put_netstring(out: &mut Vec<u8>, x: &[u8])
    ensures
        final(out)@ == old(out)@ + netstring(x@),
{
    put_number(out, x.len() as u64, COLON);
    put_bytes(out, x);
    out.push(COMMA);
    assert(out@ =~= old(out)@ + netstring(x@));
}

} // verus!
