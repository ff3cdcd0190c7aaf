//! Rules on policy URIs: the tag that is assumed when a policy is pulled, and
//! the scheme that is assumed when one is pushed.

use vstd::prelude::*;
use vstd::string::*;

verus! {

/// The scheme that marks a URI as pointing into an OCI registry.
pub open spec fn registry_scheme() -> Seq<char> {
    seq!['r', 'e', 'g', 'i', 's', 't', 'r', 'y']
}

/// The suffix appended to a registry URI that carries no tag.
pub open spec fn latest_suffix() -> Seq<char> {
    seq![':', 'l', 'a', 't', 'e', 's', 't']
}

/// Number of `':'` characters in `s`.
pub open spec fn colon_count(s: Seq<char>) -> nat
    decreases s.len(),
{
    if s.len() == 0 {
        0
    } else {
        colon_count(s.drop_last()) + if s.last() == ':' {
            1nat
        } else {
            0nat
        }
    }
}

/// A URI names a registry artifact without a tag when cutting it at every
/// `':'` gives exactly two pieces and the first piece is `registry`.
pub open spec fn names_untagged_registry(s: Seq<char>) -> bool {
    &&& colon_count(s) == 1
    &&& s.len() > 8
    &&& s.subrange(0, 8) == registry_scheme()
    &&& s[8] == ':'
}

/// The URI that is actually pulled for `s`.
pub open spec fn with_default_tag(s: Seq<char>) -> Seq<char> {
    if names_untagged_registry(s) {
        s + latest_suffix()
    } else {
        s
    }
}

proof fn lemma_colon_count_take(s: Seq<char>, n: int)
    requires
        0 <= n < s.len(),
    ensures
        colon_count(s.take(n + 1)) == colon_count(s.take(n)) + if s[n] == ':' {
            1nat
        } else {
            0nat
        },
{
    assert(s.take(n + 1).drop_last() == s.take(n));
}

/// Tells whether `uri` points into a registry and carries no tag.
pub fn is_registry_and_does_not_contain_tag(uri: &str) -> (res: bool)
    ensures
        res == names_untagged_registry(uri@),
{
    let n: usize = uri.unicode_len();
    let mut colons: usize = 0;
    let mut first: usize = n;
    let mut i: usize = 0;
    while i < n
        invariant
            n == uri@.len(),
            i <= n,
            colons <= i,
            colons == colon_count(uri@.take(i as int)),
            colons == 0 ==> first == n,
            colons > 0 ==> first < i && uri@[first as int] == ':',
            forall|j: int| 0 <= j < i && j < first ==> uri@[j] != ':',
        decreases n - i,
    {
        let c = uri.get_char(i);
        proof {
            lemma_colon_count_take(uri@, i as int);
        }
        if c == ':' {
            if colons == 0 {
                first = i;
            }
            colons = colons + 1;
        }
        i = i + 1;
    }
    assert(uri@.take(n as int) == uri@);
    if colons != 1 || first != 8 {
        return false;
    }
    let res = uri.get_char(0) == 'r' && uri.get_char(1) == 'e' && uri.get_char(2) == 'g'
        && uri.get_char(3) == 'i' && uri.get_char(4) == 's' && uri.get_char(5) == 't'
        && uri.get_char(6) == 'r' && uri.get_char(7) == 'y';
    assert(res == (uri@.subrange(0, 8) == registry_scheme())) by {
        if res {
            assert(uri@.subrange(0, 8) =~= registry_scheme());
        } else {
            let p = uri@.subrange(0, 8);
            assert(p[0] == uri@[0] && p[1] == uri@[1] && p[2] == uri@[2] && p[3] == uri@[3]
                && p[4] == uri@[4] && p[5] == uri@[5] && p[6] == uri@[6] && p[7] == uri@[7]);
        }
    }
    res
}

/// Returns `uri` with `:latest` appended when it points into a registry and
/// carries no tag, and `uri` unchanged otherwise.
pub fn add_latest_if_tag_not_present(uri: &str) -> (res: String)
    ensures
        res@ == with_default_tag(uri@),
{
    if is_registry_and_does_not_contain_tag(uri) {
        proof {
            reveal_strlit(":latest");
        }
        let mut out = String::from_str(uri);
        out.append(":latest");
        assert(out@ =~= uri@ + latest_suffix());
        out
    } else {
        String::from_str(uri)
    }
}

/// Whether `s` starts with `prefix`.
pub open spec fn has_prefix(s: Seq<char>, prefix: Seq<char>) -> bool {
    s.len() >= prefix.len() && s.subrange(0, prefix.len() as int) == prefix
}

/// The destination of a push: `uri` itself if it names the registry scheme,
/// else `uri` behind `registry://`.
pub open spec fn with_scheme(uri: Seq<char>) -> Seq<char> {
    if has_prefix(uri, "registry://"@) {
        uri
    } else {
        "registry://"@ + uri
    }
}

/// Tells whether `s` starts with `prefix`.
pub fn starts_with(s: &str, prefix: &str) -> (res: bool)
    ensures
        res == has_prefix(s@, prefix@),
{
    let n: usize = s.unicode_len();
    let m: usize = prefix.unicode_len();
    if n < m {
        return false;
    }
    let mut i: usize = 0;
    while i < m
        invariant
            n == s@.len(),
            m == prefix@.len(),
            m <= n,
            i <= m,
            forall|j: int| 0 <= j < i ==> s@[j] == prefix@[j],
        decreases m - i,
    {
        if s.get_char(i) != prefix.get_char(i) {
            assert(s@.subrange(0, m as int)[i as int] != prefix@[i as int]);
            return false;
        }
        i = i + 1;
    }
    assert(s@.subrange(0, m as int) =~= prefix@);
    true
}

/// Returns the destination of a push to `uri`: a destination without the
/// registry scheme gets it put in front.
pub fn add_registry_scheme_if_not_present(uri: &str) -> (res: String)
    ensures
        res@ == with_scheme(uri@),
{
    if starts_with(uri, "registry://") {
        String::from_str(uri)
    } else {
        String::from_str("registry://").concat(uri)
    }
}

} // verus!
