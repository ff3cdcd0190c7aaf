//! The rules on the options of the command line: which of them may stand
//! together, and what they ask for. Everything here works on plain values;
//! reading the options and the files they name is left to the caller.

use crate::order::{
    lemma_text_asymmetric, lemma_text_irreflexive, lemma_text_total, lemma_text_transitive,
    text_less, text_place_of, Place,
};
use vstd::prelude::*;
use vstd::string::*;

verus! {

/// A combination of options that cannot be served.
#[derive(Debug, Clone, PartialEq, Eq)]
pub enum FlagError {
    /// Settings were given both as a file and inline.
    SettingsConflict,
    /// A verification config file was given together with other
    /// verification options.
    VerificationConfigConflict,
    /// Annotations are to be verified, but nothing says whose signature
    /// carries them.
    AnnotationsWithoutVerifier,
    /// A GitHub repository was given without its owner.
    RepositoryWithoutOwner,
    /// Only one of certificate email and OIDC issuer was given.
    IncompleteIssuer,
}

impl FlagError {
    /// The message that the user gets to see.
    pub fn message(&self) -> (res: String)
        ensures
            *self is SettingsConflict ==> res@
                == "'settings-path' and 'settings-json' cannot be used at the same time"@,
            *self is VerificationConfigConflict ==> res@
                == "verification-config-path cannot be used in conjunction with other verification flags"@,
            *self is AnnotationsWithoutVerifier ==> res@
                == "Intending to verify annotations, but no verification keys, OIDC issuer or GitHub owner were passed"@,
            *self is RepositoryWithoutOwner ==> res@
                == "Intending to verify GitHub actions signature, but the repository owner is missing."@,
            *self is IncompleteIssuer ==> res@
                == "Intending to verify OIDC issuer, but no email or issuer were provided. You must pass the email and OIDC issuer to be validated together "@,
    {
        match self {
            FlagError::SettingsConflict => String::from_str(
                "'settings-path' and 'settings-json' cannot be used at the same time",
            ),
            FlagError::VerificationConfigConflict => String::from_str(
                "verification-config-path cannot be used in conjunction with other verification flags",
            ),
            FlagError::AnnotationsWithoutVerifier => String::from_str(
                "Intending to verify annotations, but no verification keys, OIDC issuer or GitHub owner were passed",
            ),
            FlagError::RepositoryWithoutOwner => String::from_str(
                "Intending to verify GitHub actions signature, but the repository owner is missing.",
            ),
            FlagError::IncompleteIssuer => String::from_str(
                "Intending to verify OIDC issuer, but no email or issuer were provided. You must pass the email and OIDC issuer to be validated together ",
            ),
        }
    }
}

// ---------------------------------------------------------------------
// Policy settings
// ---------------------------------------------------------------------
/// Where the settings of a policy come from.
#[derive(Debug, Clone, PartialEq, Eq)]
pub enum SettingsSource {
    /// No settings were given.
    Absent,
    /// The settings are to be read from the file at `path`.
    File { path: String },
    /// The settings were given on the command line.
    Inline { json: String },
}

/// The source of the settings for the two options that can name one:
/// a conflict if both are given.
pub open spec fn settings_source_of(path: Option<String>, json: Option<String>) -> Result<
    SettingsSource,
    FlagError,
> {
    match (path, json) {
        (Some(_), Some(_)) => Err(FlagError::SettingsConflict),
        (Some(path), None) => Ok(SettingsSource::File { path }),
        (None, Some(json)) => Ok(SettingsSource::Inline { json }),
        (None, None) => Ok(SettingsSource::Absent),
    }
}

/// Tells where the settings come from, given the settings file and the
/// inline settings as far as they were passed.
pub fn settings_source(path: Option<String>, json: Option<String>) -> (res: Result<
    SettingsSource,
    FlagError,
>)
    ensures
        res == settings_source_of(path, json),
{
    match path {
        Some(path) => match json {
            Some(_) => Err(FlagError::SettingsConflict),
            None => Ok(SettingsSource::File { path }),
        },
        None => match json {
            Some(json) => Ok(SettingsSource::Inline { json }),
            None => Ok(SettingsSource::Absent),
        },
    }
}

// ---------------------------------------------------------------------
// Configuration files
// ---------------------------------------------------------------------
/// Which configuration file is read.
#[derive(Debug, Clone, PartialEq, Eq)]
pub enum ConfigSource {
    /// The file that the user named.
    Given { path: String },
    /// The file at the default place.
    Default,
    /// None.
    Absent,
}

pub open spec fn config_source_of(given: Option<String>, default_exists: bool) -> ConfigSource {
    match given {
        Some(path) => ConfigSource::Given { path },
        None => if default_exists {
            ConfigSource::Default
        } else {
            ConfigSource::Absent
        },
    }
}

/// Picks the configuration file: the one that was named, else the default
/// one if it exists.
pub fn config_source(given: Option<String>, default_exists: bool) -> (res: ConfigSource)
    ensures
        res == config_source_of(given, default_exists),
{
    match given {
        Some(path) => ConfigSource::Given { path },
        None => if default_exists {
            ConfigSource::Default
        } else {
            ConfigSource::Absent
        },
    }
}

/// Where the rules of verification come from.
#[derive(Debug, Clone, PartialEq, Eq)]
pub enum VerificationSource {
    /// From the verification options of the command line.
    Flags,
    /// From a verification config file.
    Config { source: ConfigSource },
}

pub open spec fn verification_source_of(
    from_flags: bool,
    config_path: Option<String>,
    default_exists: bool,
) -> Result<VerificationSource, FlagError> {
    if from_flags {
        if config_path is Some {
            Err(FlagError::VerificationConfigConflict)
        } else {
            Ok(VerificationSource::Flags)
        }
    } else {
        Ok(VerificationSource::Config { source: config_source_of(config_path, default_exists) })
    }
}

/// Picks the source of the rules of verification. `from_flags` says whether
/// the verification options of the command line gave any rules; they do not
/// go together with a config file.
pub fn verification_source(
    from_flags: bool,
    config_path: Option<String>,
    default_exists: bool,
) -> (res: Result<VerificationSource, FlagError>)
    ensures
        res == verification_source_of(from_flags, config_path, default_exists),
{
    if from_flags {
        match config_path {
            Some(_) => Err(FlagError::VerificationConfigConflict),
            None => Ok(VerificationSource::Flags),
        }
    } else {
        Ok(VerificationSource::Config { source: config_source(config_path, default_exists) })
    }
}

// ---------------------------------------------------------------------
// Verification options
// ---------------------------------------------------------------------
/// An annotation that a signature has to carry.
#[derive(Debug, Clone, PartialEq, Eq)]
pub struct Annotation {
    pub key: String,
    pub value: String,
}

/// The first position at or after `from` that holds `c`, or the length of
/// `s` where there is none.
pub open spec fn first_index_of(s: Seq<char>, c: char, from: int) -> int
    decreases s.len() - from,
{
    if from < 0 || from >= s.len() {
        s.len() as int
    } else if s[from] == c {
        from
    } else {
        first_index_of(s, c, from + 1)
    }
}

/// An annotation option `key=value`, cut at its first `=`; `None` where it
/// holds no `=`.
pub open spec fn split_annotation(s: Seq<char>) -> Option<(Seq<char>, Seq<char>)> {
    let i = first_index_of(s, '=', 0);
    if i >= s.len() {
        None
    } else {
        Some((s.subrange(0, i), s.subrange(i + 1, s.len() as int)))
    }
}

/// The annotations among `items`, in order; items without `=` are left out.
pub open spec fn parsed_annotations(items: Seq<String>) -> Seq<(Seq<char>, Seq<char>)>
    decreases items.len(),
{
    if items.len() == 0 {
        Seq::empty()
    } else {
        let rest = parsed_annotations(items.drop_last());
        match split_annotation(items.last()@) {
            Some(pair) => rest.push(pair),
            None => rest,
        }
    }
}

pub open spec fn annotations_view(v: Seq<Annotation>) -> Seq<(Seq<char>, Seq<char>)> {
    Seq::new(v.len(), |i: int| (v[i].key@, v[i].value@))
}

/// The first position of `c` from `from` on is `i` if `c` stands at `i` and
/// nowhere in front of it.
pub proof fn lemma_first_index_of(s: Seq<char>, c: char, from: int, i: int)
    requires
        0 <= from <= i <= s.len(),
        forall|k: int| from <= k < i ==> s[k] != c,
        i < s.len() ==> s[i] == c,
    ensures
        first_index_of(s, c, from) == i,
    decreases i - from,
{
    if from < i {
        lemma_first_index_of(s, c, from + 1, i);
    }
}

/// Cuts an annotation option at its first `=`.
pub fn parse_annotation(item: &str) -> (res: Option<Annotation>)
    ensures
        match split_annotation(item@) {
            Some((key, value)) => res matches Some(a) && a.key@ == key && a.value@ == value,
            None => res is None,
        },
{
    let n: usize = item.unicode_len();
    let mut i: usize = 0;
    while i < n && item.get_char(i) != '='
        invariant
            n == item@.len(),
            i <= n,
            forall|k: int| 0 <= k < i ==> item@[k] != '=',
        decreases n - i,
    {
        i = i + 1;
    }
    proof {
        lemma_first_index_of(item@, '=', 0, i as int);
    }
    if i >= n {
        None
    } else {
        let key = String::from_str(item.substring_char(0, i));
        let value = String::from_str(item.substring_char(i + 1, n));
        Some(Annotation { key, value })
    }
}

/// The mapping that a list of annotations stands for: where a key occurs
/// more than once, the last of its values is the one that counts.
pub open spec fn annotation_map(pairs: Seq<(Seq<char>, Seq<char>)>) -> Map<Seq<char>, Seq<char>>
    decreases pairs.len(),
{
    if pairs.len() == 0 {
        Map::empty()
    } else {
        annotation_map(pairs.drop_last()).insert(pairs.last().0, pairs.last().1)
    }
}

/// Whether the keys grow strictly from each annotation to the next.
pub open spec fn keys_increase(pairs: Seq<(Seq<char>, Seq<char>)>) -> bool {
    forall|i: int, j: int|
        #![trigger pairs[i], pairs[j]]
        0 <= i < j < pairs.len() ==> text_less(pairs[i].0, pairs[j].0)
}

/// Whether no key occurs twice.
pub open spec fn keys_distinct(pairs: Seq<(Seq<char>, Seq<char>)>) -> bool {
    forall|i: int, j: int|
        #![trigger pairs[i], pairs[j]]
        0 <= i < j < pairs.len() ==> pairs[i].0 != pairs[j].0
}

/// The annotations of a mapping in the order of their keys.
pub open spec fn annotations_in_order(m: Map<Seq<char>, Seq<char>>) -> Seq<(Seq<char>, Seq<char>)> {
    choose|s: Seq<(Seq<char>, Seq<char>)>| keys_increase(s) && annotation_map(s) == m
}

// ---------------------------------------------------------------------
// Facts about lists of annotations
// ---------------------------------------------------------------------
/// The mapping of a list holds exactly the keys of the list, and for each
/// key a value that the list gives it.
pub proof fn lemma_annotation_map_holds(pairs: Seq<(Seq<char>, Seq<char>)>)
    ensures
        forall|i: int|
            0 <= i < pairs.len() ==> annotation_map(pairs).dom().contains((#[trigger] pairs[i]).0),
        forall|k: Seq<char>|
            annotation_map(pairs).dom().contains(k) ==> exists|i: int|
                0 <= i < pairs.len() && #[trigger] pairs[i] == (k, annotation_map(pairs)[k]),
    decreases pairs.len(),
{
    if pairs.len() > 0 {
        let d = pairs.drop_last();
        let last = pairs.last();
        lemma_annotation_map_holds(d);
        assert forall|i: int| 0 <= i < pairs.len() implies annotation_map(pairs).dom().contains(
            (#[trigger] pairs[i]).0,
        ) by {
            if i < pairs.len() - 1 {
                assert(d[i] == pairs[i]);
            }
        }
        assert forall|k: Seq<char>| annotation_map(pairs).dom().contains(k) implies exists|i: int|
            0 <= i < pairs.len() && #[trigger] pairs[i] == (k, annotation_map(pairs)[k]) by {
            if k == last.0 {
                assert(pairs[pairs.len() - 1] == (k, annotation_map(pairs)[k]));
            } else {
                assert(annotation_map(d).dom().contains(k));
                let i = choose|i: int|
                    0 <= i < d.len() && #[trigger] d[i] == (k, annotation_map(d)[k]);
                assert(pairs[i] == (k, annotation_map(pairs)[k]));
            }
        }
    }
}

/// In a list without repeated keys every annotation has its own value in
/// the mapping.
pub proof fn lemma_annotation_map_of_distinct(pairs: Seq<(Seq<char>, Seq<char>)>)
    requires
        keys_distinct(pairs),
    ensures
        forall|i: int|
            0 <= i < pairs.len() ==> annotation_map(pairs).dom().contains((#[trigger] pairs[i]).0)
                && annotation_map(pairs)[pairs[i].0] == pairs[i].1,
{
    lemma_annotation_map_holds(pairs);
    assert forall|i: int| 0 <= i < pairs.len() implies annotation_map(pairs).dom().contains(
        (#[trigger] pairs[i]).0,
    ) && annotation_map(pairs)[pairs[i].0] == pairs[i].1 by {
        let k = pairs[i].0;
        let j = choose|j: int|
            0 <= j < pairs.len() && #[trigger] pairs[j] == (k, annotation_map(pairs)[k]);
        if i < j {
            assert(pairs[i].0 != pairs[j].0);
        } else if j < i {
            assert(pairs[j].0 != pairs[i].0);
        }
    }
}

/// Keys that grow strictly do not repeat.
pub proof fn lemma_increasing_is_distinct(pairs: Seq<(Seq<char>, Seq<char>)>)
    requires
        keys_increase(pairs),
    ensures
        keys_distinct(pairs),
{
    assert forall|i: int, j: int| 0 <= i < j < pairs.len() implies (#[trigger] pairs[i]).0
        != (#[trigger] pairs[j]).0 by {
        assert(text_less(pairs[i].0, pairs[j].0));
        lemma_text_irreflexive(pairs[i].0);
    }
}

proof fn lemma_keys_increase_drop_last(pairs: Seq<(Seq<char>, Seq<char>)>)
    requires
        keys_increase(pairs),
        pairs.len() > 0,
    ensures
        keys_increase(pairs.drop_last()),
{
    let d = pairs.drop_last();
    assert forall|i: int, j: int| 0 <= i < j < d.len() implies text_less(
        (#[trigger] d[i]).0,
        (#[trigger] d[j]).0,
    ) by {
        assert(d[i] == pairs[i] && d[j] == pairs[j]);
    }
}

/// Two lists in the order of their keys that stand for the same mapping are
/// the same list.
pub proof fn lemma_increasing_is_unique(
    s: Seq<(Seq<char>, Seq<char>)>,
    t: Seq<(Seq<char>, Seq<char>)>,
)
    requires
        keys_increase(s),
        keys_increase(t),
        annotation_map(s) == annotation_map(t),
    ensures
        s == t,
    decreases s.len(),
{
    lemma_increasing_is_distinct(s);
    lemma_increasing_is_distinct(t);
    lemma_annotation_map_of_distinct(s);
    lemma_annotation_map_of_distinct(t);
    lemma_annotation_map_holds(s);
    lemma_annotation_map_holds(t);
    if s.len() == 0 {
        if t.len() > 0 {
            assert(annotation_map(t).dom().contains(t[0].0));
            assert(false);
        }
        assert(s =~= t);
    } else if t.len() == 0 {
        assert(annotation_map(s).dom().contains(s[0].0));
        assert(false);
    } else {
        let a = s.last();
        let b = t.last();
        assert(s[s.len() - 1] == a);
        assert(t[t.len() - 1] == b);
        assert(annotation_map(t).dom().contains(a.0));
        let i = choose|i: int|
            0 <= i < t.len() && #[trigger] t[i] == (a.0, annotation_map(t)[a.0]);
        assert(annotation_map(s).dom().contains(b.0));
        let j = choose|j: int|
            0 <= j < s.len() && #[trigger] s[j] == (b.0, annotation_map(s)[b.0]);
        if a.0 != b.0 {
            assert(i < t.len() - 1);
            assert(text_less(t[i].0, t[t.len() - 1].0));
            assert(j < s.len() - 1);
            assert(text_less(s[j].0, s[s.len() - 1].0));
            lemma_text_asymmetric(a.0, b.0);
            assert(false);
        }
        assert(a.1 == b.1);
        assert(a == b);
        let sd = s.drop_last();
        let td = t.drop_last();
        lemma_keys_increase_drop_last(s);
        lemma_keys_increase_drop_last(t);
        lemma_annotation_map_holds(sd);
        lemma_annotation_map_holds(td);
        assert(!annotation_map(sd).dom().contains(a.0)) by {
            if annotation_map(sd).dom().contains(a.0) {
                let k = choose|k: int|
                    0 <= k < sd.len() && #[trigger] sd[k] == (a.0, annotation_map(sd)[a.0]);
                assert(sd[k] == s[k]);
                assert(text_less(s[k].0, s[s.len() - 1].0));
                lemma_text_irreflexive(a.0);
            }
        }
        assert(!annotation_map(td).dom().contains(a.0)) by {
            if annotation_map(td).dom().contains(a.0) {
                let k = choose|k: int|
                    0 <= k < td.len() && #[trigger] td[k] == (a.0, annotation_map(td)[a.0]);
                assert(td[k] == t[k]);
                assert(text_less(t[k].0, t[t.len() - 1].0));
                lemma_text_irreflexive(a.0);
            }
        }
        assert(annotation_map(sd) =~= annotation_map(s).remove(a.0));
        assert(annotation_map(td) =~= annotation_map(t).remove(a.0));
        lemma_increasing_is_unique(sd, td);
        assert(s =~= sd.push(a));
        assert(t =~= td.push(b));
    }
}

/// Putting a new key into a list at any place adds it to the mapping.
proof fn lemma_annotation_insert_at(
    pairs: Seq<(Seq<char>, Seq<char>)>,
    p: int,
    a: (Seq<char>, Seq<char>),
)
    requires
        0 <= p <= pairs.len(),
        forall|j: int| p <= j < pairs.len() ==> (#[trigger] pairs[j]).0 != a.0,
    ensures
        annotation_map(pairs.insert(p, a)) == annotation_map(pairs).insert(a.0, a.1),
    decreases pairs.len() - p,
{
    let t = pairs.insert(p, a);
    if p == pairs.len() {
        assert(t.drop_last() =~= pairs);
        assert(t.last() == a);
    } else {
        let d = pairs.drop_last();
        assert(t.last() == pairs.last());
        assert(t.drop_last() =~= d.insert(p, a));
        assert forall|j: int| p <= j < d.len() implies (#[trigger] d[j]).0 != a.0 by {
            assert(d[j] == pairs[j]);
        }
        lemma_annotation_insert_at(d, p, a);
        assert(pairs[pairs.len() - 1].0 != a.0);
        assert(annotation_map(t) =~= annotation_map(pairs).insert(a.0, a.1));
    }
}

/// Replacing the value of a key in a list replaces it in the mapping.
proof fn lemma_annotation_update_at(
    pairs: Seq<(Seq<char>, Seq<char>)>,
    p: int,
    a: (Seq<char>, Seq<char>),
)
    requires
        0 <= p < pairs.len(),
        pairs[p].0 == a.0,
        forall|j: int| p < j < pairs.len() ==> (#[trigger] pairs[j]).0 != a.0,
    ensures
        annotation_map(pairs.update(p, a)) == annotation_map(pairs).insert(a.0, a.1),
    decreases pairs.len() - p,
{
    let t = pairs.update(p, a);
    let d = pairs.drop_last();
    if p == pairs.len() - 1 {
        assert(t.drop_last() =~= d);
        assert(t.last() == a);
        assert(annotation_map(t) =~= annotation_map(pairs).insert(a.0, a.1));
    } else {
        assert(t.last() == pairs.last());
        assert(t.drop_last() =~= d.update(p, a));
        assert forall|j: int| p < j < d.len() implies (#[trigger] d[j]).0 != a.0 by {
            assert(d[j] == pairs[j]);
        }
        assert(d[p] == pairs[p]);
        lemma_annotation_update_at(d, p, a);
        assert(pairs[pairs.len() - 1].0 != a.0);
        assert(annotation_map(t) =~= annotation_map(pairs).insert(a.0, a.1));
    }
}

/// The order in which annotations are given does not matter: two lists that
/// hold the same annotations, none of them with a key of another, stand for
/// the same mapping, and so for the same annotations in the order of their
/// keys.
pub proof fn lemma_annotation_order_is_immaterial(
    first: Seq<(Seq<char>, Seq<char>)>,
    second: Seq<(Seq<char>, Seq<char>)>,
)
    requires
        keys_distinct(first),
        forall|pair: (Seq<char>, Seq<char>)| first.contains(pair) <==> second.contains(pair),
    ensures
        annotation_map(first) == annotation_map(second),
        annotations_in_order(annotation_map(first)) == annotations_in_order(
            annotation_map(second),
        ),
{
    let m = annotation_map(first);
    let n = annotation_map(second);
    lemma_annotation_map_holds(first);
    lemma_annotation_map_holds(second);
    lemma_annotation_map_of_distinct(first);
    assert forall|k: Seq<char>| m.dom().contains(k) implies n.dom().contains(k) && n[k] == m[k] by {
        let i = choose|i: int| 0 <= i < first.len() && #[trigger] first[i] == (k, m[k]);
        assert(first.contains(first[i]));
        assert(second.contains(first[i]));
        let j = choose|j: int| 0 <= j < second.len() && second[j] == first[i];
        assert(n.dom().contains(second[j].0));
        let w = choose|w: int| 0 <= w < second.len() && #[trigger] second[w] == (k, n[k]);
        assert(second.contains(second[w]));
        assert(first.contains(second[w]));
        let x = choose|x: int| 0 <= x < first.len() && first[x] == second[w];
        if x < i {
            assert(first[x].0 != first[i].0);
        } else if i < x {
            assert(first[i].0 != first[x].0);
        }
    }
    assert forall|k: Seq<char>| n.dom().contains(k) implies m.dom().contains(k) by {
        let w = choose|w: int| 0 <= w < second.len() && #[trigger] second[w] == (k, n[k]);
        assert(second.contains(second[w]));
        assert(first.contains(second[w]));
        let x = choose|x: int| 0 <= x < first.len() && first[x] == second[w];
        assert(m.dom().contains(first[x].0));
    }
    assert(m =~= n);
}

/// Whether one of the options reads as `pair`.
pub open spec fn asks_for(items: Seq<String>, pair: (Seq<char>, Seq<char>)) -> bool {
    exists|i: int| 0 <= i < items.len() && #[trigger] split_annotation(items[i]@) == Some(pair)
}

/// Whether one of the options has the text `text`.
pub open spec fn offers(items: Seq<String>, text: Seq<char>) -> bool {
    exists|i: int| 0 <= i < items.len() && (#[trigger] items[i])@ == text
}

/// The annotations that are read from a list of options are those that its
/// options read as.
pub proof fn lemma_parsed_holds(items: Seq<String>, pair: (Seq<char>, Seq<char>))
    ensures
        parsed_annotations(items).contains(pair) == asks_for(items, pair),
    decreases items.len(),
{
    if items.len() > 0 {
        let d = items.drop_last();
        let rest = parsed_annotations(d);
        let all = parsed_annotations(items);
        lemma_parsed_holds(d, pair);
        if asks_for(d, pair) {
            let i = choose|i: int|
                0 <= i < d.len() && #[trigger] split_annotation(d[i]@) == Some(pair);
            assert(d[i] == items[i]);
            assert(split_annotation(items[i]@) == Some(pair));
            let j = choose|j: int| 0 <= j < rest.len() && rest[j] == pair;
            assert(all[j] == pair);
        }
        if split_annotation(items.last()@) == Some(pair) {
            assert(split_annotation(items[items.len() - 1]@) == Some(pair));
            assert(all[all.len() - 1] == pair);
        }
        if all.contains(pair) && !asks_for(items, pair) {
            let j = choose|j: int| 0 <= j < all.len() && all[j] == pair;
            if j < rest.len() {
                assert(rest[j] == pair);
                assert(rest.contains(pair));
            }
            assert(false);
        }
        if asks_for(items, pair) && !all.contains(pair) {
            let i = choose|i: int|
                0 <= i < items.len() && #[trigger] split_annotation(items[i]@) == Some(pair);
            if i < d.len() {
                assert(d[i] == items[i]);
                assert(split_annotation(d[i]@) == Some(pair));
            }
            assert(false);
        }
    }
}

/// The order in which the annotation options are given does not matter:
/// two lists with the same options, no two of them for one key, ask for the
/// same annotations.
pub proof fn lemma_option_order_is_immaterial(first: Seq<String>, second: Seq<String>)
    requires
        keys_distinct(parsed_annotations(first)),
        forall|text: Seq<char>| offers(first, text) <==> offers(second, text),
    ensures
        annotation_map(parsed_annotations(first)) == annotation_map(parsed_annotations(second)),
        annotations_in_order(annotation_map(parsed_annotations(first))) == annotations_in_order(
            annotation_map(parsed_annotations(second)),
        ),
        (parsed_annotations(first).len() == 0) == (parsed_annotations(second).len() == 0),
{
    let p = parsed_annotations(first);
    let q = parsed_annotations(second);
    assert forall|pair: (Seq<char>, Seq<char>)| p.contains(pair) <==> q.contains(pair) by {
        lemma_parsed_holds(first, pair);
        lemma_parsed_holds(second, pair);
        if asks_for(first, pair) {
            let i = choose|i: int|
                0 <= i < first.len() && #[trigger] split_annotation(first[i]@) == Some(pair);
            assert(offers(first, first[i]@));
            assert(offers(second, first[i]@));
            let j = choose|j: int| 0 <= j < second.len() && (#[trigger] second[j])@ == first[i]@;
            assert(split_annotation(second[j]@) == Some(pair));
        }
        if asks_for(second, pair) {
            let i = choose|i: int|
                0 <= i < second.len() && #[trigger] split_annotation(second[i]@) == Some(pair);
            assert(offers(second, second[i]@));
            assert(offers(first, second[i]@));
            let j = choose|j: int| 0 <= j < first.len() && (#[trigger] first[j])@ == second[i]@;
            assert(split_annotation(first[j]@) == Some(pair));
        }
    }
    lemma_annotation_order_is_immaterial(p, q);
    if p.len() > 0 {
        assert(p.contains(p[0]));
    }
    if q.len() > 0 {
        assert(q.contains(q[0]));
    }
}

/// Lists in the order of their keys that stand for the same mapping are
/// the same, and are the annotations of that mapping in order.
pub proof fn lemma_same_mapping_same_annotations(
    a: Seq<(Seq<char>, Seq<char>)>,
    b: Seq<(Seq<char>, Seq<char>)>,
)
    requires
        keys_increase(a),
        keys_increase(b),
        annotation_map(a) == annotation_map(b),
    ensures
        a == b,
        a == annotations_in_order(annotation_map(a)),
{
    lemma_increasing_is_unique(a, b);
    let c = annotations_in_order(annotation_map(a));
    assert(keys_increase(a) && annotation_map(a) == annotation_map(a));
    lemma_increasing_is_unique(c, a);
}

/// Puts an annotation into a list that is kept in the order of its keys; an
/// annotation with the same key gives way to it.
fn put_annotation(out: &mut Vec<Annotation>, a: Annotation)
    requires
        keys_increase(annotations_view(old(out)@)),
    ensures
        keys_increase(annotations_view(final(out)@)),
        final(out)@.len() > 0,
        annotation_map(annotations_view(final(out)@)) == annotation_map(
            annotations_view(old(out)@),
        ).insert(a.key@, a.value@),
{
    let ghost before = annotations_view(out@);
    let ghost pair = (a.key@, a.value@);
    let n: usize = out.len();
    let mut p: usize = 0;
    let mut found: bool = false;
    while p < n && !found
        invariant
            n == out@.len(),
            before == annotations_view(out@),
            pair == (a.key@, a.value@),
            p <= n,
            forall|j: int| 0 <= j < p ==> text_less((#[trigger] before[j]).0, pair.0),
            found ==> p < n && !text_less(before[p as int].0, pair.0),
        decreases n - p + if found { 0int } else { 1int },
    {
        assert(before[p as int] == (out@[p as int].key@, out@[p as int].value@));
        match text_place_of(out[p].key.as_str(), a.key.as_str()) {
            Place::Before => {
                p = p + 1;
            },
            _ => {
                found = true;
            },
        }
    }
    let same = p < n && match text_place_of(out[p].key.as_str(), a.key.as_str()) {
        Place::Same => true,
        _ => false,
    };
    proof {
        if p < n {
            assert(before[p as int] == (out@[p as int].key@, out@[p as int].value@));
        }
    }
    if same {
        proof {
            assert forall|j: int| p < j < before.len() implies (#[trigger] before[j]).0
                != pair.0 by {
                assert(text_less(before[p as int].0, before[j].0));
                lemma_text_irreflexive(pair.0);
            }
            lemma_annotation_update_at(before, p as int, pair);
        }
        out.set(p, a);
        proof {
            let after = annotations_view(out@);
            assert(after =~= before.update(p as int, pair));
            assert forall|i: int, j: int| 0 <= i < j < after.len() implies text_less(
                (#[trigger] after[i]).0,
                (#[trigger] after[j]).0,
            ) by {
                assert(text_less(before[i].0, before[j].0));
            }
        }
    } else {
        proof {
            assert forall|j: int| p <= j < before.len() implies text_less(
                pair.0,
                (#[trigger] before[j]).0,
            ) by {
                lemma_text_total(before[p as int].0, pair.0);
                if j > p {
                    assert(text_less(before[p as int].0, before[j].0));
                    lemma_text_transitive(pair.0, before[p as int].0, before[j].0);
                }
            }
            assert forall|j: int| p <= j < before.len() implies (#[trigger] before[j]).0
                != pair.0 by {
                lemma_text_irreflexive(pair.0);
            }
            lemma_annotation_insert_at(before, p as int, pair);
        }
        out.insert(p, a);
        proof {
            let after = annotations_view(out@);
            assert(after =~= before.insert(p as int, pair));
            assert forall|i: int, j: int| 0 <= i < j < after.len() implies text_less(
                (#[trigger] after[i]).0,
                (#[trigger] after[j]).0,
            ) by {
                if i < p && j < p {
                    assert(text_less(before[i].0, before[j].0));
                } else if i < p && j == p {
                    assert(text_less(before[i].0, pair.0));
                } else if i < p && j > p {
                    assert(text_less(before[i].0, before[j - 1].0));
                } else if i == p {
                    assert(text_less(pair.0, before[j - 1].0));
                } else {
                    assert(text_less(before[i - 1].0, before[j - 1].0));
                }
            }
        }
    }
}

/// Reads the annotation options into the annotations that they ask for:
/// one for every key, the last that was given for it, in the order of the
/// keys, whatever the order of the options. `None` where no option holds a
/// `=`, and only there.
pub fn parse_annotations(items: &Vec<String>) -> (res: Option<Vec<Annotation>>)
    ensures
        match res {
            Some(v) => {
                &&& v@.len() > 0
                &&& parsed_annotations(items@).len() > 0
                &&& keys_increase(annotations_view(v@))
                &&& annotation_map(annotations_view(v@)) == annotation_map(
                    parsed_annotations(items@),
                )
                &&& annotations_view(v@) == annotations_in_order(
                    annotation_map(parsed_annotations(items@)),
                )
            },
            None => parsed_annotations(items@).len() == 0,
        },
{
    let mut out: Vec<Annotation> = Vec::new();
    let n: usize = items.len();
    let mut i: usize = 0;
    assert(parsed_annotations(items@.take(0)) =~= Seq::empty());
    assert(annotations_view(out@) =~= Seq::empty());
    while i < n
        invariant
            n == items@.len(),
            i <= n,
            keys_increase(annotations_view(out@)),
            annotation_map(annotations_view(out@)) == annotation_map(
                parsed_annotations(items@.take(i as int)),
            ),
            (out@.len() == 0) == (parsed_annotations(items@.take(i as int)).len() == 0),
        decreases n - i,
    {
        proof {
            assert(items@.take(i + 1).drop_last() =~= items@.take(i as int));
            assert(items@.take(i + 1).last() == items@[i as int]);
        }
        match parse_annotation(items[i].as_str()) {
            Some(a) => {
                proof {
                    let grown = parsed_annotations(items@.take(i as int)).push((a.key@, a.value@));
                    assert(grown.drop_last() =~= parsed_annotations(items@.take(i as int)));
                    assert(grown.last() == (a.key@, a.value@));
                }
                put_annotation(&mut out, a);
            },
            None => {},
        }
        i = i + 1;
    }
    assert(items@.take(n as int) =~= items@);
    if out.len() == 0 {
        None
    } else {
        proof {
            let a = annotations_view(out@);
            lemma_same_mapping_same_annotations(a, a);
        }
        Some(out)
    }
}

/// The verification options as they were passed; `None` for an option that
/// was not.
#[derive(Debug, Clone, PartialEq, Eq)]
pub struct VerificationFlags {
    /// Files with public keys.
    pub key_files: Option<Vec<String>>,
    /// Annotations, each as `key=value`.
    pub annotations: Option<Vec<String>>,
    pub cert_email: Option<String>,
    pub cert_oidc_issuer: Option<String>,
    pub github_owner: Option<String>,
    pub github_repo: Option<String>,
}

/// A signature that a policy has to carry.
#[derive(Debug, Clone, PartialEq, Eq)]
pub enum SignatureRule {
    /// Signed with a certificate of `issuer` for `subject`.
    GenericIssuer { issuer: String, subject: String },
    /// Signed by a GitHub action of `owner`, in `repo` if that is given.
    GithubAction { owner: String, repo: Option<String> },
    /// Signed with the key in `key_file`.
    PubKey { key_file: String },
}

/// What the verification options ask for: every one of the signatures, each
/// carrying the annotations. The annotations are a mapping: one value for
/// every key, in the order of the keys.
#[derive(Debug, Clone, PartialEq, Eq)]
pub struct VerificationPlan {
    pub signatures: Vec<SignatureRule>,
    pub annotations: Option<Vec<Annotation>>,
}

/// The annotations that the options hold.
pub open spec fn annotations_of(flags: VerificationFlags) -> Seq<(Seq<char>, Seq<char>)> {
    match flags.annotations {
        Some(items) => parsed_annotations(items@),
        None => Seq::empty(),
    }
}

/// Whether no verification option was used.
pub open spec fn nothing_asked(flags: VerificationFlags) -> bool {
    &&& flags.key_files is None
    &&& annotations_of(flags).len() == 0
    &&& flags.cert_email is None
    &&& flags.cert_oidc_issuer is None
    &&& flags.github_owner is None
    &&& flags.github_repo is None
}

/// What is wrong with the options, if anything; the first rule that is
/// broken decides.
pub open spec fn flag_error(flags: VerificationFlags) -> Option<FlagError> {
    if flags.key_files is None && flags.cert_email is None && flags.cert_oidc_issuer is None
        && flags.github_owner is None && annotations_of(flags).len() > 0 {
        Some(FlagError::AnnotationsWithoutVerifier)
    } else if flags.github_repo is Some && flags.github_owner is None {
        Some(FlagError::RepositoryWithoutOwner)
    } else if (flags.cert_email is Some) != (flags.cert_oidc_issuer is Some) {
        Some(FlagError::IncompleteIssuer)
    } else {
        None
    }
}

/// One rule for every key file, in order.
pub open spec fn key_rules(files: Seq<String>) -> Seq<SignatureRule> {
    Seq::new(files.len(), |i: int| SignatureRule::PubKey { key_file: files[i] })
}

/// The signatures that the options ask for: the issuer's, then the GitHub
/// action's, then one for every key file.
pub open spec fn signature_rules(flags: VerificationFlags) -> Seq<SignatureRule> {
    let issuer = match (flags.cert_oidc_issuer, flags.cert_email) {
        (Some(issuer), Some(subject)) => seq![SignatureRule::GenericIssuer { issuer, subject }],
        _ => Seq::empty(),
    };
    let action = match flags.github_owner {
        Some(owner) => seq![SignatureRule::GithubAction { owner, repo: flags.github_repo }],
        None => Seq::empty(),
    };
    let keys = match flags.key_files {
        Some(files) => key_rules(files@),
        None => Seq::empty(),
    };
    issuer + action + keys
}

/// Turns the verification options into the signatures to ask for.
/// `Ok(None)` where no verification option was used; an error where the
/// options do not go together.
pub fn verification_plan(flags: VerificationFlags) -> (res: Result<
    Option<VerificationPlan>,
    FlagError,
>)
    ensures
        nothing_asked(flags) ==> res == Ok::<Option<VerificationPlan>, FlagError>(None),
        !nothing_asked(flags) ==> match flag_error(flags) {
            Some(e) => res == Err::<Option<VerificationPlan>, FlagError>(e),
            None => {
                &&& res matches Ok(Some(plan))
                &&& plan.signatures@ == signature_rules(flags)
                &&& match plan.annotations {
                    Some(v) => {
                        &&& v@.len() > 0
                        &&& annotations_of(flags).len() > 0
                        &&& keys_increase(annotations_view(v@))
                        &&& annotation_map(annotations_view(v@)) == annotation_map(
                            annotations_of(flags),
                        )
                        &&& annotations_view(v@) == annotations_in_order(
                            annotation_map(annotations_of(flags)),
                        )
                    },
                    None => annotations_of(flags).len() == 0,
                }
            },
        },
{
    let VerificationFlags {
        key_files,
        annotations: items,
        cert_email,
        cert_oidc_issuer,
        github_owner,
        github_repo,
    } = flags;
    let annotations = match &items {
        Some(items) => parse_annotations(items),
        None => None,
    };
    if key_files.is_none() && annotations.is_none() && cert_email.is_none()
        && cert_oidc_issuer.is_none() && github_owner.is_none() && github_repo.is_none() {
        return Ok(None);
    }
    if key_files.is_none() && cert_email.is_none() && cert_oidc_issuer.is_none()
        && github_owner.is_none() && annotations.is_some() {
        return Err(FlagError::AnnotationsWithoutVerifier);
    }
    if github_repo.is_some() && github_owner.is_none() {
        return Err(FlagError::RepositoryWithoutOwner);
    }
    let mut signatures: Vec<SignatureRule> = Vec::new();
    match cert_oidc_issuer {
        Some(issuer) => match cert_email {
            Some(subject) => {
                signatures.push(SignatureRule::GenericIssuer { issuer, subject });
            },
            None => {
                return Err(FlagError::IncompleteIssuer);
            },
        },
        None => match cert_email {
            Some(_) => {
                return Err(FlagError::IncompleteIssuer);
            },
            None => {},
        },
    }
    match github_owner {
        Some(owner) => {
            signatures.push(SignatureRule::GithubAction { owner, repo: github_repo });
        },
        None => {},
    }
    let ghost head = signatures@;
    match &key_files {
        Some(files) => {
            let n: usize = files.len();
            let mut i: usize = 0;
            assert(key_rules(files@.take(0)) =~= Seq::empty());
            assert(signatures@ =~= head + key_rules(files@.take(0)));
            while i < n
                invariant
                    n == files@.len(),
                    i <= n,
                    signatures@ == head + key_rules(files@.take(i as int)),
                decreases n - i,
            {
                signatures.push(SignatureRule::PubKey { key_file: files[i].clone() });
                assert(key_rules(files@.take(i + 1)) =~= key_rules(files@.take(i as int)).push(
                    SignatureRule::PubKey { key_file: files@[i as int] },
                ));
                assert(signatures@ =~= head + key_rules(files@.take(i + 1)));
                i = i + 1;
            }
            assert(files@.take(n as int) =~= files@);
        },
        None => {
            assert(signatures@ =~= head + Seq::<SignatureRule>::empty());
        },
    }
    assert(signatures@ =~= signature_rules(flags));
    Ok(Some(VerificationPlan { signatures, annotations }))
}

} // verus!
