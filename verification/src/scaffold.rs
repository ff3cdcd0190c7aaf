//! The rules behind the scaffolding commands: what a policy's metadata must
//! hold before a chart can be made of it, and how its keywords are read.

use crate::flags::{first_index_of, lemma_first_index_of};
use vstd::prelude::*;
use vstd::string::*;

verus! {

/// Why nothing can be scaffolded.
#[derive(Debug, Clone, PartialEq, Eq)]
pub enum ScaffoldError {
    /// The metadata holds no annotations at all.
    MissingAnnotations,
    /// The annotation with the OCI URL is missing.
    MissingRepository,
    /// The OCI URL is no reference to an artifact; `reason` is what the
    /// parser of references said.
    InvalidOciUrl { reason: String },
    /// The annotation with the title is missing.
    MissingTitle,
    /// The annotation with the description is missing.
    MissingDescription,
    /// The annotation with the home page is missing.
    MissingUrl,
    /// A manifest of a kind that is not known was asked for.
    UnknownResource { name: String },
}

impl ScaffoldError {
    /// The message that the user gets to see.
    pub fn message(&self) -> (res: String)
        ensures
            *self is MissingAnnotations ==> res@ == "Missing metadata annotations"@,
            *self is MissingRepository ==> res@ == "Missing repository annotation"@,
            *self matches ScaffoldError::InvalidOciUrl { reason } ==> res@ == "Invalid OCI URL: "@
                + reason@,
            *self is MissingTitle ==> res@ == "Missing title annotation"@,
            *self is MissingDescription ==> res@ == "Missing description annotation"@,
            *self is MissingUrl ==> res@ == "Missing url annotation."@,
            *self matches ScaffoldError::UnknownResource { name } ==> res@ == "Resource "@ + name@
                + " unknown. Valid types are: ClusterAdmissionPolicy"@,
    {
        match self {
            ScaffoldError::MissingAnnotations => String::from_str("Missing metadata annotations"),
            ScaffoldError::MissingRepository => String::from_str("Missing repository annotation"),
            ScaffoldError::InvalidOciUrl { reason } => String::from_str("Invalid OCI URL: ").concat(
                reason.as_str(),
            ),
            ScaffoldError::MissingTitle => String::from_str("Missing title annotation"),
            ScaffoldError::MissingDescription => String::from_str(
                "Missing description annotation",
            ),
            ScaffoldError::MissingUrl => String::from_str("Missing url annotation."),
            ScaffoldError::UnknownResource { name } => String::from_str("Resource ").concat(
                name.as_str(),
            ).concat(" unknown. Valid types are: ClusterAdmissionPolicy"),
        }
    }
}

/// A kind of resource of which a manifest can be made.
#[derive(Debug, Clone, Copy, PartialEq, Eq)]
pub enum ResourceKind {
    ClusterAdmissionPolicy,
}

/// Reads the kind of resource to scaffold. Only `ClusterAdmissionPolicy`
/// is known.
pub fn resource_kind(name: &str) -> (res: Result<ResourceKind, ScaffoldError>)
    ensures
        name@ == "ClusterAdmissionPolicy"@ ==> res == Ok::<ResourceKind, ScaffoldError>(
            ResourceKind::ClusterAdmissionPolicy,
        ),
        name@ != "ClusterAdmissionPolicy"@ ==> (res matches Err(
            ScaffoldError::UnknownResource { name: n },
        ) && n@ == name@),
{
    let given = String::from_str(name);
    let known = String::from_str("ClusterAdmissionPolicy");
    if given == known {
        Ok(ResourceKind::ClusterAdmissionPolicy)
    } else {
        Err(ScaffoldError::UnknownResource { name: given })
    }
}

// ---------------------------------------------------------------------
// Keywords
// ---------------------------------------------------------------------
/// The characters that count as white space.
pub open spec fn is_space(c: char) -> bool {
    let n = c as u32;
    ||| 0x09 <= n <= 0x0d
    ||| n == 0x20
    ||| n == 0x85
    ||| n == 0xa0
    ||| n == 0x1680
    ||| 0x2000 <= n <= 0x200a
    ||| n == 0x2028
    ||| n == 0x2029
    ||| n == 0x202f
    ||| n == 0x205f
    ||| n == 0x3000
}

/// The first position at or after `i` that holds no white space.
pub open spec fn spaces_end(s: Seq<char>, i: int) -> int
    decreases s.len() - i,
{
    if 0 <= i < s.len() && is_space(s[i]) {
        spaces_end(s, i + 1)
    } else {
        i
    }
}

/// The position behind the last character in front of `j` that is no white
/// space, at least `from`.
pub open spec fn spaces_start(s: Seq<char>, from: int, j: int) -> int
    decreases j - from,
{
    if from < j <= s.len() && is_space(s[j - 1]) {
        spaces_start(s, from, j - 1)
    } else {
        j
    }
}

/// The stretch from `from` to `to` without the white space at its two ends.
pub open spec fn trimmed(s: Seq<char>, from: int, to: int) -> Seq<char> {
    let a = spaces_end(s.subrange(0, to), from);
    let b = spaces_start(s, a, to);
    s.subrange(a, b)
}

/// The pieces between the commas of `s` from position `from` on, each
/// without the white space at its ends.
pub open spec fn keywords_from(s: Seq<char>, from: int) -> Seq<Seq<char>>
    decreases s.len() - from,
{
    let i = first_index_of(s, ',', from);
    if from < 0 || from > s.len() || i < from {
        Seq::empty()
    } else if i >= s.len() {
        seq![trimmed(s, from, s.len() as int)]
    } else {
        seq![trimmed(s, from, i)] + keywords_from(s, i + 1)
    }
}

/// The keywords of a list that is separated by commas.
pub open spec fn keywords_of(s: Seq<char>) -> Seq<Seq<char>> {
    keywords_from(s, 0)
}

pub open spec fn strings_view(v: Seq<String>) -> Seq<Seq<char>> {
    Seq::new(v.len(), |i: int| v[i]@)
}

/// Tells whether `c` is white space.
pub fn is_space_char(c: char) -> (res: bool)
    ensures
        res == is_space(c),
{
    let n: u32 = c as u32;
    (0x09 <= n && n <= 0x0d) || n == 0x20 || n == 0x85 || n == 0xa0 || n == 0x1680 || (0x2000 <= n
        && n <= 0x200a) || n == 0x2028 || n == 0x2029 || n == 0x202f || n == 0x205f || n == 0x3000
}

proof fn lemma_spaces_end_is(s: Seq<char>, i: int, j: int)
    requires
        0 <= i <= j <= s.len(),
        forall|k: int| i <= k < j ==> is_space(s[k]),
        j < s.len() ==> !is_space(s[j]),
    ensures
        spaces_end(s, i) == j,
    decreases j - i,
{
    if i < j {
        lemma_spaces_end_is(s, i + 1, j);
    }
}

proof fn lemma_spaces_start_is(s: Seq<char>, from: int, j: int, b: int)
    requires
        0 <= from <= b <= j <= s.len(),
        forall|k: int| b <= k < j ==> is_space(s[k]),
        from < b ==> !is_space(s[b - 1]),
    ensures
        spaces_start(s, from, j) == b,
    decreases j - b,
{
    if b < j {
        lemma_spaces_start_is(s, from, j - 1, b);
    }
}

/// The stretch of `s` from `from` to `to` without the white space at its
/// ends.
pub fn trim_between(s: &str, from: usize, to: usize) -> (res: String)
    requires
        from <= to <= s@.len(),
    ensures
        res@ == trimmed(s@, from as int, to as int),
{
    let mut a: usize = from;
    while a < to && is_space_char(s.get_char(a))
        invariant
            from <= a <= to <= s@.len(),
            forall|k: int| from <= k < a ==> is_space(s@[k]),
        decreases to - a,
    {
        a = a + 1;
    }
    let mut b: usize = to;
    while a < b && is_space_char(s.get_char(b - 1))
        invariant
            a <= b <= to <= s@.len(),
            forall|k: int| b <= k < to ==> is_space(s@[k]),
        decreases b - a,
    {
        b = b - 1;
    }
    proof {
        let head = s@.subrange(0, to as int);
        assert forall|k: int| from <= k < a implies is_space(head[k]) by {
            assert(head[k] == s@[k]);
        }
        lemma_spaces_end_is(head, from as int, a as int);
        lemma_spaces_start_is(s@, a as int, to as int, b as int);
    }
    String::from_str(s.substring_char(a, b))
}

/// Reads a list of keywords: cuts `s` at every comma and takes the white
/// space off the ends of each piece. A list without a comma is one keyword.
pub fn split_keywords(s: &str) -> (res: Vec<String>)
    ensures
        strings_view(res@) == keywords_of(s@),
{
    let n: usize = s.unicode_len();
    let mut out: Vec<String> = Vec::new();
    let mut from: usize = 0;
    let mut i: usize = 0;
    assert(strings_view(out@) + keywords_from(s@, 0) =~= keywords_of(s@));
    while i < n
        invariant
            n == s@.len(),
            from <= i <= n,
            forall|k: int| from <= k < i ==> s@[k] != ',',
            strings_view(out@) + keywords_from(s@, from as int) == keywords_of(s@),
        decreases n - i,
    {
        if s.get_char(i) == ',' {
            let ghost before = strings_view(out@);
            proof {
                lemma_first_index_of(s@, ',', from as int, i as int);
            }
            let piece = trim_between(s, from, i);
            out.push(piece);
            proof {
                assert(strings_view(out@) =~= before.push(piece@));
                assert(before + (seq![piece@] + keywords_from(s@, i + 1)) =~= before.push(piece@)
                    + keywords_from(s@, i + 1));
            }
            from = i + 1;
        }
        i = i + 1;
    }
    let ghost before = strings_view(out@);
    proof {
        lemma_first_index_of(s@, ',', from as int, n as int);
    }
    let piece = trim_between(s, from, n);
    out.push(piece);
    proof {
        assert(strings_view(out@) =~= before.push(piece@));
        assert(before + seq![piece@] =~= before.push(piece@));
    }
    out
}

// ---------------------------------------------------------------------
// Chart
// ---------------------------------------------------------------------
/// What the metadata of a policy holds under the annotations that a chart
/// is made of; `None` for an annotation that is not there.
#[derive(Debug, Clone, PartialEq, Eq)]
pub struct PolicyAnnotations {
    pub oci_url: Option<String>,
    pub title: Option<String>,
    pub description: Option<String>,
    pub url: Option<String>,
    pub keywords: Option<String>,
}

/// The head of a chart.
#[derive(Debug, Clone, PartialEq, Eq)]
pub struct ChartHead {
    pub name: String,
    pub description: String,
    pub home: String,
    pub keywords: Option<Vec<String>>,
}

/// The OCI URL of the policy, which every chart needs: it is asked for
/// before anything else.
pub fn required_oci_url(annotations: &Option<PolicyAnnotations>) -> (res: Result<
    &String,
    ScaffoldError,
>)
    ensures
        match *annotations {
            None => res == Err::<&String, ScaffoldError>(ScaffoldError::MissingAnnotations),
            Some(a) => match a.oci_url {
                None => res == Err::<&String, ScaffoldError>(ScaffoldError::MissingRepository),
                Some(url) => res matches Ok(r) && *r == url,
            },
        },
{
    match annotations {
        None => Err(ScaffoldError::MissingAnnotations),
        Some(a) => match &a.oci_url {
            None => Err(ScaffoldError::MissingRepository),
            Some(url) => Ok(url),
        },
    }
}

/// Whether `res` is the head of the chart for `annotations`: title,
/// description and home page are required, in this order; the keywords are
/// read if there are any.
pub open spec fn is_chart_head(
    res: Result<ChartHead, ScaffoldError>,
    annotations: PolicyAnnotations,
) -> bool {
    if annotations.title is None {
        res == Err::<ChartHead, ScaffoldError>(ScaffoldError::MissingTitle)
    } else if annotations.description is None {
        res == Err::<ChartHead, ScaffoldError>(ScaffoldError::MissingDescription)
    } else if annotations.url is None {
        res == Err::<ChartHead, ScaffoldError>(ScaffoldError::MissingUrl)
    } else {
        &&& res matches Ok(head)
        &&& head.name == annotations.title->0
        &&& head.description == annotations.description->0
        &&& head.home == annotations.url->0
        &&& match annotations.keywords {
            Some(k) => head.keywords matches Some(v) && strings_view(v@) == keywords_of(k@),
            None => head.keywords is None,
        }
    }
}

/// The head of the chart of a policy.
pub fn chart_head(annotations: PolicyAnnotations) -> (res: Result<ChartHead, ScaffoldError>)
    ensures
        is_chart_head(res, annotations),
{
    let PolicyAnnotations { oci_url: _, title, description, url, keywords } = annotations;
    let name = match title {
        Some(t) => t,
        None => { return Err(ScaffoldError::MissingTitle); },
    };
    let description = match description {
        Some(d) => d,
        None => { return Err(ScaffoldError::MissingDescription); },
    };
    let home = match url {
        Some(u) => u,
        None => { return Err(ScaffoldError::MissingUrl); },
    };
    let keywords = match keywords {
        Some(k) => Some(split_keywords(k.as_str())),
        None => None,
    };
    Ok(ChartHead { name, description, home, keywords })
}

/// Where an artifact lives: the registry, and the repository in it.
#[derive(Debug, Clone, PartialEq, Eq)]
pub struct OciName {
    pub registry: String,
    pub repository: String,
}

/// What the parser of OCI references makes of `url`: registry and
/// repository, or the parser's complaint.
pub uninterp spec fn oci_reference(url: Seq<char>) -> Result<(Seq<char>, Seq<char>), Seq<char>>;

/// Calls `oci_spec::distribution::Reference::try_from` on `url` and hands
/// out what `registry()` and `repository()` give of the reference, or the
/// text of the parser's error. Nothing is claimed of the two names but that
/// they are what the parser gives for this string, every time.
#[verifier::external_body]
fn parse_oci_reference(url: &str) -> (res: Result<OciName, String>)
    ensures
        match res {
            Ok(name) => oci_reference(url@) == Ok::<(Seq<char>, Seq<char>), Seq<char>>(
                (name.registry@, name.repository@),
            ),
            Err(reason) => oci_reference(url@) == Err::<(Seq<char>, Seq<char>), Seq<char>>(reason@),
        },
{
    match oci_spec::distribution::Reference::try_from(url) {
        Ok(reference) => Ok(
            OciName {
                registry: reference.registry().to_owned(),
                repository: reference.repository().to_owned(),
            },
        ),
        Err(e) => Err(e.to_string()),
    }
}

/// All of a policy's metadata that goes into its chart.
#[derive(Debug, Clone, PartialEq, Eq)]
pub struct ChartPlan {
    pub head: ChartHead,
    /// The registry that the values of the chart name as the default one.
    pub registry: String,
    /// The repository of the policy's module.
    pub repository: String,
}

/// Whether `res` is the plan of the chart for `annotations`, given what the
/// parser made of the OCI URL: a URL that is no reference is reported
/// before a missing title, description or home page.
pub open spec fn is_chart_plan(
    res: Result<ChartPlan, ScaffoldError>,
    annotations: PolicyAnnotations,
    reference: Result<(Seq<char>, Seq<char>), Seq<char>>,
) -> bool {
    match reference {
        Err(reason) => res matches Err(ScaffoldError::InvalidOciUrl { reason: r }) && r@ == reason,
        Ok((registry, repository)) => match res {
            Ok(plan) => {
                &&& is_chart_head(Ok(plan.head), annotations)
                &&& plan.registry@ == registry
                &&& plan.repository@ == repository
            },
            Err(e) => is_chart_head(Err(e), annotations),
        },
    }
}

/// Plans the chart of a policy from its annotations and from what the
/// parser made of its OCI URL.
pub fn chart_plan_with(annotations: PolicyAnnotations, reference: Result<OciName, String>) -> (res:
    Result<ChartPlan, ScaffoldError>)
    ensures
        is_chart_plan(
            res,
            annotations,
            match reference {
                Ok(name) => Ok((name.registry@, name.repository@)),
                Err(reason) => Err(reason@),
            },
        ),
{
    match reference {
        Err(reason) => Err(ScaffoldError::InvalidOciUrl { reason }),
        Ok(name) => match chart_head(annotations) {
            Ok(head) => Ok(
                ChartPlan { head, registry: name.registry, repository: name.repository },
            ),
            Err(e) => Err(e),
        },
    }
}

/// Plans the chart of a policy from the annotations of its metadata. What
/// is missing or wrong is reported in this order: the annotations as a
/// whole, the OCI URL, the form of the OCI URL, then title, description and
/// home page.
pub fn chart_plan(annotations: Option<PolicyAnnotations>) -> (res: Result<ChartPlan, ScaffoldError>)
    ensures
        match annotations {
            None => res == Err::<ChartPlan, ScaffoldError>(ScaffoldError::MissingAnnotations),
            Some(a) => match a.oci_url {
                None => res == Err::<ChartPlan, ScaffoldError>(ScaffoldError::MissingRepository),
                Some(url) => is_chart_plan(res, a, oci_reference(url@)),
            },
        },
{
    let reference = match required_oci_url(&annotations) {
        Ok(url) => parse_oci_reference(url.as_str()),
        Err(e) => { return Err(e); },
    };
    match annotations {
        Some(a) => chart_plan_with(a, reference),
        None => Err(ScaffoldError::MissingAnnotations),
    }
}

/// What becomes of the questions file of a chart.
#[derive(Debug, Clone, Copy, PartialEq, Eq)]
pub enum QuestionsAction {
    /// No questions file was given.
    Nothing,
    /// The questions file is copied into the chart.
    Copy,
    /// The questions file is left out, with a warning: a policy without
    /// settings has nothing to ask.
    Ignore,
}

pub open spec fn questions_action_of(has_settings: bool, questions_given: bool) -> QuestionsAction {
    if !questions_given {
        QuestionsAction::Nothing
    } else if has_settings {
        QuestionsAction::Copy
    } else {
        QuestionsAction::Ignore
    }
}

/// Tells what becomes of the questions file.
pub fn questions_action(has_settings: bool, questions_given: bool) -> (res: QuestionsAction)
    ensures
        res == questions_action_of(has_settings, questions_given),
{
    if !questions_given {
        QuestionsAction::Nothing
    } else if has_settings {
        QuestionsAction::Copy
    } else {
        QuestionsAction::Ignore
    }
}

} // verus!
