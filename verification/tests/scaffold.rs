use kwctl::scaffold::{
    chart_head, chart_plan, chart_plan_with, is_space_char, questions_action, required_oci_url,
    resource_kind, split_keywords, trim_between, ChartHead, ChartPlan, OciName, PolicyAnnotations,
    QuestionsAction, ResourceKind, ScaffoldError,
};

fn s(text: &str) -> String {
    String::from(text)
}

fn annotations() -> PolicyAnnotations {
    PolicyAnnotations {
        oci_url: Some(s("ghcr.io/kubewarden/policies/safe-labels")),
        title: Some(s("safe-labels")),
        description: Some(s("Checks labels")),
        url: Some(s("https://github.com/kubewarden/safe-labels")),
        keywords: Some(s("labels, kubernetes ,  metadata")),
    }
}

#[test]
fn only_cluster_admission_policy_is_known() {
    assert_eq!(resource_kind("ClusterAdmissionPolicy"), Ok(ResourceKind::ClusterAdmissionPolicy));
    assert_eq!(
        resource_kind("AdmissionPolicy"),
        Err(ScaffoldError::UnknownResource { name: s("AdmissionPolicy") })
    );
    assert_eq!(resource_kind(""), Err(ScaffoldError::UnknownResource { name: s("") }));
    assert_eq!(
        resource_kind("clusteradmissionpolicy"),
        Err(ScaffoldError::UnknownResource { name: s("clusteradmissionpolicy") })
    );
}

#[test]
fn scaffold_error_messages() {
    assert_eq!(ScaffoldError::MissingAnnotations.message(), "Missing metadata annotations");
    assert_eq!(ScaffoldError::MissingRepository.message(), "Missing repository annotation");
    assert_eq!(ScaffoldError::MissingTitle.message(), "Missing title annotation");
    assert_eq!(ScaffoldError::MissingDescription.message(), "Missing description annotation");
    assert_eq!(ScaffoldError::MissingUrl.message(), "Missing url annotation.");
    assert_eq!(
        ScaffoldError::UnknownResource { name: s("Pod") }.message(),
        "Resource Pod unknown. Valid types are: ClusterAdmissionPolicy"
    );
}

#[test]
fn keywords_are_cut_at_commas_and_trimmed() {
    assert_eq!(split_keywords("labels, kubernetes ,  metadata"), vec!["labels", "kubernetes", "metadata"]);
    assert_eq!(split_keywords("one"), vec!["one"]);
    assert_eq!(split_keywords(""), vec![""]);
    assert_eq!(split_keywords(","), vec!["", ""]);
    assert_eq!(split_keywords(" a b ,\t\n,c,"), vec!["a b", "", "c", ""]);
    assert_eq!(split_keywords("\u{a0}größe\u{3000},\u{2003}x"), vec!["größe", "x"]);
}

#[test]
fn keywords_agree_with_split_and_trim() {
    for text in ["a,b", " a , b ", ",,", "  ", "x ,y, z ,", "\u{85}k\u{1680},\u{200b}"] {
        let expected: Vec<String> = text.split(',').map(|p| p.trim().to_owned()).collect();
        assert_eq!(split_keywords(text), expected);
    }
}

#[test]
fn white_space_is_what_the_standard_library_calls_white_space() {
    let mut n = 0u32;
    while n <= 0x3100 {
        if let Some(c) = char::from_u32(n) {
            assert_eq!(is_space_char(c), c.is_whitespace());
        }
        n += 1;
    }
    assert!(!is_space_char('\u{feff}'));
    assert!(!is_space_char('\u{10ffff}'));
}

#[test]
fn trimming_a_stretch() {
    assert_eq!(trim_between("  ab  ", 0, 6), "ab");
    assert_eq!(trim_between("  ab  ", 2, 4), "ab");
    assert_eq!(trim_between("  ab  ", 0, 2), "");
    assert_eq!(trim_between("x a b y", 1, 6), "a b");
    assert_eq!(trim_between("", 0, 0), "");
}

#[test]
fn oci_url_is_asked_for_first() {
    assert_eq!(required_oci_url(&None), Err(ScaffoldError::MissingAnnotations));
    let none = PolicyAnnotations { oci_url: None, title: None, description: None, url: None, keywords: None };
    assert_eq!(required_oci_url(&Some(none)), Err(ScaffoldError::MissingRepository));
    assert_eq!(
        required_oci_url(&Some(annotations())),
        Ok(&s("ghcr.io/kubewarden/policies/safe-labels"))
    );
}

#[test]
fn chart_head_takes_title_description_and_home() {
    assert_eq!(
        chart_head(annotations()),
        Ok(ChartHead {
            name: s("safe-labels"),
            description: s("Checks labels"),
            home: s("https://github.com/kubewarden/safe-labels"),
            keywords: Some(vec![s("labels"), s("kubernetes"), s("metadata")]),
        })
    );
    let no_keywords = PolicyAnnotations { keywords: None, ..annotations() };
    assert_eq!(chart_head(no_keywords).map(|h| h.keywords), Ok(None));
}

#[test]
fn chart_head_names_the_first_missing_annotation() {
    let no_title = PolicyAnnotations { title: None, description: None, ..annotations() };
    assert_eq!(chart_head(no_title), Err(ScaffoldError::MissingTitle));
    let no_description = PolicyAnnotations { description: None, url: None, ..annotations() };
    assert_eq!(chart_head(no_description), Err(ScaffoldError::MissingDescription));
    let no_url = PolicyAnnotations { url: None, ..annotations() };
    assert_eq!(chart_head(no_url), Err(ScaffoldError::MissingUrl));
}

#[test]
fn questions_are_copied_only_for_a_policy_with_settings() {
    assert_eq!(questions_action(true, true), QuestionsAction::Copy);
    assert_eq!(questions_action(false, true), QuestionsAction::Ignore);
    assert_eq!(questions_action(true, false), QuestionsAction::Nothing);
    assert_eq!(questions_action(false, false), QuestionsAction::Nothing);
}

#[test]
fn chart_plan_names_registry_and_repository() {
    let a = PolicyAnnotations {
        oci_url: Some(s("ghcr.io/kubewarden/policies/safe-labels:v0.1.13")),
        ..annotations()
    };
    let plan = match chart_plan(Some(a)) {
        Ok(plan) => plan,
        Err(e) => panic!("{:?}", e),
    };
    assert_eq!(plan.registry, "ghcr.io");
    assert_eq!(plan.repository, "kubewarden/policies/safe-labels");
    assert_eq!(plan.head.name, "safe-labels");
    assert_eq!(plan.head.keywords, Some(vec![s("labels"), s("kubernetes"), s("metadata")]));
}

#[test]
fn chart_plan_of_a_short_name_points_to_the_default_registry() {
    let a = PolicyAnnotations { oci_url: Some(s("busybox")), ..annotations() };
    let plan = match chart_plan(Some(a)) {
        Ok(plan) => plan,
        Err(e) => panic!("{:?}", e),
    };
    assert_eq!(plan.registry, "docker.io");
    assert_eq!(plan.repository, "library/busybox");
}

#[test]
fn chart_plan_reports_what_is_wrong_in_order() {
    assert_eq!(chart_plan(None), Err(ScaffoldError::MissingAnnotations));
    let nothing = PolicyAnnotations { oci_url: None, title: None, description: None, url: None, keywords: None };
    assert_eq!(chart_plan(Some(nothing)), Err(ScaffoldError::MissingRepository));
    let bad_url = PolicyAnnotations { oci_url: Some(s("registry://Not A Reference")), title: None, ..annotations() };
    assert_eq!(
        chart_plan(Some(bad_url)),
        Err(ScaffoldError::InvalidOciUrl { reason: s("invalid reference format") })
    );
    let empty_url = PolicyAnnotations { oci_url: Some(s("")), ..annotations() };
    assert_eq!(
        chart_plan(Some(empty_url)),
        Err(ScaffoldError::InvalidOciUrl { reason: s("repository name must have at least one component") })
    );
    let no_title = PolicyAnnotations { title: None, ..annotations() };
    assert_eq!(chart_plan(Some(no_title)), Err(ScaffoldError::MissingTitle));
    let no_url = PolicyAnnotations { url: None, ..annotations() };
    assert_eq!(chart_plan(Some(no_url)), Err(ScaffoldError::MissingUrl));
}

#[test]
fn chart_plan_from_a_parsed_reference() {
    let name = OciName { registry: s("localhost:5000"), repository: s("policies/p") };
    assert_eq!(
        chart_plan_with(annotations(), Ok(name)),
        Ok(ChartPlan {
            head: ChartHead {
                name: s("safe-labels"),
                description: s("Checks labels"),
                home: s("https://github.com/kubewarden/safe-labels"),
                keywords: Some(vec![s("labels"), s("kubernetes"), s("metadata")]),
            },
            registry: s("localhost:5000"),
            repository: s("policies/p"),
        })
    );
    assert_eq!(
        chart_plan_with(annotations(), Err(s("invalid tag format"))),
        Err(ScaffoldError::InvalidOciUrl { reason: s("invalid tag format") })
    );
    assert_eq!(
        ScaffoldError::InvalidOciUrl { reason: s("invalid tag format") }.message(),
        "Invalid OCI URL: invalid tag format"
    );
    let no_description = PolicyAnnotations { description: None, ..annotations() };
    let name = OciName { registry: s("ghcr.io"), repository: s("p") };
    assert_eq!(chart_plan_with(no_description, Ok(name)), Err(ScaffoldError::MissingDescription));
}
