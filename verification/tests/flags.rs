use kwctl::flags::{
    config_source, parse_annotation, parse_annotations, settings_source, verification_plan,
    verification_source, Annotation, ConfigSource, FlagError, SettingsSource, SignatureRule,
    VerificationFlags, VerificationPlan, VerificationSource,
};
use kwctl::proxy::ProxyMode;

fn s(text: &str) -> String {
    String::from(text)
}

fn no_flags() -> VerificationFlags {
    VerificationFlags {
        key_files: None,
        annotations: None,
        cert_email: None,
        cert_oidc_issuer: None,
        github_owner: None,
        github_repo: None,
    }
}

fn annotation(key: &str, value: &str) -> Annotation {
    Annotation { key: s(key), value: s(value) }
}

#[test]
fn settings_come_from_one_place() {
    assert_eq!(settings_source(None, None), Ok(SettingsSource::Absent));
    assert_eq!(settings_source(Some(s("s.json")), None), Ok(SettingsSource::File { path: s("s.json") }));
    assert_eq!(settings_source(None, Some(s("{}"))), Ok(SettingsSource::Inline { json: s("{}") }));
    assert_eq!(settings_source(Some(s("s.json")), Some(s("{}"))), Err(FlagError::SettingsConflict));
}

#[test]
fn named_config_file_goes_before_the_default_one() {
    assert_eq!(config_source(Some(s("my.yaml")), true), ConfigSource::Given { path: s("my.yaml") });
    assert_eq!(config_source(Some(s("my.yaml")), false), ConfigSource::Given { path: s("my.yaml") });
    assert_eq!(config_source(None, true), ConfigSource::Default);
    assert_eq!(config_source(None, false), ConfigSource::Absent);
}

#[test]
fn verification_flags_do_not_go_with_a_config_file() {
    assert_eq!(verification_source(true, None, true), Ok(VerificationSource::Flags));
    assert_eq!(verification_source(true, Some(s("v.yml")), false), Err(FlagError::VerificationConfigConflict));
    assert_eq!(
        verification_source(false, Some(s("v.yml")), true),
        Ok(VerificationSource::Config { source: ConfigSource::Given { path: s("v.yml") } })
    );
    assert_eq!(
        verification_source(false, None, true),
        Ok(VerificationSource::Config { source: ConfigSource::Default })
    );
    assert_eq!(
        verification_source(false, None, false),
        Ok(VerificationSource::Config { source: ConfigSource::Absent })
    );
}

#[test]
fn annotation_is_cut_at_the_first_equals_sign() {
    assert_eq!(parse_annotation("env=prod"), Some(annotation("env", "prod")));
    assert_eq!(parse_annotation("a=b=c"), Some(annotation("a", "b=c")));
    assert_eq!(parse_annotation("=x"), Some(annotation("", "x")));
    assert_eq!(parse_annotation("x="), Some(annotation("x", "")));
    assert_eq!(parse_annotation("="), Some(annotation("", "")));
    assert_eq!(parse_annotation("größe=zwölf"), Some(annotation("größe", "zwölf")));
    assert_eq!(parse_annotation("no equals sign"), None);
    assert_eq!(parse_annotation(""), None);
}

#[test]
fn annotations_without_equals_sign_are_left_out() {
    let items = vec![s("env=prod"), s("broken"), s("team=a")];
    assert_eq!(
        parse_annotations(&items),
        Some(vec![annotation("env", "prod"), annotation("team", "a")])
    );
    assert_eq!(parse_annotations(&vec![s("broken"), s("")]), None);
    assert_eq!(parse_annotations(&Vec::new()), None);
}

#[test]
fn later_annotation_replaces_an_earlier_one_with_its_key() {
    let items = vec![s("env=prod"), s("team=a"), s("env=test"), s("env=dev")];
    assert_eq!(
        parse_annotations(&items),
        Some(vec![annotation("env", "dev"), annotation("team", "a")])
    );
    assert_eq!(parse_annotations(&vec![s("a=1"), s("a=2")]), Some(vec![annotation("a", "2")]));
    assert_eq!(parse_annotations(&vec![s("a=2"), s("a=1")]), Some(vec![annotation("a", "1")]));
}

#[test]
fn annotations_come_in_the_order_of_their_keys() {
    let forward = vec![s("a=1"), s("b=2"), s("c=3")];
    let backward = vec![s("c=3"), s("b=2"), s("a=1")];
    let mixed = vec![s("b=2"), s("c=3"), s("broken"), s("a=1")];
    let expected = Some(vec![annotation("a", "1"), annotation("b", "2"), annotation("c", "3")]);
    assert_eq!(parse_annotations(&forward), expected);
    assert_eq!(parse_annotations(&backward), expected);
    assert_eq!(parse_annotations(&mixed), expected);
}

#[test]
fn annotations_agree_with_a_sorted_map() {
    let items = vec![
        s("zeta=1"), s("Zeta=2"), s("=3"), s("\u{e9}t\u{e9}=4"), s("z=5"), s("zeta=6"), s("ze=7"),
        s("\u{1f600}=8"), s("\u{e9}=9"), s("no key"), s("zeta\u{0}=10"),
    ];
    let mut map = std::collections::BTreeMap::new();
    for item in &items {
        let parts: Vec<&str> = item.splitn(2, '=').collect();
        if parts.len() == 2 {
            map.insert(String::from(parts[0]), String::from(parts[1]));
        }
    }
    let expected: Vec<Annotation> =
        map.into_iter().map(|(key, value)| Annotation { key, value }).collect();
    assert_eq!(parse_annotations(&items), Some(expected));
}

#[test]
fn plan_does_not_depend_on_the_order_of_annotations() {
    let one = VerificationFlags {
        annotations: Some(vec![s("a=1"), s("b=2")]),
        github_owner: Some(s("kubewarden")),
        ..no_flags()
    };
    let two = VerificationFlags {
        annotations: Some(vec![s("b=2"), s("a=1")]),
        github_owner: Some(s("kubewarden")),
        ..no_flags()
    };
    assert_eq!(verification_plan(one.clone()), verification_plan(two));
    assert_eq!(
        verification_plan(one).map(|plan| plan.and_then(|p| p.annotations)),
        Ok(Some(vec![annotation("a", "1"), annotation("b", "2")]))
    );
}

#[test]
fn plan_without_annotations_holds_none() {
    let flags = VerificationFlags {
        cert_email: Some(s("user@example.com")),
        cert_oidc_issuer: Some(s("https://github.com/login/oauth")),
        ..no_flags()
    };
    assert_eq!(
        verification_plan(flags),
        Ok(Some(VerificationPlan {
            signatures: vec![SignatureRule::GenericIssuer {
                issuer: s("https://github.com/login/oauth"),
                subject: s("user@example.com"),
            }],
            annotations: None,
        }))
    );
    let broken_only = VerificationFlags {
        annotations: Some(vec![s("broken")]),
        key_files: Some(vec![s("k.pub")]),
        ..no_flags()
    };
    assert_eq!(verification_plan(broken_only).map(|plan| plan.and_then(|p| p.annotations)), Ok(None));
}

#[test]
fn no_verification_flags_give_no_plan() {
    assert_eq!(verification_plan(no_flags()), Ok(None));
    let only_broken = VerificationFlags { annotations: Some(vec![s("broken")]), ..no_flags() };
    assert_eq!(verification_plan(only_broken), Ok(None));
}

#[test]
fn annotations_alone_are_refused() {
    let flags = VerificationFlags { annotations: Some(vec![s("env=prod")]), ..no_flags() };
    assert_eq!(verification_plan(flags), Err(FlagError::AnnotationsWithoutVerifier));
    let with_repo = VerificationFlags {
        annotations: Some(vec![s("env=prod")]),
        github_repo: Some(s("policies")),
        ..no_flags()
    };
    assert_eq!(verification_plan(with_repo), Err(FlagError::AnnotationsWithoutVerifier));
}

#[test]
fn repository_without_owner_is_refused() {
    let flags = VerificationFlags { github_repo: Some(s("policies")), ..no_flags() };
    assert_eq!(verification_plan(flags), Err(FlagError::RepositoryWithoutOwner));
    let with_key = VerificationFlags {
        github_repo: Some(s("policies")),
        key_files: Some(vec![s("key.pub")]),
        cert_email: Some(s("a@b.c")),
        ..no_flags()
    };
    assert_eq!(verification_plan(with_key), Err(FlagError::RepositoryWithoutOwner));
}

#[test]
fn email_and_issuer_go_together() {
    let email = VerificationFlags { cert_email: Some(s("a@b.c")), ..no_flags() };
    assert_eq!(verification_plan(email), Err(FlagError::IncompleteIssuer));
    let issuer = VerificationFlags {
        cert_oidc_issuer: Some(s("https://issuer")),
        key_files: Some(vec![s("key.pub")]),
        ..no_flags()
    };
    assert_eq!(verification_plan(issuer), Err(FlagError::IncompleteIssuer));
}

#[test]
fn plan_lists_issuer_then_action_then_keys() {
    let flags = VerificationFlags {
        key_files: Some(vec![s("one.pub"), s("two.pub")]),
        annotations: Some(vec![s("env=prod"), s("oops")]),
        cert_email: Some(s("a@b.c")),
        cert_oidc_issuer: Some(s("https://issuer")),
        github_owner: Some(s("kubewarden")),
        github_repo: Some(s("policies")),
    };
    assert_eq!(
        verification_plan(flags),
        Ok(Some(VerificationPlan {
            signatures: vec![
                SignatureRule::GenericIssuer { issuer: s("https://issuer"), subject: s("a@b.c") },
                SignatureRule::GithubAction { owner: s("kubewarden"), repo: Some(s("policies")) },
                SignatureRule::PubKey { key_file: s("one.pub") },
                SignatureRule::PubKey { key_file: s("two.pub") },
            ],
            annotations: Some(vec![annotation("env", "prod")]),
        }))
    );
}

#[test]
fn plan_for_a_single_option() {
    let owner = VerificationFlags { github_owner: Some(s("kubewarden")), ..no_flags() };
    assert_eq!(
        verification_plan(owner),
        Ok(Some(VerificationPlan {
            signatures: vec![SignatureRule::GithubAction { owner: s("kubewarden"), repo: None }],
            annotations: None,
        }))
    );
    let keys = VerificationFlags { key_files: Some(vec![s("k.pub")]), ..no_flags() };
    assert_eq!(
        verification_plan(keys),
        Ok(Some(VerificationPlan {
            signatures: vec![SignatureRule::PubKey { key_file: s("k.pub") }],
            annotations: None,
        }))
    );
    let no_keys = VerificationFlags { key_files: Some(Vec::new()), ..no_flags() };
    assert_eq!(
        verification_plan(no_keys),
        Ok(Some(VerificationPlan { signatures: Vec::new(), annotations: None }))
    );
}

#[test]
fn flag_error_messages() {
    assert_eq!(
        FlagError::SettingsConflict.message(),
        "'settings-path' and 'settings-json' cannot be used at the same time"
    );
    assert_eq!(
        FlagError::VerificationConfigConflict.message(),
        "verification-config-path cannot be used in conjunction with other verification flags"
    );
    assert_eq!(
        FlagError::AnnotationsWithoutVerifier.message(),
        "Intending to verify annotations, but no verification keys, OIDC issuer or GitHub owner were passed"
    );
    assert_eq!(
        FlagError::RepositoryWithoutOwner.message(),
        "Intending to verify GitHub actions signature, but the repository owner is missing."
    );
    assert_eq!(
        FlagError::IncompleteIssuer.message(),
        "Intending to verify OIDC issuer, but no email or issuer were provided. You must pass the email and OIDC issuer to be validated together "
    );
}

#[test]
fn mode_is_selected_from_the_session_options() {
    assert_eq!(ProxyMode::select(None, None), ProxyMode::Direct);
    assert_eq!(
        ProxyMode::select(Some(s("out.log")), None),
        ProxyMode::Record { destination: s("out.log") }
    );
    assert_eq!(ProxyMode::select(None, Some(s("in.log"))), ProxyMode::Replay { source: s("in.log") });
    assert_eq!(
        ProxyMode::select(Some(s("out.log")), Some(s("in.log"))),
        ProxyMode::Replay { source: s("in.log") }
    );
}

#[test]
fn annotation_is_put_in_its_place() {
    let items = vec![s("m=1"), s("z=2"), s("a=3"), s("ma=4"), s("m=5")];
    assert_eq!(
        parse_annotations(&items),
        Some(vec![annotation("a", "3"), annotation("m", "5"), annotation("ma", "4"), annotation("z", "2")])
    );
}
