use kwctl::pull::{
    add_latest_if_tag_not_present, add_registry_scheme_if_not_present,
    is_registry_and_does_not_contain_tag, starts_with,
};

#[test]
fn test_latest_tag_is_added_if_tag_not_present() {
    let uri = "registry://ghcr.io/kubewarden/policies/psp-capabilities";
    let uri_expected = "registry://ghcr.io/kubewarden/policies/psp-capabilities:latest";
    assert_eq!(uri_expected, add_latest_if_tag_not_present(uri))
}

#[test]
fn test_latest_tag_is_not_added_if_tag_present() {
    let uri = "registry://ghcr.io/kubewarden/policies/psp-capabilities:v1";
    assert_eq!(uri, add_latest_if_tag_not_present(uri))
}

#[test]
fn test_latest_tag_is_not_added_if_not_registry() {
    let uri = "https://github.com/kubewarden/pod-privileged-policy/releases/download/v0.1.9/policy.wasm";
    assert_eq!(uri, add_latest_if_tag_not_present(uri))
}

#[test]
fn test_latest_tag_empty_uri() {
    let uri = "";
    assert_eq!(uri, add_latest_if_tag_not_present(uri))
}

#[test]
fn registry_uri_without_tag_is_recognised() {
    assert!(is_registry_and_does_not_contain_tag("registry://ghcr.io/kubewarden/policies/psp"));
    assert!(is_registry_and_does_not_contain_tag("registry:"));
}

#[test]
fn other_uris_are_not_untagged_registry_uris() {
    assert!(!is_registry_and_does_not_contain_tag("registry://ghcr.io/p:v1"));
    assert!(!is_registry_and_does_not_contain_tag("registry"));
    assert!(!is_registry_and_does_not_contain_tag("registries://x"));
    assert!(!is_registry_and_does_not_contain_tag("file:///tmp/policy.wasm"));
    assert!(!is_registry_and_does_not_contain_tag("Registry://ghcr.io/p"));
    assert!(!is_registry_and_does_not_contain_tag(""));
}

#[test]
fn non_ascii_uri_is_left_alone_unless_it_is_an_untagged_registry_uri() {
    assert_eq!("registry://ghcr.io/pölicy:latest", add_latest_if_tag_not_present("registry://ghcr.io/pölicy"));
    assert_eq!("régistry://x", add_latest_if_tag_not_present("régistry://x"));
}

#[test]
fn push_destination_gets_the_registry_scheme() {
    assert_eq!(add_registry_scheme_if_not_present("ghcr.io/kubewarden/p:v1"), "registry://ghcr.io/kubewarden/p:v1");
    assert_eq!(add_registry_scheme_if_not_present("registry://ghcr.io/p:v1"), "registry://ghcr.io/p:v1");
    assert_eq!(add_registry_scheme_if_not_present(""), "registry://");
    assert_eq!(add_registry_scheme_if_not_present("registry:/x"), "registry://registry:/x");
    assert!(starts_with("registry://x", "registry://"));
    assert!(starts_with("abc", ""));
    assert!(!starts_with("ab", "abc"));
    assert!(!starts_with("äbc", "abc"));
}
