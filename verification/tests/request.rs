use kwctl::error::ProxyError;
use kwctl::order::{place_of, same_bytes, text_place_of, Place};
use kwctl::request::{comes_before, CapabilityRequest, InvalidValue};

#[test]
fn key_of_a_request_without_arguments() {
    let r = CapabilityRequest::new(b"dns", b"lookup");
    assert_eq!(r.canonicalize(), b"3:dns,6:lookup,".to_vec());
}

#[test]
fn key_of_a_request_with_arguments() {
    let r = CapabilityRequest::new(b"cluster.pods", b"list").with_argument(b"namespace", b"\"default\"");
    assert_eq!(r.canonicalize(), b"12:cluster.pods,4:list,9:namespace,9:\"default\",".to_vec());
}

#[test]
fn arguments_in_another_order_give_the_same_key() {
    let a = CapabilityRequest::new(b"cluster", b"get")
        .with_argument(b"namespace", b"default")
        .with_argument(b"kind", b"Pod")
        .with_argument(b"name", b"web");
    let b = CapabilityRequest::new(b"cluster", b"get")
        .with_argument(b"name", b"web")
        .with_argument(b"namespace", b"default")
        .with_argument(b"kind", b"Pod");
    assert_eq!(a.canonicalize(), b.canonicalize());
    assert_eq!(a, b);
    assert_eq!(
        a.canonicalize(),
        b"7:cluster,3:get,4:kind,3:Pod,4:name,3:web,9:namespace,7:default,".to_vec()
    );
}

#[test]
fn different_content_gives_another_key() {
    let base = CapabilityRequest::new(b"cluster", b"get").with_argument(b"name", b"web");
    let other_value = CapabilityRequest::new(b"cluster", b"get").with_argument(b"name", b"db");
    let other_operation = CapabilityRequest::new(b"cluster", b"list").with_argument(b"name", b"web");
    let shifted = CapabilityRequest::new(b"cluster", b"getname").with_argument(b"", b"web");
    assert_ne!(base.canonicalize(), other_value.canonicalize());
    assert_ne!(base.canonicalize(), other_operation.canonicalize());
    assert_ne!(base.canonicalize(), shifted.canonicalize());
}

#[test]
fn a_later_value_replaces_an_earlier_one() {
    let r = CapabilityRequest::new(b"c", b"o")
        .with_argument(b"a", b"1")
        .with_argument(b"b", b"2")
        .with_argument(b"a", b"3");
    assert_eq!(r.argument_count(), 2);
    assert_eq!(r.argument(b"a"), Some(&b"3"[..]));
    assert_eq!(r.argument(b"b"), Some(&b"2"[..]));
    assert_eq!(r.argument(b"c"), None);
    assert_eq!(r.canonicalize(), b"1:c,1:o,1:a,1:3,1:b,1:2,".to_vec());
}

#[test]
fn request_gives_back_its_parts() {
    let r = CapabilityRequest::new(b"oci", b"digest").with_argument(b"image", b"ghcr.io/x");
    assert_eq!(r.capability(), b"oci");
    assert_eq!(r.operation(), b"digest");
    assert_eq!(r.argument_count(), 1);
    let copy = r.clone();
    assert_eq!(copy, r);
}

#[test]
fn key_is_read_back_into_its_request() {
    let r = CapabilityRequest::new(b"cluster", b"get")
        .with_argument(b"namespace", b"default")
        .with_argument(b"kind", b"Pod")
        .with_argument(b"blob", b"1:x,\n,,");
    let key = r.canonicalize();
    assert_eq!(CapabilityRequest::from_key(&key), Ok(r));
    assert_eq!(CapabilityRequest::from_key(b"1:a,0:,"), Ok(CapabilityRequest::new(b"a", b"")));
}

#[test]
fn bytes_that_are_no_key_are_refused() {
    assert_eq!(CapabilityRequest::from_key(b""), Err(ProxyError::CorruptSession));
    assert_eq!(CapabilityRequest::from_key(b"1:a,"), Err(ProxyError::CorruptSession));
    assert_eq!(CapabilityRequest::from_key(b"1:a,1:b,1:n,"), Err(ProxyError::CorruptSession));
    assert_eq!(CapabilityRequest::from_key(b"1:a,1:b,1:n,1:v"), Err(ProxyError::CorruptSession));
    assert_eq!(CapabilityRequest::from_key(b"1:a,1:b,x"), Err(ProxyError::CorruptSession));
}

#[test]
fn key_with_arguments_out_of_order_is_refused() {
    assert_eq!(
        CapabilityRequest::from_key(b"1:c,1:o,1:b,1:2,1:a,1:1,"),
        Err(ProxyError::CorruptSession)
    );
    assert_eq!(
        CapabilityRequest::from_key(b"1:c,1:o,1:a,1:1,1:a,1:2,"),
        Err(ProxyError::CorruptSession)
    );
    assert!(CapabilityRequest::from_key(b"1:c,1:o,1:a,1:1,1:b,1:2,").is_ok());
}

#[test]
fn byte_strings_are_ordered_byte_by_byte() {
    assert_eq!(place_of(b"", b""), Place::Same);
    assert_eq!(place_of(b"", b"a"), Place::Before);
    assert_eq!(place_of(b"a", b""), Place::After);
    assert_eq!(place_of(b"ab", b"abc"), Place::Before);
    assert_eq!(place_of(b"abd", b"abc"), Place::After);
    assert_eq!(place_of(b"abc", b"abc"), Place::Same);
    assert_eq!(place_of(b"Z", b"a"), Place::Before);
    assert_eq!(place_of(&[0xff], &[0x7f, 0x01]), Place::After);
    assert!(comes_before(b"kind", b"name"));
    assert!(!comes_before(b"name", b"name"));
    assert!(!comes_before(b"namespace", b"name"));
    assert!(same_bytes(b"name", b"name"));
    assert!(!same_bytes(b"name", b"nam"));
    assert!(!same_bytes(b"name", b"nome"));
}

#[test]
fn json_argument_is_kept_in_one_form() {
    let spaced = CapabilityRequest::new(b"cluster", b"list")
        .with_json_argument(b"selector", b"{ \"tier\" : \"web\",\n  \"app\": [1, 2.50, true, null] }");
    let tight = CapabilityRequest::new(b"cluster", b"list")
        .with_json_argument(b"selector", b"{\"app\":[1,2.5,true,null],\"tier\":\"web\"}");
    assert_eq!(spaced, tight);
    let request = match tight {
        Ok(r) => r,
        Err(e) => panic!("{:?}", e),
    };
    assert_eq!(request.argument(b"selector"), Some(&b"{\"app\":[1,2.5,true,null],\"tier\":\"web\"}"[..]));
    assert_eq!(
        request.canonicalize(),
        b"7:cluster,4:list,8:selector,38:{\"app\":[1,2.5,true,null],\"tier\":\"web\"},".to_vec()
    );
}

#[test]
fn text_that_is_no_json_is_refused() {
    let r = CapabilityRequest::new(b"cluster", b"list").with_json_argument(b"selector", b"{tier: web}");
    assert_eq!(
        r,
        Err(InvalidValue { reason: String::from("key must be a string at line 1 column 2") })
    );
    assert!(CapabilityRequest::new(b"c", b"o").with_json_argument(b"n", b"").is_err());
    assert!(CapabilityRequest::new(b"c", b"o").with_json_argument(b"n", b"1 2").is_err());
    assert!(CapabilityRequest::new(b"c", b"o").with_json_argument(b"n", b" \"default\" ").is_ok());
}

#[test]
fn texts_are_ordered_as_strings_are() {
    let texts = ["", "a", "ab", "b", "Z", "z", "\u{e9}", "e\u{301}", "\u{1f600}", "\u{ffff}", "zz", "a\u{0}"];
    for a in texts {
        for b in texts {
            let expected = if a < b {
                Place::Before
            } else if a == b {
                Place::Same
            } else {
                Place::After
            };
            assert_eq!(text_place_of(a, b), expected);
        }
    }
}
