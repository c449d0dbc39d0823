use meowpad::slug::slugify;
use meowpad::store::StoreError;

#[test]
fn test_slugify() {
    let base_case = "Jacques Torneur";
    assert_eq!(slugify(base_case).unwrap(), "jacques-torneur".to_string());

    let alphanumeric = "Excuse 17";
    assert_eq!(slugify(alphanumeric).unwrap(), "excuse-17".to_string());

    let punctuated = "Mr. Bungle";
    assert_eq!(slugify(punctuated).unwrap(), "mr-bungle".to_string());

    let trim_whitespace = " Ursula K. Le Guin ";
    assert_eq!(slugify(trim_whitespace).unwrap(), "ursula-k-le-guin".to_string());

    let namespaced = "ns1:ns2:actual term";
    assert_eq!(slugify(namespaced).unwrap(), "ns1:ns2:actual-term".to_string());

    let trim_interior_whitespace = "  ns1  : ns2 ?: actual term";
    assert_eq!(
        slugify(trim_interior_whitespace).unwrap(),
        "ns1:ns2:actual-term".to_string()
    );

    let invalid_empty = "";
    assert!(slugify(invalid_empty).is_err());

    let invalid_whitespace_only = "   ";
    assert!(slugify(invalid_whitespace_only).is_err());

    let invalid_punctuation_only = "???";
    assert!(slugify(invalid_punctuation_only).is_err());

    let invalid_leading_namespace = ":foo";
    assert!(slugify(invalid_leading_namespace).is_err());

    let invalid_trailing_namespace = "foo:";
    assert!(slugify(invalid_trailing_namespace).is_err());

    let invalid_empty_namespace = "foo::bar";
    assert!(slugify(invalid_empty_namespace).is_err());

    let invalid_whitespace_namespace = "foo: :bar";
    assert!(slugify(invalid_whitespace_namespace).is_err());
}

#[test]
fn slug_is_idempotent_on_examples() {
    for name in ["Jacques Torneur", "  ns1  : ns2 ?: actual term", "Mr. Bungle", "a--b", "x:-y-"] {
        let once = slugify(name).unwrap();
        let twice = slugify(&once).unwrap();
        assert_eq!(once, twice);
    }
}

#[test]
fn slug_segments_are_trimmed_and_non_empty() {
    let s = slugify("--Alpha-- : ?beta? : -gamma- delta").unwrap();
    assert_eq!(s, "alpha:beta:gamma-delta");
    for seg in s.split(':') {
        assert!(!seg.is_empty());
        assert!(!seg.starts_with('-'));
        assert!(!seg.ends_with('-'));
    }
}

#[test]
fn slug_rejects_invalid_inputs() {
    for name in ["", "   ", "???", ":foo", "foo:", "foo::bar"] {
        assert_eq!(slugify(name), Err(StoreError::Validation));
    }
}

#[test]
fn slug_lowercases_and_keeps_unicode_letters() {
    assert_eq!(slugify("ABC").unwrap(), "abc");
    assert_eq!(slugify("Café Müller").unwrap(), "café-müller");
    assert_eq!(slugify("Ünïcode:ZZ").unwrap(), "ünïcode:zz");
}
