use envcache::cache::EnvCache;
use envcache::codec::{decode_snapshot, encode_snapshot, DecodeError};

fn s(t: &str) -> String {
    t.to_string()
}

fn cache_with(pairs: &[(&str, &str)]) -> EnvCache {
    let mut c = EnvCache::default();
    for (k, v) in pairs {
        c.cache(k, Some(s(v)));
    }
    c
}

#[test]
fn snapshot_exact_text() {
    let c = cache_with(&[("TEST", "42")]);
    assert_eq!(c.snapshot(), Some(s("00000004TEST0000000242")));
}

#[test]
fn snapshot_lengths_are_hexadecimal() {
    let key = "TEST_LOOOONNNNNNNGGGGGGGGGGGGGGG";
    assert_eq!(key.chars().count(), 32);
    let c = cache_with(&[(key, "")]);
    assert_eq!(c.snapshot(), Some(format!("00000020{}00000000", key)));
}

#[test]
fn snapshot_counts_characters() {
    let c = cache_with(&[("K", "é€")]);
    assert_eq!(c.snapshot(), Some(s("00000001K00000002é€")));
    let back = EnvCache::new(Some("00000001K00000002é€")).unwrap();
    let mut back = back;
    assert_eq!(back.cache("K", None), Some(s("é€")));
}

#[test]
fn round_trip_keeps_mapping() {
    let pairs = vec![(s("A"), s("1")), (s("PATH_TO_LIB"), s("")), (s("Ü"), s("a=b c"))];
    let text = encode_snapshot(&pairs).unwrap();
    assert_eq!(decode_snapshot(&text), Ok(pairs));
}

#[test]
fn empty_snapshot_is_empty_cache() {
    assert_eq!(decode_snapshot(""), Ok(vec![]));
    let c = EnvCache::new(Some("")).unwrap();
    assert_eq!(c.snapshot(), Some(s("")));
    assert!(c.directives().is_empty());
}

#[test]
fn environment_precedence() {
    let mut c = EnvCache::new(Some("00000001X00000003old")).unwrap();
    assert_eq!(c.cache("X", Some(s("new"))), Some(s("new")));
    assert_eq!(c.cache("X", None), Some(s("new")));
    assert_eq!(c.snapshot(), Some(s("00000001X00000003new")));
}

#[test]
fn empty_live_value_overrides() {
    let mut c = EnvCache::new(Some("00000001X00000003old")).unwrap();
    assert_eq!(c.cache("X", Some(s(""))), Some(s("")));
    assert_eq!(c.snapshot(), Some(s("00000001X00000000")));
}

#[test]
fn fallback_to_cached_value() {
    let mut c = EnvCache::new(Some("00000001X00000003old")).unwrap();
    assert_eq!(c.cache("X", None), Some(s("old")));
    assert_eq!(c.snapshot(), Some(s("00000001X00000003old")));
}

#[test]
fn absent_stays_absent() {
    let mut c = EnvCache::new(None).unwrap();
    assert_eq!(c.cache("Y", None), None);
    assert_eq!(c.snapshot(), Some(s("")));
}

#[test]
fn persistence_across_instances() {
    let mut a = EnvCache::new(None).unwrap();
    assert_eq!(a.cache("Z", Some(s("7"))), Some(s("7")));
    let written = a.snapshot().unwrap();
    let mut b = EnvCache::new(Some(&written)).unwrap();
    assert_eq!(b.cache("Z", None), Some(s("7")));
}

#[test]
fn corrupt_non_numeric_length() {
    assert_eq!(EnvCache::new(Some("0000000zX00000001a")).err(), Some(DecodeError::BadLength));
    assert_eq!(EnvCache::new(Some("00000001X0000000?a")).err(), Some(DecodeError::BadLength));
}

#[test]
fn corrupt_uppercase_length() {
    assert_eq!(decode_snapshot("0000000A0123456789"), Err(DecodeError::BadLength));
}

#[test]
fn corrupt_length_exceeds_text() {
    assert_eq!(EnvCache::new(Some("00000009X00000001a")).err(), Some(DecodeError::Truncated));
    assert_eq!(EnvCache::new(Some("00000001X00000002a")).err(), Some(DecodeError::Truncated));
}

#[test]
fn corrupt_truncated_header() {
    assert_eq!(decode_snapshot("0000"), Err(DecodeError::Truncated));
    assert_eq!(decode_snapshot("00000001X0000"), Err(DecodeError::Truncated));
    assert_eq!(decode_snapshot("00000001X00000001a0"), Err(DecodeError::Truncated));
}

#[test]
fn repeated_key_in_snapshot_keeps_last_value() {
    let mut c = EnvCache::new(Some("00000001X00000001100000001X000000012")).unwrap();
    assert_eq!(c.cache("X", None), Some(s("2")));
    assert_eq!(c.snapshot(), Some(s("00000001X000000012")));
}

#[test]
fn refinalize_is_identical() {
    let c = cache_with(&[("B", "2"), ("A", "1"), ("C", "")]);
    let first = c.snapshot();
    let second = c.snapshot();
    assert_eq!(first, second);
    assert_eq!(c.directives(), c.directives());
    let restored = EnvCache::new(Some(&first.clone().unwrap())).unwrap();
    assert_eq!(restored.snapshot(), first);
}

#[test]
fn directives_for_each_entry() {
    let c = cache_with(&[("TEST", "42"), ("OTHER", "")]);
    assert_eq!(
        c.directives(),
        vec![
            s("cargo:rerun-if-env-changed=TEST"),
            s("cargo:rustc-env=TEST=42"),
            s("cargo:rerun-if-env-changed=OTHER"),
            s("cargo:rustc-env=OTHER="),
        ]
    );
}

#[test]
fn new_key_goes_last() {
    let mut c = cache_with(&[("A", "1")]);
    c.cache("B", Some(s("2")));
    c.cache("A", Some(s("3")));
    assert_eq!(c.snapshot(), Some(s("00000001A00000001300000001B000000012")));
}
