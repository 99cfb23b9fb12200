use geoverse::cache_key::{CacheKey, CacheKeyRaw};
use geoverse::GeoCacheError;

fn bratislava() -> CacheKey {
    CacheKey::try_from_microdeg(48164582, 17184710, "sk").unwrap()
}

#[test]
fn cache_key_from_microdeg_keeps_fields() {
    let key = bratislava();
    assert_eq!(key.lat(), 48164582);
    assert_eq!(key.lng(), 17184710);
    assert_eq!(key.lang(), 0x736B);
}

#[test]
fn cache_key_lang_errors() {
    assert!(matches!(
        CacheKey::try_from_microdeg(48164582, 17184710, "s"),
        Err(GeoCacheError::CountryCodeWrongLength { len: 1 })
    ));
    assert!(matches!(
        CacheKey::try_from_microdeg(48164582, 17184710, ""),
        Err(GeoCacheError::CountryCodeWrongLength { len: 0 })
    ));
    assert!(matches!(
        CacheKey::try_from_microdeg(48164582, 17184710, "SVKK"),
        Err(GeoCacheError::CountryCodeWrongLength { len: 4 })
    ));
    match CacheKey::try_from_microdeg(48164582, 17184710, "1a") {
        Err(GeoCacheError::InvalidCountryCode { code }) => assert_eq!(code, "1a"),
        other => panic!("unexpected {:?}", other),
    }
    match CacheKey::try_from_microdeg(48164582, 17184710, "s!") {
        Err(GeoCacheError::InvalidCountryCode { code }) => assert_eq!(code, "s!"),
        other => panic!("unexpected {:?}", other),
    }
}

#[test]
fn cache_key_raw_text_form() {
    let raw = CacheKeyRaw::from_cache_key(&bratislava());
    assert_eq!(&raw.0, b"sk;48164582;17184710");
    assert_eq!(raw.as_slice(), b"sk;48164582;17184710");
    assert!(raw.is_well_formed());
}

#[test]
fn cache_key_raw_pads_and_signs() {
    let key = CacheKey::try_from_microdeg(1234, -127800, "en").unwrap();
    let raw = CacheKeyRaw::from_cache_key(&key);
    assert_eq!(&raw.0, b"en;00001234;-0127800");
    assert_eq!(CacheKey::from_raw(&raw), key);
}

#[test]
fn cache_key_raw_round_trip() {
    let key = bratislava();
    let raw = CacheKeyRaw::from_cache_key(&key);
    assert_eq!(CacheKey::from_raw(&raw), key);
}

#[test]
fn cache_key_raw_from_slice() {
    assert!(CacheKeyRaw::try_from_slice(b"sk;48164582;1718471").is_none());
    let raw = CacheKeyRaw::try_from_slice(b"sk;48164582;17184710").unwrap();
    assert_eq!(CacheKey::from_raw(&raw), bratislava());
}

#[test]
fn cache_key_raw_not_well_formed() {
    let raw = CacheKeyRaw::try_from_slice(b"1k;48164582;17184710").unwrap();
    assert!(!raw.is_well_formed());
    let raw = CacheKeyRaw::try_from_slice(b"sk;4816x582;17184710").unwrap();
    assert!(!raw.is_well_formed());
    let raw = CacheKeyRaw::try_from_slice(b"sk;+4816458;-1718471").unwrap();
    assert!(raw.is_well_formed());
    let key = CacheKey::from_raw(&raw);
    assert_eq!(key.lat(), 4816458);
    assert_eq!(key.lng(), -1718471);
}

#[test]
fn cache_key_raw_text_check() {
    assert!(matches!(
        CacheKeyRaw::try_from_str("sk"),
        Err(GeoCacheError::CacheKeyRawInvalidLength { len: 2 })
    ));
    match CacheKeyRaw::try_from_str("sk;48164582;17184710") {
        Err(GeoCacheError::CacheKeyRawInvalidCharacters { value }) => {
            assert_eq!(value, "sk;48164582;17184710")
        }
        other => panic!("unexpected {:?}", other),
    }
    let raw = CacheKeyRaw::try_from_str("sk-48164582-17184710").unwrap();
    assert_eq!(&raw.0, b"sk-48164582-17184710");
}

#[test]
fn cache_key_code_round_trip() {
    let key = CacheKey::try_from_microdeg(-90_000_000, -180_000_000, "zz").unwrap();
    assert_eq!(CacheKey::from_code(key.code()), key);
    let key = bratislava();
    assert_eq!(CacheKey::from_code(key.code()), key);
    assert_ne!(bratislava().code(), CacheKey::try_from_microdeg(48164582, 17184710, "en").unwrap().code());
}
