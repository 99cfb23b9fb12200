use geoverse::{convert_lang_to_u16, convert_u16_to_lang, GeoCacheError};

#[test]
fn lang_packs_big_endian() {
    assert_eq!(convert_lang_to_u16("sk").unwrap(), 0x736B);
    assert_eq!(convert_lang_to_u16("EN").unwrap(), 0x454E);
}

#[test]
fn lang_round_trip() {
    let code = convert_lang_to_u16("sk").unwrap();
    assert_eq!(convert_u16_to_lang(code).unwrap(), "sk");
    assert_eq!(convert_lang_to_u16(&convert_u16_to_lang(0x7A41).unwrap()).unwrap(), 0x7A41);
}

#[test]
fn lang_wrong_length() {
    assert!(matches!(
        convert_lang_to_u16("svk"),
        Err(GeoCacheError::CountryCodeWrongLength { len: 3 })
    ));
    // "é" is two bytes but not two ASCII letters
    match convert_lang_to_u16("é") {
        Err(GeoCacheError::InvalidCountryCode { code }) => assert_eq!(code, "é"),
        other => panic!("unexpected {:?}", other),
    }
}

#[test]
fn lang_invalid_code_in_hex() {
    match convert_u16_to_lang(0x0041) {
        Err(GeoCacheError::InvalidCountryCode { code }) => assert_eq!(code, "0x0041"),
        other => panic!("unexpected {:?}", other),
    }
    match convert_u16_to_lang(0xBEEF) {
        Err(GeoCacheError::InvalidCountryCode { code }) => assert_eq!(code, "0xBEEF"),
        other => panic!("unexpected {:?}", other),
    }
}
