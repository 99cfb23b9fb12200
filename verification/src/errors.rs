use vstd::prelude::*;

verus! {

/// Errors reported by the cache.
///
/// Coordinates that fall outside the accepted range are reported with the
/// IEEE 754 bit pattern of the offending value, so that the error type
/// holds plain integers only.
#[derive(Debug)]
pub enum GeoCacheError {
    LatitudeOutOfRange { value_bits: u64 },
    LongitudeOutOfRange { value_bits: u64 },
    InvalidFormat { input: String },
    InvalidCountryCode { code: String },
    CountryCodeWrongLength { len: usize },
    CacheKeyRawInvalidLength { len: usize },
    CacheKeyRawInvalidCharacters { value: String },
}

} // verus!
