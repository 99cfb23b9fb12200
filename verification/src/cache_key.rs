use vstd::prelude::*;

use crate::errors::GeoCacheError;
use crate::geo::{
    convert_lang_to_u16, is_ascii_letter, is_lang_code, lang_high, lang_low, pack_lang,
};
use vstd::arithmetic::div_mod::lemma_fundamental_div_mod_converse;
use vstd::string::StringSliceAdditionalSpecFns;

verus! {

/// Number of bytes in the textual form of a cache key.
pub const RAW_KEY_LEN: usize = 20;

/// The byte of `;`, which separates the fields of a raw key.
pub const SEPARATOR: u8 = 59;

/// A cache key: coordinates in microdegrees and a packed language code.
#[derive(PartialEq, Eq, Structural, Hash, Debug, Clone, Copy)]
pub struct CacheKey {
    lat: i32,
    lng: i32,
    lang: u16,
}

/// `10` raised to `n`.
pub open spec fn pow10(n: nat) -> nat
    decreases n,
{
    if n == 0 {
        1
    } else {
        10 * pow10((n - 1) as nat)
    }
}

/// The last `w` decimal digits of `n` as ASCII bytes, most significant first.
pub open spec fn fmt_digits(n: nat, w: nat) -> Seq<u8>
    decreases w,
{
    if w == 0 {
        seq![]
    } else {
        fmt_digits(n / 10, (w - 1) as nat).push((48 + n % 10) as u8)
    }
}

/// An `i32` written as Rust writes it with `{:08}`: zero-padded to width
/// eight, the sign counting towards the width. This is eight bytes long
/// exactly when `-10^7 < v < 10^8`.
pub open spec fn fmt_i32_8(v: int) -> Seq<u8> {
    if v >= 0 {
        fmt_digits(v as nat, 8)
    } else {
        seq![45u8] + fmt_digits((-v) as nat, 7)
    }
}

/// A value that `{:08}` writes in exactly eight bytes.
pub open spec fn fits_width_8(v: int) -> bool {
    -10_000_000 < v && v < 100_000_000
}

/// An ASCII decimal digit.
pub open spec fn is_digit(b: u8) -> bool {
    48 <= b && b <= 57
}

/// All bytes are ASCII decimal digits.
pub open spec fn all_digits(s: Seq<u8>) -> bool {
    forall|i: int| 0 <= i < s.len() ==> is_digit(#[trigger] s[i])
}

/// The number written by a sequence of ASCII decimal digits.
pub open spec fn digits_value(s: Seq<u8>) -> int
    decreases s.len(),
{
    if s.len() == 0 {
        0
    } else {
        digits_value(s.drop_last()) * 10 + (s.last() - 48)
    }
}

/// Eight bytes that `i32::from_str` accepts: an optional sign followed by
/// digits only.
pub open spec fn parses_as_i32_8(s: Seq<u8>) -> bool {
    &&& s.len() == 8
    &&& if s[0] == 45u8 || s[0] == 43u8 {
        all_digits(s.skip(1))
    } else {
        all_digits(s)
    }
}

/// The value `i32::from_str` gives for eight bytes it accepts.
pub open spec fn parsed_i32_8(s: Seq<u8>) -> int {
    if s[0] == 45u8 {
        -digits_value(s.skip(1))
    } else if s[0] == 43u8 {
        digits_value(s.skip(1))
    } else {
        digits_value(s)
    }
}

/// Twenty bytes that decode into a key: two ASCII letters, then two
/// eight-byte integers at offsets 3 and 12 (the separators at offsets 2
/// and 11 are not looked at).
pub open spec fn raw_well_formed(b: Seq<u8>) -> bool {
    &&& b.len() == 20
    &&& is_ascii_letter(b[0])
    &&& is_ascii_letter(b[1])
    &&& parses_as_i32_8(b.subrange(3, 11))
    &&& parses_as_i32_8(b.subrange(12, 20))
}

impl CacheKey {
    /// Latitude in microdegrees.
    pub closed spec fn spec_lat(&self) -> i32 {
        self.lat
    }

    /// Longitude in microdegrees.
    pub closed spec fn spec_lng(&self) -> i32 {
        self.lng
    }

    /// Packed language code.
    pub closed spec fn spec_lang(&self) -> u16 {
        self.lang
    }

    /// The key with the given fields.
    pub closed spec fn spec_new(lat: i32, lng: i32, lang: u16) -> CacheKey {
        CacheKey { lat, lng, lang }
    }

    /// An injective packing of the key into a `u128`.
    pub closed spec fn spec_code(self) -> u128 {
        ((self.lat as int + 0x8000_0000) * 0x1_0000_0000_0000 + (self.lng as int + 0x8000_0000)
            * 0x1_0000 + self.lang as int) as u128
    }

    /// A key that has a twenty-byte textual form: its language code is two
    /// letters and both coordinates fit `{:08}`.
    pub open spec fn encodable(self) -> bool {
        &&& is_lang_code(self.spec_lang())
        &&& fits_width_8(self.spec_lat() as int)
        &&& fits_width_8(self.spec_lng() as int)
    }

    /// The twenty-byte textual form `ll;LLLLLLLL;GGGGGGGG`.
    pub open spec fn raw_bytes(self) -> Seq<u8> {
        seq![lang_high(self.spec_lang()), lang_low(self.spec_lang()), SEPARATOR] + fmt_i32_8(
            self.spec_lat() as int,
        ) + seq![SEPARATOR] + fmt_i32_8(self.spec_lng() as int)
    }

    /// The key that well-formed raw bytes decode into.
    pub open spec fn from_raw_bytes(b: Seq<u8>) -> CacheKey {
        CacheKey::spec_new(
            parsed_i32_8(b.subrange(3, 11)) as i32,
            parsed_i32_8(b.subrange(12, 20)) as i32,
            pack_lang(b[0], b[1]),
        )
    }

    pub proof fn lemma_new_fields(lat: i32, lng: i32, lang: u16)
        ensures
            CacheKey::spec_new(lat, lng, lang).spec_lat() == lat,
            CacheKey::spec_new(lat, lng, lang).spec_lng() == lng,
            CacheKey::spec_new(lat, lng, lang).spec_lang() == lang,
    {
    }

    /// Distinct keys have distinct codes.
    pub proof fn lemma_code_injective(a: CacheKey, b: CacheKey)
        ensures
            a.spec_code() == b.spec_code() <==> a == b,
    {
        let m16: int = 0x1_0000;
        let m32: int = 0x1_0000_0000;
        let qa = (a.lat as int + 0x8000_0000) * m32 + (a.lng as int + 0x8000_0000);
        let qb = (b.lat as int + 0x8000_0000) * m32 + (b.lng as int + 0x8000_0000);
        let xa = (a.lat as int + 0x8000_0000) * 0x1_0000_0000_0000 + (a.lng as int + 0x8000_0000)
            * 0x1_0000 + a.lang as int;
        let xb = (b.lat as int + 0x8000_0000) * 0x1_0000_0000_0000 + (b.lng as int + 0x8000_0000)
            * 0x1_0000 + b.lang as int;
        assert(xa == qa * m16 + a.lang) by (nonlinear_arith)
            requires
                xa == (a.lat as int + 0x8000_0000) * 0x1_0000_0000_0000 + (a.lng as int
                    + 0x8000_0000) * 0x1_0000 + a.lang as int,
                qa == (a.lat as int + 0x8000_0000) * m32 + (a.lng as int + 0x8000_0000),
                m16 == 0x1_0000,
                m32 == 0x1_0000_0000,
        ;
        assert(xb == qb * m16 + b.lang) by (nonlinear_arith)
            requires
                xb == (b.lat as int + 0x8000_0000) * 0x1_0000_0000_0000 + (b.lng as int
                    + 0x8000_0000) * 0x1_0000 + b.lang as int,
                qb == (b.lat as int + 0x8000_0000) * m32 + (b.lng as int + 0x8000_0000),
                m16 == 0x1_0000,
                m32 == 0x1_0000_0000,
        ;
        assert(0 <= xa < 0x1_0000_0000_0000_0000_0000) by (nonlinear_arith)
            requires
                xa == qa * m16 + a.lang,
                qa == (a.lat as int + 0x8000_0000) * m32 + (a.lng as int + 0x8000_0000),
                m16 == 0x1_0000,
                m32 == 0x1_0000_0000,
                -0x8000_0000 <= a.lat < 0x8000_0000,
                -0x8000_0000 <= a.lng < 0x8000_0000,
                0 <= a.lang < 0x1_0000,
        ;
        assert(0 <= xb < 0x1_0000_0000_0000_0000_0000) by (nonlinear_arith)
            requires
                xb == qb * m16 + b.lang,
                qb == (b.lat as int + 0x8000_0000) * m32 + (b.lng as int + 0x8000_0000),
                m16 == 0x1_0000,
                m32 == 0x1_0000_0000,
                -0x8000_0000 <= b.lat < 0x8000_0000,
                -0x8000_0000 <= b.lng < 0x8000_0000,
                0 <= b.lang < 0x1_0000,
        ;
        if a.spec_code() == b.spec_code() {
            assert(xa == xb);
            lemma_fundamental_div_mod_converse(xa, m16, qa, a.lang as int);
            lemma_fundamental_div_mod_converse(xb, m16, qb, b.lang as int);
            lemma_fundamental_div_mod_converse(
                qa,
                m32,
                a.lat as int + 0x8000_0000,
                a.lng as int + 0x8000_0000,
            );
            lemma_fundamental_div_mod_converse(
                qb,
                m32,
                b.lat as int + 0x8000_0000,
                b.lng as int + 0x8000_0000,
            );
        }
    }

    /// Builds a key from coordinates already converted to microdegrees and
    /// a two-letter language code; the code is rejected exactly as
    /// [`convert_lang_to_u16`] rejects it.
    pub fn try_from_microdeg(lat: i32, lng: i32, lang: &str) -> (r: Result<CacheKey, GeoCacheError>)
        ensures
            ({
                let b = lang.spec_bytes();
                match r {
                    Ok(key) => b.len() == 2 && is_ascii_letter(b[0]) && is_ascii_letter(b[1])
                        && key == CacheKey::spec_new(lat, lng, pack_lang(b[0], b[1])),
                    Err(GeoCacheError::InvalidCountryCode { code }) => b.len() == 2 && !(
                    is_ascii_letter(b[0]) && is_ascii_letter(b[1])) && code@ == lang@,
                    Err(GeoCacheError::CountryCodeWrongLength { len }) => b.len() != 2 && len
                        == b.len(),
                    Err(_) => false,
                }
            }),
    {
        match convert_lang_to_u16(lang) {
            Ok(code) => Ok(CacheKey { lat, lng, lang: code }),
            Err(e) => Err(e),
        }
    }

    /// Latitude in microdegrees.
    #[verifier::when_used_as_spec(spec_lat)]
    pub fn lat(&self) -> (r: i32)
        ensures
            r == self.spec_lat(),
    {
        self.lat
    }

    /// Longitude in microdegrees.
    #[verifier::when_used_as_spec(spec_lng)]
    pub fn lng(&self) -> (r: i32)
        ensures
            r == self.spec_lng(),
    {
        self.lng
    }

    /// Packed language code.
    #[verifier::when_used_as_spec(spec_lang)]
    pub fn lang(&self) -> (r: u16)
        ensures
            r == self.spec_lang(),
    {
        self.lang
    }

    /// Whether the key has a twenty-byte textual form (see
    /// [`CacheKey::encodable`]).
    pub fn is_encodable(&self) -> (r: bool)
        ensures
            r == self.encodable(),
    {
        let high = (self.lang / 256) as u8;
        let low = (self.lang % 256) as u8;
        let letters = ((0x41 <= high && high <= 0x5A) || (0x61 <= high && high <= 0x7A)) && ((0x41
            <= low && low <= 0x5A) || (0x61 <= low && low <= 0x7A));
        letters && -10_000_000 < self.lat && self.lat < 100_000_000 && -10_000_000 < self.lng
            && self.lng < 100_000_000
    }

    /// The key packed into a `u128`, used to index hash tables.
    pub fn code(&self) -> (r: u128)
        ensures
            r == self.spec_code(),
    {
        ((self.lat as i64 + 0x8000_0000) as u128) * 0x1_0000_0000_0000 + ((self.lng as i64
            + 0x8000_0000) as u128) * 0x1_0000 + (self.lang as u128)
    }

    /// The key whose code is `c`, for `c` below 2^80 (every code is).
    pub open spec fn spec_from_code(c: u128) -> CacheKey {
        CacheKey::spec_new(
            ((c / 0x1_0000) / 0x1_0000_0000 - 0x8000_0000) as i32,
            ((c / 0x1_0000) % 0x1_0000_0000 - 0x8000_0000) as i32,
            (c % 0x1_0000) as u16,
        )
    }

    /// Codes lie below 2^80, and decode back into their keys.
    pub proof fn lemma_code_bound(k: CacheKey)
        ensures
            k.spec_code() < 0x1_0000_0000_0000_0000_0000,
            CacheKey::spec_from_code(k.spec_code()) == k,
    {
        let a = k.lat as int + 0x8000_0000;
        let b = k.lng as int + 0x8000_0000;
        let l = k.lang as int;
        let c = a * 0x1_0000_0000_0000 + b * 0x1_0000 + l;
        let q = a * 0x1_0000_0000 + b;
        assert(c == q * 0x1_0000 + l && 0 <= c < 0x1_0000_0000_0000_0000_0000) by (nonlinear_arith)
            requires
                c == a * 0x1_0000_0000_0000 + b * 0x1_0000 + l,
                q == a * 0x1_0000_0000 + b,
                0 <= a < 0x1_0000_0000,
                0 <= b < 0x1_0000_0000,
                0 <= l < 0x1_0000,
        ;
        assert(k.spec_code() == c);
        lemma_fundamental_div_mod_converse(c, 0x1_0000, q, l);
        lemma_fundamental_div_mod_converse(q, 0x1_0000_0000, a, b);
        let d = CacheKey::spec_from_code(k.spec_code());
        assert(d.lat == k.lat && d.lng == k.lng && d.lang == k.lang);
    }

    /// Decoding a code below 2^80 gives a key with that code.
    pub proof fn lemma_from_code(c: u128)
        requires
            c < 0x1_0000_0000_0000_0000_0000,
        ensures
            CacheKey::spec_from_code(c).spec_code() == c,
    {
        let l = c as int % 0x1_0000;
        let q = c as int / 0x1_0000;
        let b = q % 0x1_0000_0000;
        let a = q / 0x1_0000_0000;
        assert(c == q * 0x1_0000 + l) by (nonlinear_arith)
            requires
                l == c as int % 0x1_0000,
                q == c as int / 0x1_0000,
        ;
        assert(q == a * 0x1_0000_0000 + b) by (nonlinear_arith)
            requires
                b == q % 0x1_0000_0000,
                a == q / 0x1_0000_0000,
        ;
        assert(0 <= a < 0x1_0000_0000 && 0 <= b < 0x1_0000_0000 && 0 <= l < 0x1_0000)
            by (nonlinear_arith)
            requires
                c < 0x1_0000_0000_0000_0000_0000,
                c == q * 0x1_0000 + l,
                q == a * 0x1_0000_0000 + b,
                b == q % 0x1_0000_0000,
                l == c as int % 0x1_0000,
                0 <= c,
        ;
        assert(c == a * 0x1_0000_0000_0000 + b * 0x1_0000 + l) by (nonlinear_arith)
            requires
                c == q * 0x1_0000 + l,
                q == a * 0x1_0000_0000 + b,
        ;
        let d = CacheKey::spec_from_code(c);
        assert(d.lat as int + 0x8000_0000 == a);
        assert(d.lng as int + 0x8000_0000 == b);
        assert(d.lang as int == l);
    }

    /// Decodes a code into its key (see [`CacheKey::spec_from_code`]).
    pub fn from_code(c: u128) -> (r: CacheKey)
        requires
            c < 0x1_0000_0000_0000_0000_0000,
        ensures
            r == CacheKey::spec_from_code(c),
            r.spec_code() == c,
    {
        proof {
            CacheKey::lemma_from_code(c);
        }
        let q = c / 0x1_0000;
        assert(q / 0x1_0000_0000 < 0x1_0000_0000) by (nonlinear_arith)
            requires
                q == c / 0x1_0000,
                c < 0x1_0000_0000_0000_0000_0000,
        ;
        let lat = ((q / 0x1_0000_0000) as i64 - 0x8000_0000) as i32;
        let lng = ((q % 0x1_0000_0000) as i64 - 0x8000_0000) as i32;
        let lang = (c % 0x1_0000) as u16;
        CacheKey { lat, lng, lang }
    }
}


/// A map keyed by key codes, seen as a map keyed by keys.
pub open spec fn keyed<V>(m: Map<u128, V>) -> Map<CacheKey, V> {
    Map::new(|k: CacheKey| m.contains_key(k.spec_code()), |k: CacheKey| m[k.spec_code()])
}

pub proof fn lemma_keyed_insert<V>(m: Map<u128, V>, key: CacheKey, v: V)
    ensures
        keyed(m.insert(key.spec_code(), v)) == keyed(m).insert(key, v),
{
    let lhs = keyed(m.insert(key.spec_code(), v));
    let rhs = keyed(m).insert(key, v);
    assert forall|k: CacheKey| lhs.contains_key(k) == rhs.contains_key(k) by {
        CacheKey::lemma_code_injective(k, key);
    }
    assert forall|k: CacheKey| #[trigger] lhs.contains_key(k) implies lhs[k] == rhs[k] by {
        CacheKey::lemma_code_injective(k, key);
    }
    assert(lhs =~= rhs);
}

pub proof fn lemma_keyed_remove<V>(m: Map<u128, V>, key: CacheKey)
    ensures
        keyed(m.remove(key.spec_code())) == keyed(m).remove(key),
{
    let lhs = keyed(m.remove(key.spec_code()));
    let rhs = keyed(m).remove(key);
    assert forall|k: CacheKey| lhs.contains_key(k) == rhs.contains_key(k) by {
        CacheKey::lemma_code_injective(k, key);
    }
    assert(lhs =~= rhs);
}

/// The textual form of a cache key, `ll;LLLLLLLL;GGGGGGGG`: the language
/// code, then latitude and longitude in microdegrees as `{:08}` writes
/// them.
#[derive(Debug, Hash, Eq, PartialEq)]
pub struct CacheKeyRaw(pub [u8; 20]);

/// A byte that a serialised raw key may hold: an ASCII letter or digit, or
/// `-`.
pub open spec fn is_raw_text_byte(b: u8) -> bool {
    is_ascii_letter(b) || is_digit(b) || b == 45u8
}

/// Appends the last `w` decimal digits of `n`.
fn push_digits(v: &mut Vec<u8>, n: u32, w: usize)
    ensures
        final(v)@ == old(v)@ + fmt_digits(n as nat, w as nat),
    decreases w,
{
    if w > 0 {
        push_digits(v, n / 10, w - 1);
        v.push((48 + n % 10) as u8);
        assert(final(v)@ =~= old(v)@ + fmt_digits(n as nat, w as nat));
    } else {
        assert(final(v)@ =~= old(v)@ + fmt_digits(n as nat, w as nat));
    }
}

/// Appends `v` as `{:08}` writes it.
fn push_i32_8(out: &mut Vec<u8>, v: i32)
    requires
        fits_width_8(v as int),
    ensures
        final(out)@ == old(out)@ + fmt_i32_8(v as int),
{
    if v >= 0 {
        push_digits(out, v as u32, 8);
    } else {
        out.push(45u8);
        push_digits(out, (-(v as i64)) as u32, 7);
        assert(final(out)@ =~= old(out)@ + fmt_i32_8(v as int));
    }
}

pub proof fn lemma_fmt_digits(n: nat, w: nat)
    ensures
        fmt_digits(n, w).len() == w,
        all_digits(fmt_digits(n, w)),
        n < pow10(w) ==> digits_value(fmt_digits(n, w)) == n,
    decreases w,
{
    if w > 0 {
        lemma_fmt_digits(n / 10, (w - 1) as nat);
        let s = fmt_digits(n, w);
        assert(s.drop_last() =~= fmt_digits(n / 10, (w - 1) as nat));
        if n < pow10(w) {
            assert(n / 10 < pow10((w - 1) as nat));
        }
    }
}

proof fn lemma_fmt_i32_8(v: int)
    requires
        fits_width_8(v),
    ensures
        fmt_i32_8(v).len() == 8,
        parses_as_i32_8(fmt_i32_8(v)),
        parsed_i32_8(fmt_i32_8(v)) == v,
{
    reveal_with_fuel(pow10, 9);
    if v >= 0 {
        lemma_fmt_digits(v as nat, 8);
        let s = fmt_digits(v as nat, 8);
        assert(is_digit(s[0]));
    } else {
        lemma_fmt_digits((-v) as nat, 7);
        let s = fmt_i32_8(v);
        assert(s.skip(1) =~= fmt_digits((-v) as nat, 7));
    }
}

/// The textual form of every key is twenty bytes long.
pub proof fn lemma_raw_len(k: CacheKey)
    ensures
        k.raw_bytes().len() == 20,
{
    lemma_fmt_digits(k.spec_lat() as nat, 8);
    lemma_fmt_digits((-k.spec_lat()) as nat, 7);
    lemma_fmt_digits(k.spec_lng() as nat, 8);
    lemma_fmt_digits((-k.spec_lng()) as nat, 7);
}

/// A key that has a textual form decodes back into itself.
pub proof fn lemma_raw_round_trip(k: CacheKey)
    requires
        k.encodable(),
    ensures
        raw_well_formed(k.raw_bytes()),
        CacheKey::from_raw_bytes(k.raw_bytes()) == k,
{
    let b = k.raw_bytes();
    lemma_fmt_i32_8(k.spec_lat() as int);
    lemma_fmt_i32_8(k.spec_lng() as int);
    assert(b.subrange(3, 11) =~= fmt_i32_8(k.spec_lat() as int));
    assert(b.subrange(12, 20) =~= fmt_i32_8(k.spec_lng() as int));
    assert(pack_lang(b[0], b[1]) == k.spec_lang());
}

/// Parses the eight bytes at `off` as `i32::from_str` does.
fn parse_i32_8(b: &[u8; 20], off: usize) -> (v: i32)
    requires
        off + 8 <= 20,
        parses_as_i32_8(b@.subrange(off as int, off + 8)),
    ensures
        v == parsed_i32_8(b@.subrange(off as int, off + 8)),
{
    let ghost s = b@.subrange(off as int, off + 8);
    let first = b[off];
    let start: usize = if first == 45u8 || first == 43u8 {
        1
    } else {
        0
    };
    let mut acc: u32 = 0;
    let mut i: usize = start;
    let ghost mut p: nat = 1;
    while i < 8
        invariant
            start <= i <= 8,
            start == 0 || start == 1,
            off + 8 <= 20,
            s == b@.subrange(off as int, off + 8),
            start == 1 ==> all_digits(s.skip(1)),
            start == 0 ==> all_digits(s),
            acc as int == digits_value(s.subrange(start as int, i as int)),
            acc < p,
            p == pow10((i - start) as nat),
            p <= 100_000_000,
        decreases 8 - i,
    {
        let d = b[off + i];
        assert(d == s[i as int]);
        if start == 1 {
            assert(s.skip(1)[i - 1] == s[i as int]);
            assert(is_digit(s.skip(1)[i - 1]));
        } else {
            assert(is_digit(s[i as int]));
        }
        assert(s.subrange(start as int, i + 1).drop_last() =~= s.subrange(start as int, i as int));
        proof {
            if i + 1 - start < 9 {
                reveal_with_fuel(pow10, 9);
            }
        }
        assert(acc * 10 + (d - 48) < p * 10) by (nonlinear_arith)
            requires
                acc < p,
                0 <= d - 48 < 10,
        ;
        acc = acc * 10 + (d - 48) as u32;
        i = i + 1;
        proof {
            p = p * 10;
            reveal_with_fuel(pow10, 9);
            assert(p <= 100_000_000);
        }
    }
    assert(s.subrange(start as int, 8) =~= if start == 1 { s.skip(1) } else { s });
    if first == 45u8 {
        -(acc as i32)
    } else {
        acc as i32
    }
}

/// Tells whether `i32::from_str` accepts the eight bytes at `off`.
fn field_parses(b: &[u8; 20], off: usize) -> (ok: bool)
    requires
        off + 8 <= 20,
    ensures
        ok == parses_as_i32_8(b@.subrange(off as int, off + 8)),
{
    let ghost s = b@.subrange(off as int, off + 8);
    let first = b[off];
    let start: usize = if first == 45u8 || first == 43u8 {
        1
    } else {
        0
    };
    let mut i: usize = start;
    while i < 8
        invariant
            start <= i <= 8,
            start == 0 || start == 1,
            off + 8 <= 20,
            s == b@.subrange(off as int, off + 8),
            start == 1 <==> (s[0] == 45u8 || s[0] == 43u8),
            forall|j: int| start <= j < i ==> is_digit(#[trigger] s[j]),
        decreases 8 - i,
    {
        let d = b[off + i];
        assert(d == s[i as int]);
        if !(48 <= d && d <= 57) {
            if start == 1 {
                assert(!is_digit(s.skip(1)[i - 1]));
            } else {
                assert(!is_digit(s[i as int]));
            }
            return false;
        }
        i = i + 1;
    }
    if start == 1 {
        assert forall|j: int| 0 <= j < 7 implies is_digit(#[trigger] s.skip(1)[j]) by {
            assert(s.skip(1)[j] == s[j + 1]);
        }
    }
    true
}

impl CacheKeyRaw {
    /// Tells whether the bytes decode into a key (see [`raw_well_formed`]).
    pub fn is_well_formed(&self) -> (ok: bool)
        ensures
            ok == raw_well_formed(self.bytes()),
    {
        (0x41 <= self.0[0] && self.0[0] <= 0x5A || 0x61 <= self.0[0] && self.0[0] <= 0x7A) && (0x41
            <= self.0[1] && self.0[1] <= 0x5A || 0x61 <= self.0[1] && self.0[1] <= 0x7A)
            && field_parses(&self.0, 3) && field_parses(&self.0, 12)
    }

    /// The twenty bytes.
    pub open spec fn bytes(&self) -> Seq<u8> {
        self.0@
    }

    /// The textual form of a key. A coordinate that `{:08}` writes in more
    /// than eight bytes, or a language code that is not two letters, has no
    /// textual form and is refused by `requires`.
    pub fn from_cache_key(key: &CacheKey) -> (r: CacheKeyRaw)
        requires
            key.encodable(),
        ensures
            r.bytes() == key.raw_bytes(),
    {
        let mut v: Vec<u8> = Vec::new();
        v.push((key.lang / 256) as u8);
        v.push((key.lang % 256) as u8);
        v.push(SEPARATOR);
        push_i32_8(&mut v, key.lat);
        v.push(SEPARATOR);
        push_i32_8(&mut v, key.lng);
        assert(v@ =~= key.raw_bytes());
        proof {
            lemma_fmt_i32_8(key.spec_lat() as int);
            lemma_fmt_i32_8(key.spec_lng() as int);
        }
        let mut buf = [0u8; 20];
        let mut i: usize = 0;
        while i < 20
            invariant
                0 <= i <= 20,
                v@.len() == 20,
                forall|j: int| 0 <= j < i ==> buf@[j] == v@[j],
            decreases 20 - i,
        {
            buf[i] = v[i];
            i = i + 1;
        }
        assert(buf@ =~= v@);
        CacheKeyRaw(buf)
    }

    /// Checks serialised text: it must be twenty bytes long and hold only
    /// ASCII letters, digits and `-`.
    pub fn try_from_str(s: &str) -> (r: Result<CacheKeyRaw, GeoCacheError>)
        ensures
            ({
                let b = s.spec_bytes();
                match r {
                    Ok(raw) => b.len() == 20 && (forall|i: int|
                        0 <= i < 20 ==> is_raw_text_byte(#[trigger] b[i])) && raw.bytes() == b,
                    Err(GeoCacheError::CacheKeyRawInvalidLength { len }) => b.len() != 20 && len
                        == b.len(),
                    Err(GeoCacheError::CacheKeyRawInvalidCharacters { value }) => b.len() == 20
                        && !(forall|i: int| 0 <= i < 20 ==> is_raw_text_byte(#[trigger] b[i]))
                        && value@ == s@,
                    Err(_) => false,
                }
            }),
    {
        let bytes = s.as_bytes();
        if bytes.len() != 20 {
            return Err(GeoCacheError::CacheKeyRawInvalidLength { len: bytes.len() });
        }
        let mut buf = [0u8; 20];
        let mut i: usize = 0;
        while i < 20
            invariant
                0 <= i <= 20,
                bytes@.len() == 20,
                bytes@ == s.spec_bytes(),
                forall|j: int| 0 <= j < i ==> buf@[j] == bytes@[j],
                forall|j: int| 0 <= j < i ==> is_raw_text_byte(#[trigger] bytes@[j]),
            decreases 20 - i,
        {
            let c = bytes[i];
            if !((0x41 <= c && c <= 0x5A) || (0x61 <= c && c <= 0x7A) || (48 <= c && c <= 57) || c
                == 45) {
                assert(!is_raw_text_byte(bytes@[i as int]));
                assert(!(forall|j: int| 0 <= j < 20 ==> is_raw_text_byte(#[trigger] bytes@[j])));
                let value = s.to_owned();
                assert(value@ == s@);
                return Err(GeoCacheError::CacheKeyRawInvalidCharacters { value });
            }
            buf[i] = c;
            i = i + 1;
        }
        assert(buf@ =~= bytes@);
        Ok(CacheKeyRaw(buf))
    }

    /// The raw key of a byte slice of length twenty; `None` for any other
    /// length.
    pub fn try_from_slice(bytes: &[u8]) -> (r: Option<CacheKeyRaw>)
        ensures
            match r {
                Some(raw) => bytes@.len() == 20 && raw.bytes() == bytes@,
                None => bytes@.len() != 20,
            },
    {
        if bytes.len() != 20 {
            return None;
        }
        let mut buf = [0u8; 20];
        let mut i: usize = 0;
        while i < 20
            invariant
                0 <= i <= 20,
                bytes@.len() == 20,
                forall|j: int| 0 <= j < i ==> buf@[j] == bytes@[j],
            decreases 20 - i,
        {
            buf[i] = bytes[i];
            i = i + 1;
        }
        assert(buf@ =~= bytes@);
        Some(CacheKeyRaw(buf))
    }

    /// The twenty bytes as a slice.
    pub fn as_slice(&self) -> (r: &[u8])
        ensures
            r@ == self.bytes(),
    {
        self.0.as_slice()
    }
}

impl CacheKey {
    /// Decodes a raw key. Bytes that do not decode (no letters at the
    /// front, or a field that `i32::from_str` refuses) are refused by
    /// `requires`.
    pub fn from_raw(raw: &CacheKeyRaw) -> (k: CacheKey)
        requires
            raw_well_formed(raw.bytes()),
        ensures
            k == CacheKey::from_raw_bytes(raw.bytes()),
    {
        let lat = parse_i32_8(&raw.0, 3);
        let lng = parse_i32_8(&raw.0, 12);
        let lang = (raw.0[0] as u16) * 256 + (raw.0[1] as u16);
        CacheKey { lat, lng, lang }
    }
}

} // verus!
