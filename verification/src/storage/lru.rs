use vstd::prelude::*;

use crate::cache_key::CacheKey;
use crate::storage::deque::append_record;
use crate::storage::{
    delete_count, delete_count_fits, lemma_items_size_add, lemma_items_size_one, lemma_records_consumed,
    lemma_records_len, entry_storable, entry_view, item_size, items_size, lemma_items_size_prefix,
    lemma_records_bytes_push, lemma_records_round_trip, on_delete_items_count, parse_records,
    parsed_records, records_bytes, records_consumed, records_well_formed,
};
use vstd::utf8::encode_utf8;

verus! {

/// The `lru` crate's `LruCache`, opaque to proofs: what it holds is
/// named by [`lru_entries`] and [`lru_cap`].
#[verifier::external_type_specification]
#[verifier::external_body]
#[verifier::reject_recursive_types(K)]
#[verifier::reject_recursive_types(V)]
#[verifier::reject_recursive_types(S)]
pub struct ExLruCache<K, V, S>(lru::LruCache<K, V, S>);

/// The hasher that `LruCache` uses by default, opaque to proofs.
#[verifier::external_type_specification]
#[verifier::external_body]
pub struct ExLruDefaultHasher(lru::DefaultHasher);

/// What an LRU cache of addresses keyed by key codes holds: its entries,
/// the most recently used first.
pub uninterp spec fn lru_entries(c: lru::LruCache<u128, String>) -> Seq<(u128, Seq<char>)>;

/// The capacity that an LRU cache was made with.
pub uninterp spec fn lru_cap(c: lru::LruCache<u128, String>) -> nat;

/// The entries of `s` whose key is not `k`, in order.
pub open spec fn without_key<K, V>(s: Seq<(K, V)>, k: K) -> Seq<(K, V)>
    decreases s.len(),
{
    if s.len() == 0 {
        s
    } else {
        let rest = without_key(s.drop_last(), k);
        if s.last().0 == k {
            rest
        } else {
            rest.push(s.last())
        }
    }
}

/// Some entry of `s` has the key `k`.
pub open spec fn has_key<K, V>(s: Seq<(K, V)>, k: K) -> bool {
    exists|i: int| 0 <= i < s.len() && #[trigger] s[i].0 == k
}

/// The value of the first entry of `s` with the key `k`.
pub open spec fn lookup<K, V>(s: Seq<(K, V)>, k: K) -> Option<V>
    decreases s.len(),
{
    if s.len() == 0 {
        None
    } else if s[0].0 == k {
        Some(s[0].1)
    } else {
        lookup(s.drop_first(), k)
    }
}

/// No two entries of `s` have the same key.
pub open spec fn keys_unique<K, V>(s: Seq<(K, V)>) -> bool {
    forall|i: int, j: int| 0 <= i < j < s.len() ==> #[trigger] s[i].0 != #[trigger] s[j].0
}

/// `LruCache::unbounded` from the `lru` crate: an empty cache whose
/// capacity is `usize::MAX`, so that it never evicts on its own.
#[verifier::external_body]
fn lru_unbounded() -> (r: lru::LruCache<u128, String>)
    ensures
        lru_entries(r) == Seq::<(u128, Seq<char>)>::empty(),
        lru_cap(r) == usize::MAX,
{
    lru::LruCache::unbounded()
}

/// `LruCache::put` from the `lru` crate: the entry goes to the front, in
/// place of any entry with the same key. The crate evicts the least
/// recently used entry when a new key meets a full cache; `requires`
/// leaves that case out. The old value that `put` returns is dropped.
#[verifier::external_body]
fn lru_put(c: &mut lru::LruCache<u128, String>, k: u128, v: String)
    requires
        has_key(lru_entries(*old(c)), k) || lru_entries(*old(c)).len() < lru_cap(*old(c)),
    ensures
        lru_entries(*final(c)) == seq![(k, v@)] + without_key(lru_entries(*old(c)), k),
        lru_cap(*final(c)) == lru_cap(*old(c)),
{
    c.put(k, v);
}

/// `LruCache::get` from the `lru` crate: the value under `k`, if any; its
/// entry moves to the front.
#[verifier::external_body]
fn lru_get<'a>(c: &'a mut lru::LruCache<u128, String>, k: u128) -> (r: Option<&'a String>)
    ensures
        match r {
            Some(v) => lookup(lru_entries(*old(c)), k) == Some(v@) && lru_entries(*final(c)) == seq![
                (k, v@),
            ] + without_key(lru_entries(*old(c)), k),
            None => lookup(lru_entries(*old(c)), k) is None && lru_entries(*final(c)) == lru_entries(
                *old(c),
            ),
        },
        lru_cap(*final(c)) == lru_cap(*old(c)),
{
    c.get(&k)
}

/// `LruCache::pop_lru` from the `lru` crate: takes the least recently used
/// entry, the last one, off the cache.
#[verifier::external_body]
fn lru_pop_lru(c: &mut lru::LruCache<u128, String>) -> (r: Option<(u128, String)>)
    ensures
        match r {
            Some((k, v)) => lru_entries(*old(c)).len() > 0 && lru_entries(*old(c)).last() == (k, v@)
                && lru_entries(*final(c)) == lru_entries(*old(c)).drop_last(),
            None => lru_entries(*old(c)).len() == 0 && lru_entries(*final(c)) == lru_entries(*old(c)),
        },
        lru_cap(*final(c)) == lru_cap(*old(c)),
{
    c.pop_lru()
}

/// `LruCache::len` from the `lru` crate: the number of entries.
#[verifier::external_body]
fn lru_len(c: &lru::LruCache<u128, String>) -> (r: usize)
    ensures
        r == lru_entries(*c).len(),
{
    c.len()
}

/// `LruCache::iter` from the `lru` crate, collected: each entry's key and
/// a reference to its value, the most recently used first.
#[verifier::external_body]
fn lru_items(c: &lru::LruCache<u128, String>) -> (r: Vec<(u128, &String)>)
    ensures
        r@.map_values(|e: (u128, &String)| (e.0, e.1@)) == lru_entries(*c),
{
    let mut out = Vec::new();
    for (k, v) in c.iter() {
        out.push((*k, v));
    }
    out
}

/// Dropping the entries of key `k` leaves only keys of `s` other than
/// `k`, keeps keys unique, and changes nothing where `k` is absent.
pub proof fn lemma_without_key<K, V>(s: Seq<(K, V)>, k: K)
    ensures
        forall|j: K| #[trigger] has_key(without_key(s, k), j) ==> has_key(s, j) && j != k,
        keys_unique(s) ==> keys_unique(without_key(s, k)),
        !has_key(s, k) ==> without_key(s, k) == s,
        without_key(s, k).len() <= s.len(),
        keys_unique(s) && has_key(s, k) ==> without_key(s, k).len() == s.len() - 1,
    decreases s.len(),
{
    if s.len() > 0 {
        let t = s.drop_last();
        let x = s.last();
        let w = without_key(t, k);
        lemma_without_key(t, k);
        assert forall|j: K| has_key(t, j) implies has_key(s, j) by {
            let i = choose|i: int| 0 <= i < t.len() && #[trigger] t[i].0 == j;
            assert(s[i].0 == j);
        }
        if keys_unique(s) {
            assert(keys_unique(t)) by {
                assert forall|a: int, b: int| 0 <= a < b < t.len() implies #[trigger] t[a].0
                    != #[trigger] t[b].0 by {
                    assert(t[a] == s[a] && t[b] == s[b]);
                }
            }
        }
        if !has_key(s, k) {
            assert(!has_key(t, k));
            if x.0 == k {
                assert(s[s.len() - 1].0 == k);
            }
            assert(w.push(x) =~= s);
        }
        if keys_unique(s) && has_key(s, k) {
            if x.0 == k {
                assert(!has_key(t, k)) by {
                    if has_key(t, k) {
                        let i = choose|i: int| 0 <= i < t.len() && #[trigger] t[i].0 == k;
                        assert(s[i].0 == s[s.len() - 1].0);
                    }
                }
            } else {
                let i = choose|i: int| 0 <= i < s.len() && #[trigger] s[i].0 == k;
                assert(i != s.len() - 1);
                assert(t[i].0 == k);
            }
        }
        if x.0 != k {
            let w2 = w.push(x);
            assert forall|j: K| #[trigger] has_key(w2, j) implies has_key(s, j) && j != k by {
                let i = choose|i: int| 0 <= i < w2.len() && #[trigger] w2[i].0 == j;
                if i < w.len() {
                    assert(w2[i] == w[i]);
                    assert(has_key(w, j));
                } else {
                    assert(s[s.len() - 1].0 == j);
                }
            }
            if keys_unique(s) {
                assert(!has_key(w, x.0)) by {
                    if has_key(w, x.0) {
                        assert(has_key(t, x.0));
                        let i = choose|i: int| 0 <= i < t.len() && #[trigger] t[i].0 == x.0;
                        assert(s[i].0 == s[s.len() - 1].0);
                    }
                }
                assert forall|a: int, b: int| 0 <= a < b < w2.len() implies #[trigger] w2[a].0
                    != #[trigger] w2[b].0 by {
                    if b == w.len() {
                        assert(w2[a] == w[a]);
                        if w[a].0 == x.0 {
                            assert(has_key(w, x.0));
                        }
                    } else {
                        assert(w2[a] == w[a] && w2[b] == w[b]);
                    }
                }
            }
        }
    }
}

/// Putting an entry in front of the others without its key keeps keys
/// unique.
pub proof fn lemma_put_unique<K, V>(s: Seq<(K, V)>, k: K, v: V)
    requires
        keys_unique(s),
    ensures
        keys_unique(seq![(k, v)] + without_key(s, k)),
{
    lemma_without_key(s, k);
    let w = without_key(s, k);
    let n = seq![(k, v)] + w;
    assert forall|a: int, b: int| 0 <= a < b < n.len() implies #[trigger] n[a].0 != #[trigger] n[b].0 by {
        assert(n[b] == w[b - 1]);
        if a == 0 {
            if w[b - 1].0 == k {
                assert(has_key(w, k));
            }
        } else {
            assert(n[a] == w[a - 1]);
        }
    }
}

/// The entries with their keys decoded from codes.
pub open spec fn decoded(s: Seq<(u128, Seq<char>)>) -> Seq<(CacheKey, Seq<char>)> {
    s.map_values(|e: (u128, Seq<char>)| (CacheKey::spec_from_code(e.0), e.1))
}

/// Every key is a code, that is, below 2^80.
pub open spec fn codes_valid(s: Seq<(u128, Seq<char>)>) -> bool {
    forall|i: int| 0 <= i < s.len() ==> #[trigger] s[i].0 < 0x1_0000_0000_0000_0000_0000
}

/// Two codes that decode into the same key are the same code.
proof fn lemma_decode_injective(a: u128, b: u128)
    requires
        a < 0x1_0000_0000_0000_0000_0000,
        b < 0x1_0000_0000_0000_0000_0000,
    ensures
        CacheKey::spec_from_code(a) == CacheKey::spec_from_code(b) ==> a == b,
{
    CacheKey::lemma_from_code(a);
    CacheKey::lemma_from_code(b);
}

/// Dropping the entries of a key commutes with decoding.
proof fn lemma_decoded_without(s: Seq<(u128, Seq<char>)>, k: CacheKey)
    requires
        codes_valid(s),
    ensures
        decoded(without_key(s, k.spec_code())) == without_key(decoded(s), k),
        codes_valid(without_key(s, k.spec_code())),
        without_key(s, k.spec_code()).len() <= s.len(),
    decreases s.len(),
{
    CacheKey::lemma_code_bound(k);
    if s.len() > 0 {
        let t = s.drop_last();
        assert(codes_valid(t)) by {
            assert forall|i: int| 0 <= i < t.len() implies #[trigger] t[i].0 < 0x1_0000_0000_0000_0000_0000 by {
                assert(t[i] == s[i]);
            }
        }
        lemma_decoded_without(t, k);
        assert(decoded(s).drop_last() =~= decoded(t));
        let c = s.last().0;
        assert(s[s.len() - 1].0 < 0x1_0000_0000_0000_0000_0000);
        lemma_decode_injective(c, k.spec_code());
        let w = without_key(t, k.spec_code());
        if c != k.spec_code() {
            assert(decoded(w.push(s.last())) =~= decoded(w).push(decoded(s).last()));
            assert forall|i: int| 0 <= i < w.push(s.last()).len() implies #[trigger] w.push(
                s.last(),
            )[i].0 < 0x1_0000_0000_0000_0000_0000 by {
                if i < w.len() {
                    assert(w.push(s.last())[i] == w[i]);
                }
            }
        }
    } else {
        assert(decoded(s) =~= Seq::<(CacheKey, Seq<char>)>::empty());
    }
}

/// Looking a key up commutes with decoding.
proof fn lemma_lookup_decoded(s: Seq<(u128, Seq<char>)>, k: CacheKey)
    requires
        codes_valid(s),
    ensures
        lookup(decoded(s), k) == lookup(s, k.spec_code()),
    decreases s.len(),
{
    CacheKey::lemma_code_bound(k);
    if s.len() > 0 {
        let t = s.drop_first();
        assert(codes_valid(t)) by {
            assert forall|i: int| 0 <= i < t.len() implies #[trigger] t[i].0 < 0x1_0000_0000_0000_0000_0000 by {
                assert(t[i] == s[i + 1]);
            }
        }
        assert(s[0].0 < 0x1_0000_0000_0000_0000_0000);
        lemma_decode_injective(s[0].0, k.spec_code());
        assert(decoded(s).drop_first() =~= decoded(t));
        lemma_lookup_decoded(t, k);
    }
}

/// The state of an LRU storage: the entries, the most recently used
/// first, memory usage and the memory limit.
pub struct LruModel {
    pub entries: Seq<(CacheKey, Seq<char>)>,
    pub memory_size: usize,
    pub memory_max_size: usize,
}

/// A storage with least-recently-used eviction, on the `lru` crate's
/// `LruCache`. Items are ordered by use: the most recently used (inserted
/// or accessed) sits at the front, the least recently used at the back,
/// and eviction removes from the back.
pub struct LruStorage {
    data: lru::LruCache<u128, String>,
    memory_size: usize,
    memory_max_size: usize,
}

impl View for LruStorage {
    type V = LruModel;

    closed spec fn view(&self) -> LruModel {
        LruModel {
            entries: decoded(lru_entries(self.data)),
            memory_size: self.memory_size,
            memory_max_size: self.memory_max_size,
        }
    }
}

impl LruStorage {
    /// The cache never evicts on its own, and its keys are codes.
    pub closed spec fn wf(&self) -> bool {
        &&& lru_cap(self.data) == usize::MAX
        &&& codes_valid(lru_entries(self.data))
        &&& keys_unique(lru_entries(self.data))
    }

    /// No two entries of a storage have the same key.
    pub proof fn lemma_keys_unique(&self)
        requires
            self.wf(),
        ensures
            keys_unique(self@.entries),
    {
        let raw = lru_entries(self.data);
        let d = self@.entries;
        assert forall|a: int, b: int| 0 <= a < b < d.len() implies #[trigger] d[a].0 != #[trigger] d[b].0 by {
            assert(raw[a].0 < 0x1_0000_0000_0000_0000_0000);
            assert(raw[b].0 < 0x1_0000_0000_0000_0000_0000);
            lemma_decode_injective(raw[a].0, raw[b].0);
        }
    }

    /// An empty storage with a memory limit of 1000 bytes.
    pub fn new() -> (r: LruStorage)
        ensures
            r.wf(),
            r@ == (LruModel { entries: seq![], memory_size: 0, memory_max_size: 1000 }),
    {
        let r = LruStorage { data: lru_unbounded(), memory_size: 0, memory_max_size: 1000 };
        assert(r@.entries =~= Seq::<(CacheKey, Seq<char>)>::empty());
        r
    }

    /// The same as [`LruStorage::new`]: the cache is unbounded and reserves
    /// nothing.
    pub fn with_capacity(_capacity: usize) -> (r: LruStorage)
        ensures
            r.wf(),
            r@ == (LruModel { entries: seq![], memory_size: 0, memory_max_size: 1000 }),
    {
        LruStorage::new()
    }

    /// Inserts `address` under `cache_key`: the entry goes to the front, in
    /// place of any entry with the same key, and memory usage grows by the
    /// record size. A sum that would overflow, where the computation would
    /// panic, is left out by `requires`, and so is a cache with
    /// `usize::MAX` entries.
    pub fn insert(&mut self, cache_key: CacheKey, address: String)
        requires
            old(self).wf(),
            old(self)@.memory_size + item_size(address@) <= usize::MAX,
            old(self)@.entries.len() < usize::MAX,
        ensures
            final(self).wf(),
            final(self)@ == (LruModel {
                entries: seq![(cache_key, address@)] + without_key(old(self)@.entries, cache_key),
                memory_size: (old(self)@.memory_size + item_size(address@)) as usize,
                ..old(self)@
            }),
    {
        let ghost s = lru_entries(self.data);
        let ghost a = address@;
        self.memory_size = self.memory_size + 21 + address.as_str().as_bytes().len();
        lru_put(&mut self.data, cache_key.code(), address);
        proof {
            CacheKey::lemma_code_bound(cache_key);
            lemma_decoded_without(s, cache_key);
            let w = without_key(s, cache_key.spec_code());
            let n = seq![(cache_key.spec_code(), a)] + w;
            lemma_put_unique(s, cache_key.spec_code(), a);
            assert(decoded(n) =~= seq![(cache_key, a)] + decoded(w));
            assert forall|i: int| 0 <= i < n.len() implies #[trigger] n[i].0 < 0x1_0000_0000_0000_0000_0000 by {
                if i > 0 {
                    assert(n[i] == w[i - 1]);
                }
            }
        }
    }
}

/// The codes of a prefix are codes, and unique if those of the whole are.
proof fn lemma_codes_valid_take(s: Seq<(u128, Seq<char>)>, j: int)
    requires
        codes_valid(s),
        0 <= j <= s.len(),
    ensures
        codes_valid(s.take(j)),
        keys_unique(s) ==> keys_unique(s.take(j)),
{
    assert forall|i: int| 0 <= i < s.take(j).len() implies #[trigger] s.take(j)[i].0
        < 0x1_0000_0000_0000_0000_0000 by {
        assert(s.take(j)[i] == s[i]);
    }
    if keys_unique(s) {
        assert forall|a: int, b: int| 0 <= a < b < s.take(j).len() implies #[trigger] s.take(j)[a].0
            != #[trigger] s.take(j)[b].0 by {
            assert(s.take(j)[a] == s[a] && s.take(j)[b] == s[b]);
        }
    }
}

/// The size of the entries from position `j` on: that of entry `j` and
/// of those after it, and at most the size of all entries.
proof fn lemma_suffix_size(s: Seq<(CacheKey, Seq<char>)>, j: int)
    requires
        0 <= j < s.len(),
    ensures
        items_size(s.skip(j)) == item_size(s[j].1) + items_size(s.skip(j + 1)),
        items_size(s.skip(j)) <= items_size(s),
{
    assert(s.skip(j) =~= seq![s[j]] + s.skip(j + 1));
    lemma_items_size_add(seq![s[j]], s.skip(j + 1));
    lemma_items_size_one(s[j]);
    lemma_items_size_add(s.take(j), s.skip(j));
    assert(s.take(j) + s.skip(j) =~= s);
}

impl LruStorage {
    /// Looks `cache_key` up: its address, if there is an entry for it, which
    /// then moves to the front.
    pub fn get(&mut self, cache_key: &CacheKey) -> (r: Option<&String>)
        requires
            old(self).wf(),
        ensures
            final(self).wf(),
            final(self)@.memory_size == old(self)@.memory_size,
            final(self)@.memory_max_size == old(self)@.memory_max_size,
            match r {
                Some(a) => lookup(old(self)@.entries, *cache_key) == Some(a@) && final(self)@.entries
                    == seq![(*cache_key, a@)] + without_key(old(self)@.entries, *cache_key),
                None => lookup(old(self)@.entries, *cache_key) is None && final(self)@.entries == old(
                    self,
                )@.entries,
            },
    {
        let ghost s = lru_entries(self.data);
        proof {
            lemma_lookup_decoded(s, *cache_key);
            lemma_decoded_without(s, *cache_key);
            CacheKey::lemma_code_bound(*cache_key);
        }
        let r = lru_get(&mut self.data, cache_key.code());
        proof {
            match r {
                Some(a) => {
                    let w = without_key(s, cache_key.spec_code());
                    let n = seq![(cache_key.spec_code(), a@)] + w;
                    lemma_put_unique(s, cache_key.spec_code(), a@);
                    assert(decoded(n) =~= seq![(*cache_key, a@)] + decoded(w));
                    assert forall|i: int| 0 <= i < n.len() implies #[trigger] n[i].0
                        < 0x1_0000_0000_0000_0000_0000 by {
                        if i > 0 {
                            assert(n[i] == w[i - 1]);
                        }
                    }
                },
                None => {},
            }
        }
        r
    }

    /// Sets the memory limit.
    pub fn memory_max_size(&mut self, size: usize)
        requires
            old(self).wf(),
        ensures
            final(self).wf(),
            final(self)@ == (LruModel { memory_max_size: size, ..old(self)@ }),
    {
        self.memory_max_size = size;
    }

    /// The memory limit in bytes.
    pub fn get_memory_max_size(&self) -> (r: usize)
        ensures
            r == self@.memory_max_size,
    {
        self.memory_max_size
    }

    /// Current memory usage in bytes.
    pub fn get_in_memory_size(&self) -> (r: usize)
        ensures
            r == self@.memory_size,
    {
        self.memory_size
    }

    /// Sets the memory usage, as the size of the file after a flush.
    pub fn set_in_memory_size(&mut self, size: usize)
        requires
            old(self).wf(),
        ensures
            final(self).wf(),
            final(self)@ == (LruModel { memory_size: size, ..old(self)@ }),
    {
        self.memory_size = size;
    }

    /// Number of entries.
    pub fn in_memory_record_count(&self) -> (r: usize)
        ensures
            r == self@.entries.len(),
    {
        lru_len(&self.data)
    }

    /// The number of entries eviction drops now (see [`delete_count`]).
    pub fn on_delete_items_count(&self) -> (r: usize)
        requires
            delete_count_fits(
                self@.memory_size as nat,
                self@.memory_max_size as nat,
                self@.entries.len(),
            ),
        ensures
            r == delete_count(
                self@.memory_size as nat,
                self@.memory_max_size as nat,
                self@.entries.len(),
            ),
    {
        let count = lru_len(&self.data);
        on_delete_items_count(self.memory_size, self.memory_max_size, count)
    }

    /// Whether a record with an address of `address_len` bytes calls for an
    /// eviction first: it would take memory usage past the limit. A sum
    /// that would overflow, where the computation would panic, is left out
    /// by `requires`.
    pub fn needs_eviction(&self, address_len: usize) -> (r: bool)
        requires
            self@.memory_size + 21 + address_len <= usize::MAX,
        ensures
            r == (self@.memory_size + 21 + address_len > self@.memory_max_size),
    {
        self.memory_size + 21 + address_len > self.memory_max_size
    }

    /// Evicts as many entries as [`LruStorage::on_delete_items_count`]
    /// says, least recently used first, and lowers memory usage by their
    /// record sizes (saturating at zero). The sizes must add up without
    /// overflow, or the computation would panic; `requires` says so.
    pub fn evict(&mut self)
        requires
            old(self).wf(),
            delete_count_fits(
                old(self)@.memory_size as nat,
                old(self)@.memory_max_size as nat,
                old(self)@.entries.len(),
            ),
            items_size(old(self)@.entries) <= usize::MAX,
        ensures
            final(self).wf(),
            ({
                let s = old(self)@.entries;
                let keep = s.len() - delete_count(
                    old(self)@.memory_size as nat,
                    old(self)@.memory_max_size as nat,
                    s.len(),
                );
                &&& final(self)@.entries == s.take(keep)
                &&& final(self)@.memory_size == old(self)@.memory_size.saturating_sub(
                    items_size(s.skip(keep)) as usize,
                )
                &&& final(self)@.memory_max_size == old(self)@.memory_max_size
            }),
    {
        let ghost s = old(self)@.entries;
        let ghost raw = lru_entries(self.data);
        let to_remove = self.on_delete_items_count();
        let ghost len = s.len() as int;
        let mut removed: usize = 0;
        let mut i: usize = 0;
        proof {
            assert(s.take(len) =~= s);
            assert(s.skip(len) =~= Seq::<(CacheKey, Seq<char>)>::empty());
            lemma_items_size_add(s.take(len - to_remove), s.skip(len - to_remove));
            assert(s.take(len - to_remove) + s.skip(len - to_remove) =~= s);
        }
        while i < to_remove
            invariant
                self.wf(),
                to_remove <= len,
                i <= to_remove,
                s == old(self)@.entries,
                len == s.len(),
                items_size(s) <= usize::MAX,
                self@.entries == s.take(len - i),
                lru_entries(self.data) == raw.take(len - i),
                raw.len() == len,
                codes_valid(raw),
                keys_unique(raw),
                s == decoded(raw),
                removed == items_size(s.skip(len - i)),
                self.memory_size == old(self).memory_size,
                self.memory_max_size == old(self).memory_max_size,
            decreases to_remove - i,
        {
            let ghost before = lru_entries(self.data);
            let popped = lru_pop_lru(&mut self.data);
            match popped {
                Some(e) => {
                    let (_key, address) = e;
                    proof {
                        let j = len - i - 1;
                        assert(before.last() == raw[j]);
                        assert(s[j] == (CacheKey::spec_from_code(raw[j].0), raw[j].1));
                        assert(address@ == s[j].1);
                        lemma_suffix_size(s, j);
                        assert(lru_entries(self.data) =~= raw.take(j));
                        assert(self@.entries =~= s.take(j));
                        lemma_codes_valid_take(raw, j);
                    }
                    removed = removed + 21 + address.as_str().as_bytes().len();
                },
                None => {
                    proof {
                        assert(false);
                    }
                },
            }
            i = i + 1;
        }
        self.memory_size = self.memory_size.saturating_sub(removed);
    }
}

/// The entries put into the front one after another, the last one first,
/// so that the first one ends at the front.
pub open spec fn put_all(
    s: Seq<(CacheKey, Seq<char>)>,
    es: Seq<(CacheKey, Seq<char>)>,
) -> Seq<(CacheKey, Seq<char>)>
    decreases es.len(),
{
    if es.len() == 0 {
        s
    } else {
        put_all(seq![es.last()] + without_key(s, es.last().0), es.drop_last())
    }
}

/// Each record takes at least one byte.
proof fn lemma_parsed_len(b: Seq<u8>)
    ensures
        parsed_records(b).len() <= b.len(),
    decreases b.len(),
{
    if b.len() < 21 || b.len() < 21 + b[20] {
    } else {
        lemma_parsed_len(b.skip(21 + b[20]));
    }
}

impl LruStorage {
    /// The records of the entries, the most recently used first. A key
    /// whose coordinates `{:08}` writes in more than eight bytes has no
    /// record form, and the write would panic; `requires` leaves that out.
    pub fn as_bytes(&self) -> (r: Vec<u8>)
        requires
            self.wf(),
            forall|i: int| 0 <= i < self@.entries.len() ==> #[trigger] self@.entries[i].0.encodable(),
        ensures
            r@ == records_bytes(self@.entries),
    {
        let items = lru_items(&self.data);
        let ghost raw = lru_entries(self.data);
        let ghost s = self@.entries;
        let mut out: Vec<u8> = Vec::new();
        let mut i: usize = 0;
        assert(s.take(0) =~= Seq::<(CacheKey, Seq<char>)>::empty());
        while i < items.len()
            invariant
                items@.map_values(|e: (u128, &String)| (e.0, e.1@)) == raw,
                codes_valid(raw),
                s == decoded(raw),
                forall|j: int| 0 <= j < s.len() ==> #[trigger] s[j].0.encodable(),
                i <= items.len(),
                out@ == records_bytes(s.take(i as int)),
            decreases items.len() - i,
        {
            let (code, address) = items[i];
            proof {
                assert(raw[i as int] == (code, address@));
                assert(raw[i as int].0 < 0x1_0000_0000_0000_0000_0000);
                assert(s[i as int] == (CacheKey::spec_from_code(code), address@));
            }
            let key = CacheKey::from_code(code);
            proof {
                assert(s[i as int].0.encodable());
            }
            append_record(&mut out, &key, address);
            proof {
                assert(s.take(i + 1) =~= s.take(i as int).push(s[i as int]));
                lemma_records_bytes_push(s.take(i as int), key, address@);
            }
            i = i + 1;
        }
        assert(s.take(i as int) =~= s);
        out
    }

    /// The most recently used entry, if any.
    pub fn first(&self) -> (r: Option<(CacheKey, &String)>)
        requires
            self.wf(),
        ensures
            match r {
                Some((k, a)) => self@.entries.len() > 0 && self@.entries[0] == (k, a@),
                None => self@.entries.len() == 0,
            },
    {
        let items = lru_items(&self.data);
        let ghost raw = lru_entries(self.data);
        if items.len() == 0 {
            return None;
        }
        let (code, address) = items[0];
        proof {
            assert(raw[0] == (code, address@));
            assert(raw[0].0 < 0x1_0000_0000_0000_0000_0000);
        }
        Some((CacheKey::from_code(code), address))
    }

    /// The least recently used entry, if any.
    pub fn last(&self) -> (r: Option<(CacheKey, &String)>)
        requires
            self.wf(),
        ensures
            match r {
                Some((k, a)) => self@.entries.len() > 0 && self@.entries.last() == (k, a@),
                None => self@.entries.len() == 0,
            },
    {
        let items = lru_items(&self.data);
        let ghost raw = lru_entries(self.data);
        let n = items.len();
        if n == 0 {
            return None;
        }
        let (code, address) = items[n - 1];
        proof {
            assert(raw[n - 1] == (code, address@));
            assert(raw[n - 1].0 < 0x1_0000_0000_0000_0000_0000);
        }
        Some((CacheKey::from_code(code), address))
    }

    /// Reads the records of `bytes`: memory usage grows by the bytes read,
    /// and the entries are put into the cache the last one first, so that
    /// the cache order is the file order (see [`put_all`]). Bytes that the
    /// reader does not accept, and sums that would overflow, would panic;
    /// `requires` leaves them out.
    pub fn read_bytes(&mut self, bytes: &[u8])
        requires
            old(self).wf(),
            records_well_formed(bytes@),
            old(self)@.memory_size + records_consumed(bytes@) <= usize::MAX,
            old(self)@.entries.len() + bytes@.len() < usize::MAX,
        ensures
            final(self).wf(),
            final(self)@ == (LruModel {
                entries: put_all(old(self)@.entries, parsed_records(bytes@)),
                memory_size: (old(self)@.memory_size + records_consumed(bytes@)) as usize,
                ..old(self)@
            }),
    {
        let (entries, consumed) = parse_records(bytes);
        proof {
            lemma_parsed_len(bytes@);
        }
        self.memory_size = self.memory_size + consumed;
        let mut entries = entries;
        let ghost target = put_all(old(self)@.entries, parsed_records(bytes@));
        while entries.len() > 0
            invariant
                self.wf(),
                put_all(self@.entries, entries@.map_values(|e: (CacheKey, String)| entry_view(e)))
                    == target,
                self@.entries.len() + entries.len() < usize::MAX,
                self.memory_size == old(self)@.memory_size + records_consumed(bytes@),
                self.memory_max_size == old(self)@.memory_max_size,
            decreases entries.len(),
        {
            let ghost before = entries@.map_values(|e: (CacheKey, String)| entry_view(e));
            let ghost s = lru_entries(self.data);
            let popped = entries.pop();
            match popped {
                Some(e) => {
                    let (key, address) = e;
                    let ghost a = address@;
                    proof {
                        assert(entries@.map_values(|e: (CacheKey, String)| entry_view(e))
                            =~= before.drop_last());
                        assert(before.last() == (key, a));
                        lemma_decoded_without(s, key);
                        CacheKey::lemma_code_bound(key);
                    }
                    lru_put(&mut self.data, key.code(), address);
                    proof {
                        let w = without_key(s, key.spec_code());
                        let n = seq![(key.spec_code(), a)] + w;
                        lemma_put_unique(s, key.spec_code(), a);
                        assert(decoded(n) =~= seq![(key, a)] + decoded(w));
                        assert forall|i: int| 0 <= i < n.len() implies #[trigger] n[i].0
                            < 0x1_0000_0000_0000_0000_0000 by {
                            if i > 0 {
                                assert(n[i] == w[i - 1]);
                            }
                        }
                    }
                },
                None => {},
            }
        }
    }
}

impl Default for LruStorage {
    fn default() -> (r: LruStorage)
        ensures
            r.wf(),
            r@ == (LruModel { entries: seq![], memory_size: 0, memory_max_size: 1000 }),
    {
        LruStorage::new()
    }
}

/// Putting entries with unique keys in front of entries that share no key
/// with them puts them there in order.
proof fn lemma_put_all_fresh(t: Seq<(CacheKey, Seq<char>)>, es: Seq<(CacheKey, Seq<char>)>)
    requires
        keys_unique(es),
        forall|j: CacheKey| #[trigger] has_key(es, j) ==> !has_key(t, j),
    ensures
        put_all(t, es) == es + t,
    decreases es.len(),
{
    if es.len() == 0 {
        assert(es + t =~= t);
    } else {
        let e = es.last();
        let rest = es.drop_last();
        assert(has_key(es, e.0)) by {
            assert(es[es.len() - 1].0 == e.0);
        }
        lemma_without_key(t, e.0);
        let t2 = seq![e] + t;
        assert(keys_unique(rest)) by {
            assert forall|a: int, b: int| 0 <= a < b < rest.len() implies #[trigger] rest[a].0
                != #[trigger] rest[b].0 by {
                assert(rest[a] == es[a] && rest[b] == es[b]);
            }
        }
        assert forall|j: CacheKey| #[trigger] has_key(rest, j) implies !has_key(t2, j) by {
            let i = choose|i: int| 0 <= i < rest.len() && #[trigger] rest[i].0 == j;
            assert(es[i].0 == j);
            assert(has_key(es, j));
            assert(es[i].0 != es[es.len() - 1].0);
            if has_key(t2, j) {
                let m = choose|m: int| 0 <= m < t2.len() && #[trigger] t2[m].0 == j;
                if m > 0 {
                    assert(t[m - 1].0 == j);
                }
            }
        }
        lemma_put_all_fresh(t2, rest);
        assert(rest + t2 =~= es + t);
    }
}

/// Writing storable entries with unique keys as records and reading them
/// into an empty LRU storage gives back the same entries in the same order,
/// and the reader consumes the whole file, so that memory usage after the
/// read is the file's length.
pub proof fn lemma_lru_round_trip(es: Seq<(CacheKey, Seq<char>)>)
    requires
        keys_unique(es),
        forall|i: int| 0 <= i < es.len() ==> entry_storable(#[trigger] es[i].0, es[i].1),
    ensures
        records_well_formed(records_bytes(es)),
        put_all(seq![], parsed_records(records_bytes(es))) == es,
        records_consumed(records_bytes(es)) == records_bytes(es).len(),
{
    lemma_records_round_trip(es);
    lemma_records_consumed(es);
    lemma_put_all_fresh(seq![], es);
    assert(es + seq![] =~= es);
}

/// After inserting an address under a key, looking the key up gives that
/// address.
pub proof fn lemma_lru_get_after_insert(
    s: Seq<(CacheKey, Seq<char>)>,
    key: CacheKey,
    address: Seq<char>,
)
    ensures
        lookup(seq![(key, address)] + without_key(s, key), key) == Some(address),
{
}

impl LruStorage {
    /// Whether every key has a record form, as [`LruStorage::as_bytes`]
    /// asks.
    pub fn keys_encodable(&self) -> (r: bool)
        requires
            self.wf(),
        ensures
            r == forall|i: int| 0 <= i < self@.entries.len() ==> #[trigger] self@.entries[i].0.encodable(),
    {
        let items = lru_items(&self.data);
        let ghost raw = lru_entries(self.data);
        let ghost s = self@.entries;
        let mut i: usize = 0;
        while i < items.len()
            invariant
                items@.map_values(|e: (u128, &String)| (e.0, e.1@)) == raw,
                raw == lru_entries(self.data),
                s == self@.entries,
                codes_valid(raw),
                s == decoded(raw),
                i <= items.len(),
                forall|j: int| 0 <= j < i ==> #[trigger] s[j].0.encodable(),
            decreases items.len() - i,
        {
            let (code, _address) = items[i];
            proof {
                assert(raw[i as int].0 == code);
                assert(raw[i as int].0 < 0x1_0000_0000_0000_0000_0000);
            }
            let key = CacheKey::from_code(code);
            if !key.is_encodable() {
                assert(!s[i as int].0.encodable());
                return false;
            }
            i = i + 1;
        }
        true
    }

    /// The total record size of the entries (see [`items_size`]), or
    /// `None` where it does not fit a `usize`, as
    /// [`LruStorage::evict`] asks.
    pub fn records_size(&self) -> (r: Option<usize>)
        requires
            self.wf(),
        ensures
            match r {
                Some(n) => n == items_size(self@.entries),
                None => items_size(self@.entries) > usize::MAX,
            },
    {
        let items = lru_items(&self.data);
        let ghost raw = lru_entries(self.data);
        let ghost s = self@.entries;
        let mut total: usize = 0;
        let mut i: usize = 0;
        assert(s.take(0) =~= Seq::<(CacheKey, Seq<char>)>::empty());
        while i < items.len()
            invariant
                items@.map_values(|e: (u128, &String)| (e.0, e.1@)) == raw,
                raw == lru_entries(self.data),
                s == self@.entries,
                s == decoded(raw),
                i <= items.len(),
                total == items_size(s.take(i as int)),
            decreases items.len() - i,
        {
            let (_code, address) = items[i];
            let len = address.as_str().as_bytes().len();
            proof {
                assert(raw[i as int].1 == address@);
                assert(s[i as int].1 == address@);
                assert(s.take(i + 1).drop_last() =~= s.take(i as int));
                assert(s.take(i + 1).last() == s[i as int]);
            }
            let next = match total.checked_add(21) {
                Some(t) => t.checked_add(len),
                None => None,
            };
            match next {
                Some(t) => {
                    total = t;
                },
                None => {
                    proof {
                        lemma_items_size_prefix(s, i + 1);
                    }
                    return None;
                },
            }
            i = i + 1;
        }
        assert(s.take(i as int) =~= s);
        Some(total)
    }
}

/// An insertion puts the entry first and adds one entry exactly when the
/// key was absent (keys being unique).
pub proof fn lemma_lru_insert_count(
    s: Seq<(CacheKey, Seq<char>)>,
    key: CacheKey,
    address: Seq<char>,
)
    requires
        keys_unique(s),
    ensures
        (seq![(key, address)] + without_key(s, key))[0] == (key, address),
        (seq![(key, address)] + without_key(s, key)).len() == s.len() + if has_key(s, key) {
            0int
        } else {
            1int
        },
{
    lemma_without_key(s, key);
}

/// Inserting an absent key keeps memory usage equal to the length of the
/// records: both grow by the new record's size. (Re-inserting a present
/// key adds a whole record size to the usage, as the storage does, while
/// the records only change by the difference of the addresses.)
pub proof fn lemma_lru_insert_size(
    s: Seq<(CacheKey, Seq<char>)>,
    key: CacheKey,
    address: Seq<char>,
    memory_size: nat,
)
    requires
        !has_key(s, key),
        memory_size == records_bytes(s).len(),
    ensures
        memory_size + item_size(address) == records_bytes(
            seq![(key, address)] + without_key(s, key),
        ).len(),
{
    lemma_without_key(s, key);
    lemma_records_len(s);
    lemma_records_len(seq![(key, address)] + s);
    lemma_items_size_add(seq![(key, address)], s);
    lemma_items_size_one((key, address));
}

} // verus!
