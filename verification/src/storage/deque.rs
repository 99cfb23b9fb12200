use std::collections::{HashMap, VecDeque};

use vstd::prelude::*;

use crate::cache_key::{CacheKey, CacheKeyRaw};
use crate::storage::{
    lemma_records_bytes_push, parse_records, parsed_records, record_bytes, records_bytes,
    records_consumed, records_well_formed, entry_view, delete_count, delete_count_fits, len_byte, apply_entries,
    on_delete_items_count, entry_storable, lemma_records_round_trip, lemma_records_consumed,
};
use vstd::std_specs::hash::group_hash_axioms;
use vstd::string::StringSliceAdditionalSpecFns;
use vstd::utf8::encode_utf8;

verus! {

broadcast use group_hash_axioms;

/// One record of the storage file: a raw key, the address length in bytes
/// (truncated to a byte), and the address.
pub struct DequeStorageItem {
    cache_key_raw: CacheKeyRaw,
    address_len: u8,
    address: String,
}

impl DequeStorageItem {
    pub closed spec fn spec_raw(&self) -> Seq<u8> {
        self.cache_key_raw.bytes()
    }

    pub closed spec fn spec_address_len(&self) -> u8 {
        self.address_len
    }

    pub closed spec fn spec_address(&self) -> Seq<char> {
        self.address@
    }

    /// The record of `cache_key` and `address`; the length byte is the
    /// address length in bytes as `as u8` truncates it.
    pub fn from_cache_key(cache_key: &CacheKey, address: &String) -> (r: DequeStorageItem)
        requires
            cache_key.encodable(),
        ensures
            r.spec_raw() == cache_key.raw_bytes(),
            r.spec_address_len() == len_byte(encode_utf8(address@).len()),
            r.spec_address() == address@,
    {
        let len = address.as_str().as_bytes().len();
        DequeStorageItem {
            cache_key_raw: CacheKeyRaw::from_cache_key(cache_key),
            address_len: (len % 256) as u8,
            address: address.clone(),
        }
    }

    /// The bytes of the record: raw key, length byte, address.
    pub fn to_bytes(&self) -> (r: Vec<u8>)
        ensures
            r@ == self.spec_raw() + seq![self.spec_address_len()] + encode_utf8(self.spec_address()),
    {
        let mut bytes: Vec<u8> = Vec::new();
        bytes.extend_from_slice(self.cache_key_raw.as_slice());
        bytes.push(self.address_len);
        bytes.extend_from_slice(self.address.as_str().as_bytes());
        assert(bytes@ =~= self.spec_raw() + seq![self.spec_address_len()] + encode_utf8(
            self.spec_address(),
        ));
        bytes
    }

    /// Size of the fixed-width portion of a record in bytes: 2 (language)
    /// + 2 * 8 (latitude, longitude) + 2 (separators) + 1 (length byte).
    pub fn len() -> (r: usize)
        ensures
            r == 21,
    {
        let lang_size: usize = 2;
        let coord_size: usize = 8;
        let separator_size: usize = 1;
        let addr_len_size: usize = 1;
        lang_size + 2 * coord_size + 2 * separator_size + addr_len_size
    }
}

/// Appends the record of `key` and `address`.
pub(crate) fn append_record(out: &mut Vec<u8>, key: &CacheKey, address: &String)
    requires
        key.encodable(),
    ensures
        final(out)@ == old(out)@ + record_bytes(*key, address@),
{
    let item = DequeStorageItem::from_cache_key(key, address);
    let bytes = item.to_bytes();
    out.extend_from_slice(bytes.as_slice());
    assert(final(out)@ =~= old(out)@ + record_bytes(*key, address@));
}

/// Each key of `keys` with its address in `data`, in order.
pub open spec fn keyed_entries(keys: Seq<CacheKey>, data: Map<CacheKey, Seq<char>>) -> Seq<
    (CacheKey, Seq<char>),
> {
    keys.map_values(|k: CacheKey| (k, data[k]))
}

/// Some key in `keys` has the code `c`.
pub open spec fn code_listed(keys: Seq<CacheKey>, c: u128) -> bool {
    exists|i: int| 0 <= i < keys.len() && #[trigger] keys[i].spec_code() == c
}

/// A storage that remembers the insertion order of keys: the newest key
/// sits at the front and the oldest at the back, and eviction drops the
/// oldest.
pub struct DequeStorage {
    /// Maps the code of each key to its address.
    data: HashMap<u128, String>,
    /// Keys in insertion order, newest first; a key inserted twice appears
    /// twice.
    cache_keys: VecDeque<CacheKey>,
    /// Current total memory usage in bytes.
    memory_size: usize,
    /// Max allowed memory usage.
    memory_max_size: usize,
}

impl DequeStorage {
    /// Keys in insertion order, newest first.
    pub closed spec fn spec_keys(&self) -> Seq<CacheKey> {
        self.cache_keys@
    }

    /// The address held for each key.
    pub closed spec fn spec_data(&self) -> Map<CacheKey, Seq<char>> {
        Map::new(
            |k: CacheKey| self.data@.contains_key(k.spec_code()),
            |k: CacheKey| self.data@[k.spec_code()]@,
        )
    }

    pub closed spec fn spec_memory_size(&self) -> usize {
        self.memory_size
    }

    pub closed spec fn spec_memory_max_size(&self) -> usize {
        self.memory_max_size
    }

    /// Every key in the order has an address, and every address belongs to
    /// a key in the order.
    pub closed spec fn wf(&self) -> bool {
        &&& forall|i: int|
            0 <= i < self.cache_keys@.len() ==> self.data@.contains_key(
                #[trigger] self.cache_keys@[i].spec_code(),
            )
        &&& forall|c: u128| #[trigger] self.data@.contains_key(c) ==> code_listed(self.cache_keys@, c)
    }

    /// The records the storage writes: one per key in the order, with the
    /// key's address.
    pub open spec fn spec_entries(&self) -> Seq<(CacheKey, Seq<char>)> {
        keyed_entries(self.spec_keys(), self.spec_data())
    }

    /// An empty storage with a zero memory limit.
    pub fn new() -> (r: DequeStorage)
        ensures
            r.wf(),
            r.spec_keys() == Seq::<CacheKey>::empty(),
            r.spec_data() == Map::<CacheKey, Seq<char>>::empty(),
            r.spec_memory_size() == 0,
            r.spec_memory_max_size() == 0,
    {
        let r = DequeStorage {
            data: HashMap::new(),
            cache_keys: VecDeque::new(),
            memory_size: 0,
            memory_max_size: 0,
        };
        assert(r.spec_data() =~= Map::<CacheKey, Seq<char>>::empty());
        r
    }

    /// An empty storage with room reserved for `capacity` records and a
    /// memory limit of 1000 bytes.
    pub fn with_capacity(capacity: usize) -> (r: DequeStorage)
        ensures
            r.wf(),
            r.spec_keys() == Seq::<CacheKey>::empty(),
            r.spec_data() == Map::<CacheKey, Seq<char>>::empty(),
            r.spec_memory_size() == 0,
            r.spec_memory_max_size() == 1000,
    {
        let r = DequeStorage {
            data: HashMap::with_capacity(capacity),
            cache_keys: VecDeque::with_capacity(capacity),
            memory_size: 0,
            memory_max_size: 1000,
        };
        assert(r.spec_data() =~= Map::<CacheKey, Seq<char>>::empty());
        r
    }

    proof fn lemma_data_insert(&self, old_data: Map<u128, String>, key: CacheKey, a: String)
        requires
            self.data@ == old_data.insert(key.spec_code(), a),
        ensures
            self.spec_data() == Map::new(
                |k: CacheKey| old_data.contains_key(k.spec_code()),
                |k: CacheKey| old_data[k.spec_code()]@,
            ).insert(key, a@),
    {
        let lhs = self.spec_data();
        let rhs = Map::new(
            |k: CacheKey| old_data.contains_key(k.spec_code()),
            |k: CacheKey| old_data[k.spec_code()]@,
        ).insert(key, a@);
        assert forall|k: CacheKey| lhs.contains_key(k) == rhs.contains_key(k) by {
            CacheKey::lemma_code_injective(k, key);
        }
        assert forall|k: CacheKey| #[trigger] lhs.contains_key(k) implies lhs[k] == rhs[k] by {
            CacheKey::lemma_code_injective(k, key);
        }
        assert(lhs =~= rhs);
    }

    /// Puts `address` under `cache_key` and the key at the front of the
    /// order; memory usage grows by the record size (21 bytes and the
    /// address bytes).
    pub fn insert(&mut self, cache_key: CacheKey, address: String)
        requires
            old(self).wf(),
            old(self).spec_memory_size() + 21 + encode_utf8(address@).len() <= usize::MAX,
        ensures
            final(self).wf(),
            final(self).spec_keys() == seq![cache_key] + old(self).spec_keys(),
            final(self).spec_data() == old(self).spec_data().insert(cache_key, address@),
            final(self).spec_memory_size() == old(self).spec_memory_size() + 21 + encode_utf8(
                address@,
            ).len(),
            final(self).spec_memory_max_size() == old(self).spec_memory_max_size(),
    {
        let ghost old_data = self.data@;
        let ghost old_keys = self.cache_keys@;
        let ghost a = address;
        self.memory_size = self.memory_size + DequeStorageItem::len() + address.as_str().len();
        self.cache_keys.push_front(cache_key);
        self.data.insert(cache_key.code(), address);
        proof {
            self.lemma_data_insert(old_data, cache_key, a);
            assert(self.cache_keys@ =~= seq![cache_key] + old_keys);
            assert forall|i: int| 0 <= i < self.cache_keys@.len() implies self.data@.contains_key(
                #[trigger] self.cache_keys@[i].spec_code(),
            ) by {
                if i > 0 {
                    assert(self.cache_keys@[i] == old_keys[i - 1]);
                }
            }
            assert forall|c: u128| #[trigger] self.data@.contains_key(c) implies code_listed(
                self.cache_keys@,
                c,
            ) by {
                if c == cache_key.spec_code() {
                    assert(self.cache_keys@[0].spec_code() == c);
                } else {
                    let j = choose|j: int|
                        0 <= j < old_keys.len() && #[trigger] old_keys[j].spec_code() == c;
                    assert(self.cache_keys@[j + 1].spec_code() == c);
                }
            }
        }
    }

    /// The address held for `cache_key`, if any.
    pub fn get(&self, cache_key: &CacheKey) -> (r: Option<&String>)
        ensures
            match r {
                Some(a) => self.spec_data().contains_key(*cache_key) && a@ == self.spec_data()[*cache_key],
                None => !self.spec_data().contains_key(*cache_key),
            },
    {
        self.data.get(&cache_key.code())
    }

    /// Sets the memory limit.
    pub fn memory_max_size(&mut self, size: usize)
        requires
            old(self).wf(),
        ensures
            final(self).spec_memory_max_size() == size,
            final(self).spec_keys() == old(self).spec_keys(),
            final(self).spec_data() == old(self).spec_data(),
            final(self).spec_memory_size() == old(self).spec_memory_size(),
            final(self).wf(),
    {
        self.memory_max_size = size;
    }

    /// The memory limit in bytes.
    pub fn get_memory_max_size(&self) -> (r: usize)
        ensures
            r == self.spec_memory_max_size(),
    {
        self.memory_max_size
    }

    /// Current memory usage in bytes.
    pub fn get_in_memory_size(&self) -> (r: usize)
        ensures
            r == self.spec_memory_size(),
    {
        self.memory_size
    }

    /// Number of keys in the order (a key inserted twice counts twice).
    pub fn in_memory_record_count(&self) -> (r: usize)
        ensures
            r == self.spec_keys().len(),
    {
        self.cache_keys.len()
    }
}


impl DequeStorage {
    /// The most recently inserted record.
    pub fn first(&self) -> (r: Option<(&CacheKey, &String)>)
        requires
            self.wf(),
        ensures
            match r {
                Some((k, a)) => self.spec_entries().len() > 0 && self.spec_entries()[0] == (*k, a@),
                None => self.spec_entries().len() == 0,
            },
    {
        if self.cache_keys.len() == 0 {
            return None;
        }
        let key = &self.cache_keys[0];
        assert(self.data@.contains_key(self.cache_keys@[0].spec_code()));
        match self.data.get(&key.code()) {
            Some(a) => Some((key, a)),
            None => None,
        }
    }

    /// The oldest inserted record.
    pub fn last(&self) -> (r: Option<(&CacheKey, &String)>)
        requires
            self.wf(),
        ensures
            match r {
                Some((k, a)) => self.spec_entries().len() > 0 && self.spec_entries().last() == (*k, a@),
                None => self.spec_entries().len() == 0,
            },
    {
        let n = self.cache_keys.len();
        if n == 0 {
            return None;
        }
        let key = &self.cache_keys[n - 1];
        assert(self.data@.contains_key(self.cache_keys@[n - 1].spec_code()));
        match self.data.get(&key.code()) {
            Some(a) => Some((key, a)),
            None => None,
        }
    }
}

impl DequeStorage {
    /// Number of keys that hold an address (a key inserted twice counts
    /// once).
    pub fn address_count(&self) -> (r: usize)
        requires
            self.wf(),
        ensures
            self.spec_data().dom().finite(),
            r == self.spec_data().dom().len(),
    {
        proof {
            let raw = self.data@.dom();
            let f = |c: u128| CacheKey::spec_from_code(c);
            let dom = self.spec_data().dom();
            assert(raw.finite());
            assert forall|c: u128| #[trigger] raw.contains(c) implies c < 0x1_0000_0000_0000_0000_0000
                && CacheKey::spec_from_code(c).spec_code() == c by {
                let j = choose|j: int|
                    0 <= j < self.cache_keys@.len() && #[trigger] self.cache_keys@[j].spec_code() == c;
                CacheKey::lemma_code_bound(self.cache_keys@[j]);
            }
            assert forall|k: CacheKey| #[trigger] dom.contains(k) <==> raw.map(f).contains(k) by {
                CacheKey::lemma_code_bound(k);
                if dom.contains(k) {
                    assert(raw.contains(k.spec_code()));
                    assert(f(k.spec_code()) == k);
                }
                if raw.map(f).contains(k) {
                    let c = choose|c: u128| raw.contains(c) && f(c) == k;
                    assert(k.spec_code() == c);
                }
            }
            assert(raw.map(f) =~= dom);
            assert(vstd::relations::injective_on(f, raw)) by {
                assert forall|a: u128, b: u128| raw.contains(a) && raw.contains(b) && #[trigger] f(a)
                    == #[trigger] f(b) implies a == b by {
                    assert(CacheKey::spec_from_code(a).spec_code() == a);
                    assert(CacheKey::spec_from_code(b).spec_code() == b);
                }
            }
            vstd::set_lib::lemma_map_size(raw, dom, f);
        }
        self.data.len()
    }
}

impl DequeStorage {
    /// Whether every key in the order has a record form, as
    /// [`DequeStorage::as_bytes`] asks.
    pub fn keys_encodable(&self) -> (r: bool)
        ensures
            r == forall|i: int| 0 <= i < self.spec_keys().len() ==> #[trigger] self.spec_keys()[i].encodable(),
    {
        let mut i: usize = 0;
        while i < self.cache_keys.len()
            invariant
                i <= self.cache_keys@.len(),
                forall|j: int| 0 <= j < i ==> #[trigger] self.spec_keys()[j].encodable(),
            decreases self.cache_keys@.len() - i,
        {
            if !self.cache_keys[i].is_encodable() {
                assert(!self.spec_keys()[i as int].encodable());
                return false;
            }
            i = i + 1;
        }
        true
    }
}

impl Default for DequeStorage {
    fn default() -> (r: DequeStorage)
        ensures
            r.wf(),
            r.spec_keys() == Seq::<CacheKey>::empty(),
            r.spec_data() == Map::<CacheKey, Seq<char>>::empty(),
            r.spec_memory_size() == 0,
            r.spec_memory_max_size() == 0,
    {
        DequeStorage::new()
    }
}

impl DequeStorage {
    /// The number of records eviction drops now (see [`delete_count`]).
    pub fn on_delete_items_count(&self) -> (r: usize)
        requires
            delete_count_fits(
                self.spec_memory_size() as nat,
                self.spec_memory_max_size() as nat,
                self.spec_keys().len(),
            ),
        ensures
            r == delete_count(
                self.spec_memory_size() as nat,
                self.spec_memory_max_size() as nat,
                self.spec_keys().len(),
            ),
    {
        on_delete_items_count(self.memory_size, self.memory_max_size, self.cache_keys.len())
    }

    /// Whether a new address of `address_len` bytes calls for eviction:
    /// its record would take memory usage past the limit. A sum that would
    /// overflow, where the computation would panic, is left out by
    /// `requires`.
    pub fn needs_eviction(&self, address_len: usize) -> (r: bool)
        requires
            self.spec_memory_size() + 21 + address_len <= usize::MAX,
        ensures
            r == (self.spec_memory_size() + 21 + address_len > self.spec_memory_max_size()),
    {
        self.memory_size + DequeStorageItem::len() + address_len > self.memory_max_size
    }

    /// Drops the oldest records: the order keeps its first `len - n` keys,
    /// where `n` is [`on_delete_items_count`](Self::on_delete_items_count),
    /// and addresses of keys that left the order are dropped. Memory usage
    /// is left as it is; [`set_in_memory_size`](Self::set_in_memory_size)
    /// records the size of what was written afterwards.
    pub fn evict(&mut self)
        requires
            old(self).wf(),
            delete_count_fits(
                old(self).spec_memory_size() as nat,
                old(self).spec_memory_max_size() as nat,
                old(self).spec_keys().len(),
            ),
        ensures
            final(self).wf(),
            final(self).spec_keys() == old(self).spec_keys().take(
                old(self).spec_keys().len() - delete_count(
                    old(self).spec_memory_size() as nat,
                    old(self).spec_memory_max_size() as nat,
                    old(self).spec_keys().len(),
                ),
            ),
            final(self).spec_data() == old(self).spec_data().restrict(
                final(self).spec_keys().to_set(),
            ),
            final(self).spec_memory_size() == old(self).spec_memory_size(),
            final(self).spec_memory_max_size() == old(self).spec_memory_max_size(),
    {
        let count = self.on_delete_items_count();
        let new_len = self.cache_keys.len() - count;
        self.cache_keys.truncate(new_len);
        let ghost keys = self.cache_keys@;
        let ghost orig = self.data@;
        let mut kept: HashMap<u128, String> = HashMap::new();
        let mut i: usize = 0;
        while i < self.cache_keys.len()
            invariant
                i <= keys.len(),
                self.cache_keys@ == keys,
                self.memory_size == old(self).memory_size,
                self.memory_max_size == old(self).memory_max_size,
                forall|c: u128|
                    #[trigger] kept@.contains_key(c) <==> (orig.contains_key(c) && code_listed(
                        keys.take(i as int),
                        c,
                    )),
                forall|c: u128| #[trigger] kept@.contains_key(c) ==> kept@[c] == orig[c],
                forall|c: u128|
                    #[trigger] self.data@.contains_key(c) <==> (orig.contains_key(c)
                        && !code_listed(keys.take(i as int), c)),
                forall|c: u128| #[trigger] self.data@.contains_key(c) ==> self.data@[c] == orig[c],
            decreases keys.len() - i,
        {
            let code = self.cache_keys[i].code();
            proof {
                assert forall|c: u128| code_listed(keys.take(i + 1), c) <==> (code_listed(
                    keys.take(i as int),
                    c,
                ) || c == code) by {
                    if code_listed(keys.take(i + 1), c) {
                        let j = choose|j: int|
                            0 <= j < i + 1 && #[trigger] keys.take(i + 1)[j].spec_code() == c;
                        if j < i {
                            assert(keys.take(i as int)[j] == keys.take(i + 1)[j]);
                        }
                    }
                    if code_listed(keys.take(i as int), c) {
                        let j = choose|j: int|
                            0 <= j < i && #[trigger] keys.take(i as int)[j].spec_code() == c;
                        assert(keys.take(i + 1)[j] == keys.take(i as int)[j]);
                    }
                    if c == code {
                        assert(keys.take(i + 1)[i as int] == keys[i as int]);
                    }
                }
            }
            if !kept.contains_key(&code) {
                let removed = self.data.remove(&code);
                match removed {
                    Some(a) => {
                        kept.insert(code, a);
                    },
                    None => {},
                }
            }
            i = i + 1;
        }
        assert(keys.take(keys.len() as int) =~= keys);
        self.data = kept;
        proof {
            let old_keys = old(self).cache_keys@;
            assert(keys =~= old_keys.take(new_len as int));
            assert forall|j: int| 0 <= j < keys.len() implies self.data@.contains_key(
                #[trigger] keys[j].spec_code(),
            ) by {
                assert(old_keys[j] == keys[j]);
                assert(keys.take(keys.len() as int)[j] == keys[j]);
            }
            assert forall|c: u128| #[trigger] self.data@.contains_key(c) implies code_listed(
                self.cache_keys@,
                c,
            ) by {
            }
            let lhs = self.spec_data();
            let rhs = old(self).spec_data().restrict(keys.to_set());
            assert forall|k: CacheKey| lhs.contains_key(k) <==> rhs.contains_key(k) by {
                if lhs.contains_key(k) {
                    let j = choose|j: int|
                        0 <= j < keys.len() && #[trigger] keys[j].spec_code() == k.spec_code();
                    CacheKey::lemma_code_injective(keys[j], k);
                    assert(keys.to_set().contains(k));
                }
                if rhs.contains_key(k) {
                    let j = choose|j: int| 0 <= j < keys.len() && keys[j] == k;
                    assert(keys.take(keys.len() as int)[j] == keys[j]);
                    assert(code_listed(keys, k.spec_code()));
                }
            }
            assert(lhs =~= rhs);
        }
    }

    /// Records the memory usage, as the size of what was last written.
    pub fn set_in_memory_size(&mut self, size: usize)
        requires
            old(self).wf(),
        ensures
            final(self).wf(),
            final(self).spec_memory_size() == size,
            final(self).spec_keys() == old(self).spec_keys(),
            final(self).spec_data() == old(self).spec_data(),
            final(self).spec_memory_max_size() == old(self).spec_memory_max_size(),
    {
        self.memory_size = size;
    }

    /// The records of the storage, in key order, newest first. A key whose
    /// coordinates `{:08}` writes in more than eight bytes has no record
    /// form, and the write would panic; `requires` leaves that out.
    pub fn as_bytes(&self) -> (r: Vec<u8>)
        requires
            self.wf(),
            forall|i: int| 0 <= i < self.spec_keys().len() ==> #[trigger] self.spec_keys()[i].encodable(),
        ensures
            r@ == records_bytes(self.spec_entries()),
    {
        let mut out: Vec<u8> = Vec::new();
        let mut i: usize = 0;
        while i < self.cache_keys.len()
            invariant
                self.wf(),
                forall|j: int| 0 <= j < self.spec_keys().len() ==> #[trigger] self.spec_keys()[j].encodable(),
                i <= self.cache_keys@.len(),
                out@ == records_bytes(self.spec_entries().take(i as int)),
            decreases self.cache_keys@.len() - i,
        {
            let key = &self.cache_keys[i];
            assert(self.spec_keys()[i as int].encodable());
            match self.data.get(&key.code()) {
                Some(address) => {
                    append_record(&mut out, key, address);
                    proof {
                        let e = self.spec_entries();
                        assert(e.take(i + 1) =~= e.take(i as int).push(e[i as int]));
                        lemma_records_bytes_push(e.take(i as int), *key, address@);
                    }
                },
                None => {
                    assert(self.data@.contains_key(self.cache_keys@[i as int].spec_code()));
                },
            }
            i = i + 1;
        }
        assert(self.spec_entries().take(i as int) =~= self.spec_entries());
        out
    }

    /// Reads the records of `bytes`: each key goes to the back of the order
    /// (keeping file order, newest first), each address under its key, and
    /// memory usage grows by the bytes read. Bytes that the reader does
    /// not accept would panic; `requires` leaves them out.
    pub fn read_bytes(&mut self, bytes: &[u8])
        requires
            old(self).wf(),
            records_well_formed(bytes@),
            old(self).spec_memory_size() + records_consumed(bytes@) <= usize::MAX,
        ensures
            final(self).wf(),
            final(self).spec_keys() == old(self).spec_keys() + parsed_records(bytes@).map_values(
                |e: (CacheKey, Seq<char>)| e.0,
            ),
            final(self).spec_data() == apply_entries(old(self).spec_data(), parsed_records(bytes@)),
            final(self).spec_memory_size() == old(self).spec_memory_size() + records_consumed(
                bytes@,
            ),
            final(self).spec_memory_max_size() == old(self).spec_memory_max_size(),
    {
        let (entries, consumed) = parse_records(bytes);
        let ghost parsed = parsed_records(bytes@);
        let ghost old_keys = self.cache_keys@;
        let ghost old_data = self.spec_data();
        self.memory_size = self.memory_size + consumed;
        let ghost ev = entries@;
        for e in it: entries
            invariant
                parsed == ev.map_values(|e: (CacheKey, String)| entry_view(e)),
                it.seq() == ev,
                self.wf(),
                self.cache_keys@ == old_keys + parsed.take(it.index()).map_values(
                    |e: (CacheKey, Seq<char>)| e.0,
                ),
                self.spec_data() == apply_entries(old_data, parsed.take(it.index())),
                self.memory_size == old(self).spec_memory_size() + records_consumed(bytes@),
                self.memory_max_size == old(self).spec_memory_max_size(),
        {
            let (key, address) = e;
            let ghost i = it.index();
            let ghost keys_before = self.cache_keys@;
            let ghost data_before = self.data@;
            let ghost a = address;
            self.cache_keys.push_back(key);
            self.data.insert(key.code(), address);
            proof {
                self.lemma_data_insert(data_before, key, a);
                assert(parsed[i] == (key, a@));
                assert(parsed.take(i + 1).drop_last() =~= parsed.take(i));
                assert(parsed.take(i + 1).map_values(|e: (CacheKey, Seq<char>)| e.0)
                    =~= parsed.take(i).map_values(|e: (CacheKey, Seq<char>)| e.0).push(key));
                assert(self.cache_keys@ =~= keys_before.push(key));
                assert forall|j: int| 0 <= j < self.cache_keys@.len() implies self.data@.contains_key(
                    #[trigger] self.cache_keys@[j].spec_code(),
                ) by {
                    if j < keys_before.len() {
                        assert(self.cache_keys@[j] == keys_before[j]);
                    }
                }
                assert forall|c: u128| #[trigger] self.data@.contains_key(c) implies code_listed(
                    self.cache_keys@,
                    c,
                ) by {
                    if c == key.spec_code() {
                        assert(self.cache_keys@[keys_before.len() as int].spec_code() == c);
                    } else {
                        assert(data_before.contains_key(c));
                        let j = choose|j: int|
                            0 <= j < keys_before.len() && #[trigger] keys_before[j].spec_code() == c;
                        assert(self.cache_keys@[j] == keys_before[j]);
                    }
                }
            }
        }
        assert(parsed.take(parsed.len() as int) =~= parsed);
    }
}

impl DequeStorage {
    /// The keys with an address are exactly the keys in the order.
    pub proof fn lemma_keys_are_domain(&self)
        requires
            self.wf(),
        ensures
            forall|k: CacheKey| #[trigger] self.spec_data().contains_key(k) <==> self.spec_keys().contains(k),
    {
        assert forall|k: CacheKey| #[trigger] self.spec_data().contains_key(k) <==> self.spec_keys().contains(k) by {
            if self.spec_data().contains_key(k) {
                let j = choose|j: int|
                    0 <= j < self.cache_keys@.len() && #[trigger] self.cache_keys@[j].spec_code() == k.spec_code();
                CacheKey::lemma_code_injective(self.cache_keys@[j], k);
            }
            if self.spec_keys().contains(k) {
                let j = choose|j: int| 0 <= j < self.cache_keys@.len() && self.cache_keys@[j] == k;
                assert(self.data@.contains_key(self.cache_keys@[j].spec_code()));
            }
        }
    }
}

/// Records of the keys with their addresses, put into an empty map, give
/// each key its address.
proof fn lemma_apply_keyed(keys: Seq<CacheKey>, data: Map<CacheKey, Seq<char>>)
    ensures
        forall|k: CacheKey| #[trigger] apply_entries(
            Map::empty(),
            keyed_entries(keys, data),
        ).contains_key(k) <==> keys.contains(k),
        forall|k: CacheKey| keys.contains(k) ==> #[trigger] apply_entries(
            Map::empty(),
            keyed_entries(keys, data),
        )[k] == data[k],
    decreases keys.len(),
{
    let es = keyed_entries(keys, data);
    if keys.len() == 0 {
        assert(apply_entries(Map::empty(), es) =~= Map::<CacheKey, Seq<char>>::empty());
    } else {
        let rest = keys.drop_last();
        lemma_apply_keyed(rest, data);
        assert(es.drop_last() =~= keyed_entries(rest, data));
        assert(es.last() == (keys.last(), data[keys.last()]));
        let prev = apply_entries(Map::empty(), keyed_entries(rest, data));
        assert(apply_entries(Map::empty(), es) == prev.insert(keys.last(), data[keys.last()]));
        assert forall|k: CacheKey| keys.contains(k) <==> (rest.contains(k) || k == keys.last()) by {
            if keys.contains(k) {
                let i = choose|i: int| 0 <= i < keys.len() && keys[i] == k;
                if i < keys.len() - 1 {
                    assert(rest[i] == k);
                }
            }
            if rest.contains(k) {
                let i = choose|i: int| 0 <= i < rest.len() && rest[i] == k;
                assert(keys[i] == k);
            }
            if k == keys.last() {
                assert(keys[keys.len() - 1] == k);
            }
        }
    }
}

/// Writing a storage's records and reading them into an empty storage
/// gives back its keys in order and the address of each key (for keys
/// with a record form and addresses shorter than 256 bytes), and the
/// reader consumes the whole file, so that memory usage after the read is
/// the file's length.
pub proof fn lemma_deque_round_trip(keys: Seq<CacheKey>, data: Map<CacheKey, Seq<char>>)
    requires
        forall|k: CacheKey| #[trigger] data.contains_key(k) <==> keys.contains(k),
        forall|i: int| 0 <= i < keys.len() ==> entry_storable(#[trigger] keys[i], data[keys[i]]),
    ensures
        records_well_formed(records_bytes(keyed_entries(keys, data))),
        parsed_records(records_bytes(keyed_entries(keys, data))).map_values(
            |e: (CacheKey, Seq<char>)| e.0,
        ) == keys,
        apply_entries(
            Map::empty(),
            parsed_records(records_bytes(keyed_entries(keys, data))),
        ) == data,
        records_consumed(records_bytes(keyed_entries(keys, data))) == records_bytes(
            keyed_entries(keys, data),
        ).len(),
{
    let es = keyed_entries(keys, data);
    assert forall|i: int| 0 <= i < es.len() implies entry_storable(#[trigger] es[i].0, es[i].1) by {
        assert(entry_storable(keys[i], data[keys[i]]));
    }
    lemma_records_round_trip(es);
    lemma_records_consumed(es);
    assert(es.map_values(|e: (CacheKey, Seq<char>)| e.0) =~= keys);
    lemma_apply_keyed(keys, data);
    assert(apply_entries(Map::empty(), es) =~= data);
}

/// After inserting an address under a key, the key holds that address.
pub proof fn lemma_deque_get_after_insert(
    data: Map<CacheKey, Seq<char>>,
    key: CacheKey,
    address: Seq<char>,
)
    ensures
        data.insert(key, address).contains_key(key),
        data.insert(key, address)[key] == address,
{
}

impl DequeStorage {
    /// Flush then read: the records of a well-formed storage (keys with a
    /// record form, addresses shorter than 256 bytes), read into an empty
    /// storage, give back its key order and its addresses, and the reader
    /// consumes the whole file, so memory usage becomes the file's length.
    pub proof fn lemma_round_trip(&self)
        requires
            self.wf(),
            forall|i: int|
                0 <= i < self.spec_keys().len() ==> entry_storable(
                    #[trigger] self.spec_keys()[i],
                    self.spec_data()[self.spec_keys()[i]],
                ),
        ensures
            records_well_formed(records_bytes(self.spec_entries())),
            Seq::<CacheKey>::empty() + parsed_records(records_bytes(self.spec_entries())).map_values(
                |e: (CacheKey, Seq<char>)| e.0,
            ) == self.spec_keys(),
            apply_entries(
                Map::<CacheKey, Seq<char>>::empty(),
                parsed_records(records_bytes(self.spec_entries())),
            ) == self.spec_data(),
            0 + records_consumed(records_bytes(self.spec_entries())) == records_bytes(
                self.spec_entries(),
            ).len(),
    {
        self.lemma_keys_are_domain();
        lemma_deque_round_trip(self.spec_keys(), self.spec_data());
        assert(Seq::<CacheKey>::empty() + parsed_records(records_bytes(self.spec_entries())).map_values(
            |e: (CacheKey, Seq<char>)| e.0,
        ) =~= parsed_records(records_bytes(self.spec_entries())).map_values(
            |e: (CacheKey, Seq<char>)| e.0,
        ));
    }
}

} // verus!
