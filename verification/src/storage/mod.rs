//! Storage strategies that hold the cache in memory, and the flat record
//! format that they serialise into.

pub mod deque;
pub mod lirs;
pub mod lru;

pub use deque::{DequeStorage, DequeStorageItem};

use vstd::prelude::*;

use crate::cache_key::{raw_well_formed, CacheKey, CacheKeyRaw};
use crate::text::{decode_address, decode_lossy};
use vstd::utf8::{decode_utf8, encode_utf8, encode_utf8_decode_utf8, encode_utf8_valid_utf8};

verus! {

/// Defines how often to flush data to the persistence disk.
#[derive(PartialEq, Eq, Structural, Debug, Clone, Copy)]
pub enum StorageFlushStrategy {
    /// Keep data in-memory only, never flush to disk.
    Never,
    /// Flush to disk after every write operation.
    Immediately,
    /// Flush to disk after a specific number of records have been written.
    RecordCount(usize),
}

impl Default for StorageFlushStrategy {
    fn default() -> (r: StorageFlushStrategy)
        ensures
            r == StorageFlushStrategy::Never,
    {
        StorageFlushStrategy::Never
    }
}

/// One record: the raw key, one byte holding the length of the address in
/// bytes (as `as u8` truncates it), and the address as UTF-8.
pub open spec fn record_bytes(key: CacheKey, address: Seq<char>) -> Seq<u8> {
    key.raw_bytes() + seq![len_byte(encode_utf8(address).len())] + encode_utf8(address)
}

/// A length as `as u8` truncates it: its remainder modulo 256.
pub open spec fn len_byte(n: nat) -> u8 {
    (n % 256) as u8
}

/// The records of the entries, one after another.
pub open spec fn records_bytes(entries: Seq<(CacheKey, Seq<char>)>) -> Seq<u8>
    decreases entries.len(),
{
    if entries.len() == 0 {
        seq![]
    } else {
        record_bytes(entries[0].0, entries[0].1) + records_bytes(entries.drop_first())
    }
}

/// An entry that can be written as a record and read back: its key has a
/// textual form and its address is shorter than 256 bytes.
pub open spec fn entry_storable(key: CacheKey, address: Seq<char>) -> bool {
    key.encodable() && encode_utf8(address).len() < 256
}

/// Bytes that the reader accepts: records, each with a well-formed key and
/// as many address bytes as its length byte says, followed by fewer than
/// twenty bytes that are ignored.
pub open spec fn records_well_formed(b: Seq<u8>) -> bool
    decreases b.len(),
{
    if b.len() < 20 {
        true
    } else if b.len() < 21 {
        false
    } else if b.len() < 21 + b[20] {
        false
    } else {
        raw_well_formed(b.subrange(0, 20)) && records_well_formed(b.skip(21 + b[20]))
    }
}

/// The entries that the reader takes from well-formed bytes, in file order.
pub open spec fn parsed_records(b: Seq<u8>) -> Seq<(CacheKey, Seq<char>)>
    decreases b.len(),
{
    if b.len() < 21 || b.len() < 21 + b[20] {
        seq![]
    } else {
        seq![
            (
                CacheKey::from_raw_bytes(b.subrange(0, 20)),
                decode_address(b.subrange(21, 21 + b[20])),
            ),
        ] + parsed_records(b.skip(21 + b[20]))
    }
}

/// The text of an owned address.
pub open spec fn entry_view(e: (CacheKey, String)) -> (CacheKey, Seq<char>) {
    (e.0, e.1@)
}

/// Tells whether the reader accepts `bytes` (see [`records_well_formed`]).
pub fn check_records(bytes: &[u8]) -> (ok: bool)
    ensures
        ok == records_well_formed(bytes@),
{
    let mut pos: usize = 0;
    assert(bytes@.skip(0) =~= bytes@);
    while bytes.len() - pos >= 20
        invariant
            pos <= bytes@.len(),
            records_well_formed(bytes@) == records_well_formed(bytes@.skip(pos as int)),
        decreases bytes@.len() - pos,
    {
        let ghost rest = bytes@.skip(pos as int);
        if bytes.len() - pos < 21 {
            return false;
        }
        let n = bytes[pos + 20] as usize;
        assert(rest[20] == n);
        if n > bytes.len() - pos - 21 {
            return false;
        }
        let raw = CacheKeyRaw::try_from_slice(&bytes[pos..pos + 20]);
        assert(rest.subrange(0, 20) =~= bytes@.subrange(pos as int, pos + 20));
        let raw = raw.unwrap();
        if !raw.is_well_formed() {
            return false;
        }
        assert(rest.skip(21 + n) =~= bytes@.skip(pos + 21 + n));
        pos = pos + 21 + n;
    }
    true
}

/// The entries put into a map one after another, a later entry replacing an
/// earlier one with the same key.
pub open spec fn apply_entries(
    m: Map<CacheKey, Seq<char>>,
    entries: Seq<(CacheKey, Seq<char>)>,
) -> Map<CacheKey, Seq<char>>
    decreases entries.len(),
{
    if entries.len() == 0 {
        m
    } else {
        apply_entries(m, entries.drop_last()).insert(entries.last().0, entries.last().1)
    }
}

/// Reads the records of `bytes`, in file order, and how many bytes they
/// take. Bytes that the reader does
/// not accept are refused by `requires`; [`check_records`] tells them
/// apart.
pub fn parse_records(bytes: &[u8]) -> (r: (Vec<(CacheKey, String)>, usize))
    requires
        records_well_formed(bytes@),
    ensures
        r.0@.map_values(|e: (CacheKey, String)| entry_view(e)) == parsed_records(bytes@),
        r.1 == records_consumed(bytes@),
{
    let mut out: Vec<(CacheKey, String)> = Vec::new();
    let mut pos: usize = 0;
    assert(bytes@.skip(0) =~= bytes@);
    assert(out@.map_values(|e: (CacheKey, String)| entry_view(e)) + parsed_records(bytes@) =~= parsed_records(bytes@));
    while bytes.len() - pos >= 20
        invariant
            pos <= bytes@.len(),
            records_well_formed(bytes@.skip(pos as int)),
            parsed_records(bytes@) == out@.map_values(|e: (CacheKey, String)| entry_view(e))
                + parsed_records(bytes@.skip(pos as int)),
            records_consumed(bytes@) == pos + records_consumed(bytes@.skip(pos as int)),
        decreases bytes@.len() - pos,
    {
        let ghost rest = bytes@.skip(pos as int);
        let ghost before = out@;
        let n = bytes[pos + 20] as usize;
        assert(rest[20] == n);
        let raw = CacheKeyRaw::try_from_slice(&bytes[pos..pos + 20]).unwrap();
        assert(rest.subrange(0, 20) =~= bytes@.subrange(pos as int, pos + 20));
        let address = decode_lossy(&bytes[pos + 21..pos + 21 + n]);
        assert(rest.subrange(21, 21 + n as int) =~= bytes@.subrange(pos + 21, pos + 21 + n));
        let key = CacheKey::from_raw(&raw);
        out.push((key, address));
        assert(rest.skip(21 + n) =~= bytes@.skip(pos + 21 + n));
        pos = pos + 21 + n;
        assert(out@.map_values(|e: (CacheKey, String)| entry_view(e)) =~= before.map_values(
            |e: (CacheKey, String)| entry_view(e),
        ).push(entry_view((key, address))));
        assert(parsed_records(bytes@) =~= out@.map_values(|e: (CacheKey, String)| entry_view(e))
            + parsed_records(bytes@.skip(pos as int)));
    }
    assert(parsed_records(bytes@.skip(pos as int)) =~= seq![]);
    assert(out@.map_values(|e: (CacheKey, String)| entry_view(e)) + seq![] =~= out@.map_values(
        |e: (CacheKey, String)| entry_view(e),
    ));
    (out, pos)
}

/// Records written for storable entries are read back as those entries.
pub proof fn lemma_records_round_trip(entries: Seq<(CacheKey, Seq<char>)>)
    requires
        forall|i: int| 0 <= i < entries.len() ==> entry_storable(#[trigger] entries[i].0, entries[i].1),
    ensures
        records_well_formed(records_bytes(entries)),
        parsed_records(records_bytes(entries)) == entries,
    decreases entries.len(),
{
    if entries.len() == 0 {
        assert(parsed_records(records_bytes(entries)) =~= entries);
    } else {
        let (k, a) = entries[0];
        assert(entry_storable(entries[0].0, entries[0].1));
        let rest = entries.drop_first();
        assert forall|i: int| 0 <= i < rest.len() implies entry_storable(
            #[trigger] rest[i].0,
            rest[i].1,
        ) by {
            assert(rest[i] == entries[i + 1]);
            assert(entry_storable(entries[i + 1].0, entries[i + 1].1));
        }
        lemma_records_round_trip(rest);
        let enc = encode_utf8(a);
        let n = enc.len();
        let b = records_bytes(entries);
        crate::cache_key::lemma_raw_round_trip(k);
        assert(b =~= k.raw_bytes() + seq![len_byte(n)] + enc + records_bytes(rest));
        assert(k.raw_bytes().len() == 20);
        assert(b[20] == len_byte(n));
        assert(len_byte(n) == n);
        assert(b.subrange(0, 20) =~= k.raw_bytes());
        assert(b.subrange(21, 21 + n as int) =~= enc);
        assert(b.skip(21 + n as int) =~= records_bytes(rest));
        encode_utf8_valid_utf8(a);
        encode_utf8_decode_utf8(a);
        assert(decode_address(enc) == a);
        assert(parsed_records(b) =~= entries);
    }
}

/// Records of `entries` followed by one more record.
pub proof fn lemma_records_bytes_push(
    entries: Seq<(CacheKey, Seq<char>)>,
    key: CacheKey,
    address: Seq<char>,
)
    ensures
        records_bytes(entries.push((key, address))) == records_bytes(entries) + record_bytes(
            key,
            address,
        ),
    decreases entries.len(),
{
    if entries.len() == 0 {
        let s = entries.push((key, address));
        assert(s.drop_first() =~= Seq::<(CacheKey, Seq<char>)>::empty());
        assert(records_bytes(s.drop_first()) =~= Seq::<u8>::empty());
        assert(records_bytes(entries) =~= Seq::<u8>::empty());
        assert(records_bytes(s) =~= record_bytes(key, address) + records_bytes(s.drop_first()));
        assert(records_bytes(s) =~= records_bytes(entries) + record_bytes(key, address));
    } else {
        let s = entries.push((key, address));
        assert(s.drop_first() =~= entries.drop_first().push((key, address)));
        lemma_records_bytes_push(entries.drop_first(), key, address);
        assert(records_bytes(s) =~= records_bytes(entries) + record_bytes(key, address));
    }
}

/// Number of bytes that the reader consumes: all but the trailing bytes
/// that are too few to start a record.
pub open spec fn records_consumed(b: Seq<u8>) -> nat
    decreases b.len(),
{
    if b.len() < 21 || b.len() < 21 + b[20] {
        0
    } else {
        (21 + b[20] + records_consumed(b.skip(21 + b[20]))) as nat
    }
}

/// Size of a record that holds the address `address`: the fixed part and
/// the address in UTF-8.
pub open spec fn item_size(address: Seq<char>) -> nat {
    21 + encode_utf8(address).len()
}

/// Total record size of entries: [`item_size`] of each address.
pub open spec fn items_size(es: Seq<(CacheKey, Seq<char>)>) -> nat
    decreases es.len(),
{
    if es.len() == 0 {
        0
    } else {
        items_size(es.drop_last()) + item_size(es.last().1)
    }
}

/// A prefix of the entries has no greater total size.
pub proof fn lemma_items_size_prefix(es: Seq<(CacheKey, Seq<char>)>, k: int)
    requires
        0 <= k <= es.len(),
    ensures
        items_size(es.take(k)) <= items_size(es),
    decreases es.len(),
{
    if k == es.len() {
        assert(es.take(k) =~= es);
    } else {
        assert(es.drop_last().take(k) =~= es.take(k));
        lemma_items_size_prefix(es.drop_last(), k);
    }
}

/// The total size of `a + b` is the sum of their sizes.
pub proof fn lemma_items_size_add(a: Seq<(CacheKey, Seq<char>)>, b: Seq<(CacheKey, Seq<char>)>)
    ensures
        items_size(a + b) == items_size(a) + items_size(b),
    decreases b.len(),
{
    if b.len() == 0 {
        assert(a + b =~= a);
    } else {
        assert((a + b).drop_last() =~= a + b.drop_last());
        lemma_items_size_add(a, b.drop_last());
    }
}

/// The total size of one entry is its size.
pub proof fn lemma_items_size_one(e: (CacheKey, Seq<char>))
    ensures
        items_size(seq![e]) == item_size(e.1),
{
    assert(seq![e].drop_last() =~= Seq::<(CacheKey, Seq<char>)>::empty());
    assert(items_size(Seq::<(CacheKey, Seq<char>)>::empty()) == 0);
}

/// The records of the entries take, in all, the entries' total size.
pub proof fn lemma_records_len(es: Seq<(CacheKey, Seq<char>)>)
    ensures
        records_bytes(es).len() == items_size(es),
    decreases es.len(),
{
    if es.len() > 0 {
        let rest = es.drop_first();
        lemma_records_len(rest);
        crate::cache_key::lemma_raw_len(es[0].0);
        assert(es =~= seq![es[0]] + rest);
        lemma_items_size_add(seq![es[0]], rest);
        lemma_items_size_one(es[0]);
    } else {
        assert(records_bytes(es) =~= Seq::<u8>::empty());
    }
}

/// The reader consumes all the records of storable entries.
pub proof fn lemma_records_consumed(es: Seq<(CacheKey, Seq<char>)>)
    requires
        forall|i: int| 0 <= i < es.len() ==> entry_storable(#[trigger] es[i].0, es[i].1),
    ensures
        records_consumed(records_bytes(es)) == records_bytes(es).len(),
    decreases es.len(),
{
    if es.len() == 0 {
        assert(records_bytes(es) =~= Seq::<u8>::empty());
    } else {
        let (k, a) = es[0];
        assert(entry_storable(es[0].0, es[0].1));
        let rest = es.drop_first();
        assert forall|i: int| 0 <= i < rest.len() implies entry_storable(
            #[trigger] rest[i].0,
            rest[i].1,
        ) by {
            assert(rest[i] == es[i + 1]);
            assert(entry_storable(es[i + 1].0, es[i + 1].1));
        }
        lemma_records_consumed(rest);
        let enc = encode_utf8(a);
        let n = enc.len();
        let b = records_bytes(es);
        crate::cache_key::lemma_raw_len(k);
        assert(b =~= k.raw_bytes() + seq![len_byte(n)] + enc + records_bytes(rest));
        assert(b[20] == len_byte(n));
        assert(len_byte(n) == n);
        assert(b.skip(21 + n as int) =~= records_bytes(rest));
    }
}

/// How many of `count` records eviction drops: none when the limit is
/// zero or there are no records; a tenth of them (rounded down) when usage
/// has reached ten percent of the limit; else none.
pub open spec fn delete_count(memory_size: nat, memory_max_size: nat, count: nat) -> nat {
    if memory_max_size == 0 || count == 0 {
        0
    } else if (memory_size * 100) / memory_max_size >= 10 {
        (count * 10) / 100
    } else {
        0
    }
}

/// The products that [`delete_count`] computes fit a `usize`: usage in
/// percent where the limit and the count are not zero, and a tenth of the
/// count where usage has reached ten percent.
pub open spec fn delete_count_fits(memory_size: nat, memory_max_size: nat, count: nat) -> bool {
    &&& memory_max_size != 0 && count != 0 ==> memory_size * 100 <= usize::MAX
    &&& memory_max_size != 0 && count != 0 && (memory_size * 100) / memory_max_size >= 10
        ==> count * 10 <= usize::MAX
}

/// Computes [`delete_count`]. The products overflow on huge inputs, where
/// the computation would panic; `requires` leaves those out.
pub fn on_delete_items_count(memory_size: usize, memory_max_size: usize, count: usize) -> (r: usize)
    requires
        delete_count_fits(memory_size as nat, memory_max_size as nat, count as nat),
    ensures
        r == delete_count(memory_size as nat, memory_max_size as nat, count as nat),
        r <= count,
{
    if memory_max_size == 0 || count == 0 {
        return 0;
    }
    let usage_percentage = (memory_size * 100) / memory_max_size;
    if usage_percentage >= 10 {
        let n = (count * 10) / 100;
        if n < count {
            n
        } else {
            count
        }
    } else {
        0
    }
}

} // verus!
