use std::collections::HashMap;

use vstd::prelude::*;

use crate::cache_key::{keyed, lemma_keyed_insert, lemma_keyed_remove, CacheKey};
use crate::storage::deque::DequeStorageItem;
use crate::storage::deque::append_record;
use crate::storage::{
    delete_count, delete_count_fits, lemma_records_len, entry_storable, lemma_records_round_trip, item_size, items_size, lemma_items_size_prefix, entry_view, lemma_records_bytes_push, on_delete_items_count, parse_records,
    parsed_records, records_bytes, records_well_formed,
};
use vstd::set_lib::{lemma_int_range, lemma_len_subset, set_int_range};
use vstd::std_specs::hash::group_hash_axioms;
use vstd::utf8::encode_utf8;

verus! {

broadcast use group_hash_axioms;

/// Share of the estimated item capacity that may hold LIR items.
pub const LIRS_LIMIT_PERCENTAGE: usize = 95;

/// Address length assumed when estimating how many items fit in memory.
pub const AVG_ADDRESS_LEN: usize = 20;

/// A slot of the storage as the model sees it.
pub struct LirsEntry {
    pub key: CacheKey,
    pub address: Seq<char>,
    /// The item has a low inter-reference recency (it is "hot").
    pub is_lir: bool,
    /// The address is held in memory (an evicted item keeps its slot for a
    /// while as a non-resident entry of the stack).
    pub resident: bool,
}

/// The state of a LIRS storage: a table of slots, the recency stack and the
/// queue of resident HIR items as sequences of slot ids, the ids of free
/// slots, the index from key to slot, and the counters.
pub struct LirsModel {
    pub slots: Seq<Option<LirsEntry>>,
    pub free: Seq<usize>,
    /// Top of the stack first.
    pub stack: Seq<usize>,
    /// Head of the queue first.
    pub queue: Seq<usize>,
    pub index: Map<CacheKey, usize>,
    pub lir_count: usize,
    pub lir_limit: usize,
    pub resident_count: usize,
    pub memory_size: usize,
    pub memory_max_size: usize,
}

/// The number of average records (41 bytes) that fit in a memory limit,
/// counting at least ten.
pub open spec fn max_items_for(memory_max_size: usize) -> nat {
    let by_size = memory_max_size as nat / 41;
    if by_size > 10 {
        by_size
    } else {
        10
    }
}

/// The LIR limit for a memory limit: 95 percent of [`max_items_for`].
pub open spec fn lir_limit_for(memory_max_size: usize) -> usize {
    ((max_items_for(memory_max_size) * 95) / 100) as usize
}

impl LirsModel {
    pub open spec fn occupied(self, i: int) -> bool {
        0 <= i < self.slots.len() && self.slots[i] is Some
    }

    pub open spec fn entry(self, i: int) -> LirsEntry {
        self.slots[i].unwrap()
    }

    pub open spec fn with_slot(self, i: int, e: Option<LirsEntry>) -> LirsModel {
        LirsModel { slots: self.slots.update(i, e), ..self }
    }

    /// Puts slot `i` on top of the stack.
    pub open spec fn push_top(self, i: usize) -> LirsModel {
        LirsModel { stack: seq![i] + self.stack, ..self }
    }

    /// Moves slot `i`, which is in the stack, to its top.
    pub open spec fn move_top(self, i: usize) -> LirsModel {
        LirsModel { stack: seq![i] + self.stack.remove(self.stack.index_of(i)), ..self }
    }

    /// Puts slot `i` at the tail of the queue.
    pub open spec fn enqueue(self, i: usize) -> LirsModel {
        LirsModel { queue: self.queue.push(i), ..self }
    }

    /// Takes the head off the queue.
    pub open spec fn dequeue(self) -> LirsModel {
        LirsModel { queue: self.queue.drop_first(), ..self }
    }

    /// Takes slot `i` out of the queue, if it is there.
    pub open spec fn remove_from_queue(self, i: usize) -> LirsModel {
        if self.queue.contains(i) {
            LirsModel { queue: self.queue.remove(self.queue.index_of(i)), ..self }
        } else {
            self
        }
    }

    /// The id a new slot gets: the last free id, else a new one at the end.
    pub open spec fn new_id(self) -> usize {
        if self.free.len() > 0 {
            self.free.last()
        } else {
            self.slots.len() as usize
        }
    }

    /// Stores a new resident HIR slot for `key` and points the index at it.
    pub open spec fn allocate(self, key: CacheKey, address: Seq<char>) -> LirsModel {
        let e = LirsEntry { key, address, is_lir: false, resident: true };
        if self.free.len() > 0 {
            LirsModel {
                slots: self.slots.update(self.free.last() as int, Some(e)),
                free: self.free.drop_last(),
                index: self.index.insert(key, self.free.last()),
                ..self
            }
        } else {
            LirsModel {
                slots: self.slots.push(Some(e)),
                index: self.index.insert(key, self.slots.len() as usize),
                ..self
            }
        }
    }

    /// Empties slot `i`: its key leaves the index and its id becomes free.
    pub open spec fn free_slot(self, i: usize) -> LirsModel {
        LirsModel {
            index: if self.occupied(i as int) {
                self.index.remove(self.entry(i as int).key)
            } else {
                self.index
            },
            slots: self.slots.update(i as int, None),
            free: self.free.push(i),
            ..self
        }
    }

    /// Evicts the head of the queue: it stays in its slot, not resident.
    pub open spec fn evict_one(self) -> LirsModel {
        let v = self.queue[0];
        let e = self.entry(v as int);
        LirsModel {
            queue: self.queue.drop_first(),
            slots: self.slots.update(v as int, Some(LirsEntry { resident: false, ..e })),
            resident_count: self.resident_count.saturating_sub(1),
            memory_size: self.memory_size.saturating_sub((21 + encode_utf8(e.address).len()) as usize),
            ..self
        }
    }

    /// Makes LIR the slot `i` (resident and HIR): it leaves the queue.
    pub open spec fn promote(self, i: usize) -> LirsModel {
        let m = self.remove_from_queue(i);
        LirsModel {
            slots: m.slots.update(i as int, Some(LirsEntry { is_lir: true, ..m.entry(i as int) })),
            lir_count: (m.lir_count + 1) as usize,
            ..m
        }
    }

    /// Prunes the bottom of the stack: a non-resident HIR slot there is
    /// freed; a LIR slot there, while there are more LIR slots than the
    /// limit, becomes HIR and joins the queue; anything else stops.
    pub open spec fn prune(self) -> LirsModel
        decreases self.stack.len(), self.lir_count,
    {
        if self.stack.len() == 0 || !self.occupied(self.stack.last() as int) {
            self
        } else {
            let t = self.stack.last();
            let e = self.entry(t as int);
            if !e.resident && !e.is_lir {
                LirsModel { stack: self.stack.drop_last(), ..self }.free_slot(t).prune()
            } else if e.is_lir && self.lir_count > self.lir_limit {
                let m = LirsModel {
                    slots: self.slots.update(t as int, Some(LirsEntry { is_lir: false, ..e })),
                    lir_count: (self.lir_count - 1) as usize,
                    ..self
                };
                if m.queue.contains(t) {
                    m.prune()
                } else {
                    m.enqueue(t).prune()
                }
            } else {
                self
            }
        }
    }
}

impl LirsModel {
    /// The new-key part of an insertion: a new resident slot on top of the
    /// stack, LIR while there are fewer LIR slots than the limit, else HIR
    /// at the tail of the queue; the resident count and memory usage grow.
    pub open spec fn add_new(self, key: CacheKey, address: Seq<char>) -> LirsModel {
        let i = self.new_id();
        let m1 = self.allocate(key, address);
        let m2 = LirsModel {
            resident_count: (m1.resident_count + 1) as usize,
            memory_size: (m1.memory_size + item_size(address)) as usize,
            ..m1
        }.push_top(i);
        if m2.lir_count < m2.lir_limit {
            LirsModel {
                slots: m2.slots.update(i as int, Some(LirsEntry { is_lir: true, ..m2.entry(i as int) })),
                lir_count: (m2.lir_count + 1) as usize,
                ..m2
            }
        } else {
            m2.enqueue(i)
        }
    }

    /// Memory usage after replacing the address of slot `i`, with wrapping
    /// arithmetic.
    pub open spec fn replaced_memory(self, i: usize, address: Seq<char>) -> usize {
        self.memory_size.wrapping_add(encode_utf8(address).len() as usize).wrapping_sub(
            encode_utf8(self.entry(i as int).address).len() as usize,
        )
    }

    /// The existing-key part of an insertion: the address is replaced, the
    /// slot becomes resident (counted, and 21 more bytes of memory, if it
    /// was not), moves to the top of the stack, and becomes LIR.
    pub open spec fn refresh(self, i: usize, address: Seq<char>) -> LirsModel {
        let e = self.entry(i as int);
        let m1 = LirsModel {
            slots: self.slots.update(i as int, Some(LirsEntry { address, resident: true, ..e })),
            resident_count: if e.resident {
                self.resident_count
            } else {
                (self.resident_count + 1) as usize
            },
            memory_size: if e.resident {
                self.replaced_memory(i, address)
            } else {
                (self.replaced_memory(i, address) + 21) as usize
            },
            ..self
        };
        let m2 = m1.move_top(i);
        if !e.is_lir {
            m2.promote(i)
        } else {
            m2
        }
    }

    /// State after inserting `address` under `key`.
    pub open spec fn insert(self, key: CacheKey, address: Seq<char>) -> LirsModel {
        if self.index.contains_key(key) {
            self.refresh(self.index[key], address).prune()
        } else {
            self.add_new(key, address).prune()
        }
    }

    /// Inserting does not overflow memory usage.
    pub open spec fn insert_fits(self, key: CacheKey, address: Seq<char>) -> bool {
        &&& item_size(address) <= usize::MAX
        &&& self.index.contains_key(key) && !self.entry(self.index[key] as int).resident ==> self.replaced_memory(
            self.index[key],
            address,
        ) + 21 <= usize::MAX
        &&& !self.index.contains_key(key) ==> self.memory_size + item_size(address) <= usize::MAX
    }

    /// State after an access to slot `i`: it goes to the top of the stack; a
    /// resident HIR slot becomes LIR; if resident, the stack is pruned.
    pub open spec fn touch(self, i: usize) -> LirsModel {
        let e = self.entry(i as int);
        let m1 = if self.stack.contains(i) {
            self.move_top(i)
        } else {
            self.push_top(i)
        };
        let m2 = if !e.is_lir && e.resident {
            m1.promote(i)
        } else {
            m1
        };
        if e.resident {
            m2.prune()
        } else {
            m2
        }
    }

    /// State after looking `key` up.
    pub open spec fn get(self, key: CacheKey) -> LirsModel {
        if self.index.contains_key(key) {
            self.touch(self.index[key])
        } else {
            self
        }
    }

    /// What looking `key` up returns: the address of its slot, if the key
    /// is indexed and its slot is resident.
    pub open spec fn get_result(self, key: CacheKey) -> Option<Seq<char>> {
        if self.index.contains_key(key) && self.entry(self.index[key] as int).resident {
            Some(self.entry(self.index[key] as int).address)
        } else {
            None
        }
    }
}

struct LirsSlot {
    key: CacheKey,
    address: String,
    prev: Option<usize>,
    next: Option<usize>,
    queue_prev: Option<usize>,
    queue_next: Option<usize>,
    is_lir: bool,
    resident: bool,
    in_stack: bool,
    in_queue: bool,
}

spec fn slot_entry(s: Option<LirsSlot>) -> Option<LirsEntry> {
    match s {
        Some(s) => Some(
            LirsEntry { key: s.key, address: s.address@, is_lir: s.is_lir, resident: s.resident },
        ),
        None => None,
    }
}

/// A slot just taken into use: it holds `key` and `address`, is resident
/// and HIR, and has no links and no place in the stack or the queue.
spec fn fresh_slot(s: Option<LirsSlot>, key: CacheKey, address: Seq<char>) -> bool {
    &&& s is Some
    &&& s.unwrap().key == key
    &&& s.unwrap().address@ == address
    &&& s.unwrap().prev is None
    &&& s.unwrap().next is None
    &&& s.unwrap().queue_prev is None
    &&& s.unwrap().queue_next is None
    &&& s.unwrap().resident
    &&& !s.unwrap().is_lir
    &&& !s.unwrap().in_stack
    &&& !s.unwrap().in_queue
}

spec fn occ(slots: Seq<Option<LirsSlot>>, i: int) -> bool {
    0 <= i < slots.len() && slots[i] is Some
}

/// The neighbour before position `j` of a list.
spec fn before(s: Seq<usize>, j: int) -> Option<usize> {
    if j == 0 {
        None
    } else {
        Some(s[j - 1])
    }
}

/// The neighbour after position `j` of a list.
spec fn after(s: Seq<usize>, j: int) -> Option<usize> {
    if j + 1 >= s.len() {
        None
    } else {
        Some(s[j + 1])
    }
}

spec fn first_of(s: Seq<usize>) -> Option<usize> {
    if s.len() == 0 {
        None
    } else {
        Some(s[0])
    }
}

spec fn last_of(s: Seq<usize>) -> Option<usize> {
    if s.len() == 0 {
        None
    } else {
        Some(s.last())
    }
}

/// The stack links of the slots spell out `s`, and `in_stack` tells
/// membership.
#[verifier::opaque]
spec fn stack_linked(
    slots: Seq<Option<LirsSlot>>,
    s: Seq<usize>,
    head: Option<usize>,
    tail: Option<usize>,
) -> bool {
    &&& s.no_duplicates()
    &&& forall|j: int| 0 <= j < s.len() ==> occ(slots, #[trigger] s[j] as int)
    &&& forall|j: int| 0 <= j < s.len() ==> slots[#[trigger] s[j] as int].unwrap().prev == before(s, j)
    &&& forall|j: int| 0 <= j < s.len() ==> slots[#[trigger] s[j] as int].unwrap().next == after(s, j)
    &&& forall|i: int| occ(slots, i) ==> (#[trigger] slots[i].unwrap().in_stack <==> s.contains(i as usize))
    &&& head == first_of(s)
    &&& tail == last_of(s)
}

/// The queue links of the slots spell out `q`, and `in_queue` tells
/// membership.
#[verifier::opaque]
spec fn queue_linked(
    slots: Seq<Option<LirsSlot>>,
    q: Seq<usize>,
    head: Option<usize>,
    tail: Option<usize>,
) -> bool {
    &&& q.no_duplicates()
    &&& forall|j: int| 0 <= j < q.len() ==> occ(slots, #[trigger] q[j] as int)
    &&& forall|j: int| 0 <= j < q.len() ==> slots[#[trigger] q[j] as int].unwrap().queue_prev == before(q, j)
    &&& forall|j: int| 0 <= j < q.len() ==> slots[#[trigger] q[j] as int].unwrap().queue_next == after(q, j)
    &&& forall|i: int| occ(slots, i) ==> (#[trigger] slots[i].unwrap().in_queue <==> q.contains(i as usize))
    &&& head == first_of(q)
    &&& tail == last_of(q)
}

/// A storage with LIRS replacement. Slots live in a table and are linked
/// into a recency stack (most recent on top) and a FIFO queue of resident
/// HIR items; eviction takes the head of the queue.
pub struct LirsStorage {
    slots: Vec<Option<LirsSlot>>,
    key_to_idx: HashMap<u128, usize>,
    free_list: Vec<usize>,
    stack_head: Option<usize>,
    stack_tail: Option<usize>,
    queue_head: Option<usize>,
    queue_tail: Option<usize>,
    lir_count: usize,
    lir_limit: usize,
    resident_count: usize,
    memory_size: usize,
    memory_max_size: usize,
    stack: Ghost<Seq<usize>>,
    queue: Ghost<Seq<usize>>,
}

impl View for LirsStorage {
    type V = LirsModel;

    closed spec fn view(&self) -> LirsModel {
        LirsModel {
            slots: self.slots@.map_values(|s: Option<LirsSlot>| slot_entry(s)),
            free: self.free_list@,
            stack: self.stack@,
            queue: self.queue@,
            index: keyed(self.key_to_idx@),
            lir_count: self.lir_count,
            lir_limit: self.lir_limit,
            resident_count: self.resident_count,
            memory_size: self.memory_size,
            memory_max_size: self.memory_max_size,
        }
    }
}

impl LirsModel {
    /// Invariants of the model itself.
    pub open spec fn model_wf(self) -> bool {
        model_parts_wf(self.slots, self.free, self.queue, self.index)
    }

    /// Every slot in use is in the stack.
    pub open spec fn all_stacked(self) -> bool {
        forall|i: int| #[trigger] self.occupied(i) ==> self.stack.contains(i as usize)
    }

    /// The counters count what they name.
    pub open spec fn counts_wf(self) -> bool {
        counts_parts_wf(self.slots, self.lir_count, self.resident_count)
    }
}

/// Slot `i` holds an entry.
pub open spec fn occupied_in(slots: Seq<Option<LirsEntry>>, i: int) -> bool {
    0 <= i < slots.len() && slots[i] is Some
}

/// Ids of the LIR slots.
pub open spec fn lir_ids_of(slots: Seq<Option<LirsEntry>>) -> Set<int> {
    Set::new(|i: int| occupied_in(slots, i) && slots[i].unwrap().is_lir)
}

/// Ids of the resident slots.
pub open spec fn resident_ids_of(slots: Seq<Option<LirsEntry>>) -> Set<int> {
    Set::new(|i: int| occupied_in(slots, i) && slots[i].unwrap().resident)
}

/// Free ids name empty slots, queued slots are resident HIR slots, LIR
/// slots are resident, the index points at slots with the key, and every
/// address has a record size that fits a `usize`.
#[verifier::opaque]
pub open spec fn model_parts_wf(
    slots: Seq<Option<LirsEntry>>,
    free: Seq<usize>,
    queue: Seq<usize>,
    index: Map<CacheKey, usize>,
) -> bool {
    &&& free.no_duplicates()
    &&& forall|j: int|
        0 <= j < free.len() ==> 0 <= #[trigger] free[j] < slots.len() && !occupied_in(
            slots,
            free[j] as int,
        )
    &&& forall|j: int|
        0 <= j < queue.len() ==> occupied_in(slots, #[trigger] queue[j] as int)
            && slots[queue[j] as int].unwrap().resident && !slots[queue[j] as int].unwrap().is_lir
    &&& forall|i: int|
        #[trigger] occupied_in(slots, i) && slots[i].unwrap().is_lir ==> slots[i].unwrap().resident
    &&& forall|k: CacheKey|
        #[trigger] index.contains_key(k) ==> occupied_in(slots, index[k] as int)
            && slots[index[k] as int].unwrap().key == k
    &&& forall|i: int|
        #[trigger] occupied_in(slots, i) ==> item_size(slots[i].unwrap().address) <= usize::MAX
}

/// The LIR and resident counters are the sizes of the sets they count.
#[verifier::opaque]
pub open spec fn counts_parts_wf(
    slots: Seq<Option<LirsEntry>>,
    lir_count: usize,
    resident_count: usize,
) -> bool {
    &&& lir_ids_of(slots).finite()
    &&& lir_count == lir_ids_of(slots).len()
    &&& resident_ids_of(slots).finite()
    &&& resident_count == resident_ids_of(slots).len()
}

/// Everything but the slot table is the same.
spec fn same_but_slots(a: &LirsStorage, b: &LirsStorage) -> bool {
    &&& a.key_to_idx@ == b.key_to_idx@
    &&& a.free_list@ == b.free_list@
    &&& a.stack_head == b.stack_head
    &&& a.stack_tail == b.stack_tail
    &&& a.queue_head == b.queue_head
    &&& a.queue_tail == b.queue_tail
    &&& a.lir_count == b.lir_count
    &&& a.lir_limit == b.lir_limit
    &&& a.resident_count == b.resident_count
    &&& a.memory_size == b.memory_size
    &&& a.memory_max_size == b.memory_max_size
    &&& a.stack@ == b.stack@
    &&& a.queue@ == b.queue@
}

/// Stack links survive a change of slots that keeps them.
proof fn lemma_stack_frame(
    a: Seq<Option<LirsSlot>>,
    b: Seq<Option<LirsSlot>>,
    s: Seq<usize>,
    h: Option<usize>,
    t: Option<usize>,
)
    requires
        stack_linked(a, s, h, t),
        a.len() == b.len(),
        forall|i: int| occ(a, i) == occ(b, i),
        forall|i: int|
            occ(a, i) ==> (#[trigger] b[i]).unwrap().prev == a[i].unwrap().prev && b[i].unwrap().next
                == a[i].unwrap().next && b[i].unwrap().in_stack == a[i].unwrap().in_stack,
    ensures
        stack_linked(b, s, h, t),
{
    reveal(stack_linked);
    assert forall|i: int| occ(b, i) implies (#[trigger] b[i].unwrap().in_stack <==> s.contains(
        i as usize,
    )) by {
        assert(occ(a, i));
        assert(a[i].unwrap().in_stack <==> s.contains(i as usize));
    }
    assert forall|j: int| 0 <= j < s.len() implies b[#[trigger] s[j] as int].unwrap().prev == before(s, j) by {
        assert(occ(a, s[j] as int));
    }
    assert forall|j: int| 0 <= j < s.len() implies b[#[trigger] s[j] as int].unwrap().next == after(s, j) by {
        assert(occ(a, s[j] as int));
    }
}

/// Queue links survive a change of slots that keeps them.
proof fn lemma_queue_frame(
    a: Seq<Option<LirsSlot>>,
    b: Seq<Option<LirsSlot>>,
    q: Seq<usize>,
    h: Option<usize>,
    t: Option<usize>,
)
    requires
        queue_linked(a, q, h, t),
        a.len() == b.len(),
        forall|i: int| occ(a, i) == occ(b, i),
        forall|i: int|
            occ(a, i) ==> (#[trigger] b[i]).unwrap().queue_prev == a[i].unwrap().queue_prev
                && b[i].unwrap().queue_next == a[i].unwrap().queue_next && b[i].unwrap().in_queue
                == a[i].unwrap().in_queue,
    ensures
        queue_linked(b, q, h, t),
{
    reveal(queue_linked);
    assert forall|i: int| occ(b, i) implies (#[trigger] b[i].unwrap().in_queue <==> q.contains(
        i as usize,
    )) by {
        assert(occ(a, i));
        assert(a[i].unwrap().in_queue <==> q.contains(i as usize));
    }
    assert forall|j: int| 0 <= j < q.len() implies b[#[trigger] q[j] as int].unwrap().queue_prev
        == before(q, j) by {
        assert(occ(a, q[j] as int));
    }
    assert forall|j: int| 0 <= j < q.len() implies b[#[trigger] q[j] as int].unwrap().queue_next
        == after(q, j) by {
        assert(occ(a, q[j] as int));
    }
}

/// Linking slot `idx` on top of the stack `s`.
proof fn lemma_push_links(
    sl0: Seq<Option<LirsSlot>>,
    sl: Seq<Option<LirsSlot>>,
    s: Seq<usize>,
    idx: usize,
    h: Option<usize>,
    t: Option<usize>,
)
    requires
        stack_linked(sl0, s, h, t),
        sl0.len() <= usize::MAX,
        occ(sl0, idx as int),
        !s.contains(idx),
        sl.len() == sl0.len(),
        forall|i: int| occ(sl0, i) == occ(sl, i),
        forall|i: int|
            occ(sl0, i) && i != idx as int && Some(i as usize) != h ==> (#[trigger] sl[i]).unwrap().prev
                == sl0[i].unwrap().prev && sl[i].unwrap().next == sl0[i].unwrap().next
                && sl[i].unwrap().in_stack == sl0[i].unwrap().in_stack,
        sl[idx as int].unwrap().prev == None::<usize>,
        sl[idx as int].unwrap().next == h,
        sl[idx as int].unwrap().in_stack,
        h matches Some(hh) ==> sl[hh as int].unwrap().prev == Some(idx) && sl[hh as int].unwrap().next
            == sl0[hh as int].unwrap().next && sl[hh as int].unwrap().in_stack
            == sl0[hh as int].unwrap().in_stack,
    ensures
        stack_linked(
            sl,
            seq![idx] + s,
            Some(idx),
            if t is None {
                Some(idx)
            } else {
                t
            },
        ),
{
    reveal(stack_linked);
    let ns = seq![idx] + s;
    if s.len() > 0 {
        assert(h == Some(s[0]));
        assert(s[0] != idx);
    }
    assert(ns.no_duplicates()) by {
        assert forall|a: int, b: int| 0 <= a < ns.len() && 0 <= b < ns.len() && a != b implies ns[a]
            != ns[b] by {
            if a > 0 && b > 0 {
                assert(ns[a] == s[a - 1] && ns[b] == s[b - 1]);
            } else if a == 0 {
                assert(ns[b] == s[b - 1]);
            } else {
                assert(ns[a] == s[a - 1]);
            }
        }
    }
    assert forall|j: int| 0 <= j < ns.len() implies occ(sl, #[trigger] ns[j] as int) && sl[ns[j] as int].unwrap().prev
        == before(ns, j) && sl[ns[j] as int].unwrap().next == after(ns, j) by {
        if j > 0 {
            assert(ns[j] == s[j - 1]);
            assert(s[j - 1] != idx);
            if j > 1 {
                assert(s[j - 1] != s[0]);
            }
        }
    }
    assert forall|i: int| occ(sl, i) implies (#[trigger] sl[i].unwrap().in_stack <==> ns.contains(
        i as usize,
    )) by {
        assert(occ(sl0, i));
        if i != idx as int {
            if ns.contains(i as usize) {
                let j = choose|j: int| 0 <= j < ns.len() && ns[j] == i as usize;
                assert(s[j - 1] == i as usize);
            }
            if s.contains(i as usize) {
                let j = choose|j: int| 0 <= j < s.len() && s[j] == i as usize;
                assert(ns[j + 1] == i as usize);
            }
        } else {
            assert(ns[0] == idx);
        }
    }
}

/// Linking slot `idx` at the tail of the queue `q`.
proof fn lemma_enqueue_links(
    sl0: Seq<Option<LirsSlot>>,
    sl: Seq<Option<LirsSlot>>,
    q: Seq<usize>,
    idx: usize,
    h: Option<usize>,
    t: Option<usize>,
)
    requires
        queue_linked(sl0, q, h, t),
        sl0.len() <= usize::MAX,
        occ(sl0, idx as int),
        !q.contains(idx),
        sl.len() == sl0.len(),
        forall|i: int| occ(sl0, i) == occ(sl, i),
        forall|i: int|
            occ(sl0, i) && i != idx as int && Some(i as usize) != t ==> (#[trigger] sl[i]).unwrap().queue_prev
                == sl0[i].unwrap().queue_prev && sl[i].unwrap().queue_next
                == sl0[i].unwrap().queue_next && sl[i].unwrap().in_queue == sl0[i].unwrap().in_queue,
        sl[idx as int].unwrap().queue_prev == t,
        sl[idx as int].unwrap().queue_next == None::<usize>,
        sl[idx as int].unwrap().in_queue,
        t matches Some(tt) ==> sl[tt as int].unwrap().queue_next == Some(idx)
            && sl[tt as int].unwrap().queue_prev == sl0[tt as int].unwrap().queue_prev
            && sl[tt as int].unwrap().in_queue == sl0[tt as int].unwrap().in_queue,
    ensures
        queue_linked(
            sl,
            q.push(idx),
            if h is None {
                Some(idx)
            } else {
                h
            },
            Some(idx),
        ),
{
    reveal(queue_linked);
    let nq = q.push(idx);
    if q.len() > 0 {
        assert(t == Some(q.last()));
        assert(q.last() != idx);
    }
    assert(nq.no_duplicates()) by {
        assert forall|a: int, b: int| 0 <= a < nq.len() && 0 <= b < nq.len() && a != b implies nq[a]
            != nq[b] by {
            if a < q.len() && b < q.len() {
            } else if a == q.len() {
                assert(q[b] != idx);
            } else {
                assert(q[a] != idx);
            }
        }
    }
    assert forall|j: int| 0 <= j < nq.len() implies occ(sl, #[trigger] nq[j] as int) && sl[nq[j] as int].unwrap().queue_prev
        == before(nq, j) && sl[nq[j] as int].unwrap().queue_next == after(nq, j) by {
        if j < q.len() {
            assert(nq[j] == q[j]);
            assert(q[j] != idx);
            if j + 1 < q.len() {
                assert(q[j] != q.last());
            }
        }
    }
    assert forall|i: int| occ(sl, i) implies (#[trigger] sl[i].unwrap().in_queue <==> nq.contains(
        i as usize,
    )) by {
        assert(occ(sl0, i));
        if i != idx as int {
            if nq.contains(i as usize) {
                let j = choose|j: int| 0 <= j < nq.len() && nq[j] == i as usize;
                assert(j < q.len());
                assert(q[j] == i as usize);
            }
            if q.contains(i as usize) {
                let j = choose|j: int| 0 <= j < q.len() && q[j] == i as usize;
                assert(nq[j] == i as usize);
            }
        } else {
            assert(nq[q.len() as int] == idx);
        }
    }
}

/// The model invariants survive a change of the queue that only keeps or
/// adds resident HIR slots.
proof fn lemma_model_queue_change(
    slots: Seq<Option<LirsEntry>>,
    free: Seq<usize>,
    q: Seq<usize>,
    q2: Seq<usize>,
    index: Map<CacheKey, usize>,
)
    requires
        model_parts_wf(slots, free, q, index),
        forall|j: int|
            0 <= j < q2.len() ==> q.contains(#[trigger] q2[j]) || (occupied_in(slots, q2[j] as int)
                && slots[q2[j] as int].unwrap().resident && !slots[q2[j] as int].unwrap().is_lir),
    ensures
        model_parts_wf(slots, free, q2, index),
{
    reveal(model_parts_wf);
    assert forall|j: int| 0 <= j < q2.len() implies occupied_in(slots, #[trigger] q2[j] as int)
        && slots[q2[j] as int].unwrap().resident && !slots[q2[j] as int].unwrap().is_lir by {
        if q.contains(q2[j]) {
            let k = choose|k: int| 0 <= k < q.len() && q[k] == q2[j];
            assert(occupied_in(slots, q[k] as int));
        }
    }
}

/// Unlinking position `pos` from the stack `s`.
#[verifier::spinoff_prover]
#[verifier::rlimit(50)]
proof fn lemma_unlink_links(
    sl0: Seq<Option<LirsSlot>>,
    sl: Seq<Option<LirsSlot>>,
    s: Seq<usize>,
    pos: int,
    h: Option<usize>,
    t: Option<usize>,
)
    requires
        stack_linked(sl0, s, h, t),
        sl0.len() <= usize::MAX,
        0 <= pos < s.len(),
        sl.len() == sl0.len(),
        forall|i: int| occ(sl0, i) == occ(sl, i),
        forall|i: int|
            occ(sl0, i) && i != s[pos] as int && before(s, pos) != Some(i as usize) && after(s, pos)
                != Some(i as usize) ==> (#[trigger] sl[i]).unwrap().prev == sl0[i].unwrap().prev
                && sl[i].unwrap().next == sl0[i].unwrap().next && sl[i].unwrap().in_stack
                == sl0[i].unwrap().in_stack,
        pos > 0 ==> sl[s[pos - 1] as int].unwrap().next == after(s, pos) && sl[s[pos
            - 1] as int].unwrap().prev == sl0[s[pos - 1] as int].unwrap().prev && sl[s[pos
            - 1] as int].unwrap().in_stack == sl0[s[pos - 1] as int].unwrap().in_stack,
        pos + 1 < s.len() ==> sl[s[pos + 1] as int].unwrap().prev == before(s, pos) && sl[s[pos
            + 1] as int].unwrap().next == sl0[s[pos + 1] as int].unwrap().next && sl[s[pos
            + 1] as int].unwrap().in_stack == sl0[s[pos + 1] as int].unwrap().in_stack,
        !sl[s[pos] as int].unwrap().in_stack,
    ensures
        stack_linked(
            sl,
            s.remove(pos),
            if pos == 0 {
                after(s, pos)
            } else {
                h
            },
            if pos + 1 == s.len() {
                before(s, pos)
            } else {
                t
            },
        ),
{
    reveal(stack_linked);
    let ns = s.remove(pos);
    let idx = s[pos];
    assert(ns.len() == s.len() - 1);
    assert forall|j: int| 0 <= j < ns.len() implies ns[j] == (if j < pos {
        s[j]
    } else {
        s[j + 1]
    }) by {}
    assert(ns.no_duplicates()) by {
        assert forall|a: int, b: int| 0 <= a < ns.len() && 0 <= b < ns.len() && a != b implies ns[a]
            != ns[b] by {
            let sa = if a < pos {
                a
            } else {
                a + 1
            };
            let sb = if b < pos {
                b
            } else {
                b + 1
            };
            assert(ns[a] == s[sa] && ns[b] == s[sb]);
        }
    }
    assert forall|j: int| 0 <= j < ns.len() implies occ(sl, #[trigger] ns[j] as int) && sl[ns[j] as int].unwrap().prev
        == before(ns, j) && sl[ns[j] as int].unwrap().next == after(ns, j) by {
        let sj = if j < pos {
            j
        } else {
            j + 1
        };
        assert(ns[j] == s[sj]);
        assert(occ(sl0, s[sj] as int));
        if sj > 0 {
            assert(s[sj - 1] != s[sj]);
        }
        if sj + 1 < s.len() {
            assert(s[sj + 1] != s[sj]);
        }
        if pos > 0 {
            assert(s[pos - 1] != s[sj] || sj == pos - 1);
        }
        if pos + 1 < s.len() {
            assert(s[pos + 1] != s[sj] || sj == pos + 1);
        }
        assert(s[pos] != s[sj]);
    }
    assert forall|i: int| occ(sl, i) implies (#[trigger] sl[i].unwrap().in_stack <==> ns.contains(
        i as usize,
    )) by {
        assert(occ(sl0, i));
        if i == idx as int {
            if ns.contains(i as usize) {
                let j = choose|j: int| 0 <= j < ns.len() && ns[j] == i as usize;
                let sj = if j < pos {
                    j
                } else {
                    j + 1
                };
                assert(s[sj] == s[pos]);
            }
        } else {
            assert(sl[i].unwrap().in_stack == sl0[i].unwrap().in_stack) by {
                if pos > 0 && s[pos - 1] == i as usize {
                } else if pos + 1 < s.len() && s[pos + 1] == i as usize {
                } else {
                }
            }
            if ns.contains(i as usize) {
                let j = choose|j: int| 0 <= j < ns.len() && ns[j] == i as usize;
                let sj = if j < pos {
                    j
                } else {
                    j + 1
                };
                assert(s[sj] == i as usize);
            }
            if s.contains(i as usize) {
                let j = choose|j: int| 0 <= j < s.len() && s[j] == i as usize;
                assert(j != pos);
                let nj = if j < pos {
                    j
                } else {
                    j - 1
                };
                assert(ns[nj] == i as usize);
            }
        }
    }
    if ns.len() > 0 {
        if pos == 0 {
            assert(ns[0] == s[1]);
        } else {
            assert(ns[0] == s[0]);
        }
        if pos + 1 == s.len() {
            assert(ns.last() == s[pos - 1]);
        } else {
            assert(ns.last() == s.last());
        }
    }
}

/// Unlinking position `pos` from the queue `s`.
#[verifier::spinoff_prover]
#[verifier::rlimit(50)]
proof fn lemma_unlink_queue_links(
    sl0: Seq<Option<LirsSlot>>,
    sl: Seq<Option<LirsSlot>>,
    s: Seq<usize>,
    pos: int,
    h: Option<usize>,
    t: Option<usize>,
)
    requires
        queue_linked(sl0, s, h, t),
        sl0.len() <= usize::MAX,
        0 <= pos < s.len(),
        sl.len() == sl0.len(),
        forall|i: int| occ(sl0, i) == occ(sl, i),
        forall|i: int|
            occ(sl0, i) && i != s[pos] as int && before(s, pos) != Some(i as usize) && after(s, pos)
                != Some(i as usize) ==> (#[trigger] sl[i]).unwrap().queue_prev == sl0[i].unwrap().queue_prev
                && sl[i].unwrap().queue_next == sl0[i].unwrap().queue_next && sl[i].unwrap().in_queue
                == sl0[i].unwrap().in_queue,
        pos > 0 ==> sl[s[pos - 1] as int].unwrap().queue_next == after(s, pos) && sl[s[pos
            - 1] as int].unwrap().queue_prev == sl0[s[pos - 1] as int].unwrap().queue_prev && sl[s[pos
            - 1] as int].unwrap().in_queue == sl0[s[pos - 1] as int].unwrap().in_queue,
        pos + 1 < s.len() ==> sl[s[pos + 1] as int].unwrap().queue_prev == before(s, pos) && sl[s[pos
            + 1] as int].unwrap().queue_next == sl0[s[pos + 1] as int].unwrap().queue_next && sl[s[pos
            + 1] as int].unwrap().in_queue == sl0[s[pos + 1] as int].unwrap().in_queue,
        !sl[s[pos] as int].unwrap().in_queue,
    ensures
        queue_linked(
            sl,
            s.remove(pos),
            if pos == 0 {
                after(s, pos)
            } else {
                h
            },
            if pos + 1 == s.len() {
                before(s, pos)
            } else {
                t
            },
        ),
{
    reveal(queue_linked);
    let ns = s.remove(pos);
    let idx = s[pos];
    assert(ns.len() == s.len() - 1);
    assert forall|j: int| 0 <= j < ns.len() implies ns[j] == (if j < pos {
        s[j]
    } else {
        s[j + 1]
    }) by {}
    assert(ns.no_duplicates()) by {
        assert forall|a: int, b: int| 0 <= a < ns.len() && 0 <= b < ns.len() && a != b implies ns[a]
            != ns[b] by {
            let sa = if a < pos {
                a
            } else {
                a + 1
            };
            let sb = if b < pos {
                b
            } else {
                b + 1
            };
            assert(ns[a] == s[sa] && ns[b] == s[sb]);
        }
    }
    assert forall|j: int| 0 <= j < ns.len() implies occ(sl, #[trigger] ns[j] as int) && sl[ns[j] as int].unwrap().queue_prev
        == before(ns, j) && sl[ns[j] as int].unwrap().queue_next == after(ns, j) by {
        let sj = if j < pos {
            j
        } else {
            j + 1
        };
        assert(ns[j] == s[sj]);
        assert(occ(sl0, s[sj] as int));
        if sj > 0 {
            assert(s[sj - 1] != s[sj]);
        }
        if sj + 1 < s.len() {
            assert(s[sj + 1] != s[sj]);
        }
        if pos > 0 {
            assert(s[pos - 1] != s[sj] || sj == pos - 1);
        }
        if pos + 1 < s.len() {
            assert(s[pos + 1] != s[sj] || sj == pos + 1);
        }
        assert(s[pos] != s[sj]);
    }
    assert forall|i: int| occ(sl, i) implies (#[trigger] sl[i].unwrap().in_queue <==> ns.contains(
        i as usize,
    )) by {
        assert(occ(sl0, i));
        if i == idx as int {
            if ns.contains(i as usize) {
                let j = choose|j: int| 0 <= j < ns.len() && ns[j] == i as usize;
                let sj = if j < pos {
                    j
                } else {
                    j + 1
                };
                assert(s[sj] == s[pos]);
            }
        } else {
            assert(sl[i].unwrap().in_queue == sl0[i].unwrap().in_queue) by {
                if pos > 0 && s[pos - 1] == i as usize {
                } else if pos + 1 < s.len() && s[pos + 1] == i as usize {
                } else {
                }
            }
            if ns.contains(i as usize) {
                let j = choose|j: int| 0 <= j < ns.len() && ns[j] == i as usize;
                let sj = if j < pos {
                    j
                } else {
                    j + 1
                };
                assert(s[sj] == i as usize);
            }
            if s.contains(i as usize) {
                let j = choose|j: int| 0 <= j < s.len() && s[j] == i as usize;
                assert(j != pos);
                let nj = if j < pos {
                    j
                } else {
                    j - 1
                };
                assert(ns[nj] == i as usize);
            }
        }
    }
    if ns.len() > 0 {
        if pos == 0 {
            assert(ns[0] == s[1]);
        } else {
            assert(ns[0] == s[0]);
        }
        if pos + 1 == s.len() {
            assert(ns.last() == s[pos - 1]);
        } else {
            assert(ns.last() == s.last());
        }
    }
}

impl LirsStorage {
    /// Sets the stack links and the stack flag of slot `i`.
    fn set_stack_node(&mut self, i: usize, prev: Option<usize>, next: Option<usize>, in_stack: bool)
        requires
            occ(old(self).slots@, i as int),
        ensures
            final(self).slots@ == old(self).slots@.update(
                i as int,
                Some(LirsSlot { prev, next, in_stack, ..old(self).slots@[i as int].unwrap() }),
            ),
            same_but_slots(final(self), old(self)),
    {
        match &mut self.slots[i] {
            Some(slot) => {
                slot.prev = prev;
                slot.next = next;
                slot.in_stack = in_stack;
            },
            None => {},
        }
    }

    /// Sets the backward stack link of slot `i`.
    fn set_prev(&mut self, i: usize, prev: Option<usize>)
        requires
            occ(old(self).slots@, i as int),
        ensures
            final(self).slots@ == old(self).slots@.update(
                i as int,
                Some(LirsSlot { prev, ..old(self).slots@[i as int].unwrap() }),
            ),
            same_but_slots(final(self), old(self)),
    {
        match &mut self.slots[i] {
            Some(slot) => {
                slot.prev = prev;
            },
            None => {},
        }
    }

    /// Sets the forward stack link of slot `i`.
    fn set_next(&mut self, i: usize, next: Option<usize>)
        requires
            occ(old(self).slots@, i as int),
        ensures
            final(self).slots@ == old(self).slots@.update(
                i as int,
                Some(LirsSlot { next, ..old(self).slots@[i as int].unwrap() }),
            ),
            same_but_slots(final(self), old(self)),
    {
        match &mut self.slots[i] {
            Some(slot) => {
                slot.next = next;
            },
            None => {},
        }
    }

    /// Sets the queue links and the queue flag of slot `i`.
    fn set_queue_node(
        &mut self,
        i: usize,
        queue_prev: Option<usize>,
        queue_next: Option<usize>,
        in_queue: bool,
    )
        requires
            occ(old(self).slots@, i as int),
        ensures
            final(self).slots@ == old(self).slots@.update(
                i as int,
                Some(
                    LirsSlot { queue_prev, queue_next, in_queue, ..old(self).slots@[i as int].unwrap() },
                ),
            ),
            same_but_slots(final(self), old(self)),
    {
        match &mut self.slots[i] {
            Some(slot) => {
                slot.queue_prev = queue_prev;
                slot.queue_next = queue_next;
                slot.in_queue = in_queue;
            },
            None => {},
        }
    }

    /// Sets the backward queue link of slot `i`.
    fn set_queue_prev(&mut self, i: usize, queue_prev: Option<usize>)
        requires
            occ(old(self).slots@, i as int),
        ensures
            final(self).slots@ == old(self).slots@.update(
                i as int,
                Some(LirsSlot { queue_prev, ..old(self).slots@[i as int].unwrap() }),
            ),
            same_but_slots(final(self), old(self)),
    {
        match &mut self.slots[i] {
            Some(slot) => {
                slot.queue_prev = queue_prev;
            },
            None => {},
        }
    }

    /// Sets the forward queue link of slot `i`.
    fn set_queue_next(&mut self, i: usize, queue_next: Option<usize>)
        requires
            occ(old(self).slots@, i as int),
        ensures
            final(self).slots@ == old(self).slots@.update(
                i as int,
                Some(LirsSlot { queue_next, ..old(self).slots@[i as int].unwrap() }),
            ),
            same_but_slots(final(self), old(self)),
    {
        match &mut self.slots[i] {
            Some(slot) => {
                slot.queue_next = queue_next;
            },
            None => {},
        }
    }

    /// Sets the LIR and resident flags of slot `i`.
    fn set_status(&mut self, i: usize, is_lir: bool, resident: bool)
        requires
            occ(old(self).slots@, i as int),
        ensures
            final(self).slots@ == old(self).slots@.update(
                i as int,
                Some(LirsSlot { is_lir, resident, ..old(self).slots@[i as int].unwrap() }),
            ),
            same_but_slots(final(self), old(self)),
    {
        match &mut self.slots[i] {
            Some(slot) => {
                slot.is_lir = is_lir;
                slot.resident = resident;
            },
            None => {},
        }
    }

    /// The stack links of slot `i`.
    fn stack_links(&self, i: usize) -> (r: (Option<usize>, Option<usize>))
        requires
            occ(self.slots@, i as int),
        ensures
            r == (self.slots@[i as int].unwrap().prev, self.slots@[i as int].unwrap().next),
    {
        match &self.slots[i] {
            Some(slot) => (slot.prev, slot.next),
            None => (None, None),
        }
    }

    /// The queue links of slot `i`.
    fn queue_links(&self, i: usize) -> (r: (Option<usize>, Option<usize>))
        requires
            occ(self.slots@, i as int),
        ensures
            r == (
                self.slots@[i as int].unwrap().queue_prev,
                self.slots@[i as int].unwrap().queue_next,
            ),
    {
        match &self.slots[i] {
            Some(slot) => (slot.queue_prev, slot.queue_next),
            None => (None, None),
        }
    }
}

impl LirsStorage {
    /// Puts slot `idx`, which is not in the stack, on top of it.
    fn push_stack_top(&mut self, idx: usize)
        requires
            old(self).core_wf(),
            old(self)@.occupied(idx as int),
            !old(self).stack@.contains(idx),
        ensures
            final(self).core_wf(),
            final(self)@ == old(self)@.push_top(idx),
    {
        let ghost s = self.stack@;
        let ghost sl0 = self.slots@;
        proof {
            reveal(stack_linked);
            assert(occ(sl0, idx as int));
        }
        let head = self.stack_head;
        self.set_stack_node(idx, None, head, true);
        match head {
            Some(h) => {
                proof {
                    assert(s[0] == h);
                    assert(occ(sl0, h as int));
                    assert(h != idx);
                }
                self.set_prev(h, Some(idx));
            },
            None => {},
        }
        self.stack_head = Some(idx);
        if self.stack_tail.is_none() {
            self.stack_tail = Some(idx);
        }
        self.stack = Ghost(seq![idx] + s);
        proof {
            let sl = self.slots@;
            assert forall|i: int| occ(sl0, i) == occ(sl, i) by {}
            lemma_push_links(sl0, sl, s, idx, head, old(self).stack_tail);
            assert forall|i: int| 0 <= i < sl.len() implies slot_entry(#[trigger] sl[i]) == slot_entry(
                sl0[i],
            ) by {}
            assert(self@.slots =~= old(self)@.slots);
            lemma_queue_frame(sl0, sl, self.queue@, self.queue_head, self.queue_tail);
        }
    }

    /// Takes slot `idx` out of the stack, linking its neighbours.
    fn unlink_stack(&mut self, idx: usize)
        requires
            old(self).core_wf(),
            old(self).stack@.contains(idx),
        ensures
            final(self).core_wf(),
            final(self)@ == (LirsModel {
                stack: old(self).stack@.remove(old(self).stack@.index_of(idx)),
                ..old(self)@
            }),
            !final(self).stack@.contains(idx),
            final(self)@.occupied(idx as int),
    {
        let ghost s = self.stack@;
        let ghost pos = s.index_of(idx);
        let ghost sl0 = self.slots@;
        proof {
            reveal(stack_linked);
            assert(s[pos] == idx);
            assert(occ(sl0, idx as int));
        }
        let (prev, next) = self.stack_links(idx);
        proof {
            assert(prev == before(s, pos));
            assert(next == after(s, pos));
            if pos > 0 {
                assert(occ(sl0, s[pos - 1] as int));
                assert(s[pos - 1] != idx);
            }
            if pos + 1 < s.len() {
                assert(occ(sl0, s[pos + 1] as int));
                assert(s[pos + 1] != idx);
            }
            if pos > 0 && pos + 1 < s.len() {
                assert(s[pos - 1] != s[pos + 1]);
            }
        }
        match prev {
            Some(p) => {
                self.set_next(p, next);
            },
            None => {
                self.stack_head = next;
            },
        }
        match next {
            Some(n) => {
                self.set_prev(n, prev);
            },
            None => {
                self.stack_tail = prev;
            },
        }
        self.set_stack_node(idx, prev, next, false);
        self.stack = Ghost(s.remove(pos));
        proof {
            let sl = self.slots@;
            assert(sl.len() == sl0.len());
            assert forall|i: int| occ(sl0, i) == occ(sl, i) by {}
            lemma_unlink_links(sl0, sl, s, pos, old(self).stack_head, old(self).stack_tail);
            assert forall|i: int| 0 <= i < sl.len() implies slot_entry(#[trigger] sl[i]) == slot_entry(
                sl0[i],
            ) by {}
            assert(self@.slots =~= old(self)@.slots);
            lemma_queue_frame(sl0, sl, self.queue@, self.queue_head, self.queue_tail);
            if pos == 0 {
                assert(old(self).stack_head == Some(idx));
            }
            if pos + 1 == s.len() {
                assert(old(self).stack_tail == Some(idx));
            }
            if self.stack@.contains(idx) {
                let j = choose|j: int| 0 <= j < self.stack@.len() && self.stack@[j] == idx;
                let sj = if j < pos {
                    j
                } else {
                    j + 1
                };
                assert(s[sj] == idx);
            }
        }
    }

    /// The head of the stack moves to where it is.
    proof fn lemma_move_head(&self, idx: usize)
        requires
            self.core_wf(),
            self.stack_head == Some(idx),
        ensures
            self@.move_top(idx) == self@,
    {
        reveal(stack_linked);
        let s = self.stack@;
        assert(s[0] == idx);
        assert(s.index_of(idx) == 0) by {
            let k = s.index_of(idx);
            assert(s[k] == idx);
        }
        assert(seq![idx] + s.remove(0) =~= s);
    }

    /// Moves slot `idx`, which is in the stack, to its top.
    pub fn move_to_stack_top(&mut self, idx: usize)
        requires
            old(self).core_wf(),
            old(self)@.stack.contains(idx),
        ensures
            final(self).core_wf(),
            final(self)@ == old(self)@.move_top(idx),
    {
        if self.stack_head == Some(idx) {
            proof {
                self.lemma_move_head(idx);
            }
            return;
        }
        self.unlink_stack(idx);
        self.push_stack_top(idx);
    }

    /// Takes slot `idx` out of the queue, linking its neighbours.
    fn unlink_queue(&mut self, idx: usize)
        requires
            old(self).core_wf(),
            old(self).queue@.contains(idx),
        ensures
            final(self).core_wf(),
            final(self)@ == (LirsModel {
                queue: old(self).queue@.remove(old(self).queue@.index_of(idx)),
                ..old(self)@
            }),
    {
        let ghost s = self.queue@;
        let ghost pos = s.index_of(idx);
        let ghost sl0 = self.slots@;
        proof {
            reveal(queue_linked);
            assert(s[pos] == idx);
            assert(occ(sl0, idx as int));
        }
        let (prev, next) = self.queue_links(idx);
        proof {
            assert(prev == before(s, pos));
            assert(next == after(s, pos));
            if pos > 0 {
                assert(occ(sl0, s[pos - 1] as int));
                assert(s[pos - 1] != idx);
            }
            if pos + 1 < s.len() {
                assert(occ(sl0, s[pos + 1] as int));
                assert(s[pos + 1] != idx);
            }
            if pos > 0 && pos + 1 < s.len() {
                assert(s[pos - 1] != s[pos + 1]);
            }
        }
        match prev {
            Some(p) => {
                self.set_queue_next(p, next);
            },
            None => {
                self.queue_head = next;
            },
        }
        match next {
            Some(n) => {
                self.set_queue_prev(n, prev);
            },
            None => {
                self.queue_tail = prev;
            },
        }
        self.set_queue_node(idx, prev, next, false);
        self.queue = Ghost(s.remove(pos));
        proof {
            let sl = self.slots@;
            assert(sl.len() == sl0.len());
            assert forall|i: int| occ(sl0, i) == occ(sl, i) by {}
            lemma_unlink_queue_links(sl0, sl, s, pos, old(self).queue_head, old(self).queue_tail);
            assert forall|i: int| 0 <= i < sl.len() implies slot_entry(#[trigger] sl[i]) == slot_entry(
                sl0[i],
            ) by {}
            assert(self@.slots =~= old(self)@.slots);
            lemma_stack_frame(sl0, sl, self.stack@, self.stack_head, self.stack_tail);
            if pos == 0 {
                assert(old(self).queue_head == Some(idx));
            }
            if pos + 1 == s.len() {
                assert(old(self).queue_tail == Some(idx));
            }
            let q2 = s.remove(pos);
            assert forall|j: int| 0 <= j < q2.len() implies s.contains(#[trigger] q2[j]) by {
                if j < pos {
                    assert(q2[j] == s[j]);
                } else {
                    assert(q2[j] == s[j + 1]);
                }
            }
            lemma_model_queue_change(self@.slots, self@.free, s, q2, self@.index);
        }
    }

    /// Puts slot `idx`, a resident HIR slot not in the queue, at its tail.
    fn enqueue(&mut self, idx: usize)
        requires
            old(self).core_wf(),
            old(self)@.occupied(idx as int),
            old(self)@.entry(idx as int).resident,
            !old(self)@.entry(idx as int).is_lir,
            !old(self).queue@.contains(idx),
        ensures
            final(self).core_wf(),
            final(self)@ == old(self)@.enqueue(idx),
    {
        let ghost q = self.queue@;
        let ghost sl0 = self.slots@;
        proof {
            reveal(queue_linked);
            assert(occ(sl0, idx as int));
        }
        let tail = self.queue_tail;
        self.set_queue_node(idx, tail, None, true);
        match tail {
            Some(t) => {
                proof {
                    assert(q.last() == t);
                    assert(occ(sl0, t as int));
                    assert(t != idx);
                }
                self.set_queue_next(t, Some(idx));
            },
            None => {},
        }
        self.queue_tail = Some(idx);
        if self.queue_head.is_none() {
            self.queue_head = Some(idx);
        }
        self.queue = Ghost(q.push(idx));
        proof {
            let sl = self.slots@;
            assert forall|i: int| occ(sl0, i) == occ(sl, i) by {}
            lemma_enqueue_links(sl0, sl, q, idx, old(self).queue_head, old(self).queue_tail);
            assert forall|i: int| 0 <= i < sl.len() implies slot_entry(#[trigger] sl[i]) == slot_entry(
                sl0[i],
            ) by {}
            assert(self@.slots =~= old(self)@.slots);
            lemma_stack_frame(sl0, sl, self.stack@, self.stack_head, self.stack_tail);
            let q2 = q.push(idx);
            assert forall|j: int| 0 <= j < q2.len() implies q.contains(#[trigger] q2[j]) || (
            occupied_in(self@.slots, q2[j] as int) && self@.slots[q2[j] as int].unwrap().resident
                && !self@.slots[q2[j] as int].unwrap().is_lir) by {
                if j < q.len() {
                    assert(q2[j] == q[j]);
                }
            }
            lemma_model_queue_change(self@.slots, self@.free, q, q2, self@.index);
        }
    }

    /// Takes the head off the queue and returns it.
    pub fn dequeue(&mut self) -> (r: Option<usize>)
        requires
            old(self).core_wf(),
        ensures
            final(self).core_wf(),
            old(self)@.queue.len() == 0 ==> r is None && final(self)@ == old(self)@,
            old(self)@.queue.len() > 0 ==> r == Some(old(self)@.queue[0]) && final(self)@ == old(
                self,
            )@.dequeue(),
    {
        let head = match self.queue_head {
            Some(h) => h,
            None => {
                proof {
                    reveal(queue_linked);
                }
                return None;
            },
        };
        proof {
            reveal(queue_linked);
            let q = self.queue@;
            assert(q[0] == head);
            assert(q.contains(head));
            assert(q.index_of(head) == 0) by {
                let k = q.index_of(head);
                assert(q[k] == head);
            }
            assert(q.remove(0) =~= q.drop_first());
        }
        self.unlink_queue(head);
        Some(head)
    }

    /// Takes slot `idx` out of the queue, if it is there.
    pub fn remove_from_queue(&mut self, idx: usize)
        requires
            old(self).core_wf(),
            old(self)@.occupied(idx as int),
        ensures
            final(self).core_wf(),
            final(self)@ == old(self)@.remove_from_queue(idx),
    {
        proof {
            reveal(queue_linked);
            assert(occ(self.slots@, idx as int));
        }
        let in_queue = match &self.slots[idx] {
            Some(slot) => slot.in_queue,
            None => false,
        };
        if !in_queue {
            return;
        }
        self.unlink_queue(idx);
    }
}

/// Slot ids of a LIR or resident slot all lie in the table.
proof fn lemma_ids_bounded(slots: Seq<Option<LirsEntry>>, extra: int)
    requires
        0 <= extra < slots.len(),
    ensures
        lir_ids_of(slots).insert(extra).finite(),
        lir_ids_of(slots).insert(extra).len() <= slots.len(),
        resident_ids_of(slots).insert(extra).finite(),
        resident_ids_of(slots).insert(extra).len() <= slots.len(),
        lir_ids_of(slots).finite(),
        resident_ids_of(slots).finite(),
{
    lemma_int_range(0, slots.len() as int);
    let r = set_int_range(0, slots.len() as int);
    assert(lir_ids_of(slots).insert(extra).subset_of(r));
    assert(resident_ids_of(slots).insert(extra).subset_of(r));
    assert(lir_ids_of(slots).subset_of(r));
    assert(resident_ids_of(slots).subset_of(r));
    lemma_len_subset(lir_ids_of(slots).insert(extra), r);
    lemma_len_subset(resident_ids_of(slots).insert(extra), r);
    lemma_len_subset(lir_ids_of(slots), r);
    lemma_len_subset(resident_ids_of(slots), r);
}

/// How the id sets change when one slot changes.
proof fn lemma_ids_update(slots: Seq<Option<LirsEntry>>, i: int, e: Option<LirsEntry>)
    requires
        0 <= i < slots.len(),
    ensures
        lir_ids_of(slots.update(i, e)) == (if e is Some && e.unwrap().is_lir {
            lir_ids_of(slots).insert(i)
        } else {
            lir_ids_of(slots).remove(i)
        }),
        resident_ids_of(slots.update(i, e)) == (if e is Some && e.unwrap().resident {
            resident_ids_of(slots).insert(i)
        } else {
            resident_ids_of(slots).remove(i)
        }),
{
    assert(lir_ids_of(slots.update(i, e)) =~= (if e is Some && e.unwrap().is_lir {
        lir_ids_of(slots).insert(i)
    } else {
        lir_ids_of(slots).remove(i)
    }));
    assert(resident_ids_of(slots.update(i, e)) =~= (if e is Some && e.unwrap().resident {
        resident_ids_of(slots).insert(i)
    } else {
        resident_ids_of(slots).remove(i)
    }));
}

/// How the id sets change when a slot is added at the end.
proof fn lemma_ids_push(slots: Seq<Option<LirsEntry>>, e: Option<LirsEntry>)
    ensures
        lir_ids_of(slots.push(e)) == (if e is Some && e.unwrap().is_lir {
            lir_ids_of(slots).insert(slots.len() as int)
        } else {
            lir_ids_of(slots)
        }),
        resident_ids_of(slots.push(e)) == (if e is Some && e.unwrap().resident {
            resident_ids_of(slots).insert(slots.len() as int)
        } else {
            resident_ids_of(slots)
        }),
{
    assert(lir_ids_of(slots.push(e)) =~= (if e is Some && e.unwrap().is_lir {
        lir_ids_of(slots).insert(slots.len() as int)
    } else {
        lir_ids_of(slots)
    }));
    assert(resident_ids_of(slots.push(e)) =~= (if e is Some && e.unwrap().resident {
        resident_ids_of(slots).insert(slots.len() as int)
    } else {
        resident_ids_of(slots)
    }));
}

/// Both lists survive a change of slots outside them, where the changed
/// slots are marked as in neither list.
proof fn lemma_lists_frame(
    sl0: Seq<Option<LirsSlot>>,
    sl: Seq<Option<LirsSlot>>,
    s: Seq<usize>,
    sh: Option<usize>,
    st: Option<usize>,
    q: Seq<usize>,
    qh: Option<usize>,
    qt: Option<usize>,
)
    requires
        stack_linked(sl0, s, sh, st),
        queue_linked(sl0, q, qh, qt),
        sl0.len() <= usize::MAX,
        sl.len() <= usize::MAX,
        forall|i: int| #[trigger] occ(sl, i) && occ(sl0, i) ==> sl[i] == sl0[i],
        forall|i: int|
            #[trigger] occ(sl, i) && !occ(sl0, i) ==> !sl[i].unwrap().in_stack && !sl[i].unwrap().in_queue,
        forall|j: int| 0 <= j < s.len() ==> occ(sl, #[trigger] s[j] as int),
        forall|j: int| 0 <= j < q.len() ==> occ(sl, #[trigger] q[j] as int),
    ensures
        stack_linked(sl, s, sh, st),
        queue_linked(sl, q, qh, qt),
{
    reveal(stack_linked);
    reveal(queue_linked);
    assert forall|j: int| 0 <= j < s.len() implies sl[#[trigger] s[j] as int] == sl0[s[j] as int] by {
        assert(occ(sl0, s[j] as int));
        assert(occ(sl, s[j] as int));
    }
    assert forall|j: int| 0 <= j < q.len() implies sl[#[trigger] q[j] as int] == sl0[q[j] as int] by {
        assert(occ(sl0, q[j] as int));
        assert(occ(sl, q[j] as int));
    }
    assert forall|i: int| occ(sl, i) implies (#[trigger] sl[i].unwrap().in_stack <==> s.contains(
        i as usize,
    )) by {
        if occ(sl0, i) {
        } else if s.contains(i as usize) {
            let j = choose|j: int| 0 <= j < s.len() && s[j] == i as usize;
            assert(occ(sl0, s[j] as int));
        }
    }
    assert forall|i: int| occ(sl, i) implies (#[trigger] sl[i].unwrap().in_queue <==> q.contains(
        i as usize,
    )) by {
        if occ(sl0, i) {
        } else if q.contains(i as usize) {
            let j = choose|j: int| 0 <= j < q.len() && q[j] == i as usize;
            assert(occ(sl0, q[j] as int));
        }
    }
}

/// A slot outside both lists is not in them.
proof fn lemma_not_listed(sl0: Seq<Option<LirsSlot>>, s: Seq<usize>, sh: Option<usize>, st: Option<usize>, q: Seq<usize>, qh: Option<usize>, qt: Option<usize>, i: usize)
    requires
        stack_linked(sl0, s, sh, st),
        queue_linked(sl0, q, qh, qt),
        !occ(sl0, i as int),
    ensures
        !s.contains(i),
        !q.contains(i),
        forall|j: int| 0 <= j < s.len() ==> #[trigger] s[j] != i && occ(sl0, s[j] as int),
        forall|j: int| 0 <= j < q.len() ==> #[trigger] q[j] != i && occ(sl0, q[j] as int),
{
    reveal(stack_linked);
    reveal(queue_linked);
    if s.contains(i) {
        let j = choose|j: int| 0 <= j < s.len() && s[j] == i;
        assert(occ(sl0, s[j] as int));
    }
    if q.contains(i) {
        let j = choose|j: int| 0 <= j < q.len() && q[j] == i;
        assert(occ(sl0, q[j] as int));
    }
}

/// The model invariants after storing a new slot.
proof fn lemma_model_allocate(m0: LirsModel, key: CacheKey, address: Seq<char>)
    requires
        m0.model_wf(),
        item_size(address) <= usize::MAX,
        m0.slots.len() <= usize::MAX,
        m0.free.len() == 0 ==> m0.slots.len() < usize::MAX,
    ensures
        m0.allocate(key, address).model_wf(),
        !occupied_in(m0.slots, m0.new_id() as int),
        m0.allocate(key, address).occupied(m0.new_id() as int),
        m0.new_id() <= m0.slots.len(),
{
    reveal(model_parts_wf);
    let m = m0.allocate(key, address);
    let idx = m0.new_id();
    if m0.free.len() > 0 {
        assert(m0.free[m0.free.len() - 1] == idx);
        assert(!occupied_in(m0.slots, m0.free[m0.free.len() - 1] as int));
    }
    assert forall|j: int| 0 <= j < m.free.len() implies 0 <= #[trigger] m.free[j] < m.slots.len()
        && !occupied_in(m.slots, m.free[j] as int) by {
        assert(m.free[j] == m0.free[j]);
        if m0.free.len() > 0 {
            assert(m0.free[j] != m0.free.last());
        }
    }
    assert forall|k: CacheKey| #[trigger] m.index.contains_key(k) implies occupied_in(
        m.slots,
        m.index[k] as int,
    ) && m.slots[m.index[k] as int].unwrap().key == k by {
        if k != key {
            assert(m0.index.contains_key(k));
            assert(occupied_in(m0.slots, m0.index[k] as int));
        }
    }
    assert forall|j: int| 0 <= j < m.queue.len() implies occupied_in(m.slots, #[trigger] m.queue[j] as int)
        && m.slots[m.queue[j] as int].unwrap().resident && !m.slots[m.queue[j] as int].unwrap().is_lir by {
        assert(occupied_in(m0.slots, m0.queue[j] as int));
    }
    assert forall|i: int| #[trigger] occupied_in(m.slots, i) implies item_size(
        m.slots[i].unwrap().address,
    ) <= usize::MAX && (m.slots[i].unwrap().is_lir ==> m.slots[i].unwrap().resident) by {
        if i != idx as int {
            assert(occupied_in(m0.slots, i));
        }
    }
    assert(m.free.no_duplicates()) by {
        assert forall|a: int, b: int| 0 <= a < m.free.len() && 0 <= b < m.free.len() && a != b
            implies m.free[a] != m.free[b] by {
            assert(m.free[a] == m0.free[a] && m.free[b] == m0.free[b]);
        }
    }
}

/// The last free id names an empty slot of the table.
proof fn lemma_free_last(m0: LirsModel)
    requires
        m0.model_wf(),
        m0.free.len() > 0,
    ensures
        m0.free.last() < m0.slots.len(),
{
    reveal(model_parts_wf);
    assert(m0.free[m0.free.len() - 1] < m0.slots.len());
}

/// The model invariants after emptying a slot that is in no list.
proof fn lemma_model_free(m0: LirsModel, idx: usize)
    requires
        m0.model_wf(),
        m0.occupied(idx as int),
        !m0.queue.contains(idx),
    ensures
        m0.free_slot(idx).model_wf(),
{
    reveal(model_parts_wf);
    let m = m0.free_slot(idx);
    assert(m.free.no_duplicates()) by {
        assert forall|a: int, b: int| 0 <= a < m.free.len() && 0 <= b < m.free.len() && a != b
            implies m.free[a] != m.free[b] by {
            if a < m0.free.len() && b < m0.free.len() {
            } else if a == m0.free.len() {
                assert(!occupied_in(m0.slots, m0.free[b] as int));
            } else {
                assert(!occupied_in(m0.slots, m0.free[a] as int));
            }
        }
    }
    assert forall|j: int| 0 <= j < m.free.len() implies 0 <= #[trigger] m.free[j] < m.slots.len()
        && !occupied_in(m.slots, m.free[j] as int) by {
        if j < m0.free.len() {
            assert(m.free[j] == m0.free[j]);
        }
    }
    assert forall|k: CacheKey| #[trigger] m.index.contains_key(k) implies occupied_in(
        m.slots,
        m.index[k] as int,
    ) && m.slots[m.index[k] as int].unwrap().key == k by {
        assert(m0.index.contains_key(k));
        assert(occupied_in(m0.slots, m0.index[k] as int));
        assert(m0.index[k] != idx);
    }
    assert forall|j: int| 0 <= j < m.queue.len() implies occupied_in(m.slots, #[trigger] m.queue[j] as int)
        && m.slots[m.queue[j] as int].unwrap().resident && !m.slots[m.queue[j] as int].unwrap().is_lir by {
        assert(occupied_in(m0.slots, m0.queue[j] as int));
        assert(m0.queue[j] != idx);
    }
    assert forall|i: int| #[trigger] occupied_in(m.slots, i) implies item_size(
        m.slots[i].unwrap().address,
    ) <= usize::MAX && (m.slots[i].unwrap().is_lir ==> m.slots[i].unwrap().resident) by {
        assert(occupied_in(m0.slots, i));
    }
}

impl LirsStorage {
    /// Stores a new resident HIR slot for `key`, in the last free slot or a
    /// new one, and points the index at it.
    fn allocate_slot(&mut self, key: CacheKey, address: String) -> (r: usize)
        requires
            old(self).core_wf(),
            item_size(address@) <= usize::MAX,
        ensures
            final(self).core_wf(),
            final(self)@ == old(self)@.allocate(key, address@),
            r == old(self)@.new_id(),
            r < final(self).slots@.len(),
            !final(self).stack@.contains(r),
            !final(self).queue@.contains(r),
            fresh_slot(final(self).slots@[r as int], key, address@),
            final(self).slots@.len() == if old(self).free_list@.len() > 0 {
                old(self).slots@.len()
            } else {
                old(self).slots@.len() + 1
            },
            forall|j: int|
                0 <= j < old(self).slots@.len() && j != r ==> #[trigger] final(self).slots@[j] == old(
                    self,
                ).slots@[j],
    {
        let ghost sl0 = self.slots@;
        let ghost a = address;
        let ghost m0 = self@;
        proof {
            if m0.free.len() > 0 {
                lemma_free_last(m0);
                reveal(model_parts_wf);
                assert(!occupied_in(m0.slots, m0.free[m0.free.len() - 1] as int));
            }
            assert(!occ(sl0, m0.new_id() as int));
            lemma_not_listed(sl0, self.stack@, self.stack_head, self.stack_tail, self.queue@, self.queue_head, self.queue_tail, m0.new_id());
        }
        let slot = LirsSlot {
            key,
            address,
            prev: None,
            next: None,
            queue_prev: None,
            queue_next: None,
            is_lir: false,
            resident: true,
            in_stack: false,
            in_queue: false,
        };
        let ghost e = slot_entry(Some(slot));
        let len = self.slots.len();
        let idx = match self.free_list.pop() {
            Some(free) => {
                proof {
                    let f = old(self).free_list@;
                    assert(free == f[f.len() - 1]);
                }
                self.slots.set(free, Some(slot));
                free
            },
            None => {
                self.slots.push(Some(slot));
                let _ = self.slots.len();
                len
            },
        };
        self.key_to_idx.insert(key.code(), idx);
        proof {
            let sl = self.slots@;
            lemma_model_allocate(m0, key, a@);
            lemma_keyed_insert(old(self).key_to_idx@, key, idx);
            if m0.free.len() > 0 {
                assert(sl =~= sl0.update(idx as int, Some(slot)));
                assert(self@.slots =~= m0.slots.update(idx as int, e));
                assert(self.free_list@ =~= m0.free.drop_last());
            } else {
                assert(sl =~= sl0.push(Some(slot)));
                assert(self@.slots =~= m0.slots.push(e));
            }
            assert(self@ == m0.allocate(key, a@));
            assert(sl[idx as int] == Some(slot));
            assert forall|j: int| 0 <= j < sl0.len() && j != idx implies #[trigger] sl[j] == sl0[j] by {
            }
            assert forall|i: int| #[trigger] occ(sl, i) && occ(sl0, i) implies sl[i] == sl0[i] by {
                assert(i != idx as int);
            }
            assert forall|i: int| #[trigger] occ(sl, i) && !occ(sl0, i) implies !sl[i].unwrap().in_stack
                && !sl[i].unwrap().in_queue by {
                assert(i == idx as int);
            }
            assert forall|j: int| 0 <= j < self.stack@.len() implies occ(sl, #[trigger] self.stack@[j] as int) by {
                assert(occ(sl0, self.stack@[j] as int));
                assert(self.stack@[j] != idx);
            }
            assert forall|j: int| 0 <= j < self.queue@.len() implies occ(sl, #[trigger] self.queue@[j] as int) by {
                assert(occ(sl0, self.queue@[j] as int));
                assert(self.queue@[j] != idx);
            }
            lemma_lists_frame(sl0, sl, self.stack@, self.stack_head, self.stack_tail, self.queue@, self.queue_head, self.queue_tail);
        }
        idx
    }

    /// Empties slot `idx`, which is in neither list: its key leaves the
    /// index and its id goes on the free list.
    fn free_slot(&mut self, idx: usize)
        requires
            old(self).core_wf(),
            old(self)@.occupied(idx as int),
            !old(self).stack@.contains(idx),
            !old(self).queue@.contains(idx),
        ensures
            final(self).core_wf(),
            final(self)@ == old(self)@.free_slot(idx),
    {
        let ghost sl0 = self.slots@;
        let ghost m0 = self@;
        proof {
            lemma_model_free(m0, idx);
        }
        let code = match &self.slots[idx] {
            Some(slot) => Some(slot.key.code()),
            None => None,
        };
        match code {
            Some(c) => {
                self.key_to_idx.remove(&c);
            },
            None => {},
        }
        self.slots.set(idx, None);
        self.free_list.push(idx);
        proof {
            let sl = self.slots@;
            let key = m0.entry(idx as int).key;
            lemma_keyed_remove(old(self).key_to_idx@, key);
            assert(sl =~= sl0.update(idx as int, None));
            assert(self@.slots =~= m0.slots.update(idx as int, None));
            assert(self@ == m0.free_slot(idx));
            assert forall|j: int| 0 <= j < self.stack@.len() implies occ(sl, #[trigger] self.stack@[j] as int) by {
                reveal(stack_linked);
                assert(occ(sl0, self.stack@[j] as int));
            }
            assert forall|j: int| 0 <= j < self.queue@.len() implies occ(sl, #[trigger] self.queue@[j] as int) by {
                reveal(queue_linked);
                assert(occ(sl0, self.queue@[j] as int));
            }
            lemma_lists_frame(sl0, sl, self.stack@, self.stack_head, self.stack_tail, self.queue@, self.queue_head, self.queue_tail);
        }
    }
}

/// The model invariants after slot `i` changes only its flags, keeping LIR
/// slots resident and queued slots resident HIR.
proof fn lemma_model_status(m0: LirsModel, i: int, e: LirsEntry)
    requires
        m0.model_wf(),
        m0.occupied(i),
        e.key == m0.entry(i).key,
        item_size(e.address) <= usize::MAX,
        e.is_lir ==> e.resident,
        m0.queue.contains(i as usize) ==> e.resident && !e.is_lir,
    ensures
        m0.with_slot(i, Some(e)).model_wf(),
{
    reveal(model_parts_wf);
    let m = m0.with_slot(i, Some(e));
    assert forall|j: int| 0 <= j < m.free.len() implies 0 <= #[trigger] m.free[j] < m.slots.len()
        && !occupied_in(m.slots, m.free[j] as int) by {
        assert(!occupied_in(m0.slots, m0.free[j] as int));
    }
    assert forall|k: CacheKey| #[trigger] m.index.contains_key(k) implies occupied_in(
        m.slots,
        m.index[k] as int,
    ) && m.slots[m.index[k] as int].unwrap().key == k by {
        assert(occupied_in(m0.slots, m0.index[k] as int));
    }
    assert forall|j: int| 0 <= j < m.queue.len() implies occupied_in(m.slots, #[trigger] m.queue[j] as int)
        && m.slots[m.queue[j] as int].unwrap().resident && !m.slots[m.queue[j] as int].unwrap().is_lir by {
        assert(occupied_in(m0.slots, m0.queue[j] as int));
        if m.queue[j] as int == i {
            assert(m0.queue.contains(i as usize));
        }
    }
    assert forall|j: int| #[trigger] occupied_in(m.slots, j) implies item_size(
        m.slots[j].unwrap().address,
    ) <= usize::MAX && (m.slots[j].unwrap().is_lir ==> m.slots[j].unwrap().resident) by {
        assert(occupied_in(m0.slots, j));
    }
}

/// Removing the last element of a list without duplicates drops it.
proof fn lemma_remove_last(s: Seq<usize>)
    requires
        s.no_duplicates(),
        s.len() > 0,
    ensures
        s.remove(s.index_of(s.last())) == s.drop_last(),
{
    let k = s.index_of(s.last());
    assert(s[k] == s.last());
    assert(k == s.len() - 1);
    assert(s.remove(k) =~= s.drop_last());
}

impl LirsStorage {
    /// Facts about the stack that the invariants give.
    proof fn lemma_stack_facts(&self)
        requires
            stack_linked(self.slots@, self.stack@, self.stack_head, self.stack_tail),
        ensures
            self.stack@.no_duplicates(),
            self.stack_tail == last_of(self.stack@),
            self.stack_head == first_of(self.stack@),
            forall|j: int| 0 <= j < self.stack@.len() ==> occ(self.slots@, #[trigger] self.stack@[j] as int),
            forall|i: int| #[trigger] occ(self.slots@, i) ==> (self.slots@[i].unwrap().in_stack <==> self.stack@.contains(i as usize)),
    {
        reveal(stack_linked);
    }

    /// Facts about the queue that the invariants give.
    proof fn lemma_queue_facts(&self)
        requires
            queue_linked(self.slots@, self.queue@, self.queue_head, self.queue_tail),
        ensures
            self.queue@.no_duplicates(),
            self.queue_head == first_of(self.queue@),
            forall|j: int| 0 <= j < self.queue@.len() ==> occ(self.slots@, #[trigger] self.queue@[j] as int),
            forall|i: int| #[trigger] occ(self.slots@, i) ==> (self.slots@[i].unwrap().in_queue <==> self.queue@.contains(i as usize)),
    {
        reveal(queue_linked);
    }

    /// Facts about the model that the invariants give.
    proof fn lemma_model_facts(m: LirsModel)
        requires
            m.model_wf(),
        ensures
            forall|i: usize| #[trigger] m.queue.contains(i) ==> m.occupied(i as int) && m.entry(i as int).resident && !m.entry(i as int).is_lir,
            forall|i: int| #[trigger] m.occupied(i) && m.entry(i).is_lir ==> m.entry(i).resident,
            forall|i: int| #[trigger] m.occupied(i) ==> item_size(m.entry(i).address) <= usize::MAX,
    {
        reveal(model_parts_wf);
        assert forall|i: usize| #[trigger] m.queue.contains(i) implies m.occupied(i as int) && m.entry(i as int).resident && !m.entry(i as int).is_lir by {
            let j = choose|j: int| 0 <= j < m.queue.len() && m.queue[j] == i;
            assert(occupied_in(m.slots, m.queue[j] as int));
        }
        assert forall|i: int| #[trigger] m.occupied(i) && m.entry(i).is_lir implies m.entry(i).resident by {
            assert(occupied_in(m.slots, i));
        }
        assert forall|i: int| #[trigger] m.occupied(i) implies item_size(m.entry(i).address) <= usize::MAX by {
            assert(occupied_in(m.slots, i));
        }
    }

    /// The model sees each occupied slot of the table.
    proof fn lemma_view_slots(&self)
        ensures
            self@.slots.len() == self.slots@.len(),
            forall|i: int| #[trigger] occ(self.slots@, i) <==> self@.occupied(i),
            forall|i: int| #[trigger] self@.occupied(i) ==> slot_entry(self.slots@[i]) == self@.slots[i],
    {
    }

    /// Facts about the lists that the invariants give.
    proof fn lemma_list_facts(&self)
        requires
            self.core_wf(),
        ensures
            self.stack@.no_duplicates(),
            self.queue@.no_duplicates(),
            self.stack_tail == last_of(self.stack@),
            self.stack_head == first_of(self.stack@),
            self.queue_head == first_of(self.queue@),
            forall|j: int| 0 <= j < self.stack@.len() ==> self@.occupied(#[trigger] self.stack@[j] as int),
            forall|i: int| #[trigger] self@.occupied(i) ==> (self.slots@[i].unwrap().in_stack <==> self.stack@.contains(i as usize)),
            forall|i: int| #[trigger] self@.occupied(i) ==> (self.slots@[i].unwrap().in_queue <==> self.queue@.contains(i as usize)),
            forall|i: int| #[trigger] self@.occupied(i) ==> self.slots@[i] is Some && slot_entry(self.slots@[i]) == self@.slots[i],
            forall|i: usize| #[trigger] self.queue@.contains(i) ==> self@.occupied(i as int) && self@.entry(i as int).resident && !self@.entry(i as int).is_lir,
            forall|i: int| #[trigger] self@.occupied(i) && self@.entry(i).is_lir ==> self@.entry(i).resident,
            forall|i: int| #[trigger] self@.occupied(i) ==> item_size(self@.entry(i).address) <= usize::MAX,
            self.slots@.len() <= usize::MAX,
    {
        self.lemma_stack_facts();
        self.lemma_queue_facts();
        LirsStorage::lemma_model_facts(self@);
        self.lemma_view_slots();
        assert forall|j: int| 0 <= j < self.stack@.len() implies self@.occupied(#[trigger] self.stack@[j] as int) by {
            assert(occ(self.slots@, self.stack@[j] as int));
        }
        assert forall|i: int| #[trigger] self@.occupied(i) implies (self.slots@[i].unwrap().in_stack <==> self.stack@.contains(i as usize)) && (self.slots@[i].unwrap().in_queue <==> self.queue@.contains(i as usize)) by {
            assert(occ(self.slots@, i));
        }
    }

    /// Changing the flags of slot `i` keeps the links.
    proof fn lemma_status_links(&self, old_self: &LirsStorage, i: int)
        requires
            old_self.core_wf(),
            occ(old_self.slots@, i),
            same_but_slots(self, old_self),
            self.slots@ == old_self.slots@.update(
                i,
                Some(LirsSlot {
                    is_lir: self.slots@[i].unwrap().is_lir,
                    resident: self.slots@[i].unwrap().resident,
                    ..old_self.slots@[i].unwrap()
                }),
            ),
        ensures
            stack_linked(self.slots@, self.stack@, self.stack_head, self.stack_tail),
            queue_linked(self.slots@, self.queue@, self.queue_head, self.queue_tail),
            self@ == old_self@.with_slot(
                i,
                Some(LirsEntry {
                    is_lir: self.slots@[i].unwrap().is_lir,
                    resident: self.slots@[i].unwrap().resident,
                    ..old_self@.entry(i)
                }),
            ),
    {
        let sl0 = old_self.slots@;
        let sl = self.slots@;
        assert forall|j: int| occ(sl0, j) == occ(sl, j) by {}
        lemma_stack_frame(sl0, sl, self.stack@, self.stack_head, self.stack_tail);
        lemma_queue_frame(sl0, sl, self.queue@, self.queue_head, self.queue_tail);
        assert(self@.slots =~= old_self@.slots.update(
            i,
            Some(LirsEntry {
                is_lir: self.slots@[i].unwrap().is_lir,
                resident: self.slots@[i].unwrap().resident,
                ..old_self@.entry(i)
            }),
        ));
    }

    /// Evicts the head of the queue: it stays in its slot, not resident, and
    /// memory usage and the resident count shrink.
    fn evict_one(&mut self) -> (r: Option<usize>)
        requires
            old(self).wf(),
        ensures
            final(self).wf(),
            old(self)@.queue.len() == 0 ==> r is None && final(self)@ == old(self)@,
            old(self)@.queue.len() > 0 ==> r == Some(old(self)@.queue[0]) && final(self)@ == old(
                self,
            )@.evict_one(),
    {
        let ghost m0 = self@;
        proof {
            self.lemma_list_facts();
        }
        let victim = match self.dequeue() {
            Some(v) => v,
            None => {
                return None;
            },
        };
        let ghost m1 = self@;
        proof {
            assert(m0.queue.contains(victim));
            assert(m0.occupied(victim as int));
            self.lemma_list_facts();
            assert(self@.occupied(victim as int));
        }
        let addr_len = match &self.slots[victim] {
            Some(slot) => slot.address.as_str().as_bytes().len(),
            None => 0,
        };
        let ghost before = *self;
        self.set_status(victim, false, false);
        proof {
            self.lemma_status_links(&before, victim as int);
            let e2 = LirsEntry { is_lir: false, resident: false, ..m1.entry(victim as int) };
            assert(!m1.queue.contains(victim)) by {
                let q = m0.queue;
                assert(m1.queue =~= q.drop_first());
                if m1.queue.contains(victim) {
                    let j = choose|j: int| 0 <= j < m1.queue.len() && m1.queue[j] == victim;
                    assert(q[j + 1] == q[0]);
                }
            }
            lemma_model_status(m1, victim as int, e2);
            reveal(counts_parts_wf);
            lemma_ids_update(m1.slots, victim as int, Some(e2));
            lemma_ids_bounded(m1.slots, victim as int);
            assert(resident_ids_of(m1.slots).contains(victim as int));
            assert(!lir_ids_of(m1.slots).contains(victim as int));
            assert(lir_ids_of(m1.slots).remove(victim as int) =~= lir_ids_of(m1.slots));
        }
        self.resident_count = self.resident_count.saturating_sub(1);
        let item_size = DequeStorageItem::len() + addr_len;
        self.memory_size = self.memory_size.saturating_sub(item_size);
        proof {
            reveal(counts_parts_wf);
            assert(self@ == m0.evict_one());
            assert forall|i: int| #[trigger] self@.occupied(i) implies self@.stack.contains(i as usize) by {
                assert(m0.occupied(i));
            }
        }
        Some(victim)
    }
}

impl LirsStorage {
    /// Prunes the bottom of the stack (see [`LirsModel::prune`]).
    pub fn prune_stack(&mut self)
        requires
            old(self).wf(),
        ensures
            final(self).wf(),
            final(self)@ == old(self)@.prune(),
    {
        loop
            invariant
                self.wf(),
                self@.prune() == old(self)@.prune(),
            ensures
                self.wf(),
                self@ == old(self)@.prune(),
            decreases self.stack@.len(), self.lir_count,
        {
            proof {
                self.lemma_list_facts();
            }
            let tail = match self.stack_tail {
                Some(t) => t,
                None => {
                    break ;
                },
            };
            let ghost m0 = self@;
            proof {
                assert(self.stack@.last() == tail);
                assert(m0.occupied(tail as int));
                assert(occ(self.slots@, tail as int));
            }
            let (is_lir, resident, in_queue) = match &self.slots[tail] {
                Some(s) => (s.is_lir, s.resident, s.in_queue),
                None => (false, true, false),
            };
            proof {
                assert(slot_entry(self.slots@[tail as int]) == m0.slots[tail as int]);
                assert(is_lir == m0.entry(tail as int).is_lir);
                assert(resident == m0.entry(tail as int).resident);
            }
            if !resident && !is_lir {
                self.unlink_stack(tail);
                proof {
                    lemma_remove_last(m0.stack);
                    assert(!m0.queue.contains(tail));
                }
                self.free_slot(tail);
                proof {
                    let m1 = LirsModel { stack: m0.stack.drop_last(), ..m0 };
                    assert(self@ == m1.free_slot(tail));
                    reveal(counts_parts_wf);
                    lemma_ids_update(m0.slots, tail as int, None);
                    assert(lir_ids_of(m0.slots).remove(tail as int) =~= lir_ids_of(m0.slots));
                    assert(resident_ids_of(m0.slots).remove(tail as int) =~= resident_ids_of(
                        m0.slots,
                    ));
                    assert forall|i: int| #[trigger] self@.occupied(i) implies self@.stack.contains(i as usize) by {
                        assert(m0.occupied(i));
                        assert(i != tail as int);
                        let j = choose|j: int| 0 <= j < m0.stack.len() && m0.stack[j] == i as usize;
                        assert(j != m0.stack.len() - 1);
                        assert(self@.stack[j] == i as usize);
                    }
                }
            } else if is_lir && self.lir_count > self.lir_limit {
                let ghost before = *self;
                self.set_status(tail, false, resident);
                proof {
                    self.lemma_status_links(&before, tail as int);
                    let e2 = LirsEntry { is_lir: false, ..m0.entry(tail as int) };
                    assert(!m0.queue.contains(tail));
                    lemma_model_status(m0, tail as int, e2);
                    reveal(counts_parts_wf);
                    lemma_ids_update(m0.slots, tail as int, Some(e2));
                    lemma_ids_bounded(m0.slots, tail as int);
                    assert(lir_ids_of(m0.slots).contains(tail as int));
                    assert(resident_ids_of(m0.slots).insert(tail as int) =~= resident_ids_of(
                        m0.slots,
                    ));
                }
                self.lir_count = self.lir_count.saturating_sub(1);
                proof {
                    reveal(counts_parts_wf);
                    self.lemma_list_facts();
                    assert(!in_queue);
                }
                if !in_queue {
                    self.enqueue(tail);
                }
                proof {
                    assert forall|i: int| #[trigger] self@.occupied(i) implies self@.stack.contains(i as usize) by {
                        assert(m0.occupied(i));
                    }
                }
            } else {
                break ;
            }
        }
    }
}

/// Moving an element of a list without duplicates to its front keeps its
/// elements.
proof fn lemma_move_top_elems(s: Seq<usize>, i: usize)
    requires
        s.no_duplicates(),
        s.contains(i),
    ensures
        forall|x: usize| (seq![i] + s.remove(s.index_of(i))).contains(x) <==> s.contains(x),
{
    let k = s.index_of(i);
    let t = seq![i] + s.remove(k);
    assert(s[k] == i);
    assert forall|x: usize| t.contains(x) <==> s.contains(x) by {
        if t.contains(x) {
            let j = choose|j: int| 0 <= j < t.len() && t[j] == x;
            if j == 0 {
                assert(s[k] == x);
            } else if j - 1 < k {
                assert(s[j - 1] == x);
            } else {
                assert(s[j] == x);
            }
        }
        if s.contains(x) {
            let j = choose|j: int| 0 <= j < s.len() && s[j] == x;
            if j == k {
                assert(t[0] == x);
            } else if j < k {
                assert(t[j + 1] == x);
            } else {
                assert(t[j] == x);
            }
        }
    }
}

/// Pruning keeps a resident slot, its key, address and flags, and the top
/// of the stack when that is resident.
proof fn lemma_prune_keeps(m: LirsModel, i: int)
    requires
        m.occupied(i),
        m.entry(i).resident,
    ensures
        m.prune().occupied(i),
        m.prune().entry(i).resident,
        m.prune().entry(i).key == m.entry(i).key,
        m.prune().entry(i).address == m.entry(i).address,
        m.stack.len() > 0 && m.stack[0] as int == i ==> m.prune().stack.len() > 0 && m.prune().stack[0]
            as int == i,
    decreases m.stack.len(), m.lir_count,
{
    if m.stack.len() == 0 || !m.occupied(m.stack.last() as int) {
    } else {
        let t = m.stack.last();
        let e = m.entry(t as int);
        if !e.resident && !e.is_lir {
            let m1 = LirsModel { stack: m.stack.drop_last(), ..m }.free_slot(t);
            assert(t as int != i);
            if m.stack.len() > 0 && m.stack[0] as int == i {
                assert(m.stack.len() > 1);
                assert(m1.stack[0] == m.stack[0]);
            }
            lemma_prune_keeps(m1, i);
        } else if e.is_lir && m.lir_count > m.lir_limit {
            let m1 = LirsModel {
                slots: m.slots.update(t as int, Some(LirsEntry { is_lir: false, ..e })),
                lir_count: (m.lir_count - 1) as usize,
                ..m
            };
            if m1.queue.contains(t) {
                lemma_prune_keeps(m1, i);
            } else {
                lemma_prune_keeps(m1.enqueue(t), i);
            }
        } else {
        }
    }
}

/// Where the index points.
proof fn lemma_index_facts(m: LirsModel, key: CacheKey)
    requires
        m.model_wf(),
        m.index.contains_key(key),
    ensures
        m.occupied(m.index[key] as int),
        m.entry(m.index[key] as int).key == key,
{
    reveal(model_parts_wf);
}

impl LirsStorage {
    /// Replaces the address of slot `i`.
    fn set_address(&mut self, i: usize, address: String)
        requires
            occ(old(self).slots@, i as int),
        ensures
            final(self).slots@ == old(self).slots@.update(
                i as int,
                Some(LirsSlot { address, ..old(self).slots@[i as int].unwrap() }),
            ),
            same_but_slots(final(self), old(self)),
    {
        match &mut self.slots[i] {
            Some(slot) => {
                slot.address = address;
            },
            None => {},
        }
    }

    /// A change of what slot `i` holds, keeping its links, keeps the lists.
    proof fn lemma_payload_links(&self, old_self: &LirsStorage, i: int)
        requires
            old_self.core_wf(),
            occ(old_self.slots@, i),
            self.slots@.len() == old_self.slots@.len(),
            forall|j: int| 0 <= j < self.slots@.len() && j != i ==> self.slots@[j] == old_self.slots@[j],
            self.slots@[i] is Some,
            self.slots@[i].unwrap().prev == old_self.slots@[i].unwrap().prev,
            self.slots@[i].unwrap().next == old_self.slots@[i].unwrap().next,
            self.slots@[i].unwrap().in_stack == old_self.slots@[i].unwrap().in_stack,
            self.slots@[i].unwrap().queue_prev == old_self.slots@[i].unwrap().queue_prev,
            self.slots@[i].unwrap().queue_next == old_self.slots@[i].unwrap().queue_next,
            self.slots@[i].unwrap().in_queue == old_self.slots@[i].unwrap().in_queue,
            self.stack@ == old_self.stack@,
            self.queue@ == old_self.queue@,
            self.stack_head == old_self.stack_head,
            self.stack_tail == old_self.stack_tail,
            self.queue_head == old_self.queue_head,
            self.queue_tail == old_self.queue_tail,
        ensures
            stack_linked(self.slots@, self.stack@, self.stack_head, self.stack_tail),
            queue_linked(self.slots@, self.queue@, self.queue_head, self.queue_tail),
            self@.slots == old_self@.slots.update(i, slot_entry(self.slots@[i])),
    {
        let sl0 = old_self.slots@;
        let sl = self.slots@;
        assert forall|j: int| occ(sl0, j) == occ(sl, j) by {}
        lemma_stack_frame(sl0, sl, self.stack@, self.stack_head, self.stack_tail);
        lemma_queue_frame(sl0, sl, self.queue@, self.queue_head, self.queue_tail);
        assert(self@.slots =~= old_self@.slots.update(i, slot_entry(self.slots@[i])));
    }

    /// Makes slot `idx`, resident and HIR, a LIR slot: it leaves the queue.
    fn promote(&mut self, idx: usize)
        requires
            old(self).wf(),
            old(self)@.occupied(idx as int),
            old(self)@.entry(idx as int).resident,
            !old(self)@.entry(idx as int).is_lir,
        ensures
            final(self).wf(),
            final(self)@ == old(self)@.promote(idx),
    {
        let ghost m0 = self@;
        proof {
            self.lemma_list_facts();
        }
        self.remove_from_queue(idx);
        let ghost m1 = self@;
        proof {
            self.lemma_list_facts();
            assert(m1.slots == m0.slots);
            assert(occ(self.slots@, idx as int));
            assert(!m1.queue.contains(idx)) by {
                if m0.queue.contains(idx) {
                    let k = m0.queue.index_of(idx);
                    assert(m0.queue[k] == idx);
                    assert(m1.queue == m0.queue.remove(k));
                    if m1.queue.contains(idx) {
                        let j = choose|j: int| 0 <= j < m1.queue.len() && m1.queue[j] == idx;
                        if j < k {
                            assert(m0.queue[j] == idx);
                        } else {
                            assert(m0.queue[j + 1] == idx);
                        }
                    }
                }
            }
        }
        let ghost before = *self;
        self.set_status(idx, true, true);
        proof {
            self.lemma_status_links(&before, idx as int);
            let e2 = LirsEntry { is_lir: true, resident: true, ..m1.entry(idx as int) };
            lemma_model_status(m1, idx as int, e2);
            reveal(counts_parts_wf);
            lemma_ids_update(m1.slots, idx as int, Some(e2));
            lemma_ids_bounded(m1.slots, idx as int);
            assert(!lir_ids_of(m1.slots).contains(idx as int));
            assert(resident_ids_of(m1.slots).insert(idx as int) =~= resident_ids_of(m1.slots));
        }
        self.lir_count = self.lir_count + 1;
        proof {
            reveal(counts_parts_wf);
            assert(self@ == m0.promote(idx));
            assert forall|i: int| #[trigger] self@.occupied(i) implies self@.stack.contains(i as usize) by {
                assert(m0.occupied(i));
            }
        }
    }
}

impl LirsStorage {
    /// The slot that `key` is indexed at, if any.
    fn find(&self, key: &CacheKey) -> (r: Option<usize>)
        requires
            self.wf(),
        ensures
            match r {
                Some(i) => self@.index.contains_key(*key) && i == self@.index[*key] && self@.occupied(
                    i as int,
                ) && self@.entry(i as int).key == *key,
                None => !self@.index.contains_key(*key),
            },
    {
        match self.key_to_idx.get(&key.code()) {
            Some(i) => {
                proof {
                    lemma_index_facts(self@, *key);
                }
                Some(*i)
            },
            None => None,
        }
    }

    /// Stores a new resident slot for `cache_key` on top of the stack (see
    /// [`LirsModel::add_new`]); the stack is not pruned.
    fn add_new(&mut self, cache_key: CacheKey, address: String)
        requires
            old(self).wf(),
            item_size(address@) <= usize::MAX,
            old(self)@.memory_size + item_size(address@) <= usize::MAX,
        ensures
            final(self).wf(),
            final(self)@ == old(self)@.add_new(cache_key, address@),
    {
        let ghost m0 = self@;
        let ghost a = address@;
        let item = DequeStorageItem::len() + address.as_str().as_bytes().len();
        let idx = self.allocate_slot(cache_key, address);
        let ghost m1 = self@;
        proof {
            reveal(counts_parts_wf);
            lemma_model_allocate(m0, cache_key, a);
            let e = LirsEntry { key: cache_key, address: a, is_lir: false, resident: true };
            if m0.free.len() > 0 {
                lemma_free_last(m0);
                lemma_ids_update(m0.slots, idx as int, Some(e));
            } else {
                lemma_ids_push(m0.slots, Some(e));
            }
            lemma_ids_bounded(m1.slots, idx as int);
            assert(!resident_ids_of(m0.slots).contains(idx as int));
            assert(!lir_ids_of(m0.slots).contains(idx as int));
            assert(lir_ids_of(m0.slots).remove(idx as int) =~= lir_ids_of(m0.slots));
            assert(resident_ids_of(m1.slots) == resident_ids_of(m0.slots).insert(idx as int));
            assert(lir_ids_of(m1.slots) == lir_ids_of(m0.slots));
        }
        self.resident_count = self.resident_count + 1;
        self.memory_size = self.memory_size + item;
        proof {
            reveal(counts_parts_wf);
        }
        self.push_stack_top(idx);
        proof {
            assert forall|i: int| #[trigger] self@.occupied(i) implies self@.stack.contains(i as usize) by {
                if i != idx as int {
                    assert(self@.slots == m1.slots);
                    assert(m1.occupied(i));
                    if m0.free.len() > 0 {
                        assert(m1.slots[i] == m0.slots[i]);
                    } else {
                        assert(i < m0.slots.len());
                        assert(m1.slots[i] == m0.slots[i]);
                    }
                    assert(m0.occupied(i));
                    let j = choose|j: int| 0 <= j < m0.stack.len() && m0.stack[j] == i as usize;
                    assert(self@.stack[j + 1] == i as usize);
                } else {
                    assert(self@.stack[0] == idx);
                }
            }
        }
        let ghost m2 = self@;
        if self.lir_count < self.lir_limit {
            let ghost before = *self;
            self.set_status(idx, true, true);
            proof {
                self.lemma_status_links(&before, idx as int);
                let e2 = LirsEntry { is_lir: true, ..m2.entry(idx as int) };
                assert(!m2.queue.contains(idx));
                lemma_model_status(m2, idx as int, e2);
                reveal(counts_parts_wf);
                lemma_ids_update(m2.slots, idx as int, Some(e2));
                lemma_ids_bounded(m2.slots, idx as int);
                assert(!lir_ids_of(m2.slots).contains(idx as int));
                assert(resident_ids_of(m2.slots).insert(idx as int) =~= resident_ids_of(
                    m2.slots,
                ));
            }
            self.lir_count = self.lir_count + 1;
            proof {
                reveal(counts_parts_wf);
                assert forall|i: int| #[trigger] self@.occupied(i) implies self@.stack.contains(i as usize) by {
                    assert(m2.occupied(i));
                }
            }
        } else {
            self.enqueue(idx);
            proof {
                assert forall|i: int| #[trigger] self@.occupied(i) implies self@.stack.contains(i as usize) by {
                    assert(m2.occupied(i));
                }
            }
        }
        proof {
            assert(self@ == m0.add_new(cache_key, a));
        }
    }

    /// Inserts `address` under `cache_key` (see [`LirsModel::insert`]): an
    /// indexed key gets the address, becomes resident and LIR, and moves to
    /// the top of the stack; a new key gets a new resident slot on top of
    /// the stack. Then the stack is pruned.
    pub fn insert(&mut self, cache_key: CacheKey, address: String)
        requires
            old(self).wf(),
            old(self)@.insert_fits(cache_key, address@),
        ensures
            final(self).wf(),
            final(self)@ == old(self)@.insert(cache_key, address@),
            old(self)@.index_exact() ==> final(self)@.index_exact(),
    {
        proof {
            if self@.index_exact() {
                lemma_lirs_insert(self@, cache_key, address@);
            }
        }
        let ghost m0 = self@;
        let ghost a = address@;
        let found = self.find(&cache_key);
        match found {
            Some(idx) => {
                proof {
                    self.lemma_list_facts();
                    assert(occ(self.slots@, idx as int));
                    assert(slot_entry(self.slots@[idx as int]) == m0.slots[idx as int]);
                }
                let (was_resident, was_lir, old_len) = match &self.slots[idx] {
                    Some(slot) => (slot.resident, slot.is_lir, slot.address.as_str().as_bytes().len()),
                    None => (true, true, 0),
                };
                let new_len = address.as_str().as_bytes().len();
                let ghost before = *self;
                self.set_address(idx, address);
                self.memory_size = self.memory_size.wrapping_add(new_len).wrapping_sub(old_len);
                if !was_resident {
                    self.set_status(idx, was_lir, true);
                }
                proof {
                    self.lemma_payload_links(&before, idx as int);
                    let e2 = LirsEntry { address: a, resident: true, ..m0.entry(idx as int) };
                    assert(slot_entry(self.slots@[idx as int]) == Some(e2));
                    lemma_model_status(m0, idx as int, e2);
                    lemma_ids_update(m0.slots, idx as int, Some(e2));
                    lemma_ids_bounded(m0.slots, idx as int);
                    reveal(counts_parts_wf);
                    assert(lir_ids_of(m0.slots).insert(idx as int) =~= lir_ids_of(m0.slots)
                        || !was_lir);
                    if was_lir {
                        assert(lir_ids_of(m0.slots).insert(idx as int) =~= lir_ids_of(m0.slots));
                    } else {
                        assert(lir_ids_of(m0.slots).remove(idx as int) =~= lir_ids_of(m0.slots));
                    }
                    if was_resident {
                        assert(resident_ids_of(m0.slots).insert(idx as int) =~= resident_ids_of(
                            m0.slots,
                        ));
                    }
                }
                if !was_resident {
                    self.resident_count = self.resident_count + 1;
                    self.memory_size = self.memory_size + DequeStorageItem::len();
                }
                proof {
                    reveal(counts_parts_wf);
                    let e2 = LirsEntry { address: a, resident: true, ..m0.entry(idx as int) };
                    assert(self@ == (LirsModel {
                        slots: m0.slots.update(idx as int, Some(e2)),
                        resident_count: if was_resident {
                            m0.resident_count
                        } else {
                            (m0.resident_count + 1) as usize
                        },
                        memory_size: if was_resident {
                            m0.replaced_memory(idx, a)
                        } else {
                            (m0.replaced_memory(idx, a) + 21) as usize
                        },
                        ..m0
                    }));
                    assert forall|i: int| #[trigger] self@.occupied(i) implies self@.stack.contains(i as usize) by {
                        assert(m0.occupied(i));
                    }
                    assert(self.stack@.contains(idx));
                }
                let ghost m1 = self@;
                self.move_to_stack_top(idx);
                proof {
                    self.lemma_list_facts();
                    lemma_move_top_elems(m1.stack, idx);
                    assert forall|i: int| #[trigger] self@.occupied(i) implies self@.stack.contains(i as usize) by {
                        assert(m1.occupied(i));
                    }
                    assert(self@.slots == m1.slots);
                }
                if !was_lir {
                    self.promote(idx);
                }
                self.prune_stack();
            },
            None => {
                self.add_new(cache_key, address);
                self.prune_stack();
            },
        }
    }
}

impl LirsStorage {
    /// Looks `cache_key` up (see [`LirsModel::get`]): an indexed slot moves
    /// to the top of the stack and, if resident and HIR, becomes LIR. The
    /// address comes back if the slot is resident; then the stack is pruned.
    pub fn get(&mut self, cache_key: &CacheKey) -> (r: Option<&String>)
        requires
            old(self).wf(),
        ensures
            final(self).wf(),
            final(self)@ == old(self)@.get(*cache_key),
            match r {
                Some(a) => old(self)@.get_result(*cache_key) == Some(a@),
                None => old(self)@.get_result(*cache_key) is None,
            },
            old(self)@.index_exact() ==> final(self)@.index_exact(),
    {
        proof {
            if self@.index_exact() {
                lemma_lirs_get(self@, *cache_key);
            }
        }
        let ghost m0 = self@;
        let idx = match self.find(cache_key) {
            Some(i) => i,
            None => {
                return None;
            },
        };
        proof {
            self.lemma_list_facts();
            assert(occ(self.slots@, idx as int));
            assert(slot_entry(self.slots@[idx as int]) == m0.slots[idx as int]);
        }
        let (in_stack, is_lir, resident) = match &self.slots[idx] {
            Some(slot) => (slot.in_stack, slot.is_lir, slot.resident),
            None => (true, true, true),
        };
        if in_stack {
            self.move_to_stack_top(idx);
            proof {
                lemma_move_top_elems(m0.stack, idx);
            }
        } else {
            self.push_stack_top(idx);
        }
        proof {
            let m1 = self@;
            assert(m1.slots == m0.slots);
            assert forall|i: int| #[trigger] self@.occupied(i) implies self@.stack.contains(i as usize) by {
                assert(m0.occupied(i));
                if i as usize != idx {
                    let j = choose|j: int| 0 <= j < m0.stack.len() && m0.stack[j] == i as usize;
                    assert(m0.stack.contains(i as usize));
                    if !in_stack {
                        assert(m1.stack[j + 1] == i as usize);
                    }
                } else if !in_stack {
                    assert(m1.stack[0] == idx);
                }
            }
        }
        if !is_lir && resident {
            self.promote(idx);
        }
        if !resident {
            return None;
        }
        let ghost m2 = self@;
        proof {
            lemma_prune_keeps(m2, idx as int);
        }
        self.prune_stack();
        proof {
            self.lemma_list_facts();
            assert(occ(self.slots@, idx as int));
        }
        match &self.slots[idx] {
            Some(slot) => Some(&slot.address),
            None => None,
        }
    }

    /// Sets the memory limit, and the LIR limit that goes with it (see
    /// [`lir_limit_for`]).
    pub fn memory_max_size(&mut self, size: usize)
        requires
            old(self).wf(),
            max_items_for(size) * 95 <= usize::MAX,
        ensures
            final(self).wf(),
            final(self)@ == (LirsModel {
                memory_max_size: size,
                lir_limit: lir_limit_for(size),
                ..old(self)@
            }),
            old(self)@.index_exact() ==> final(self)@.index_exact(),
    {
        self.memory_max_size = size;
        proof {
            self.lemma_wf_fields(old(self));
        }
        self.update_lir_limit();
        proof {
            if old(self)@.index_exact() {
                assert forall|j: int| #[trigger] self@.occupied(j) implies self@.index.contains_key(
                    self@.entry(j).key,
                ) && self@.index[self@.entry(j).key] as int == j by {
                    assert(old(self)@.occupied(j));
                }
            }
        }
    }

    /// Recomputes the LIR limit from the memory limit.
    fn update_lir_limit(&mut self)
        requires
            old(self).wf(),
            max_items_for(old(self).memory_max_size) * 95 <= usize::MAX,
        ensures
            final(self).wf(),
            final(self)@ == (LirsModel { lir_limit: lir_limit_for(old(self).memory_max_size), ..old(self)@ }),
    {
        let avg_item = DequeStorageItem::len() + AVG_ADDRESS_LEN;
        let by_size = self.memory_max_size / avg_item;
        let max_items = if by_size > 10 {
            by_size
        } else {
            10
        };
        self.lir_limit = (max_items * LIRS_LIMIT_PERCENTAGE) / 100;
        proof {
            self.lemma_wf_fields(old(self));
        }
    }

    /// Well-formedness does not look at the limits or memory usage.
    proof fn lemma_wf_fields(&self, old_self: &LirsStorage)
        requires
            old_self.wf(),
            self.slots@ == old_self.slots@,
            self.key_to_idx@ == old_self.key_to_idx@,
            self.free_list@ == old_self.free_list@,
            self.stack_head == old_self.stack_head,
            self.stack_tail == old_self.stack_tail,
            self.queue_head == old_self.queue_head,
            self.queue_tail == old_self.queue_tail,
            self.stack@ == old_self.stack@,
            self.queue@ == old_self.queue@,
            self.lir_count == old_self.lir_count,
            self.resident_count == old_self.resident_count,
        ensures
            self.wf(),
    {
        assert(self@.slots == old_self@.slots);
        assert(self@.free == old_self@.free);
        assert(self@.queue == old_self@.queue);
        assert(self@.stack == old_self@.stack);
        assert(self@.index == old_self@.index);
        assert(self@.model_wf());
        assert(self@.counts_wf());
        assert(self@.all_stacked()) by {
            assert forall|i: int| #[trigger] self@.occupied(i) implies self@.stack.contains(i as usize) by {
                assert(old_self@.occupied(i));
            }
        }
    }

    /// The memory limit in bytes.
    pub fn get_memory_max_size(&self) -> (r: usize)
        ensures
            r == self@.memory_max_size,
    {
        self.memory_max_size
    }

    /// Current memory usage in bytes.
    pub fn get_in_memory_size(&self) -> (r: usize)
        ensures
            r == self@.memory_size,
    {
        self.memory_size
    }

    /// Number of resident slots.
    pub fn in_memory_record_count(&self) -> (r: usize)
        requires
            self.wf(),
        ensures
            r == self@.resident_count,
            r == resident_ids_of(self@.slots).len(),
    {
        proof {
            reveal(counts_parts_wf);
        }
        self.resident_count
    }

    /// The number of slots eviction evicts now (see [`delete_count`]), out
    /// of the resident ones.
    pub fn on_delete_items_count(&self) -> (r: usize)
        requires
            delete_count_fits(
                self@.memory_size as nat,
                self@.memory_max_size as nat,
                self@.resident_count as nat,
            ),
        ensures
            r == delete_count(
                self@.memory_size as nat,
                self@.memory_max_size as nat,
                self@.resident_count as nat,
            ),
    {
        on_delete_items_count(self.memory_size, self.memory_max_size, self.resident_count)
    }
}

impl LirsModel {
    /// State after evicting up to `n` slots from the head of the queue,
    /// stopping early when the queue runs empty.
    pub open spec fn evict_n(self, n: nat) -> LirsModel
        decreases n,
    {
        if n == 0 || self.queue.len() == 0 {
            self
        } else {
            self.evict_one().evict_n((n - 1) as nat)
        }
    }

    /// State after evicting from the head of the queue until a record of
    /// `size` bytes fits under the memory limit or the queue runs empty.
    pub open spec fn evict_until(self, size: nat) -> LirsModel
        decreases self.queue.len(),
    {
        if self.queue.len() == 0 || self.memory_size + size <= self.memory_max_size {
            self
        } else {
            self.evict_one().evict_until(size)
        }
    }
}

impl LirsStorage {
    /// Evicts as many slots as [`LirsStorage::on_delete_items_count`] says,
    /// from the head of the queue, stopping early if the queue runs empty.
    pub fn evict(&mut self)
        requires
            old(self).wf(),
            delete_count_fits(
                old(self)@.memory_size as nat,
                old(self)@.memory_max_size as nat,
                old(self)@.resident_count as nat,
            ),
        ensures
            final(self).wf(),
            final(self)@ == old(self)@.evict_n(
                delete_count(
                    old(self)@.memory_size as nat,
                    old(self)@.memory_max_size as nat,
                    old(self)@.resident_count as nat,
                ),
            ),
            old(self)@.index_exact() ==> final(self)@.index_exact(),
    {
        let to_remove = self.on_delete_items_count();
        let ghost target = old(self)@.evict_n(to_remove as nat);
        let mut i: usize = 0;
        while i < to_remove
            invariant
                self.wf(),
                i <= to_remove,
                self@.evict_n((to_remove - i) as nat) == target,
                old(self)@.index_exact() ==> self@.index_exact(),
            ensures
                self.wf(),
                self@ == target,
                old(self)@.index_exact() ==> self@.index_exact(),
            decreases to_remove - i,
        {
            if self.queue_head.is_none() {
                proof {
                    self.lemma_list_facts();
                    assert(self@.queue.len() == 0);
                }
                break;
            }
            let ghost before = self@;
            proof {
                self.lemma_list_facts();
                if before.index_exact() {
                    assert(before.queue.contains(before.queue[0]));
                    lemma_evict_one_index(before);
                }
            }
            self.evict_one();
            proof {
                assert(before.queue.len() > 0);
                assert(before.evict_n((to_remove - i) as nat) == before.evict_one().evict_n(
                    (to_remove - i - 1) as nat,
                ));
            }
            i = i + 1;
        }
    }

    /// Evicts from the head of the queue until a record with an address of
    /// `address_len` bytes fits under the memory limit, or the queue runs
    /// empty. Sums that would overflow, where the computation would panic,
    /// are left out by `requires`.
    pub fn evict_if_needed(&mut self, address_len: usize)
        requires
            old(self).wf(),
            old(self)@.memory_size + 21 + address_len <= usize::MAX,
        ensures
            final(self).wf(),
            final(self)@ == old(self)@.evict_until((21 + address_len) as nat),
            old(self)@.index_exact() ==> final(self)@.index_exact(),
    {
        let item_size = DequeStorageItem::len() + address_len;
        let ghost target = old(self)@.evict_until(item_size as nat);
        loop
            invariant
                self.wf(),
                self@.memory_size <= old(self)@.memory_size,
                old(self)@.memory_size + item_size <= usize::MAX,
                self@.evict_until(item_size as nat) == target,
                old(self)@.index_exact() ==> self@.index_exact(),
            ensures
                self.wf(),
                self@ == target,
                old(self)@.index_exact() ==> self@.index_exact(),
            decreases self@.queue.len(),
        {
            proof {
                self.lemma_list_facts();
            }
            if self.queue_head.is_none() || self.memory_size + item_size <= self.memory_max_size {
                break;
            }
            let ghost before = self@;
            proof {
                if before.index_exact() {
                    assert(before.queue.contains(before.queue[0]));
                    lemma_evict_one_index(before);
                }
            }
            self.evict_one();
            proof {
                assert(self@.queue.len() < before.queue.len());
            }
        }
    }

    /// Sets the memory usage, as the size of the file after a flush.
    pub fn set_in_memory_size(&mut self, size: usize)
        requires
            old(self).wf(),
        ensures
            final(self).wf(),
            final(self)@ == (LirsModel { memory_size: size, ..old(self)@ }),
            old(self)@.index_exact() ==> final(self)@.index_exact(),
    {
        self.memory_size = size;
        proof {
            self.lemma_wf_fields(old(self));
        }
        proof {
            if old(self)@.index_exact() {
                assert forall|j: int| #[trigger] self@.occupied(j) implies self@.index.contains_key(
                    self@.entry(j).key,
                ) && self@.index[self@.entry(j).key] as int == j by {
                    assert(old(self)@.occupied(j));
                }
            }
        }
    }
}

impl LirsModel {
    /// The key and address of each resident slot of `ids`, in order.
    pub open spec fn resident_along(self, ids: Seq<usize>) -> Seq<(CacheKey, Seq<char>)>
        decreases ids.len(),
    {
        if ids.len() == 0 {
            seq![]
        } else {
            let rest = self.resident_along(ids.drop_last());
            let e = self.entry(ids.last() as int);
            if e.resident {
                rest.push((e.key, e.address))
            } else {
                rest
            }
        }
    }

    /// The resident entries from the top of the stack to its bottom: the
    /// order in which they are written out.
    pub open spec fn entries(self) -> Seq<(CacheKey, Seq<char>)> {
        self.resident_along(self.stack)
    }

    /// Every resident key has a record form.
    pub open spec fn keys_encodable(self) -> bool {
        forall|i: int| #[trigger] self.occupied(i) && self.entry(i).resident ==> self.entry(i).key.encodable()
    }
}

/// The resident entries of a prefix of `s` start those of `s`.
proof fn lemma_along_prefix(m: LirsModel, s: Seq<usize>, k: int)
    requires
        0 <= k <= s.len(),
    ensures
        m.resident_along(s.take(k)).len() <= m.resident_along(s).len(),
        forall|i: int|
            0 <= i < m.resident_along(s.take(k)).len() ==> #[trigger] m.resident_along(s)[i]
                == m.resident_along(s.take(k))[i],
    decreases s.len(),
{
    if k == s.len() {
        assert(s.take(k) =~= s);
    } else {
        assert(s.drop_last().take(k) =~= s.take(k));
        lemma_along_prefix(m, s.drop_last(), k);
    }
}

/// Slots past position `k` of `s` that are not resident add no entries.
proof fn lemma_along_tail(m: LirsModel, s: Seq<usize>, k: int)
    requires
        0 <= k <= s.len(),
        forall|t: int| k <= t < s.len() ==> !m.entry(#[trigger] s[t] as int).resident,
    ensures
        m.resident_along(s) == m.resident_along(s.take(k)),
    decreases s.len(),
{
    if k == s.len() {
        assert(s.take(k) =~= s);
    } else {
        assert(!m.entry(s[s.len() - 1] as int).resident);
        assert(s.drop_last().take(k) =~= s.take(k));
        lemma_along_tail(m, s.drop_last(), k);
    }
}

/// One more slot of `s`.
proof fn lemma_along_step(m: LirsModel, s: Seq<usize>, j: int)
    requires
        0 <= j < s.len(),
    ensures
        m.resident_along(s.take(j + 1)) == (if m.entry(s[j] as int).resident {
            m.resident_along(s.take(j)).push((m.entry(s[j] as int).key, m.entry(s[j] as int).address))
        } else {
            m.resident_along(s.take(j))
        }),
{
    assert(s.take(j + 1).drop_last() =~= s.take(j));
    assert(s.take(j + 1).last() == s[j]);
}

impl LirsStorage {
    /// The stack links of each slot of the stack.
    proof fn lemma_stack_links(&self)
        requires
            self.core_wf(),
        ensures
            forall|j: int|
                0 <= j < self.stack@.len() ==> #[trigger] self.slots@[self.stack@[j] as int].unwrap().next
                    == after(self.stack@, j),
            forall|j: int|
                0 <= j < self.stack@.len() ==> #[trigger] self.slots@[self.stack@[j] as int].unwrap().prev
                    == before(self.stack@, j),
    {
        reveal(stack_linked);
    }

    /// The records of the resident slots, from the top of the stack to its
    /// bottom. A key whose coordinates `{:08}` writes in more than eight
    /// bytes has no record form, and the write would panic; `requires`
    /// leaves that out.
    pub fn as_bytes(&self) -> (r: Vec<u8>)
        requires
            self.wf(),
            self@.keys_encodable(),
        ensures
            r@ == records_bytes(self@.entries()),
    {
        let mut bytes: Vec<u8> = Vec::new();
        let mut cur = self.stack_head;
        let ghost s = self@.stack;
        let ghost mut j: int = 0;
        proof {
            self.lemma_list_facts();
            assert(s.take(0) =~= Seq::<usize>::empty());
        }
        while cur.is_some()
            invariant
                self.wf(),
                self@.keys_encodable(),
                s == self@.stack,
                0 <= j <= s.len(),
                cur == (if j < s.len() {
                    Some(s[j])
                } else {
                    None::<usize>
                }),
                bytes@ == records_bytes(self@.resident_along(s.take(j))),
            decreases s.len() - j,
        {
            let idx = match cur {
                Some(i) => i,
                None => 0,
            };
            proof {
                self.lemma_list_facts();
                self.lemma_stack_links();
                assert(self@.occupied(s[j] as int));
                lemma_along_step(self@, s, j);
            }
            match &self.slots[idx] {
                Some(slot) => {
                    if slot.resident {
                        proof {
                            assert(self@.entry(idx as int).resident);
                        }
                        append_record(&mut bytes, &slot.key, &slot.address);
                        proof {
                            lemma_records_bytes_push(
                                self@.resident_along(s.take(j)),
                                slot.key,
                                slot.address@,
                            );
                        }
                    }
                    cur = slot.next;
                },
                None => {
                    cur = None;
                },
            }
            proof {
                j = j + 1;
            }
        }
        proof {
            assert(s.take(j) =~= s);
        }
        bytes
    }

    /// The resident entry nearest the top of the stack (the most recently
    /// used one), if any.
    pub fn first(&self) -> (r: Option<(&CacheKey, &String)>)
        requires
            self.wf(),
        ensures
            match r {
                Some((k, a)) => self@.entries().len() > 0 && self@.entries()[0] == (*k, a@),
                None => self@.entries().len() == 0,
            },
    {
        let mut cur = self.stack_head;
        let ghost s = self@.stack;
        let ghost mut j: int = 0;
        proof {
            self.lemma_list_facts();
            assert(s.take(0) =~= Seq::<usize>::empty());
        }
        while cur.is_some()
            invariant
                self.wf(),
                s == self@.stack,
                0 <= j <= s.len(),
                cur == (if j < s.len() {
                    Some(s[j])
                } else {
                    None::<usize>
                }),
                self@.resident_along(s.take(j)).len() == 0,
            decreases s.len() - j,
        {
            let idx = match cur {
                Some(i) => i,
                None => 0,
            };
            proof {
                self.lemma_list_facts();
                self.lemma_stack_links();
                assert(self@.occupied(s[j] as int));
                lemma_along_step(self@, s, j);
            }
            match &self.slots[idx] {
                Some(slot) => {
                    if slot.resident {
                        proof {
                            lemma_along_prefix(self@, s, j + 1);
                            assert(self@.resident_along(s.take(j + 1))[0] == (slot.key, slot.address@));
                        }
                        return Some((&slot.key, &slot.address));
                    }
                    cur = slot.next;
                },
                None => {
                    cur = None;
                },
            }
            proof {
                j = j + 1;
            }
        }
        proof {
            assert(s.take(j) =~= s);
        }
        None
    }

    /// The resident entry nearest the bottom of the stack, if any.
    pub fn last(&self) -> (r: Option<(&CacheKey, &String)>)
        requires
            self.wf(),
        ensures
            match r {
                Some((k, a)) => self@.entries().len() > 0 && self@.entries().last() == (*k, a@),
                None => self@.entries().len() == 0,
            },
    {
        let mut cur = self.stack_tail;
        let ghost s = self@.stack;
        let ghost mut j: int = s.len() as int;
        proof {
            self.lemma_list_facts();
        }
        while cur.is_some()
            invariant
                self.wf(),
                s == self@.stack,
                0 <= j <= s.len(),
                cur == (if j > 0 {
                    Some(s[j - 1])
                } else {
                    None::<usize>
                }),
                forall|t: int| j <= t < s.len() ==> !self@.entry(#[trigger] s[t] as int).resident,
            decreases j,
        {
            let idx = match cur {
                Some(i) => i,
                None => 0,
            };
            proof {
                self.lemma_list_facts();
                self.lemma_stack_links();
                assert(self@.occupied(s[j - 1] as int));
            }
            match &self.slots[idx] {
                Some(slot) => {
                    if slot.resident {
                        proof {
                            lemma_along_tail(self@, s, j);
                            lemma_along_step(self@, s, j - 1);
                        }
                        return Some((&slot.key, &slot.address));
                    }
                    cur = slot.prev;
                },
                None => {
                    cur = None;
                },
            }
            proof {
                j = j - 1;
            }
        }
        proof {
            lemma_along_tail(self@, s, 0);
            assert(s.take(0) =~= Seq::<usize>::empty());
        }
        None
    }
}

impl LirsModel {
    /// State after adding the entries as new slots (see
    /// [`LirsModel::add_new`]), the last entry first, so that the first
    /// entry ends on top of the stack.
    pub open spec fn add_all(self, es: Seq<(CacheKey, Seq<char>)>) -> LirsModel
        decreases es.len(),
    {
        if es.len() == 0 {
            self
        } else {
            self.add_new(es.last().0, es.last().1).add_all(es.drop_last())
        }
    }

    /// State after reading records that hold the entries `es`, in file
    /// order: each becomes a new slot, then the stack is pruned.
    pub open spec fn after_read(self, es: Seq<(CacheKey, Seq<char>)>) -> LirsModel {
        self.add_all(es).prune()
    }
}

impl LirsStorage {
    /// Adds the entries as new slots, the last one first, then prunes the
    /// stack.
    fn read_entries(&mut self, entries: Vec<(CacheKey, String)>)
        requires
            old(self).wf(),
            old(self)@.memory_size + items_size(
                entries@.map_values(|e: (CacheKey, String)| entry_view(e)),
            ) <= usize::MAX,
        ensures
            final(self).wf(),
            final(self)@ == old(self)@.after_read(entries@.map_values(|e: (CacheKey, String)| entry_view(e))),
    {
        let mut entries = entries;
        let ghost target = old(self)@.add_all(entries@.map_values(|e: (CacheKey, String)| entry_view(e)));
        while entries.len() > 0
            invariant
                self.wf(),
                self@.add_all(entries@.map_values(|e: (CacheKey, String)| entry_view(e))) == target,
                self@.memory_size + items_size(entries@.map_values(|e: (CacheKey, String)| entry_view(e)))
                    <= usize::MAX,
            decreases entries.len(),
        {
            let ghost before = entries@.map_values(|e: (CacheKey, String)| entry_view(e));
            let popped = entries.pop();
            match popped {
                Some(e) => {
                    let (key, address) = e;
                    proof {
                        assert(entries@.map_values(|e: (CacheKey, String)| entry_view(e)) =~= before.drop_last());
                        assert(before.last() == (key, address@));
                    }
                    self.add_new(key, address);
                },
                None => {},
            }
        }
        self.prune_stack();
    }

    /// Reads the records of `bytes` (see [`LirsModel::read`]) and returns
    /// `true`, or, where memory usage would overflow, leaves the storage as
    /// it is and returns `false`. Bytes that the reader does not accept
    /// would panic; `requires` leaves them out.
    pub fn read_bytes(&mut self, bytes: &[u8]) -> (ok: bool)
        requires
            old(self).wf(),
            records_well_formed(bytes@),
        ensures
            final(self).wf(),
            ok == (old(self)@.memory_size + items_size(parsed_records(bytes@)) <= usize::MAX),
            ok ==> final(self)@ == old(self)@.after_read(parsed_records(bytes@)),
            !ok ==> final(self)@ == old(self)@,
    {
        let (entries, _) = parse_records(bytes);
        let ghost es = parsed_records(bytes@);
        let mut total: usize = self.memory_size;
        let mut i: usize = 0;
        proof {
            assert(es.take(0) =~= Seq::<(CacheKey, Seq<char>)>::empty());
        }
        while i < entries.len()
            invariant
                self.wf(),
                self@ == old(self)@,
                es == parsed_records(bytes@),
                es == entries@.map_values(|e: (CacheKey, String)| entry_view(e)),
                i <= entries.len(),
                total == self@.memory_size + items_size(es.take(i as int)),
            decreases entries.len() - i,
        {
            let len = entries[i].1.as_str().as_bytes().len();
            proof {
                assert(es.take(i + 1).drop_last() =~= es.take(i as int));
                assert(es.take(i + 1).last() == es[i as int]);
                assert(es[i as int].1 == entries@[i as int].1@);
            }
            let next = match total.checked_add(21) {
                Some(t) => t.checked_add(len),
                None => None,
            };
            match next {
                Some(t) => {
                    total = t;
                },
                None => {
                    proof {
                        assert(total + 21 + len > usize::MAX);
                        assert(len == encode_utf8(es[i as int].1).len());
                        assert(items_size(es.take(i + 1)) == items_size(es.take(i as int)) + item_size(
                            es[i as int].1,
                        ));
                        lemma_items_size_prefix(es, i + 1);
                    }
                    return false;
                },
            }
            i = i + 1;
        }
        proof {
            assert(es.take(i as int) =~= es);
        }
        self.read_entries(entries);
        true
    }
}

impl LirsModel {
    /// A storage with no slots, the given LIR limit and memory limit, and
    /// nothing counted.
    pub open spec fn empty(lir_limit: usize, memory_max_size: usize) -> LirsModel {
        LirsModel {
            slots: seq![],
            free: seq![],
            stack: seq![],
            queue: seq![],
            index: Map::empty(),
            lir_count: 0,
            lir_limit,
            resident_count: 0,
            memory_size: 0,
            memory_max_size,
        }
    }
}

impl LirsStorage {
    /// An empty storage with a LIR limit of 95 and a memory limit of ten
    /// mebibytes.
    pub fn new() -> (r: LirsStorage)
        ensures
            r.wf(),
            r@ == LirsModel::empty(95, 10485760),
            r@.index_exact(),
    {
        let r = LirsStorage {
            slots: Vec::new(),
            key_to_idx: HashMap::new(),
            free_list: Vec::new(),
            stack_head: None,
            stack_tail: None,
            queue_head: None,
            queue_tail: None,
            lir_count: 0,
            lir_limit: 95,
            resident_count: 0,
            memory_size: 0,
            memory_max_size: 10 * 1024 * 1024,
            stack: Ghost(Seq::empty()),
            queue: Ghost(Seq::empty()),
        };
        proof {
            assert(r@.slots =~= Seq::<Option<LirsEntry>>::empty());
            assert(r@.index =~= Map::<CacheKey, usize>::empty());
            reveal(stack_linked);
            reveal(queue_linked);
            reveal(model_parts_wf);
            reveal(counts_parts_wf);
            assert(lir_ids_of(r@.slots) =~= Set::<int>::empty());
            assert(resident_ids_of(r@.slots) =~= Set::<int>::empty());
        }
        r
    }
}

impl LirsStorage {
    /// An empty storage sized for `capacity` items: room reserved for that
    /// many slots, a LIR limit of 95 percent of them, and a memory limit of
    /// that many average records (41 bytes each). Products that would
    /// overflow, where the computation would panic, are left out by
    /// `requires`.
    pub fn with_capacity(capacity: usize) -> (r: LirsStorage)
        requires
            capacity * 95 <= usize::MAX,
            capacity * 41 <= usize::MAX,
        ensures
            r.wf(),
            r@ == LirsModel::empty(((capacity * 95) / 100) as usize, (capacity * 41) as usize),
            r@.index_exact(),
    {
        let r = LirsStorage {
            slots: Vec::with_capacity(capacity),
            key_to_idx: HashMap::with_capacity(capacity),
            free_list: Vec::new(),
            stack_head: None,
            stack_tail: None,
            queue_head: None,
            queue_tail: None,
            lir_count: 0,
            lir_limit: (capacity * LIRS_LIMIT_PERCENTAGE) / 100,
            resident_count: 0,
            memory_size: 0,
            memory_max_size: capacity * (DequeStorageItem::len() + AVG_ADDRESS_LEN),
            stack: Ghost(Seq::empty()),
            queue: Ghost(Seq::empty()),
        };
        proof {
            assert(r@.slots =~= Seq::<Option<LirsEntry>>::empty());
            assert(r@.index =~= Map::<CacheKey, usize>::empty());
            reveal(stack_linked);
            reveal(queue_linked);
            reveal(model_parts_wf);
            reveal(counts_parts_wf);
            assert(lir_ids_of(r@.slots) =~= Set::<int>::empty());
            assert(resident_ids_of(r@.slots) =~= Set::<int>::empty());
        }
        r
    }
}

impl Default for LirsStorage {
    fn default() -> (r: LirsStorage)
        ensures
            r.wf(),
            r@ == LirsModel::empty(95, 10485760),
    {
        LirsStorage::new()
    }
}

impl LirsModel {
    /// Each slot in use is the one the index gives for its key (no two
    /// slots hold the same key).
    pub open spec fn index_exact(self) -> bool {
        forall|i: int|
            #[trigger] self.occupied(i) ==> self.index.contains_key(self.entry(i).key) && self.index[self.entry(
                i,
            ).key] as int == i
    }
}

/// Pruning keeps the index exact.
proof fn lemma_prune_index(m: LirsModel)
    requires
        m.index_exact(),
    ensures
        m.prune().index_exact(),
    decreases m.stack.len(), m.lir_count,
{
    if m.stack.len() == 0 || !m.occupied(m.stack.last() as int) {
    } else {
        let t = m.stack.last();
        let e = m.entry(t as int);
        if !e.resident && !e.is_lir {
            let m0 = LirsModel { stack: m.stack.drop_last(), ..m };
            let m1 = m0.free_slot(t);
            assert forall|j: int| #[trigger] m1.occupied(j) implies m1.index.contains_key(m1.entry(j).key)
                && m1.index[m1.entry(j).key] as int == j by {
                assert(j != t as int);
                assert(m.occupied(j));
                assert(m.index[m.entry(t as int).key] as int == t as int);
            }
            lemma_prune_index(m1);
        } else if e.is_lir && m.lir_count > m.lir_limit {
            let m1 = LirsModel {
                slots: m.slots.update(t as int, Some(LirsEntry { is_lir: false, ..e })),
                lir_count: (m.lir_count - 1) as usize,
                ..m
            };
            assert forall|j: int| #[trigger] m1.occupied(j) implies m1.index.contains_key(m1.entry(j).key)
                && m1.index[m1.entry(j).key] as int == j by {
                assert(m.occupied(j));
            }
            if m1.queue.contains(t) {
                lemma_prune_index(m1);
            } else {
                assert(m1.enqueue(t).index_exact()) by {
                    assert forall|j: int| #[trigger] m1.enqueue(t).occupied(j) implies m1.enqueue(t).index.contains_key(m1.enqueue(t).entry(j).key)
                        && m1.enqueue(t).index[m1.enqueue(t).entry(j).key] as int == j by {
                        assert(m1.occupied(j));
                    }
                }
                lemma_prune_index(m1.enqueue(t));
            }
        }
    }
}

/// The first resident entry of a stack whose top is resident is the top.
proof fn lemma_top_first(m: LirsModel)
    requires
        m.stack.len() > 0,
        m.entry(m.stack[0] as int).resident,
    ensures
        m.entries().len() > 0,
        m.entries()[0] == (m.entry(m.stack[0] as int).key, m.entry(m.stack[0] as int).address),
{
    let s = m.stack;
    assert(s.take(0) =~= Seq::<usize>::empty());
    lemma_along_step(m, s, 0);
    lemma_along_prefix(m, s, 1);
}

/// Pruning after a slot holding `key` and `address` was made resident and
/// put on top of the stack: the index still gives that slot for `key`, and
/// its entry comes first.
proof fn lemma_prune_top(m: LirsModel, i: int, key: CacheKey, address: Seq<char>)
    requires
        m.index_exact(),
        m.occupied(i),
        m.entry(i).resident,
        m.entry(i).key == key,
        m.entry(i).address == address,
        m.stack.len() > 0,
        m.stack[0] as int == i,
    ensures
        m.prune().index_exact(),
        m.prune().get_result(key) == Some(address),
        m.prune().entries().len() > 0,
        m.prune().entries()[0] == (key, address),
{
    lemma_prune_keeps(m, i);
    lemma_prune_index(m);
    let p = m.prune();
    assert(p.index.contains_key(p.entry(i).key) && p.index[p.entry(i).key] as int == i);
    lemma_top_first(p);
}

/// An insertion into a model with an exact index: looking the key up then
/// gives the inserted address, the index stays exact, and the inserted
/// entry comes first.
pub proof fn lemma_lirs_insert(m: LirsModel, key: CacheKey, address: Seq<char>)
    requires
        m.model_wf(),
        m.index_exact(),
        m.slots.len() <= usize::MAX,
    ensures
        m.insert(key, address).get_result(key) == Some(address),
        m.insert(key, address).index_exact(),
        m.insert(key, address).entries().len() > 0,
        m.insert(key, address).entries()[0] == (key, address),
{
    if m.index.contains_key(key) {
        let i = m.index[key];
        lemma_index_facts(m, key);
        let e = m.entry(i as int);
        let m1 = LirsModel {
            slots: m.slots.update(i as int, Some(LirsEntry { address, resident: true, ..e })),
            resident_count: if e.resident {
                m.resident_count
            } else {
                (m.resident_count + 1) as usize
            },
            memory_size: if e.resident {
                m.replaced_memory(i, address)
            } else {
                (m.replaced_memory(i, address) + 21) as usize
            },
            ..m
        };
        let m2 = m1.move_top(i);
        let r = m.refresh(i, address);
        assert(r == if !e.is_lir {
            m2.promote(i)
        } else {
            m2
        });
        assert(m2.index_exact()) by {
            assert forall|j: int| #[trigger] m2.occupied(j) implies m2.index.contains_key(m2.entry(j).key)
                && m2.index[m2.entry(j).key] as int == j by {
                assert(m.occupied(j));
            }
        }
        assert(r.index_exact()) by {
            if !e.is_lir {
                assert forall|j: int| #[trigger] r.occupied(j) implies r.index.contains_key(r.entry(j).key)
                    && r.index[r.entry(j).key] as int == j by {
                    assert(m2.occupied(j));
                }
            }
        }
        assert(r.occupied(i as int));
        assert(r.stack[0] == i);
        lemma_prune_top(r, i as int, key, address);
    } else {
        let i = m.new_id();
        reveal(model_parts_wf);
        assert(!m.occupied(i as int)) by {
            if m.free.len() > 0 {
                assert(!occupied_in(m.slots, m.free[m.free.len() - 1] as int));
            }
        }
        let m1 = m.allocate(key, address);
        assert(m1.occupied(i as int));
        assert(m1.index_exact()) by {
            assert forall|j: int| #[trigger] m1.occupied(j) implies m1.index.contains_key(m1.entry(j).key)
                && m1.index[m1.entry(j).key] as int == j by {
                if j != i as int {
                    assert(m1.slots[j] == m.slots[j]);
                    assert(m.occupied(j));
                    assert(m.entry(j).key != key);
                }
            }
        }
        let m2 = LirsModel {
            resident_count: (m1.resident_count + 1) as usize,
            memory_size: (m1.memory_size + item_size(address)) as usize,
            ..m1
        }.push_top(i);
        assert(m2.index_exact()) by {
            assert forall|j: int| #[trigger] m2.occupied(j) implies m2.index.contains_key(m2.entry(j).key)
                && m2.index[m2.entry(j).key] as int == j by {
                assert(m1.occupied(j));
            }
        }
        let r = m.add_new(key, address);
        assert(r.index_exact()) by {
            assert forall|j: int| #[trigger] r.occupied(j) implies r.index.contains_key(r.entry(j).key)
                && r.index[r.entry(j).key] as int == j by {
                assert(m2.occupied(j));
            }
        }
        assert(r.stack[0] == i);
        lemma_prune_top(r, i as int, key, address);
    }
}

/// A lookup of an indexed, resident key in a model with an exact index
/// puts its entry first, and keeps the index exact and the address.
pub proof fn lemma_lirs_get(m: LirsModel, key: CacheKey)
    requires
        m.model_wf(),
        m.index_exact(),
    ensures
        m.get(key).index_exact(),
        m.get_result(key) matches Some(a) ==> m.get(key).get_result(key) == Some(a)
            && m.get(key).entries().len() > 0 && m.get(key).entries()[0] == (key, a),
{
    if m.index.contains_key(key) {
        let i = m.index[key];
        lemma_index_facts(m, key);
        let e = m.entry(i as int);
        let m1 = if m.stack.contains(i) {
            m.move_top(i)
        } else {
            m.push_top(i)
        };
        let m2 = if !e.is_lir && e.resident {
            m1.promote(i)
        } else {
            m1
        };
        assert(m1.index_exact()) by {
            assert forall|j: int| #[trigger] m1.occupied(j) implies m1.index.contains_key(m1.entry(j).key)
                && m1.index[m1.entry(j).key] as int == j by {
                assert(m.occupied(j));
            }
        }
        assert(m2.index_exact()) by {
            assert forall|j: int| #[trigger] m2.occupied(j) implies m2.index.contains_key(m2.entry(j).key)
                && m2.index[m2.entry(j).key] as int == j by {
                assert(m1.occupied(j));
            }
        }
        assert(m2.stack[0] == i);
        if e.resident {
            lemma_prune_top(m2, i as int, key, e.address);
            lemma_prune_index(m2);
        }
    }
}

/// Evicting one slot keeps the index exact.
proof fn lemma_evict_one_index(m: LirsModel)
    requires
        m.index_exact(),
        m.queue.len() > 0,
        m.occupied(m.queue[0] as int),
    ensures
        m.evict_one().index_exact(),
{
    let r = m.evict_one();
    assert forall|j: int| #[trigger] r.occupied(j) implies r.index.contains_key(r.entry(j).key)
        && r.index[r.entry(j).key] as int == j by {
        assert(m.occupied(j));
    }
}

/// The resident entries along `ids` depend only on the residency, keys and
/// addresses of those slots.
proof fn lemma_along_same(m1: LirsModel, m2: LirsModel, ids: Seq<usize>)
    requires
        forall|j: int|
            0 <= j < ids.len() ==> (#[trigger] m1.entry(ids[j] as int)).resident == m2.entry(
                ids[j] as int,
            ).resident && m1.entry(ids[j] as int).key == m2.entry(ids[j] as int).key && m1.entry(
                ids[j] as int,
            ).address == m2.entry(ids[j] as int).address,
    ensures
        m1.resident_along(ids) == m2.resident_along(ids),
    decreases ids.len(),
{
    if ids.len() > 0 {
        let t = ids.drop_last();
        assert forall|j: int| 0 <= j < t.len() implies (#[trigger] m1.entry(t[j] as int)).resident
            == m2.entry(t[j] as int).resident && m1.entry(t[j] as int).key == m2.entry(
            t[j] as int,
        ).key && m1.entry(t[j] as int).address == m2.entry(t[j] as int).address by {
            assert(t[j] == ids[j]);
        }
        lemma_along_same(m1, m2, t);
        assert(m1.entry(ids[ids.len() - 1] as int).resident == m2.entry(ids[ids.len() - 1] as int).resident);
    }
}

/// Putting a slot in front of `s` puts its entry, if resident, in front.
proof fn lemma_along_prepend(m: LirsModel, i: usize, s: Seq<usize>)
    ensures
        m.resident_along(seq![i] + s) == if m.entry(i as int).resident {
            seq![(m.entry(i as int).key, m.entry(i as int).address)] + m.resident_along(s)
        } else {
            m.resident_along(s)
        },
    decreases s.len(),
{
    if s.len() == 0 {
        assert((seq![i] + s).drop_last() =~= Seq::<usize>::empty());
        assert(m.resident_along(Seq::<usize>::empty()) =~= Seq::<(CacheKey, Seq<char>)>::empty());
        assert(seq![i] + s =~= seq![i]);
    } else {
        assert((seq![i] + s).drop_last() =~= seq![i] + s.drop_last());
        lemma_along_prepend(m, i, s.drop_last());
        assert((seq![i] + s).last() == s.last());
    }
}

/// Pruning a stack without duplicates keeps the resident entries.
proof fn lemma_prune_entries(m: LirsModel)
    requires
        m.stack.no_duplicates(),
        forall|j: int| 0 <= j < m.stack.len() ==> #[trigger] m.stack[j] < m.slots.len(),
    ensures
        m.prune().entries() == m.entries(),
        m.prune().stack.no_duplicates(),
    decreases m.stack.len(), m.lir_count,
{
    if m.stack.len() == 0 || !m.occupied(m.stack.last() as int) {
    } else {
        let t = m.stack.last();
        let e = m.entry(t as int);
        let s = m.stack;
        if !e.resident && !e.is_lir {
            let m0 = LirsModel { stack: s.drop_last(), ..m };
            let m1 = m0.free_slot(t);
            assert(m.resident_along(s) == m.resident_along(s.drop_last()));
            assert forall|j: int| 0 <= j < s.drop_last().len() implies (#[trigger] m1.entry(
                s.drop_last()[j] as int,
            )).resident == m.entry(s.drop_last()[j] as int).resident && m1.entry(
                s.drop_last()[j] as int,
            ).key == m.entry(s.drop_last()[j] as int).key && m1.entry(s.drop_last()[j] as int).address
                == m.entry(s.drop_last()[j] as int).address by {
                assert(s.drop_last()[j] == s[j]);
                assert(s[j] != s[s.len() - 1]);
                assert(s[j] < m.slots.len());
            }
            lemma_along_same(m1, m, s.drop_last());
            assert(m1.stack.no_duplicates()) by {
                assert forall|a: int, b: int| 0 <= a < b < m1.stack.len() implies m1.stack[a] != m1.stack[b] by {
                    assert(m1.stack[a] == s[a] && m1.stack[b] == s[b]);
                }
            }
            assert forall|j: int| 0 <= j < m1.stack.len() implies #[trigger] m1.stack[j] < m1.slots.len() by {
                assert(m1.stack[j] == s[j]);
            }
            lemma_prune_entries(m1);
        } else if e.is_lir && m.lir_count > m.lir_limit {
            let m1 = LirsModel {
                slots: m.slots.update(t as int, Some(LirsEntry { is_lir: false, ..e })),
                lir_count: (m.lir_count - 1) as usize,
                ..m
            };
            assert forall|j: int| 0 <= j < s.len() implies (#[trigger] m1.entry(s[j] as int)).resident
                == m.entry(s[j] as int).resident && m1.entry(s[j] as int).key == m.entry(
                s[j] as int,
            ).key && m1.entry(s[j] as int).address == m.entry(s[j] as int).address by {
                assert(s[j] < m.slots.len());
            }
            lemma_along_same(m1, m, s);
            assert forall|j: int| 0 <= j < m1.stack.len() implies #[trigger] m1.stack[j] < m1.slots.len() by {
                assert(s[j] < m.slots.len());
            }
            if m1.queue.contains(t) {
                lemma_prune_entries(m1);
            } else {
                lemma_along_same(m1.enqueue(t), m1, s);
                lemma_prune_entries(m1.enqueue(t));
            }
        }
    }
}

/// Adding entries as new slots to a model with no free ids, a stack
/// without duplicates and stack ids inside the table puts the entries in
/// front of its own, in order.
proof fn lemma_add_all_entries(m: LirsModel, es: Seq<(CacheKey, Seq<char>)>)
    requires
        m.free.len() == 0,
        m.stack.no_duplicates(),
        forall|j: int| 0 <= j < m.stack.len() ==> #[trigger] m.stack[j] < m.slots.len(),
        m.slots.len() + es.len() <= usize::MAX,
    ensures
        m.add_all(es).entries() == es + m.entries(),
        m.add_all(es).stack.no_duplicates(),
        forall|j: int|
            0 <= j < m.add_all(es).stack.len() ==> #[trigger] m.add_all(es).stack[j] < m.add_all(
                es,
            ).slots.len(),
    decreases es.len(),
{
    if es.len() == 0 {
        assert(es + m.entries() =~= m.entries());
    } else {
        let (key, address) = es.last();
        let i = m.new_id();
        assert(i == m.slots.len());
        let m1 = m.add_new(key, address);
        let m_alloc = m.allocate(key, address);
        assert(m1.slots.len() == m.slots.len() + 1);
        assert(m1.free.len() == 0);
        assert(m1.stack == seq![i] + m.stack);
        assert(m1.entry(i as int).resident && m1.entry(i as int).key == key && m1.entry(i as int).address
            == address);
        assert(!m.stack.contains(i)) by {
            if m.stack.contains(i) {
                let j = choose|j: int| 0 <= j < m.stack.len() && m.stack[j] == i;
                assert(m.stack[j] < m.slots.len());
            }
        }
        assert(m1.stack.no_duplicates()) by {
            assert forall|a: int, b: int| 0 <= a < b < m1.stack.len() implies m1.stack[a] != m1.stack[b] by {
                if a == 0 {
                    assert(m1.stack[b] == m.stack[b - 1]);
                } else {
                    assert(m1.stack[a] == m.stack[a - 1] && m1.stack[b] == m.stack[b - 1]);
                }
            }
        }
        assert forall|j: int| 0 <= j < m1.stack.len() implies #[trigger] m1.stack[j] < m1.slots.len() by {
            if j > 0 {
                assert(m1.stack[j] == m.stack[j - 1]);
            }
        }
        assert forall|j: int| 0 <= j < m.stack.len() implies (#[trigger] m1.entry(m.stack[j] as int)).resident
            == m.entry(m.stack[j] as int).resident && m1.entry(m.stack[j] as int).key == m.entry(
            m.stack[j] as int,
        ).key && m1.entry(m.stack[j] as int).address == m.entry(m.stack[j] as int).address by {
            assert(m.stack[j] < m.slots.len());
            assert(m1.slots[m.stack[j] as int] == m.slots[m.stack[j] as int]);
        }
        lemma_along_same(m1, m, m.stack);
        lemma_along_prepend(m1, i, m.stack);
        assert(m1.entries() == seq![(key, address)] + m.entries());
        lemma_add_all_entries(m1, es.drop_last());
        assert(es.drop_last() + (seq![(key, address)] + m.entries()) =~= es + m.entries());
    }
}

/// Writing storable entries as records and reading them into an empty
/// LIRS storage gives back the same resident entries in the same order.
pub proof fn lemma_lirs_round_trip(
    es: Seq<(CacheKey, Seq<char>)>,
    lir_limit: usize,
    memory_max_size: usize,
)
    requires
        forall|i: int| 0 <= i < es.len() ==> entry_storable(#[trigger] es[i].0, es[i].1),
        es.len() <= usize::MAX,
    ensures
        records_well_formed(records_bytes(es)),
        LirsModel::empty(lir_limit, memory_max_size).after_read(parsed_records(records_bytes(es))).entries()
            == es,
{
    lemma_records_round_trip(es);
    let m = LirsModel::empty(lir_limit, memory_max_size);
    assert(m.entries() =~= Seq::<(CacheKey, Seq<char>)>::empty());
    lemma_add_all_entries(m, es);
    lemma_prune_entries(m.add_all(es));
    assert(es + m.entries() =~= es);
}

impl LirsStorage {
    /// Whether every resident key has a record form, as
    /// [`LirsStorage::as_bytes`] asks.
    pub fn keys_encodable(&self) -> (r: bool)
        requires
            self.wf(),
        ensures
            r == self@.keys_encodable(),
    {
        proof {
            self.lemma_list_facts();
        }
        let mut i: usize = 0;
        while i < self.slots.len()
            invariant
                self.wf(),
                i <= self.slots@.len(),
                forall|j: int|
                    0 <= j < i ==> #[trigger] self@.occupied(j) && self@.entry(j).resident ==> self@.entry(
                        j,
                    ).key.encodable(),
            decreases self.slots@.len() - i,
        {
            proof {
                self.lemma_view_slots();
            }
            match &self.slots[i] {
                Some(slot) => {
                    if slot.resident && !slot.key.is_encodable() {
                        assert(self@.occupied(i as int));
                        return false;
                    }
                },
                None => {},
            }
            i = i + 1;
        }
        proof {
            self.lemma_view_slots();
        }
        true
    }

    /// Whether inserting `address` under `key` keeps memory usage within a
    /// `usize` (see [`LirsModel::insert_fits`]), as
    /// [`LirsStorage::insert`] asks.
    pub fn can_insert(&self, key: &CacheKey, address: &String) -> (r: bool)
        requires
            self.wf(),
        ensures
            r == self@.insert_fits(*key, address@),
    {
        let len = address.as_str().as_bytes().len();
        if len > usize::MAX - 21 {
            return false;
        }
        match self.find(key) {
            Some(i) => {
                proof {
                    self.lemma_list_facts();
                    assert(occ(self.slots@, i as int));
                    assert(slot_entry(self.slots@[i as int]) == self@.slots[i as int]);
                }
                match &self.slots[i] {
                    Some(slot) => {
                        if slot.resident {
                            true
                        } else {
                            let old_len = slot.address.as_str().as_bytes().len();
                            let replaced = self.memory_size.wrapping_add(len).wrapping_sub(old_len);
                            replaced <= usize::MAX - 21
                        }
                    },
                    None => false,
                }
            },
            None => self.memory_size <= usize::MAX - 21 - len,
        }
    }
}

impl LirsModel {
    /// Each indexed key points at a slot in use that holds the key.
    pub open spec fn index_sound(self) -> bool {
        forall|k: CacheKey|
            #[trigger] self.index.contains_key(k) ==> self.occupied(self.index[k] as int) && self.entry(
                self.index[k] as int,
            ).key == k
    }
}

/// Pruning a model with an exact, sound index changes no lookup result
/// and no resident count, and keeps the index sound.
proof fn lemma_prune_results(m: LirsModel)
    requires
        m.index_exact(),
        m.index_sound(),
    ensures
        m.prune().index_sound(),
        m.prune().resident_count == m.resident_count,
        forall|k: CacheKey| #[trigger] m.prune().get_result(k) == m.get_result(k),
    decreases m.stack.len(), m.lir_count,
{
    if m.stack.len() == 0 || !m.occupied(m.stack.last() as int) {
    } else {
        let t = m.stack.last();
        let e = m.entry(t as int);
        if !e.resident && !e.is_lir {
            let m0 = LirsModel { stack: m.stack.drop_last(), ..m };
            let m1 = m0.free_slot(t);
            assert(m.index[e.key] as int == t as int);
            assert forall|k: CacheKey| #[trigger] m1.index.contains_key(k) implies m1.occupied(
                m1.index[k] as int,
            ) && m1.entry(m1.index[k] as int).key == k by {
                assert(k != e.key);
                assert(m.index.contains_key(k));
                assert(m.index[k] as int != t as int);
            }
            assert forall|j: int| #[trigger] m1.occupied(j) implies m1.index.contains_key(m1.entry(j).key)
                && m1.index[m1.entry(j).key] as int == j by {
                assert(j != t as int);
                assert(m.occupied(j));
            }
            assert forall|k: CacheKey| #[trigger] m1.get_result(k) == m.get_result(k) by {
                if k != e.key && m.index.contains_key(k) {
                    assert(m.index[k] as int != t as int);
                }
            }
            lemma_prune_results(m1);
        } else if e.is_lir && m.lir_count > m.lir_limit {
            let m1 = LirsModel {
                slots: m.slots.update(t as int, Some(LirsEntry { is_lir: false, ..e })),
                lir_count: (m.lir_count - 1) as usize,
                ..m
            };
            assert forall|j: int| #[trigger] m1.occupied(j) implies m1.index.contains_key(m1.entry(j).key)
                && m1.index[m1.entry(j).key] as int == j by {
                assert(m.occupied(j));
            }
            assert forall|k: CacheKey| #[trigger] m1.get_result(k) == m.get_result(k) by {
            }
            if m1.queue.contains(t) {
                lemma_prune_results(m1);
            } else {
                let m2 = m1.enqueue(t);
                assert forall|j: int| #[trigger] m2.occupied(j) implies m2.index.contains_key(m2.entry(j).key)
                    && m2.index[m2.entry(j).key] as int == j by {
                    assert(m1.occupied(j));
                }
                assert forall|k: CacheKey| #[trigger] m2.get_result(k) == m1.get_result(k) by {
                }
                lemma_prune_results(m2);
            }
        }
    }
}

/// An insertion into a model with an exact index leaves every other key's
/// lookup result (its residency and address) as it was, and adds one to
/// the resident count exactly when the key was not resident.
pub proof fn lemma_lirs_insert_others(m: LirsModel, key: CacheKey, address: Seq<char>)
    requires
        m.model_wf(),
        m.index_exact(),
        m.slots.len() <= usize::MAX,
    ensures
        forall|other: CacheKey|
            other != key ==> #[trigger] m.insert(key, address).get_result(other) == m.get_result(other),
        m.insert(key, address).resident_count == if m.get_result(key) is Some {
            m.resident_count
        } else {
            (m.resident_count + 1) as usize
        },
{
    reveal(model_parts_wf);
    assert(m.index_sound());
    if m.index.contains_key(key) {
        let i = m.index[key];
        let e = m.entry(i as int);
        let m1 = LirsModel {
            slots: m.slots.update(i as int, Some(LirsEntry { address, resident: true, ..e })),
            resident_count: if e.resident {
                m.resident_count
            } else {
                (m.resident_count + 1) as usize
            },
            memory_size: if e.resident {
                m.replaced_memory(i, address)
            } else {
                (m.replaced_memory(i, address) + 21) as usize
            },
            ..m
        };
        let m2 = m1.move_top(i);
        let r = m.refresh(i, address);
        assert(r == if !e.is_lir {
            m2.promote(i)
        } else {
            m2
        });
        assert(r.index == m.index);
        assert forall|j: int| j != i as int && 0 <= j < m.slots.len() implies #[trigger] r.slots[j]
            == m.slots[j] by {
        }
        assert(r.occupied(i as int) && r.entry(i as int).key == key);
        assert(r.index_exact()) by {
            assert forall|j: int| #[trigger] r.occupied(j) implies r.index.contains_key(r.entry(j).key)
                && r.index[r.entry(j).key] as int == j by {
                if j != i as int {
                    assert(m.occupied(j));
                }
            }
        }
        assert(r.index_sound()) by {
            assert forall|k: CacheKey| #[trigger] r.index.contains_key(k) implies r.occupied(
                r.index[k] as int,
            ) && r.entry(r.index[k] as int).key == k by {
                assert(m.index.contains_key(k));
            }
        }
        assert forall|other: CacheKey| other != key implies #[trigger] r.get_result(other)
            == m.get_result(other) by {
            if m.index.contains_key(other) {
                assert(m.entry(m.index[other] as int).key == other);
                assert(m.index[other] != i);
            }
        }
        lemma_prune_results(r);
    } else {
        let i = m.new_id();
        assert(!m.occupied(i as int)) by {
            if m.free.len() > 0 {
                assert(!occupied_in(m.slots, m.free[m.free.len() - 1] as int));
            }
        }
        let r = m.add_new(key, address);
        assert(r.index == m.index.insert(key, i));
        assert(r.occupied(i as int) && r.entry(i as int).key == key);
        assert forall|j: int| j != i as int && 0 <= j < m.slots.len() implies #[trigger] r.slots[j]
            == m.slots[j] by {
        }
        assert(r.index_exact()) by {
            assert forall|j: int| #[trigger] r.occupied(j) implies r.index.contains_key(r.entry(j).key)
                && r.index[r.entry(j).key] as int == j by {
                if j != i as int {
                    assert(m.occupied(j));
                    assert(m.entry(j).key != key);
                }
            }
        }
        assert(r.index_sound()) by {
            assert forall|k: CacheKey| #[trigger] r.index.contains_key(k) implies r.occupied(
                r.index[k] as int,
            ) && r.entry(r.index[k] as int).key == k by {
                if k != key {
                    assert(m.index.contains_key(k));
                    assert(m.occupied(m.index[k] as int));
                }
            }
        }
        assert forall|other: CacheKey| other != key implies #[trigger] r.get_result(other)
            == m.get_result(other) by {
            if m.index.contains_key(other) {
                assert(m.occupied(m.index[other] as int));
            }
        }
        lemma_prune_results(r);
    }
}

/// The record size of slot `i` if it is in use and resident, else zero.
pub open spec fn resident_size_at(slots: Seq<Option<LirsEntry>>, i: int) -> nat {
    if occupied_in(slots, i) && slots[i].unwrap().resident {
        item_size(slots[i].unwrap().address)
    } else {
        0
    }
}

/// The total record size of the resident slots among the first `n`.
pub open spec fn resident_size(slots: Seq<Option<LirsEntry>>, n: nat) -> nat
    decreases n,
{
    if n == 0 {
        0
    } else {
        resident_size(slots, (n - 1) as nat) + resident_size_at(slots, n - 1)
    }
}

impl LirsModel {
    /// The total record size of the resident slots.
    pub open spec fn resident_total(self) -> nat {
        resident_size(self.slots, self.slots.len())
    }
}

/// Slots that agree in residency and address below `n` have the same
/// total below `n`.
proof fn lemma_size_frame(s1: Seq<Option<LirsEntry>>, s2: Seq<Option<LirsEntry>>, n: nat)
    requires
        forall|j: int| 0 <= j < n ==> #[trigger] resident_size_at(s1, j) == resident_size_at(s2, j),
    ensures
        resident_size(s1, n) == resident_size(s2, n),
    decreases n,
{
    if n > 0 {
        lemma_size_frame(s1, s2, (n - 1) as nat);
    }
}

/// Changing slot `i` changes the total by the change of its size.
proof fn lemma_size_update(s1: Seq<Option<LirsEntry>>, s2: Seq<Option<LirsEntry>>, i: int, n: nat)
    requires
        0 <= i < n,
        forall|j: int| 0 <= j < n && j != i ==> #[trigger] resident_size_at(s1, j) == resident_size_at(s2, j),
    ensures
        resident_size(s2, n) + resident_size_at(s1, i) == resident_size(s1, n) + resident_size_at(s2, i),
        resident_size(s1, n) >= resident_size_at(s1, i),
    decreases n,
{
    if n - 1 == i {
        lemma_size_frame(s1, s2, (n - 1) as nat);
    } else {
        lemma_size_update(s1, s2, i, (n - 1) as nat);
    }
}

/// Pruning keeps the total record size of the resident slots.
proof fn lemma_prune_size(m: LirsModel)
    ensures
        m.prune().resident_total() == m.resident_total(),
        m.prune().memory_size == m.memory_size,
    decreases m.stack.len(), m.lir_count,
{
    if m.stack.len() == 0 || !m.occupied(m.stack.last() as int) {
    } else {
        let t = m.stack.last();
        let e = m.entry(t as int);
        if !e.resident && !e.is_lir {
            let m1 = LirsModel { stack: m.stack.drop_last(), ..m }.free_slot(t);
            assert forall|j: int| 0 <= j < m.slots.len() implies #[trigger] resident_size_at(
                m1.slots,
                j,
            ) == resident_size_at(m.slots, j) by {
            }
            lemma_size_frame(m1.slots, m.slots, m.slots.len());
            lemma_prune_size(m1);
        } else if e.is_lir && m.lir_count > m.lir_limit {
            let m1 = LirsModel {
                slots: m.slots.update(t as int, Some(LirsEntry { is_lir: false, ..e })),
                lir_count: (m.lir_count - 1) as usize,
                ..m
            };
            assert forall|j: int| 0 <= j < m.slots.len() implies #[trigger] resident_size_at(
                m1.slots,
                j,
            ) == resident_size_at(m.slots, j) by {
            }
            lemma_size_frame(m1.slots, m.slots, m.slots.len());
            if m1.queue.contains(t) {
                lemma_prune_size(m1);
            } else {
                lemma_prune_size(m1.enqueue(t));
            }
        }
    }
}

/// Memory usage that is the total record size of the resident slots stays
/// so through an insertion, unless the key has an evicted slot (the
/// storage then subtracts the old address a second time) or the new usage
/// would not fit a `usize`.
pub proof fn lemma_lirs_insert_size(m: LirsModel, key: CacheKey, address: Seq<char>)
    requires
        m.model_wf(),
        m.slots.len() < usize::MAX,
        m.memory_size == m.resident_total(),
        m.memory_size + item_size(address) <= usize::MAX,
        m.index.contains_key(key) ==> m.entry(m.index[key] as int).resident,
    ensures
        m.insert(key, address).memory_size == m.insert(key, address).resident_total(),
{
    reveal(model_parts_wf);
    if m.index.contains_key(key) {
        let i = m.index[key];
        let e = m.entry(i as int);
        assert(occupied_in(m.slots, i as int));
        let r = m.refresh(i, address);
        let s2 = m.slots.update(i as int, Some(LirsEntry { address, resident: true, ..e }));
        assert forall|j: int| 0 <= j < m.slots.len() && j != i as int implies #[trigger] resident_size_at(
            m.slots,
            j,
        ) == resident_size_at(s2, j) by {
        }
        lemma_size_update(m.slots, s2, i as int, m.slots.len());
        assert(resident_size_at(m.slots, i as int) == item_size(e.address));
        assert(resident_size_at(s2, i as int) == item_size(address));
        let old_len = encode_utf8(e.address).len();
        let new_len = encode_utf8(address).len();
        assert(m.memory_size >= 21 + old_len);
        assert(m.replaced_memory(i, address) == m.memory_size + new_len - old_len);
        assert forall|j: int| 0 <= j < m.slots.len() implies #[trigger] resident_size_at(r.slots, j)
            == resident_size_at(s2, j) by {
        }
        lemma_size_frame(r.slots, s2, m.slots.len());
        lemma_prune_size(r);
    } else {
        let i = m.new_id();
        let r = m.add_new(key, address);
        if m.free.len() > 0 {
            assert(!occupied_in(m.slots, m.free[m.free.len() - 1] as int));
            assert(0 <= i < m.slots.len());
            assert(r.slots.len() == m.slots.len());
            assert forall|j: int| 0 <= j < m.slots.len() && j != i as int implies #[trigger] resident_size_at(
                m.slots,
                j,
            ) == resident_size_at(r.slots, j) by {
            }
            lemma_size_update(m.slots, r.slots, i as int, m.slots.len());
        } else {
            assert(i == m.slots.len());
            assert(r.slots.len() == m.slots.len() + 1);
            assert forall|j: int| 0 <= j < m.slots.len() implies #[trigger] resident_size_at(
                r.slots,
                j,
            ) == resident_size_at(m.slots, j) by {
            }
            lemma_size_frame(r.slots, m.slots, m.slots.len());
        }
        assert(resident_size_at(r.slots, i as int) == item_size(address));
        lemma_prune_size(r);
    }
}

/// A lookup keeps memory usage and the total record size of the resident
/// slots.
pub proof fn lemma_lirs_get_size(m: LirsModel, key: CacheKey)
    requires
        m.model_wf(),
    ensures
        m.get(key).memory_size == m.memory_size,
        m.get(key).resident_total() == m.resident_total(),
{
    if m.index.contains_key(key) {
        let i = m.index[key];
        lemma_index_facts(m, key);
        let e = m.entry(i as int);
        let m1 = if m.stack.contains(i) {
            m.move_top(i)
        } else {
            m.push_top(i)
        };
        let m2 = if !e.is_lir && e.resident {
            m1.promote(i)
        } else {
            m1
        };
        assert forall|j: int| 0 <= j < m.slots.len() implies #[trigger] resident_size_at(m2.slots, j)
            == resident_size_at(m.slots, j) by {
        }
        lemma_size_frame(m2.slots, m.slots, m.slots.len());
        lemma_prune_size(m2);
    }
}

/// Evicting one slot lowers memory usage and the total record size of the
/// resident slots alike.
pub proof fn lemma_lirs_evict_one_size(m: LirsModel)
    requires
        m.model_wf(),
        m.queue.len() > 0,
        m.memory_size == m.resident_total(),
    ensures
        m.evict_one().memory_size == m.evict_one().resident_total(),
{
    reveal(model_parts_wf);
    let v = m.queue[0];
    assert(occupied_in(m.slots, m.queue[0] as int));
    let r = m.evict_one();
    assert forall|j: int| 0 <= j < m.slots.len() && j != v as int implies #[trigger] resident_size_at(
        m.slots,
        j,
    ) == resident_size_at(r.slots, j) by {
    }
    lemma_size_update(m.slots, r.slots, v as int, m.slots.len());
}

/// The total record size of the resident slots listed in `ids`.
spec fn ids_size(slots: Seq<Option<LirsEntry>>, ids: Seq<usize>) -> nat
    decreases ids.len(),
{
    if ids.len() == 0 {
        0
    } else {
        ids_size(slots, ids.drop_last()) + resident_size_at(slots, ids.last() as int)
    }
}

/// The entries along slots in use have the size of those slots.
proof fn lemma_along_size(m: LirsModel, ids: Seq<usize>)
    requires
        forall|j: int| 0 <= j < ids.len() ==> m.occupied(#[trigger] ids[j] as int),
    ensures
        items_size(m.resident_along(ids)) == ids_size(m.slots, ids),
    decreases ids.len(),
{
    if ids.len() > 0 {
        let t = ids.drop_last();
        assert forall|j: int| 0 <= j < t.len() implies m.occupied(#[trigger] t[j] as int) by {
            assert(t[j] == ids[j]);
        }
        lemma_along_size(m, t);
        assert(m.occupied(ids[ids.len() - 1] as int));
        let rest = m.resident_along(t);
        let e = m.entry(ids.last() as int);
        if e.resident {
            assert(rest.push((e.key, e.address)).drop_last() =~= rest);
        }
    }
}

/// Taking one id out of the list takes its size out of the total.
proof fn lemma_ids_size_remove(slots: Seq<Option<LirsEntry>>, ids: Seq<usize>, p: int)
    requires
        0 <= p < ids.len(),
    ensures
        ids_size(slots, ids) == ids_size(slots, ids.remove(p)) + resident_size_at(slots, ids[p] as int),
    decreases ids.len(),
{
    if p == ids.len() - 1 {
        assert(ids.remove(p) =~= ids.drop_last());
    } else {
        let r = ids.remove(p);
        assert(r.drop_last() =~= ids.drop_last().remove(p));
        assert(r.last() == ids.last());
        lemma_ids_size_remove(slots, ids.drop_last(), p);
    }
}

/// A list without duplicates of exactly the ids in use below `n` has the
/// total size of the resident slots below `n`.
proof fn lemma_ids_size_all(slots: Seq<Option<LirsEntry>>, ids: Seq<usize>, n: nat)
    requires
        n <= usize::MAX,
        ids.no_duplicates(),
        forall|x: usize| #[trigger] ids.contains(x) <==> (x < n && occupied_in(slots, x as int)),
    ensures
        ids_size(slots, ids) == resident_size(slots, n),
    decreases n,
{
    if n == 0 {
        if ids.len() > 0 {
            assert(ids.contains(ids[0]));
        }
    } else {
        let x = (n - 1) as usize;
        if occupied_in(slots, x as int) {
            assert(ids.contains(x));
            let p = ids.index_of(x);
            assert(ids[p] == x);
            let r = ids.remove(p);
            lemma_ids_size_remove(slots, ids, p);
            assert(r.no_duplicates()) by {
                assert forall|a: int, b: int| 0 <= a < b < r.len() implies r[a] != r[b] by {
                    let a2 = if a < p { a } else { a + 1 };
                    let b2 = if b < p { b } else { b + 1 };
                    assert(r[a] == ids[a2] && r[b] == ids[b2]);
                }
            }
            assert forall|y: usize| #[trigger] r.contains(y) <==> (y < n - 1 && occupied_in(slots, y as int)) by {
                if r.contains(y) {
                    let j = choose|j: int| 0 <= j < r.len() && r[j] == y;
                    let j2 = if j < p { j } else { j + 1 };
                    assert(ids[j2] == y);
                    assert(ids.contains(y));
                    assert(j2 != p);
                }
                if y < n - 1 && occupied_in(slots, y as int) {
                    assert(ids.contains(y));
                    let j = choose|j: int| 0 <= j < ids.len() && ids[j] == y;
                    assert(j != p);
                    if j < p {
                        assert(r[j] == y);
                    } else {
                        assert(r[j - 1] == y);
                    }
                }
            }
            lemma_ids_size_all(slots, r, (n - 1) as nat);
        } else {
            assert forall|y: usize| #[trigger] ids.contains(y) <==> (y < n - 1 && occupied_in(slots, y as int)) by {
            }
            lemma_ids_size_all(slots, ids, (n - 1) as nat);
        }
    }
}

impl LirsStorage {
    /// The records of a well-formed storage are as long, in all, as the
    /// resident slots' record sizes: where memory usage is that total (as
    /// it stays through insertions of keys that were not evicted, lookups
    /// and evictions), it is the length of what a flush writes.
    pub proof fn lemma_records_are_resident_total(&self)
        requires
            self.wf(),
        ensures
            records_bytes(self@.entries()).len() == self@.resident_total(),
    {
        self.lemma_list_facts();
        let m = self@;
        assert forall|j: int| 0 <= j < m.stack.len() implies m.occupied(#[trigger] m.stack[j] as int) by {
        }
        lemma_along_size(m, m.stack);
        assert forall|x: usize| #[trigger] m.stack.contains(x) <==> (x < m.slots.len() && occupied_in(
            m.slots,
            x as int,
        )) by {
            if m.stack.contains(x) {
                let j = choose|j: int| 0 <= j < m.stack.len() && m.stack[j] == x;
                assert(m.occupied(m.stack[j] as int));
            }
            if x < m.slots.len() && occupied_in(m.slots, x as int) {
                assert(m.occupied(x as int));
            }
        }
        lemma_ids_size_all(m.slots, m.stack, m.slots.len());
        lemma_records_len(m.entries());
    }
}

/// The LIR counter counts the LIR slots, and every LIR slot is in the
/// stack.
spec fn lir_tracked(m: LirsModel) -> bool {
    &&& m.slots.len() <= usize::MAX
    &&& lir_ids_of(m.slots).finite()
    &&& m.lir_count == lir_ids_of(m.slots).len()
    &&& forall|j: usize|
        #[trigger] m.occupied(j as int) && m.entry(j as int).is_lir ==> m.stack.contains(j) && m.entry(
            j as int,
        ).resident
}

/// Every queued slot is in use and resident.
spec fn queue_resident(m: LirsModel) -> bool {
    forall|p: int|
        0 <= p < m.queue.len() ==> m.occupied(#[trigger] m.queue[p] as int) && m.entry(
            m.queue[p] as int,
        ).resident
}

/// Pruning keeps a resident LIR slot on top of the stack as it is, and out
/// of the queue, when the LIR limit is at least one: pruning demotes only
/// the bottom LIR slot, and if that were the top, it would be the only LIR
/// slot, within the limit.
proof fn lemma_prune_keeps_top_lir(m: LirsModel, i: usize)
    requires
        m.stack.no_duplicates(),
        m.stack.len() > 0,
        m.stack[0] == i,
        m.occupied(i as int),
        m.entry(i as int).resident,
        m.entry(i as int).is_lir,
        !m.queue.contains(i),
        m.lir_limit >= 1,
        lir_tracked(m),
        queue_resident(m),
    ensures
        m.prune().occupied(i as int),
        m.prune().entry(i as int) == m.entry(i as int),
        !m.prune().queue.contains(i),
        queue_resident(m.prune()),
    decreases m.stack.len(), m.lir_count,
{
    if m.stack.len() == 0 || !m.occupied(m.stack.last() as int) {
    } else {
        let s = m.stack;
        let t = s.last();
        let e = m.entry(t as int);
        if !e.resident && !e.is_lir {
            assert(t != i);
            assert(s.len() >= 2);
            let m0 = LirsModel { stack: s.drop_last(), ..m };
            let m1 = m0.free_slot(t);
            lemma_ids_update(m.slots, t as int, None);
            assert(!lir_ids_of(m.slots).contains(t as int));
            assert(lir_ids_of(m.slots).remove(t as int) =~= lir_ids_of(m.slots));
            assert(m1.stack.no_duplicates()) by {
                assert forall|a: int, b: int| 0 <= a < b < m1.stack.len() implies m1.stack[a] != m1.stack[b] by {
                    assert(m1.stack[a] == s[a] && m1.stack[b] == s[b]);
                }
            }
            assert forall|j: usize| #[trigger] m1.occupied(j as int) && m1.entry(j as int).is_lir implies m1.stack.contains(j) && m1.entry(j as int).resident by {
                assert(j != t);
                assert(m.occupied(j as int));
                assert(m.stack.contains(j));
                let p = choose|p: int| 0 <= p < s.len() && s[p] == j;
                assert(p != s.len() - 1);
                assert(m1.stack[p] == j);
            }
            assert(m1.stack[0] == i);
            assert(queue_resident(m1)) by {
                assert forall|p: int| 0 <= p < m1.queue.len() implies m1.occupied(#[trigger] m1.queue[p] as int)
                    && m1.entry(m1.queue[p] as int).resident by {
                    assert(m.occupied(m.queue[p] as int) && m.entry(m.queue[p] as int).resident);
                }
            }
            lemma_prune_keeps_top_lir(m1, i);
        } else if e.is_lir && m.lir_count > m.lir_limit {
            if t == i {
                assert(s.len() == 1) by {
                    if s.len() > 1 {
                        assert(s[0] == s[s.len() - 1]);
                    }
                }
                assert(lir_ids_of(m.slots).subset_of(set![i as int])) by {
                    assert forall|x: int| #[trigger] lir_ids_of(m.slots).contains(x) implies set![i as int].contains(x) by {
                        let u = x as usize;
                        assert(u as int == x);
                        assert(m.occupied(u as int) && m.entry(u as int).is_lir);
                        assert(m.stack.contains(u));
                        let p = choose|p: int| 0 <= p < s.len() && s[p] == u;
                        assert(p == 0);
                    }
                }
                lemma_len_subset(lir_ids_of(m.slots), set![i as int]);
                assert(set![i as int].len() == 1);
                assert(false);
            }
            let m1 = LirsModel {
                slots: m.slots.update(t as int, Some(LirsEntry { is_lir: false, ..e })),
                lir_count: (m.lir_count - 1) as usize,
                ..m
            };
            lemma_ids_update(m.slots, t as int, Some(LirsEntry { is_lir: false, ..e }));
            assert(lir_ids_of(m.slots).contains(t as int));
            assert(lir_tracked(m1)) by {
                assert forall|j: usize| #[trigger] m1.occupied(j as int) && m1.entry(j as int).is_lir implies m1.stack.contains(j) && m1.entry(j as int).resident by {
                    assert(j != t);
                    assert(m.occupied(j as int));
                }
            }
            assert(queue_resident(m1)) by {
                assert forall|p: int| 0 <= p < m1.queue.len() implies m1.occupied(#[trigger] m1.queue[p] as int)
                    && m1.entry(m1.queue[p] as int).resident by {
                    assert(m.occupied(m.queue[p] as int) && m.entry(m.queue[p] as int).resident);
                }
            }
            if m1.queue.contains(t) {
                lemma_prune_keeps_top_lir(m1, i);
            } else {
                let m2 = m1.enqueue(t);
                assert(queue_resident(m2)) by {
                    assert forall|p: int| 0 <= p < m2.queue.len() implies m2.occupied(#[trigger] m2.queue[p] as int)
                        && m2.entry(m2.queue[p] as int).resident by {
                        if p < m1.queue.len() {
                            assert(m2.queue[p] == m1.queue[p]);
                        }
                    }
                }
                assert(!m2.queue.contains(i)) by {
                    if m2.queue.contains(i) {
                        let p = choose|p: int| 0 <= p < m2.queue.len() && m2.queue[p] == i;
                        if p < m1.queue.len() {
                            assert(m1.queue[p] == i);
                        }
                    }
                }
                assert(lir_tracked(m2)) by {
                    assert forall|j: usize| #[trigger] m2.occupied(j as int) && m2.entry(j as int).is_lir implies m2.stack.contains(j) && m2.entry(j as int).resident by {
                        assert(m1.occupied(j as int));
                    }
                }
                lemma_prune_keeps_top_lir(m2, i);
            }
        }
    }
}

/// Evictions keep a resident slot that is not in the queue as it is, and
/// keep the index.
proof fn lemma_evict_n_keeps(m: LirsModel, i: int, n: nat)
    requires
        m.occupied(i),
        m.entry(i).resident,
        forall|p: int| 0 <= p < m.queue.len() ==> #[trigger] m.queue[p] as int != i,
        forall|p: int| 0 <= p < m.queue.len() ==> m.occupied(#[trigger] m.queue[p] as int),
    ensures
        m.evict_n(n).occupied(i),
        m.evict_n(n).entry(i) == m.entry(i),
        m.evict_n(n).index == m.index,
    decreases n,
{
    if n > 0 && m.queue.len() > 0 {
        let m1 = m.evict_one();
        assert(m.queue[0] as int != i);
        assert(m.occupied(m.queue[0] as int));
        assert forall|p: int| 0 <= p < m1.queue.len() implies #[trigger] m1.queue[p] as int != i by {
            assert(m1.queue[p] == m.queue[p + 1]);
        }
        assert forall|p: int| 0 <= p < m1.queue.len() implies m1.occupied(#[trigger] m1.queue[p] as int) by {
            assert(m1.queue[p] == m.queue[p + 1]);
            assert(m.occupied(m.queue[p + 1] as int));
        }
        lemma_evict_n_keeps(m1, i, (n - 1) as nat);
    }
}

/// Moving a slot of a stack without duplicates to its top keeps it without
/// duplicates.
proof fn lemma_move_top_nodup(s: Seq<usize>, i: usize)
    requires
        s.no_duplicates(),
        s.contains(i),
    ensures
        (seq![i] + s.remove(s.index_of(i))).no_duplicates(),
{
    let k = s.index_of(i);
    assert(s[k] == i);
    let r = s.remove(k);
    let t = seq![i] + r;
    assert forall|a: int, b: int| 0 <= a < b < t.len() implies t[a] != t[b] by {
        let b2 = if b - 1 < k { b - 1 } else { b };
        assert(t[b] == s[b2]);
        assert(b2 != k);
        if a == 0 {
        } else {
            let a2 = if a - 1 < k { a - 1 } else { a };
            assert(t[a] == s[a2]);
        }
    }
}

/// After a promotion of slot `i`, resident and HIR, on top of the stack,
/// the LIR slots are still tracked and `i` is out of the queue.
proof fn lemma_promote_tracked(m: LirsModel, i: usize)
    requires
        m.occupied(i as int),
        m.entry(i as int).resident,
        !m.entry(i as int).is_lir,
        m.stack.contains(i),
        m.queue.no_duplicates(),
        lir_tracked(m),
    ensures
        lir_tracked(m.promote(i)),
        !m.promote(i).queue.contains(i),
        m.promote(i).stack == m.stack,
        m.promote(i).occupied(i as int),
        m.promote(i).entry(i as int) == (LirsEntry { is_lir: true, ..m.entry(i as int) }),
{
    let q = m.remove_from_queue(i);
    let r = m.promote(i);
    assert(!q.queue.contains(i)) by {
        if m.queue.contains(i) {
            let k = m.queue.index_of(i);
            assert(m.queue[k] == i);
            if q.queue.contains(i) {
                let p = choose|p: int| 0 <= p < q.queue.len() && q.queue[p] == i;
                let p2 = if p < k { p } else { p + 1 };
                assert(m.queue[p2] == i);
            }
        }
    }
    lemma_ids_update(m.slots, i as int, Some(LirsEntry { is_lir: true, ..m.entry(i as int) }));
    assert(!lir_ids_of(m.slots).contains(i as int));
    lemma_ids_bounded(m.slots, i as int);
    assert forall|j: usize| #[trigger] r.occupied(j as int) && r.entry(j as int).is_lir implies r.stack.contains(j) && r.entry(j as int).resident by {
        if j != i {
            assert(m.occupied(j as int));
        }
    }
}

/// After pruning a model with slot `i` resident, LIR and on top of the
/// stack (see [`lemma_prune_keeps_top_lir`]), slot `i` is as it was, out of
/// the queue, and no number of evictions changes it or the index.
proof fn lemma_hot_prune(r: LirsModel, i: usize)
    requires
        r.stack.no_duplicates(),
        r.stack.len() > 0,
        r.stack[0] == i,
        r.occupied(i as int),
        r.entry(i as int).resident,
        r.entry(i as int).is_lir,
        !r.queue.contains(i),
        r.lir_limit >= 1,
        lir_tracked(r),
        queue_resident(r),
    ensures
        r.prune().occupied(i as int),
        r.prune().entry(i as int) == r.entry(i as int),
        !r.prune().queue.contains(i),
        forall|n: nat|
            #![trigger r.prune().evict_n(n)]
            r.prune().evict_n(n).occupied(i as int) && r.prune().evict_n(n).entry(i as int) == r.entry(
                i as int,
            ) && r.prune().evict_n(n).index == r.prune().index,
{
    lemma_prune_keeps_top_lir(r, i);
    let after = r.prune();
    assert forall|p: int| 0 <= p < after.queue.len() implies #[trigger] after.queue[p] as int != i as int by {
        if after.queue[p] == i {
            assert(after.queue.contains(i));
        }
    }
    assert forall|p: int| 0 <= p < after.queue.len() implies after.occupied(#[trigger] after.queue[p] as int) by {
    }
    assert forall|n: nat|
        #![trigger after.evict_n(n)]
        after.evict_n(n).occupied(i as int) && after.evict_n(n).entry(i as int) == r.entry(i as int)
            && after.evict_n(n).index == after.index by {
        lemma_evict_n_keeps(after, i as int, n);
    }
}

impl LirsStorage {
    /// A lookup of a resident key leaves its slot LIR and out of the HIR
    /// queue, with its key and address (a resident HIR slot is promoted),
    /// when the LIR limit is at least one: no number of evictions then takes
    /// it, and with an exact index the key still gives its address after
    /// them.
    pub proof fn lemma_get_keeps_hot(&self, key: CacheKey)
        requires
            self.wf(),
            self@.lir_limit >= 1,
            self@.index.contains_key(key),
            self@.entry(self@.index[key] as int).resident,
        ensures
            ({
                let i = self@.index[key] as int;
                let a = self@.entry(i).address;
                let after = self@.get(key);
                &&& after.occupied(i)
                &&& after.entry(i).resident
                &&& after.entry(i).is_lir
                &&& after.entry(i).key == key
                &&& after.entry(i).address == a
                &&& !after.queue.contains(i as usize)
                &&& forall|n: nat|
                    #![trigger after.evict_n(n)]
                    after.evict_n(n).occupied(i) && after.evict_n(n).entry(i).resident && after.evict_n(
                        n,
                    ).entry(i).address == a
                &&& self@.index_exact() ==> forall|n: nat|
                    #[trigger] after.evict_n(n).get_result(key) == Some(a)
            }),
    {
        let m = self@;
        self.lemma_list_facts();
        lemma_index_facts(m, key);
        let i = m.index[key];
        let e = m.entry(i as int);
        reveal(counts_parts_wf);
        assert(m.stack.contains(i));
        assert(lir_tracked(m)) by {
            assert forall|j: usize| #[trigger] m.occupied(j as int) && m.entry(j as int).is_lir implies m.stack.contains(j) && m.entry(j as int).resident by {
            }
        }
        let m1 = m.move_top(i);
        lemma_move_top_nodup(m.stack, i);
        lemma_move_top_elems(m.stack, i);
        assert(m1.stack[0] == i);
        assert(lir_tracked(m1)) by {
            assert forall|j: usize| #[trigger] m1.occupied(j as int) && m1.entry(j as int).is_lir implies m1.stack.contains(j) && m1.entry(j as int).resident by {
                assert(m.occupied(j as int) && m.entry(j as int).is_lir);
                assert(m.stack.contains(j));
            }
        }
        let m2 = if !e.is_lir && e.resident {
            m1.promote(i)
        } else {
            m1
        };
        if !e.is_lir {
            lemma_promote_tracked(m1, i);
        } else {
            assert(!m.queue.contains(i));
        }
        assert(m.get(key) == m2.prune());
        assert(queue_resident(m2)) by {
            assert forall|p: int| 0 <= p < m2.queue.len() implies m2.occupied(#[trigger] m2.queue[p] as int)
                && m2.entry(m2.queue[p] as int).resident by {
                assert(m.queue.contains(m2.queue[p]));
            }
        }
        lemma_hot_prune(m2, i);
        let after = m2.prune();
        if m.index_exact() {
            lemma_lirs_get(m, key);
            assert(after.index[key] == i);
            assert forall|n: nat| #[trigger] after.evict_n(n).get_result(key) == Some(e.address) by {
                assert(after.evict_n(n).index == after.index);
            }
        }
    }

    /// An insertion under an indexed key leaves its slot resident, LIR and
    /// out of the HIR queue with the new address, whatever its earlier
    /// status, when the LIR limit is at least one: no number of evictions
    /// then takes it, and with an exact index the key gives the new address
    /// after them.
    pub proof fn lemma_insert_keeps_hot(&self, key: CacheKey, address: Seq<char>)
        requires
            self.wf(),
            self@.lir_limit >= 1,
            self@.index.contains_key(key),
        ensures
            ({
                let i = self@.index[key] as int;
                let after = self@.insert(key, address);
                &&& after.occupied(i)
                &&& after.entry(i).resident
                &&& after.entry(i).is_lir
                &&& after.entry(i).key == key
                &&& after.entry(i).address == address
                &&& !after.queue.contains(i as usize)
                &&& forall|n: nat|
                    #![trigger after.evict_n(n)]
                    after.evict_n(n).occupied(i) && after.evict_n(n).entry(i).resident && after.evict_n(
                        n,
                    ).entry(i).address == address
                &&& self@.index_exact() ==> forall|n: nat|
                    #[trigger] after.evict_n(n).get_result(key) == Some(address)
            }),
    {
        let m = self@;
        self.lemma_list_facts();
        lemma_index_facts(m, key);
        let i = m.index[key];
        let e = m.entry(i as int);
        reveal(counts_parts_wf);
        assert(m.stack.contains(i));
        let e1 = LirsEntry { address, resident: true, ..e };
        let m1 = LirsModel {
            slots: m.slots.update(i as int, Some(e1)),
            resident_count: if e.resident {
                m.resident_count
            } else {
                (m.resident_count + 1) as usize
            },
            memory_size: if e.resident {
                m.replaced_memory(i, address)
            } else {
                (m.replaced_memory(i, address) + 21) as usize
            },
            ..m
        };
        lemma_ids_update(m.slots, i as int, Some(e1));
        assert(lir_ids_of(m1.slots) =~= lir_ids_of(m.slots));
        assert(lir_tracked(m1)) by {
            assert forall|j: usize| #[trigger] m1.occupied(j as int) && m1.entry(j as int).is_lir implies m1.stack.contains(j) && m1.entry(j as int).resident by {
                assert(m.occupied(j as int));
            }
        }
        let m2 = m1.move_top(i);
        lemma_move_top_nodup(m.stack, i);
        lemma_move_top_elems(m.stack, i);
        assert(m2.stack[0] == i);
        assert(lir_tracked(m2)) by {
            assert forall|j: usize| #[trigger] m2.occupied(j as int) && m2.entry(j as int).is_lir implies m2.stack.contains(j) && m2.entry(j as int).resident by {
                assert(m1.occupied(j as int) && m1.entry(j as int).is_lir);
                assert(m1.stack.contains(j));
            }
        }
        let r = if !e.is_lir {
            m2.promote(i)
        } else {
            m2
        };
        assert(r == m.refresh(i, address));
        if !e.is_lir {
            lemma_promote_tracked(m2, i);
        } else {
            assert(!m.queue.contains(i));
        }
        assert(m.insert(key, address) == r.prune());
        assert(queue_resident(r)) by {
            assert forall|p: int| 0 <= p < r.queue.len() implies r.occupied(#[trigger] r.queue[p] as int)
                && r.entry(r.queue[p] as int).resident by {
                assert(m.queue.contains(r.queue[p]));
            }
        }
        lemma_hot_prune(r, i);
        let after = r.prune();
        if m.index_exact() {
            lemma_lirs_insert(m, key, address);
            assert(after.index.contains_key(after.entry(i as int).key) && after.index[after.entry(
                i as int,
            ).key] as int == i as int);
            assert forall|n: nat| #[trigger] after.evict_n(n).get_result(key) == Some(address) by {
                assert(after.evict_n(n).index == after.index);
            }
        }
    }
}

impl LirsStorage {
    /// The links agree with the model: following `next` from the stack
    /// head spells the model's stack (and `prev` spells it backwards),
    /// following `queue_next` from the queue head spells its queue, the
    /// membership flags tell membership, and the model's own invariants
    /// hold.
    pub closed spec fn core_wf(&self) -> bool {
        &&& self.slots@.len() <= usize::MAX
        &&& stack_linked(self.slots@, self.stack@, self.stack_head, self.stack_tail)
        &&& queue_linked(self.slots@, self.queue@, self.queue_head, self.queue_tail)
        &&& self@.model_wf()
    }

    /// The storage is well formed.
    pub closed spec fn wf(&self) -> bool {
        self.core_wf() && self@.counts_wf() && self@.all_stacked()
    }

    /// Well-formedness is link agreement together with the model's counters
    /// and every slot in use being in the stack.
    pub proof fn lemma_wf_parts(&self)
        ensures
            self.wf() <==> (self.core_wf() && self@.counts_wf() && self@.all_stacked()),
    {
    }

    /// On a storage whose index is exact (one built by inserts, lookups and
    /// evictions), an insertion makes the key hold the address and come
    /// first, leaves every other key's lookup result (residency and
    /// address) as it was, and adds one to the resident count exactly when
    /// the key was not resident.
    pub proof fn lemma_insert_law(&self, key: CacheKey, address: Seq<char>)
        requires
            self.wf(),
            self@.index_exact(),
        ensures
            self@.insert(key, address).get_result(key) == Some(address),
            self@.insert(key, address).entries().len() > 0,
            self@.insert(key, address).entries()[0] == (key, address),
            forall|other: CacheKey|
                other != key ==> #[trigger] self@.insert(key, address).get_result(other)
                    == self@.get_result(other),
            self@.insert(key, address).resident_count == if self@.get_result(key) is Some {
                self@.resident_count
            } else {
                (self@.resident_count + 1) as usize
            },
    {
        lemma_lirs_insert(self@, key, address);
        lemma_lirs_insert_others(self@, key, address);
    }

    /// The model of a well-formed storage is valid, as the laws on models
    /// ask.
    pub proof fn lemma_model_valid(&self)
        requires
            self.wf(),
        ensures
            self@.model_wf(),
            self@.slots.len() <= usize::MAX,
    {
    }
}

} // verus!
