//! The manager of the object cache: a table of cache entries, chained to a
//! successor when it is full. It serves requests of the cached sizes from
//! its entries and passes larger ones on to the buddy allocator.

use crate::buddy_allocator::{
    ceil_power_2, ceil_to_power_2, is_ceil_power_2, lemma_ceil_power_2,
    lemma_ceil_power_2_of_power, BuddyAllocator, Heap,
};
use crate::mcache::{
    cache_sizes, insert_sorted, lemma_objsize, object_addr, objsize, to_objsize, CachePage,
    CacheView, CACHE_HEADER_SIZE, CACHE_NUM, CACHE_OBJ_COUNT,
};
use crate::power::lemma_order_of_pow2;
use crate::PAGE_SIZE;
use vstd::arithmetic::power2::{lemma2_to64, lemma_pow2_strictly_increases, pow2};
use vstd::prelude::*;

verus! {

/// Page numbers of a heap that the cache draws on are below this, so that
/// the address of every page fits in 64 bits.
pub const CACHE_PAGE_LIMIT: u64 = 0x8_0000_0000_0000;

/// The entries of one manager's table.
pub type CacheTable = Seq<Option<CacheView>>;

/// Number of pages of a new cache entry for objects of `obj_size` bytes.
pub open spec fn cache_pages(obj_size: u64) -> int {
    ceil_power_2(CACHE_OBJ_COUNT * obj_size / (PAGE_SIZE as int))
}

/// Number of pages that a request of `size` bytes above the cached sizes
/// is served with: the least power of two of pages that holds `size` bytes.
pub open spec fn large_pages(size: u64) -> int {
    ceil_power_2((size + PAGE_SIZE - 1) / (PAGE_SIZE as int))
}

/// The pages of a large request hold its bytes, and no lesser power of two
/// of pages does.
pub proof fn lemma_large_pages(size: u64)
    ensures
        is_ceil_power_2((size + PAGE_SIZE - 1) / (PAGE_SIZE as int), large_pages(size)),
        large_pages(size) * PAGE_SIZE >= size,
        forall|k: nat| k < 64 && pow2(k) * PAGE_SIZE >= size ==> large_pages(size) <= pow2(k),
{
    let pages = (size + PAGE_SIZE - 1) / (PAGE_SIZE as int);
    lemma_ceil_power_2(pages);
    let n = large_pages(size);
    let j = choose|j: nat|
        j < 64 && n == #[trigger] pow2(j) && pages <= n && (j > 0 ==> pow2((j - 1) as nat) < pages);
    assert forall|k: nat| k < 64 && pow2(k) * PAGE_SIZE >= size implies n <= pow2(k) by {
        assert(pages <= pow2(k));
        if k < j {
            if k < j - 1 {
                lemma_pow2_strictly_increases(k, (j - 1) as nat);
            }
        } else if j < k {
            lemma_pow2_strictly_increases(j, k);
        }
    }
}

/// Number of pages that a request of `size` bytes above the cached sizes is served with.
pub fn large_page_count(size: u64) -> (n: u64)
    ensures
        n == large_pages(size),
        n * PAGE_SIZE >= size,
{
    proof {
        lemma_large_pages(size);
    }
    let rest: u64 = if size % PAGE_SIZE == 0 {
        0
    } else {
        1
    };
    ceil_to_power_2(size / PAGE_SIZE + rest)
}

/// Number of object slots of an entry of `page_num` pages.
pub open spec fn cache_slots(page_num: u64, obj_size: u64) -> int {
    (page_num * PAGE_SIZE) / (obj_size as int)
}

/// Number of object slots that the header of an entry takes.
pub open spec fn cache_reserved(obj_size: u64) -> int {
    (CACHE_HEADER_SIZE + obj_size - 1) / (obj_size as int)
}

/// A new cache entry: all objects behind the header are free.
pub open spec fn fresh_cache(page_start: u64, page_num: u64, obj_size: u64) -> CacheView {
    CacheView {
        page_start,
        page_num,
        obj_size,
        free: Seq::new(
            (cache_slots(page_num, obj_size) - cache_reserved(obj_size)) as nat,
            |i: int| object_addr(page_start, obj_size, cache_reserved(obj_size) + i) as u64,
        ),
        allocated: 0,
    }
}

/// The entry after its last free object went out.
pub open spec fn taken(c: CacheView) -> CacheView {
    CacheView { free: c.free.drop_last(), allocated: c.allocated + 1, ..c }
}

/// The entry after the object at `ptr` came back.
pub open spec fn given_back(c: CacheView, ptr: u64) -> CacheView {
    CacheView { free: insert_sorted(c.free, ptr), allocated: (c.allocated - 1) as nat, ..c }
}

/// Entry `i` of the table is for objects of `obj_size` bytes and has a free one.
pub open spec fn serves(table: CacheTable, obj_size: u64, i: int) -> bool {
    &&& 0 <= i < table.len()
    &&& table[i] is Some
    &&& table[i]->0.obj_size == obj_size
    &&& table[i]->0.free.len() > 0
}

/// The first entry from the `i`-th on that serves `obj_size`; the table's length where none does.
pub open spec fn first_serving(table: CacheTable, obj_size: u64, i: int) -> int
    decreases table.len() - i,
{
    if i < 0 || i >= table.len() {
        table.len() as int
    } else if serves(table, obj_size, i) {
        i
    } else {
        first_serving(table, obj_size, i + 1)
    }
}

/// The first empty slot from the `i`-th on; the table's length where there is none.
pub open spec fn first_room(table: CacheTable, i: int) -> int
    decreases table.len() - i,
{
    if i < 0 || i >= table.len() {
        table.len() as int
    } else if table[i] is None {
        i
    } else {
        first_room(table, i + 1)
    }
}

/// `ptr` lies in the pages of the entry.
pub open spec fn entry_holds(c: CacheView, ptr: u64) -> bool {
    c.page_start <= ptr < c.page_start + c.page_num * PAGE_SIZE
}

/// The first entry from the `i`-th on whose pages hold `ptr`; the table's length where none does.
pub open spec fn first_holding(table: CacheTable, ptr: u64, i: int) -> int
    decreases table.len() - i,
{
    if i < 0 || i >= table.len() {
        table.len() as int
    } else if table[i] is Some && entry_holds(table[i]->0, ptr) {
        i
    } else {
        first_holding(table, ptr, i + 1)
    }
}

/// A table without entries.
pub open spec fn empty_table() -> CacheTable {
    Seq::new(CACHE_NUM as nat, |i: int| None::<CacheView>)
}

/// The entry that a table without a serving entry gets for `obj_size`, in pages from `heap`.
pub open spec fn new_entry(heap: Heap, obj_size: u64) -> CacheView {
    fresh_cache(
        (heap.alloc_base(cache_pages(obj_size)) * PAGE_SIZE) as u64,
        cache_pages(obj_size) as u64,
        obj_size,
    )
}

/// The tables, the heap and the address handed out after a request for an
/// object of `obj_size` bytes: the first table that has a serving entry or
/// an empty slot serves it, from the first serving entry or else from a
/// new entry in the first empty slot; behind the last table a new one is
/// opened.
pub open spec fn served(tables: Seq<CacheTable>, heap: Heap, obj_size: u64) -> (
    Seq<CacheTable>,
    Heap,
    u64,
)
    decreases tables.len(),
{
    if tables.len() == 0 {
        let c = new_entry(heap, obj_size);
        (
            seq![empty_table().update(0, Some(taken(c)))],
            heap.after_alloc(cache_pages(obj_size)),
            c.free.last(),
        )
    } else {
        let t = tables[0];
        let hit = first_serving(t, obj_size, 0);
        let room = first_room(t, 0);
        if hit < t.len() {
            (tables.update(0, t.update(hit, Some(taken(t[hit]->0)))), heap, t[hit]->0.free.last())
        } else if room < t.len() {
            let c = new_entry(heap, obj_size);
            (
                tables.update(0, t.update(room, Some(taken(c)))),
                heap.after_alloc(cache_pages(obj_size)),
                c.free.last(),
            )
        } else {
            let rest = served(tables.drop_first(), heap, obj_size);
            (seq![t] + rest.0, rest.1, rest.2)
        }
    }
}

/// Whether serving a request for `obj_size` bytes takes pages from the heap.
pub open spec fn opens_entry(tables: Seq<CacheTable>, obj_size: u64) -> bool
    decreases tables.len(),
{
    if tables.len() == 0 {
        true
    } else if first_serving(tables[0], obj_size, 0) < tables[0].len() {
        false
    } else if first_room(tables[0], 0) < tables[0].len() {
        true
    } else {
        opens_entry(tables.drop_first(), obj_size)
    }
}

/// The tables and the heap after the object at `ptr` came back: it goes
/// to the first entry whose pages hold it, and an entry without objects
/// that are out gives its pages back and leaves its slot. Where no entry
/// holds it nothing changes.
pub open spec fn released(tables: Seq<CacheTable>, heap: Heap, ptr: u64) -> (Seq<CacheTable>, Heap)
    decreases tables.len(),
{
    if tables.len() == 0 {
        (tables, heap)
    } else {
        let t = tables[0];
        let i = first_holding(t, ptr, 0);
        if i < t.len() {
            let c = t[i]->0;
            if c.allocated == 1 {
                (
                    tables.update(0, t.update(i, None)),
                    heap.after_free(c.page_start as int / (PAGE_SIZE as int), c.page_num as int),
                )
            } else {
                (tables.update(0, t.update(i, Some(given_back(c, ptr)))), heap)
            }
        } else {
            let rest = released(tables.drop_first(), heap, ptr);
            (seq![t] + rest.0, rest.1)
        }
    }
}

/// The entry that the object at `ptr` goes back to, if any.
pub open spec fn owner(tables: Seq<CacheTable>, ptr: u64) -> Option<CacheView>
    decreases tables.len(),
{
    if tables.len() == 0 {
        None
    } else if first_holding(tables[0], ptr, 0) < tables[0].len() {
        tables[0][first_holding(tables[0], ptr, 0)]
    } else {
        owner(tables.drop_first(), ptr)
    }
}

/// Where `first_serving` points, and that no entry before it serves.
pub proof fn lemma_first_serving(table: CacheTable, obj_size: u64, i: int)
    requires
        0 <= i <= table.len(),
    ensures
        i <= first_serving(table, obj_size, i) <= table.len(),
        first_serving(table, obj_size, i) < table.len() ==> serves(
            table,
            obj_size,
            first_serving(table, obj_size, i),
        ),
        forall|j: int| i <= j < first_serving(table, obj_size, i) ==> !serves(table, obj_size, j),
    decreases table.len() - i,
{
    if i < table.len() && !serves(table, obj_size, i) {
        lemma_first_serving(table, obj_size, i + 1);
    }
}

/// Where `first_room` points, and that no slot before it is empty.
pub proof fn lemma_first_room(table: CacheTable, i: int)
    requires
        0 <= i <= table.len(),
    ensures
        i <= first_room(table, i) <= table.len(),
        first_room(table, i) < table.len() ==> table[first_room(table, i)] is None,
        forall|j: int| i <= j < first_room(table, i) ==> (#[trigger] table[j]) is Some,
    decreases table.len() - i,
{
    if i < table.len() && table[i] is Some {
        lemma_first_room(table, i + 1);
    }
}

/// Where `first_holding` points, and that no entry before it holds `ptr`.
pub proof fn lemma_first_holding(table: CacheTable, ptr: u64, i: int)
    requires
        0 <= i <= table.len(),
    ensures
        i <= first_holding(table, ptr, i) <= table.len(),
        first_holding(table, ptr, i) < table.len() ==> table[first_holding(table, ptr, i)] is Some
            && entry_holds(table[first_holding(table, ptr, i)]->0, ptr),
        forall|j: int|
            i <= j < first_holding(table, ptr, i) ==> !((#[trigger] table[j]) is Some
                && entry_holds(table[j]->0, ptr)),
    decreases table.len() - i,
{
    if i < table.len() && !(table[i] is Some && entry_holds(table[i]->0, ptr)) {
        lemma_first_holding(table, ptr, i + 1);
    }
}

/// The pages of a new entry for a cached size: an eighth of the size, which
/// makes 512 slots.
pub proof fn lemma_cache_pages(obj_size: u64)
    requires
        cache_sizes().contains(obj_size),
    ensures
        cache_pages(obj_size) == obj_size / 8,
        crate::power::is_power_2(cache_pages(obj_size)),
        crate::power::order_of(cache_pages(obj_size)) < 64,
        cache_slots((obj_size / 8) as u64, obj_size) == CACHE_OBJ_COUNT,
        cache_reserved(obj_size) == 1,
{
    lemma2_to64();
    let k = choose|k: int| 0 <= k < 16 && cache_sizes()[k] == obj_size;
    assert(cache_sizes()[k] == obj_size);
    let e: nat = if k < 7 {
        (k + 3) as nat
    } else {
        (k + 4) as nat
    };
    assert(pow2(e) == obj_size / 8);
    assert(CACHE_OBJ_COUNT * obj_size / (PAGE_SIZE as int) == obj_size / 8);
    lemma_ceil_power_2_of_power(e);
    lemma_order_of_pow2(e);
    let pages = obj_size / 8;
    assert(obj_size == 8 * pages && obj_size >= CACHE_HEADER_SIZE);
    assert(pages * PAGE_SIZE == CACHE_OBJ_COUNT * obj_size);
    vstd::arithmetic::div_mod::lemma_div_multiples_vanish(CACHE_OBJ_COUNT as int, obj_size as int);
    vstd::arithmetic::div_mod::lemma_fundamental_div_mod_converse(
        CACHE_HEADER_SIZE + obj_size - 1,
        obj_size as int,
        1,
        CACHE_HEADER_SIZE - 1,
    );
}

/// `ptr` is the address of an object of the entry.
pub open spec fn is_object_of(c: CacheView, ptr: u64) -> bool {
    exists|k: int|
        cache_reserved(c.obj_size) <= k < cache_slots(c.page_num, c.obj_size) && ptr
            == #[trigger] object_addr(c.page_start, c.obj_size, k)
}

/// A request of `size` bytes can be served: where it takes pages from
/// the heap, the heap has them, and their addresses fit in 64 bits.
pub open spec fn can_serve(tables: Seq<CacheTable>, heap: Heap, size: u64) -> bool {
    match objsize(size) {
        Some(s) => opens_entry(tables, s) ==> heap.can_alloc(cache_pages(s)) && heap.start
            + heap.pages <= CACHE_PAGE_LIMIT,
        None => heap.can_alloc(large_pages(size)) && heap.start + heap.pages <= CACHE_PAGE_LIMIT,
    }
}

/// The object at `ptr` can come back: it is an object that is out of the
/// entry that holds it, and where this leaves the entry without objects
/// that are out, the heap can take its pages.
pub open spec fn can_release_object(tables: Seq<CacheTable>, heap: Heap, ptr: u64) -> bool {
    match owner(tables, ptr) {
        Some(c) => {
            &&& is_object_of(c, ptr)
            &&& !c.free.contains(ptr)
            &&& c.allocated == 1 ==> heap.can_free(
                c.page_start as int / (PAGE_SIZE as int),
                c.page_num as int,
            )
        },
        None => true,
    }
}

/// What was served with `size` bytes at `ptr` can come back: it is an
/// object that is out of the entry that holds it, and where this leaves
/// the entry without objects that are out, the heap can take its pages; a
/// large one is a run of pages that the heap can take.
pub open spec fn can_release(tables: Seq<CacheTable>, heap: Heap, ptr: u64, size: u64) -> bool {
    match objsize(size) {
        Some(s) => can_release_object(tables, heap, ptr),
        None => heap.can_free(ptr as int / (PAGE_SIZE as int), large_pages(size)),
    }
}

/// The manager of the object cache.
pub struct CacheManager {
    /// The cache entries; a slot without one is empty.
    pub caches: Vec<Option<CachePage>>,
    /// The manager that takes over where this one is full.
    pub next: Option<Box<CacheManager>>,
    /// Whether no slot is empty.
    pub is_cache_full: bool,
}

impl View for CacheManager {
    type V = Seq<CacheTable>;

    /// The tables of this manager and of its successors.
    open spec fn view(&self) -> Seq<CacheTable> {
        self.tables()
    }
}

impl Default for CacheManager {
    fn default() -> (m: Self)
        ensures
            m.wf(),
            m@ == seq![empty_table()],
            m.depth() == 0,
            !m.is_cache_full,
    {
        let mut caches: Vec<Option<CachePage>> = Vec::new();
        let mut i: usize = 0;
        while i < CACHE_NUM
            invariant
                i <= CACHE_NUM,
                caches@.len() == i,
                forall|j: int| 0 <= j < i ==> (#[trigger] caches@[j]) is None,
            decreases CACHE_NUM - i,
        {
            caches.push(None);
            i += 1;
        }
        let m = CacheManager { caches, next: None, is_cache_full: false };
        proof {
            assert(m.table() =~= empty_table());
            assert(m@ =~= seq![empty_table()]);
            assert(first_room(m.table(), 0) == 0);
        }
        m
    }
}

impl CacheManager {
    /// The entries of this manager's table.
    pub open spec fn table(&self) -> CacheTable {
        Seq::new(
            self.caches@.len(),
            |i: int|
                match self.caches@[i] {
                    Some(c) => Some(c@),
                    None => None::<CacheView>,
                },
        )
    }

    /// The tables of this manager and of its successors.
    pub open spec fn tables(&self) -> Seq<CacheTable>
        decreases self,
    {
        seq![self.table()] + match self.next {
            Some(n) => n.tables(),
            None => Seq::<CacheTable>::empty(),
        }
    }

    /// Number of successors.
    pub open spec fn depth(&self) -> nat
        decreases self,
    {
        match self.next {
            Some(n) => 1 + n.depth(),
            None => 0,
        }
    }

    /// The manager's invariant: every entry is sound and has objects that
    /// are out, the table is marked full where no slot is empty, and the
    /// successor is sound.
    pub closed spec fn wf(&self) -> bool
        decreases self,
    {
        &&& self.caches@.len() == CACHE_NUM
        &&& forall|i: int|
            0 <= i < CACHE_NUM ==> ((#[trigger] self.caches@[i]) matches Some(c) ==> c.wf()
                && c@.allocated > 0)
        &&& self.is_cache_full == (first_room(self.table(), 0) == CACHE_NUM)
        &&& (self.next matches Some(n) ==> n.wf())
    }

    /// Puts a cache entry into the first empty slot.
    fn add_cache(&mut self, cache: CachePage)
        requires
            old(self).caches@.len() == CACHE_NUM,
            first_room(old(self).table(), 0) < CACHE_NUM,
        ensures
            final(self).caches@ == old(self).caches@.update(
                first_room(old(self).table(), 0),
                Some(cache),
            ),
            final(self).next == old(self).next,
            final(self).is_cache_full == (first_room(final(self).table(), 0) == CACHE_NUM),
    {
        let ghost room = first_room(self.table(), 0);
        proof {
            lemma_first_room(self.table(), 0);
        }
        let mut i: usize = 0;
        while i < CACHE_NUM && self.caches[i].is_some()
            invariant
                i <= room < CACHE_NUM,
                *self == *old(self),
                room == first_room(self.table(), 0),
                self.caches@.len() == CACHE_NUM,
                forall|j: int| 0 <= j < room ==> (#[trigger] self.table()[j]) is Some,
                self.table()[room] is None,
            decreases CACHE_NUM - i,
        {
            proof {
                assert(self.table()[i as int] is Some);
            }
            i += 1;
        }
        assert(i == room) by {
            if i < room {
                assert(self.table()[i as int] is Some);
            }
        }
        self.caches.set(i, Some(cache));
        let mut full = true;
        let mut j: usize = i + 1;
        while j < CACHE_NUM
            invariant
                i < j <= CACHE_NUM,
                self.caches@.len() == CACHE_NUM,
                full == (forall|k: int| i < k < j ==> (#[trigger] self.caches@[k]) is Some),
            decreases CACHE_NUM - j,
        {
            if self.caches[j].is_none() {
                full = false;
            }
            j += 1;
        }
        self.is_cache_full = full;
        proof {
            let t = self.table();
            lemma_first_room(t, 0);
            assert forall|k: int| 0 <= k <= i implies (#[trigger] t[k]) is Some by {
                if k < i {
                    assert(old(self).table()[k] is Some);
                }
            }
            if full {
                assert forall|k: int| 0 <= k < CACHE_NUM implies (#[trigger] t[k]) is Some by {
                    if k > i {
                        assert(self.caches@[k] is Some);
                    }
                }
            } else {
                let k = choose|k: int| i < k < CACHE_NUM && !((#[trigger] self.caches@[k]) is Some);
                assert(t[k] is None);
            }
        }
    }

    /// A vector of `n` zero words.
    fn zero_words(n: usize) -> (words: Vec<u64>)
        ensures
            words@.len() == n,
    {
        let mut words: Vec<u64> = Vec::new();
        let mut i: usize = 0;
        while i < n
            invariant
                i <= n,
                words@.len() == i,
            decreases n - i,
        {
            words.push(0);
            i += 1;
        }
        words
    }

    /// A new cache entry for objects of `obj_size` bytes, in pages from the allocator.
    fn new_cache(buddy: &mut BuddyAllocator, obj_size: u64) -> (cache: CachePage)
        requires
            old(buddy).wf(),
            cache_sizes().contains(obj_size),
            old(buddy)@.can_alloc(cache_pages(obj_size)),
            old(buddy)@.start + old(buddy)@.pages <= CACHE_PAGE_LIMIT,
        ensures
            final(buddy).wf(),
            final(buddy)@ == old(buddy)@.after_alloc(cache_pages(obj_size)),
            cache.wf(),
            cache@ == new_entry(old(buddy)@, obj_size),
            cache@.free.len() > 0,
    {
        proof {
            lemma_cache_pages(obj_size);
            let k = choose|k: int| 0 <= k < 16 && cache_sizes()[k] == obj_size;
            assert(cache_sizes()[k] == obj_size);
        }
        let page_count = ceil_to_power_2(CACHE_OBJ_COUNT * obj_size / PAGE_SIZE);
        let offset = (CACHE_HEADER_SIZE + obj_size - 1) / obj_size;
        let base = buddy.alloc_pages(page_count);
        let page_start = base * PAGE_SIZE;
        let slots = page_count * PAGE_SIZE / obj_size;
        let words = Self::zero_words(slots as usize);
        let mut cache = CachePage {
            page_start,
            page_num: page_count,
            obj_size,
            obj_free: slots - offset,
            obj_alloc: 0,
            obj_start: 0,
            words,
            list: Ghost(Seq::<int>::empty()),
        };
        cache.init();
        proof {
            assert(cache@.free =~= new_entry(old(buddy)@, obj_size).free);
        }
        cache
    }

    /// Serves a request for an object of `obj_size` bytes.
    fn alloc_class(&mut self, buddy: &mut BuddyAllocator, obj_size: u64) -> (addr: u64)
        requires
            old(self).wf(),
            old(buddy).wf(),
            cache_sizes().contains(obj_size),
            opens_entry(old(self)@, obj_size) ==> old(buddy)@.can_alloc(cache_pages(obj_size))
                && old(buddy)@.start + old(buddy)@.pages <= CACHE_PAGE_LIMIT,
        ensures
            final(self).wf(),
            final(buddy).wf(),
            (final(self)@, final(buddy)@, addr) == served(old(self)@, old(buddy)@, obj_size),
        decreases old(self).depth(), (if old(self).is_cache_full { 1nat } else { 0nat }),
    {
        let ghost t = self.table();
        let ghost hit = first_serving(t, obj_size, 0);
        let ghost rest = self@.drop_first();
        proof {
            lemma_first_serving(t, obj_size, 0);
            lemma_first_room(t, 0);
            assert(self@[0] == t);
            assert(rest =~= match self.next {
                Some(n) => n.tables(),
                None => Seq::<CacheTable>::empty(),
            });
        }
        let mut i: usize = 0;
        while i < CACHE_NUM
            invariant
                i <= hit,
                i <= CACHE_NUM,
                *self == *old(self),
                *buddy == *old(buddy),
                buddy.wf(),
                self.wf(),
                t == self.table(),
                hit == first_serving(t, obj_size, 0),
                hit <= CACHE_NUM,
                forall|j: int| 0 <= j < hit ==> !serves(t, obj_size, j),
                hit < CACHE_NUM ==> serves(t, obj_size, hit as int),
            decreases CACHE_NUM - i,
        {
            let matching = match &self.caches[i] {
                Some(c) => c.obj_size == obj_size && c.obj_free > 0,
                None => false,
            };
            proof {
                if self.caches@[i as int] is Some {
                    let c = self.caches@[i as int]->0;
                    assert(c.wf());
                    c.lemma_free_list();
                    assert(t[i as int] == Some(c@));
                } else {
                    assert(t[i as int] is None);
                }
                assert(matching == serves(t, obj_size, i as int));
            }
            if matching {
                match &mut self.caches[i] {
                    Some(c) => {
                        let r = c.alloc_obj();
                        proof {
                            assert(self.table() =~= t.update(i as int, Some(taken(t[i as int]->0))));
                            assert(self@ =~= old(self)@.update(0, self.table()));
                            lemma_first_room(self.table(), 0);
                            lemma_first_room(t, 0);
                            assert forall|j: int| 0 <= j < CACHE_NUM implies (#[trigger] self.table()[j]
                                is Some) == (t[j] is Some) by {}
                            Self::lemma_room_same(t, self.table());
                        }
                        return r.unwrap();
                    },
                    None => {
                        return vstd::pervasive::unreached();
                    },
                }
            }
            i += 1;
        }
        if !self.is_cache_full {
            let mut cache = Self::new_cache(buddy, obj_size);
            let r = cache.alloc_obj();
            let ghost room = first_room(t, 0);
            self.add_cache(cache);
            proof {
                assert(self.table() =~= t.update(
                    room,
                    Some(taken(new_entry(old(buddy)@, obj_size))),
                ));
                assert(self@ =~= old(self)@.update(0, self.table()));
            }
            r.unwrap()
        } else {
            if self.next.is_none() {
                self.next = Some(Box::new(CacheManager::default()));
            }
            proof {
                assert(opens_entry(old(self)@, obj_size) == opens_entry(rest, obj_size));
                if old(self).next is None {
                    assert(served(rest, old(buddy)@, obj_size) == served(
                        seq![empty_table()],
                        old(buddy)@,
                        obj_size,
                    )) by {
                        lemma_first_serving(empty_table(), obj_size, 0);
                        lemma_first_room(empty_table(), 0);
                        assert(first_room(empty_table(), 0) == 0);
                        assert(seq![empty_table()].update(
                            0,
                            empty_table().update(
                                0,
                                Some(taken(new_entry(old(buddy)@, obj_size))),
                            ),
                        ) =~= seq![
                            empty_table().update(
                                0,
                                Some(taken(new_entry(old(buddy)@, obj_size))),
                            ),
                        ]);
                    }
                    assert(opens_entry(seq![empty_table()], obj_size)) by {
                        lemma_first_serving(empty_table(), obj_size, 0);
                        assert(first_room(empty_table(), 0) == 0);
                    }
                }
            }
            proof {
                if old(self).next is Some {
                    assert(old(self).depth() == 1 + old(self).next->0.depth());
                }
            }
            match &mut self.next {
                Some(n) => {
                    let addr = n.alloc_class(buddy, obj_size);
                    proof {
                        assert(self.table() == t);
                    }
                    addr
                },
                None => vstd::pervasive::unreached(),
            }
        }
    }

    /// Tables with entries in the same slots have their first empty slot in the same place.
    proof fn lemma_room_same(a: CacheTable, b: CacheTable)
        requires
            a.len() == b.len(),
            forall|j: int| 0 <= j < a.len() ==> (#[trigger] a[j] is Some) == (b[j] is Some),
        ensures
            first_room(a, 0) == first_room(b, 0),
    {
        lemma_first_room(a, 0);
        lemma_first_room(b, 0);
        let ra = first_room(a, 0);
        let rb = first_room(b, 0);
        if ra < rb {
            assert(b[ra] is Some);
            assert(a[ra] is Some == b[ra] is Some);
        }
        if rb < ra {
            assert(a[rb] is Some);
            assert(a[rb] is Some == b[rb] is Some);
        }
    }

    /// Whether serving a request for an object of `obj_size` bytes takes
    /// pages from the allocator: no entry has a free object of that size
    /// before the first empty slot.
    pub fn opens_entry_for(&self, obj_size: u64) -> (opens: bool)
        requires
            self.wf(),
        ensures
            opens == opens_entry(self@, obj_size),
        decreases self.depth(),
    {
        let ghost t = self.table();
        let ghost hit = first_serving(t, obj_size, 0);
        let ghost rest = self@.drop_first();
        proof {
            lemma_first_serving(t, obj_size, 0);
            lemma_first_room(t, 0);
            assert(self@[0] == t);
            assert(rest =~= match self.next {
                Some(n) => n.tables(),
                None => Seq::<CacheTable>::empty(),
            });
        }
        let mut i: usize = 0;
        while i < CACHE_NUM
            invariant
                i <= hit,
                i <= CACHE_NUM,
                self.wf(),
                t == self.table(),
                hit == first_serving(t, obj_size, 0),
                hit <= CACHE_NUM,
                forall|j: int| 0 <= j < hit ==> !serves(t, obj_size, j),
                hit < CACHE_NUM ==> serves(t, obj_size, hit as int),
            decreases CACHE_NUM - i,
        {
            let matching = match &self.caches[i] {
                Some(c) => c.obj_size == obj_size && c.obj_free > 0,
                None => false,
            };
            proof {
                if self.caches@[i as int] is Some {
                    let c = self.caches@[i as int]->0;
                    assert(c.wf());
                    c.lemma_free_list();
                    assert(t[i as int] == Some(c@));
                } else {
                    assert(t[i as int] is None);
                }
                assert(matching == serves(t, obj_size, i as int));
            }
            if matching {
                return false;
            }
            i += 1;
        }
        if !self.is_cache_full {
            return true;
        }
        proof {
            assert(hit == CACHE_NUM);
            assert(opens_entry(self@, obj_size) == opens_entry(rest, obj_size));
        }
        match &self.next {
            Some(n) => {
                proof {
                    assert(self.depth() == 1 + n.depth());
                    assert(rest == n.tables());
                }
                n.opens_entry_for(obj_size)
            },
            None => {
                proof {
                    assert(rest.len() == 0);
                }
                true
            },
        }
    }

    /// Whether a request of `size` bytes can be served, with an allocator
    /// that manages `pages` pages: where the request takes pages from the
    /// allocator, the allocator has them, and the address of every page of
    /// its heap fits in 64 bits.
    pub fn can_serve(&self, buddy: &BuddyAllocator, pages: u64, size: u64) -> (ok: bool)
        requires
            self.wf(),
            buddy.wf(),
            pages == buddy@.pages,
        ensures
            ok == can_serve(self@, buddy@, size),
    {
        proof {
            lemma_objsize(size);
            buddy.lemma_free_pages();
        }
        let within = pages <= CACHE_PAGE_LIMIT && buddy.start <= CACHE_PAGE_LIMIT - pages;
        match to_objsize(size) {
            Some(obj_size) => {
                proof {
                    lemma_cache_pages(obj_size);
                    let k = choose|k: int| 0 <= k < 16 && cache_sizes()[k] == obj_size;
                    assert(cache_sizes()[k] == obj_size);
                }
                !self.opens_entry_for(obj_size) || (within && buddy.can_alloc(
                    ceil_to_power_2(CACHE_OBJ_COUNT * obj_size / PAGE_SIZE),
                ))
            },
            None => within && buddy.can_alloc(large_page_count(size)),
        }
    }

    /// Serves a request of `size` bytes and hands out the address of what
    /// it is served with: an object of the least cached size that holds
    /// it, or for a larger request a run of pages of the buddy allocator.
    pub fn allocate(&mut self, buddy: &mut BuddyAllocator, size: u64) -> (addr: u64)
        requires
            old(self).wf(),
            old(buddy).wf(),
            can_serve(old(self)@, old(buddy)@, size),
        ensures
            final(self).wf(),
            final(buddy).wf(),
            match objsize(size) {
                Some(s) => (final(self)@, final(buddy)@, addr) == served(
                    old(self)@,
                    old(buddy)@,
                    s,
                ),
                None => {
                    &&& final(self)@ == old(self)@
                    &&& final(buddy)@ == old(buddy)@.after_alloc(large_pages(size))
                    &&& addr == old(buddy)@.alloc_base(large_pages(size)) * PAGE_SIZE
                    &&& large_pages(size) * PAGE_SIZE >= size
                },
            },
            crate::cache_laws::cache_inv(old(self)@, old(buddy)@) ==> crate::cache_laws::cache_inv(
                final(self)@,
                final(buddy)@,
            ),
    {
        proof {
            lemma_objsize(size);
            if crate::cache_laws::cache_inv(self@, buddy@) {
                match objsize(size) {
                    Some(obj_size) => {
                        if opens_entry(self@, obj_size) {
                            buddy.lemma_alloc_base(cache_pages(obj_size));
                        }
                        crate::cache_laws::lemma_served_inv(self@, buddy@, obj_size);
                    },
                    None => {
                        let after = buddy@.after_alloc(large_pages(size));
                        assert forall|l: int, i: int|
                            0 <= l < self@.len() && 0 <= i < CACHE_NUM && (
                            #[trigger] self@[l][i]) is Some implies crate::cache_laws::entry_backed(
                            self@[l][i]->0,
                            after,
                        ) by {
                            assert(crate::cache_laws::entry_backed(self@[l][i]->0, buddy@));
                        }
                    },
                }
            }
        }
        match to_objsize(size) {
            Some(obj_size) => self.alloc_class(buddy, obj_size),
            None => {
                let base = buddy.alloc_pages(large_page_count(size));
                base * PAGE_SIZE
            },
        }
    }

    /// Whether the object at `ptr` can come back, to a manager whose
    /// allocator manages `pages` pages: it is an object that is out of the
    /// entry whose pages hold it, and where it is the last one out, the
    /// allocator can take the entry's pages. An address in no entry's
    /// pages can always be handed in: nothing is done with it.
    pub fn can_release_object(&self, buddy: &BuddyAllocator, pages: u64, ptr: u64) -> (ok: bool)
        requires
            self.wf(),
            buddy.wf(),
            pages == buddy@.pages,
        ensures
            ok == can_release_object(self@, buddy@, ptr),
        decreases self.depth(),
    {
        let ghost t = self.table();
        let ghost own = first_holding(t, ptr, 0);
        let ghost rest = self@.drop_first();
        proof {
            lemma_first_holding(t, ptr, 0);
            assert(self@[0] == t);
            assert(rest =~= match self.next {
                Some(n) => n.tables(),
                None => Seq::<CacheTable>::empty(),
            });
        }
        let mut i: usize = 0;
        while i < CACHE_NUM
            invariant
                i <= own,
                i <= CACHE_NUM,
                buddy.wf(),
                self.wf(),
                pages == buddy@.pages,
                self@[0] == t,
                t == self.table(),
                own == first_holding(t, ptr, 0),
                own <= CACHE_NUM,
                forall|j: int| 0 <= j < own ==> !((#[trigger] t[j]) is Some && entry_holds(t[j]->0, ptr)),
                own < CACHE_NUM ==> t[own as int] is Some && entry_holds(t[own as int]->0, ptr),
            decreases CACHE_NUM - i,
        {
            proof {
                if self.caches@[i as int] is Some {
                    let c = self.caches@[i as int]->0;
                    assert(c.wf());
                    c.lemma_free_list();
                    assert(t[i as int] == Some(c@));
                } else {
                    assert(t[i as int] is None);
                }
            }
            match &self.caches[i] {
                Some(c) => {
                    if ptr >= c.page_start && ptr - c.page_start < c.page_num * PAGE_SIZE {
                        proof {
                            assert(i == own);
                            assert(owner(self@, ptr) == t[i as int]);
                            if is_object_of(c@, ptr) {
                                let k = choose|k: int|
                                    cache_reserved(c.obj_size) <= k < cache_slots(
                                        c.page_num,
                                        c.obj_size,
                                    ) && ptr == #[trigger] object_addr(c.page_start, c.obj_size, k);
                                assert(c.reserved() <= k < c.slots() && ptr == c.addr_of(k));
                                assert(c.is_object(ptr));
                            }
                            if c.is_object(ptr) {
                                let k = choose|k: int|
                                    c.reserved() <= k < c.slots() && ptr == #[trigger] c.addr_of(k);
                                let v = c@;
                                assert(cache_reserved(v.obj_size) <= k < cache_slots(
                                    v.page_num,
                                    v.obj_size,
                                ) && ptr == object_addr(v.page_start, v.obj_size, k));
                                assert(is_object_of(v, ptr));
                            }
                            assert(is_object_of(c@, ptr) == c.is_object(ptr));
                        }
                        let out = c.is_out(ptr);
                        let last = c.obj_alloc == 1;
                        let taken_back = buddy.can_free(pages, c.page_start / PAGE_SIZE, c.page_num);
                        proof {
                            assert(owner(self@, ptr) == Some(c@));
                            assert(out == (is_object_of(c@, ptr) && !c@.free.contains(ptr)));
                            assert(last == (c@.allocated == 1));
                        }
                        return out && (!last || taken_back);
                    }
                },
                None => {},
            }
            i += 1;
        }
        proof {
            assert(owner(self@, ptr) == owner(rest, ptr));
        }
        match &self.next {
            Some(n) => {
                proof {
                    assert(self.depth() == 1 + n.depth());
                    assert(rest == n.tables());
                }
                n.can_release_object(buddy, pages, ptr)
            },
            None => {
                proof {
                    assert(rest.len() == 0);
                }
                true
            },
        }
    }

    /// Whether what a request of `size` bytes was served with at `ptr` can
    /// come back, to a manager whose allocator manages `pages` pages.
    pub fn can_release(&self, buddy: &BuddyAllocator, pages: u64, ptr: u64, size: u64) -> (ok: bool)
        requires
            self.wf(),
            buddy.wf(),
            pages == buddy@.pages,
        ensures
            ok == can_release(self@, buddy@, ptr, size),
    {
        match to_objsize(size) {
            Some(_) => self.can_release_object(buddy, pages, ptr),
            None => buddy.can_free(pages, ptr / PAGE_SIZE, large_page_count(size)),
        }
    }

    /// Takes the object at `ptr` back into the entry whose pages hold it.
    fn dealloc_object(&mut self, buddy: &mut BuddyAllocator, ptr: u64)
        requires
            old(self).wf(),
            old(buddy).wf(),
            can_release_object(old(self)@, old(buddy)@, ptr),
        ensures
            final(self).wf(),
            final(buddy).wf(),
            (final(self)@, final(buddy)@) == released(old(self)@, old(buddy)@, ptr),
        decreases old(self).depth(),
    {
        let ghost t = self.table();
        let ghost own = first_holding(t, ptr, 0);
        let ghost rest = self@.drop_first();
        proof {
            lemma_first_holding(t, ptr, 0);
            lemma_first_room(t, 0);
            assert(self@[0] == t);
            assert(rest =~= match self.next {
                Some(n) => n.tables(),
                None => Seq::<CacheTable>::empty(),
            });
        }
        let mut i: usize = 0;
        while i < CACHE_NUM
            invariant
                i <= own,
                i <= CACHE_NUM,
                *self == *old(self),
                *buddy == *old(buddy),
                buddy.wf(),
                self.wf(),
                can_release_object(old(self)@, old(buddy)@, ptr),
                old(self)@[0] == t,
                t == self.table(),
                own == first_holding(t, ptr, 0),
                own <= CACHE_NUM,
                forall|j: int| 0 <= j < own ==> !((#[trigger] t[j]) is Some && entry_holds(t[j]->0, ptr)),
                own < CACHE_NUM ==> t[own as int] is Some && entry_holds(t[own as int]->0, ptr),
            decreases CACHE_NUM - i,
        {
            proof {
                if self.caches@[i as int] is Some {
                    let c = self.caches@[i as int]->0;
                    assert(c.wf());
                    c.lemma_free_list();
                    assert(t[i as int] == Some(c@));
                } else {
                    assert(t[i as int] is None);
                }
            }
            let holding = match &self.caches[i] {
                Some(c) => ptr >= c.page_start && ptr - c.page_start < c.page_num * PAGE_SIZE,
                None => false,
            };
            assert(holding == (t[i as int] is Some && entry_holds(t[i as int]->0, ptr)));
            if holding {
                proof {
                    assert(i == own);
                    assert(owner(old(self)@, ptr) == t[i as int]);
                    let c = self.caches@[i as int]->0;
                    assert(is_object_of(c@, ptr));
                    let k = choose|k: int|
                        cache_reserved(c.obj_size) <= k < cache_slots(c.page_num, c.obj_size) && ptr
                            == #[trigger] object_addr(c.page_start, c.obj_size, k);
                    assert(c.reserved() <= k < c.slots() && ptr == c.addr_of(k));
                }
                let mut emptied = false;
                let mut page: u64 = 0;
                let mut page_num: u64 = 0;
                match &mut self.caches[i] {
                    Some(c) => {
                        c.free_obj(ptr);
                        if c.obj_alloc == 0 {
                            emptied = true;
                            page = c.page_start / PAGE_SIZE;
                            page_num = c.page_num;
                        }
                    },
                    None => {},
                }
                if emptied {
                    buddy.free_pages(page, page_num);
                    self.caches.set(i, None);
                    self.is_cache_full = false;
                    proof {
                        assert(self.table() =~= t.update(i as int, None));
                        assert(self@ =~= old(self)@.update(0, self.table()));
                        lemma_first_room(self.table(), 0);
                        if first_room(self.table(), 0) == CACHE_NUM {
                            assert(self.table()[i as int] is Some);
                        }
                    }
                } else {
                    proof {
                        assert(self.table() =~= t.update(
                            i as int,
                            Some(given_back(t[i as int]->0, ptr)),
                        ));
                        assert(self@ =~= old(self)@.update(0, self.table()));
                        Self::lemma_room_same(t, self.table());
                    }
                }
                return;
            }
            i += 1;
        }
        proof {
            assert(owner(old(self)@, ptr) == owner(rest, ptr));
            assert(can_release_object(rest, old(buddy)@, ptr));
            if old(self).next is Some {
                assert(old(self).depth() == 1 + old(self).next->0.depth());
            } else {
                assert(released(rest, old(buddy)@, ptr) == (rest, old(buddy)@));
                assert(seq![t] + rest =~= old(self)@);
            }
        }
        match &mut self.next {
            Some(n) => {
                n.dealloc_object(buddy, ptr);
                proof {
                    assert(self.table() == t);
                }
            },
            None => {},
        }
    }

    /// Takes back what a request of `size` bytes was served with at `ptr`.
    pub fn dealloc(&mut self, buddy: &mut BuddyAllocator, ptr: u64, size: u64)
        requires
            old(self).wf(),
            old(buddy).wf(),
            can_release(old(self)@, old(buddy)@, ptr, size),
        ensures
            final(self).wf(),
            final(buddy).wf(),
            match objsize(size) {
                Some(s) => (final(self)@, final(buddy)@) == released(old(self)@, old(buddy)@, ptr),
                None => {
                    &&& final(self)@ == old(self)@
                    &&& final(buddy)@ == old(buddy)@.after_free(
                        ptr as int / (PAGE_SIZE as int),
                        large_pages(size),
                    )
                },
            },
            objsize(size) is Some && crate::cache_laws::cache_inv(old(self)@, old(buddy)@)
                ==> crate::cache_laws::cache_inv(final(self)@, final(buddy)@),
    {
        proof {
            if objsize(size) is Some && crate::cache_laws::cache_inv(self@, buddy@) {
                crate::cache_laws::lemma_released_inv(self@, buddy@, ptr);
            }
        }
        if to_objsize(size).is_some() {
            self.dealloc_object(buddy, ptr);
        } else {
            buddy.free_pages(ptr / PAGE_SIZE, large_page_count(size));
        }
    }

    /// The entries of a sound manager and of its successors are sound, and
    /// their tables are of full length.
    pub proof fn lemma_entries(&self)
        requires
            self.wf(),
        ensures
            forall|l: int| 0 <= l < self@.len() ==> (#[trigger] self@[l]).len() == CACHE_NUM,
            forall|l: int, i: int|
                0 <= l < self@.len() && 0 <= i < CACHE_NUM && (#[trigger] self@[l][i]) is Some
                    ==> crate::cache_laws::entry_sound(self@[l][i]->0),
        decreases self,
    {
        let rest = match self.next {
            Some(n) => n.tables(),
            None => Seq::<CacheTable>::empty(),
        };
        if let Some(n) = self.next {
            n.lemma_entries();
        }
        assert forall|l: int| 0 <= l < self@.len() implies (#[trigger] self@[l]).len()
            == CACHE_NUM by {
            if l > 0 {
                assert(self@[l] == rest[l - 1]);
            }
        }
        assert forall|l: int, i: int|
            0 <= l < self@.len() && 0 <= i < CACHE_NUM && (
            #[trigger] self@[l][i]) is Some implies crate::cache_laws::entry_sound(
            self@[l][i]->0,
        ) by {
            if l > 0 {
                assert(self@[l] == rest[l - 1]);
                assert(rest[l - 1][i] is Some);
            } else {
                let c = self.caches@[i]->0;
                assert(self.caches@[i] is Some);
                assert(c.wf());
                c.lemma_free_list();
                if c.page_num == 0 {
                    assert(c.slots() == 0);
                }
            }
        }
    }
}

} // verus!
