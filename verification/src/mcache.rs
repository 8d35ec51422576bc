//! The object cache: objects of a few fixed sizes, cut from runs of pages
//! that the buddy allocator hands out.

pub use crate::cache_manager::CacheManager;
use crate::PAGE_SIZE;
use vstd::prelude::*;

verus! {

/// Number of cache entries that one manager holds.
pub const CACHE_NUM: usize = 1024;

/// Number of object slots that a new cache entry has.
pub const CACHE_OBJ_COUNT: u64 = 512;

/// Size in bytes of the header that a cache entry keeps in its first objects.
pub const CACHE_HEADER_SIZE: u64 = 48;

/// Bytes of a KiB.
pub const KB: u64 = 1024;

/// Bytes of a MiB.
pub const MB: u64 = 1024 * 1024;

/// The object sizes that are cached, in ascending order.
pub open spec fn cache_sizes() -> Seq<u64> {
    seq![
        64,
        128,
        256,
        512,
        1024,
        2048,
        4096,
        16384,
        32768,
        65536,
        131072,
        262144,
        524288,
        1048576,
        2097152,
        4194304,
    ]
}

/// The first of the cached sizes from the `i`-th on that is at least `size`.
pub open spec fn objsize_from(size: u64, i: int) -> Option<u64>
    decreases 16 - i,
{
    if i < 0 || i >= 16 {
        None
    } else if cache_sizes()[i] >= size {
        Some(cache_sizes()[i])
    } else {
        objsize_from(size, i + 1)
    }
}

/// The least cached size that is at least `size`, if there is one.
pub open spec fn objsize(size: u64) -> Option<u64> {
    objsize_from(size, 0)
}

/// The size of the objects that a request of `size` bytes is served with:
/// the least cached size that holds it. None for a request that is too
/// large to be cached.
pub fn to_objsize(size: u64) -> (r: Option<u64>)
    ensures
        r == objsize(size),
{
    let sizes: [u64; 16] = [
        64,
        128,
        256,
        512,
        KB,
        2 * KB,
        4 * KB,
        16 * KB,
        32 * KB,
        64 * KB,
        128 * KB,
        256 * KB,
        512 * KB,
        MB,
        2 * MB,
        4 * MB,
    ];
    assert(sizes@ =~= cache_sizes());
    let mut i: usize = 0;
    while i < 16
        invariant
            i <= 16,
            sizes@ == cache_sizes(),
            objsize_from(size, i as int) == objsize(size),
        decreases 16 - i,
    {
        if sizes[i] >= size {
            return Some(sizes[i]);
        }
        i += 1;
    }
    None
}

/// Classing: a size of up to 4 MiB has a class, which is the least cached
/// size that holds it.
pub proof fn lemma_objsize(size: u64)
    ensures
        size <= 4 * MB <==> objsize(size) is Some,
        objsize(size) matches Some(c) ==> c >= size && cache_sizes().contains(c) && forall|j: int|
            0 <= j < 16 && cache_sizes()[j] >= size ==> c <= #[trigger] cache_sizes()[j],
{
    reveal_with_fuel(objsize_from, 17);
    if objsize(size) is Some {
        let c = objsize(size)->0;
        let k = choose|k: int| 0 <= k < 16 && cache_sizes()[k] == c;
        assert(cache_sizes()[k] == c);
    }
}

/// Classing: the class does not shrink as the size grows.
pub proof fn lemma_objsize_monotone(a: u64, b: u64)
    requires
        a <= b,
        b <= 4 * MB,
    ensures
        objsize(a) is Some,
        objsize(b) is Some,
        objsize(a)->0 <= objsize(b)->0,
        a <= objsize(a)->0,
{
    reveal_with_fuel(objsize_from, 17);
}

/// Where a value stands in an ascending sequence: the number of elements below it.
pub open spec fn rank(s: Seq<u64>, x: u64) -> int
    decreases s.len(),
{
    if s.len() == 0 {
        0
    } else {
        rank(s.drop_last(), x) + if s.last() < x {
            1int
        } else {
            0int
        }
    }
}

/// The ascending sequence `s` with `x` put in its place.
pub open spec fn insert_sorted(s: Seq<u64>, x: u64) -> Seq<u64> {
    s.insert(rank(s, x), x)
}

/// The rank of a value is the place that splits the sequence into what is below it and what is not.
pub proof fn lemma_rank(s: Seq<u64>, x: u64, p: int)
    requires
        0 <= p <= s.len(),
        forall|i: int| 0 <= i < p ==> s[i] < x,
        forall|i: int| p <= i < s.len() ==> s[i] >= x,
    ensures
        rank(s, x) == p,
    decreases s.len(),
{
    if s.len() > 0 {
        if p == s.len() {
            lemma_rank(s.drop_last(), x, p - 1);
        } else {
            lemma_rank(s.drop_last(), x, p);
        }
    }
}

proof fn lemma_slot_index(base: int, s: int, k: int)
    requires
        s > 0,
        k >= 0,
    ensures
        (base + k * s - base) / s == k,
        k * s >= 0,
{
    vstd::arithmetic::div_mod::lemma_div_multiples_vanish(k, s);
    assert(k * s == s * k) by (nonlinear_arith);
    assert(k * s >= 0) by (nonlinear_arith)
        requires
            s > 0,
            k >= 0,
    ;
}

proof fn lemma_slot_order(s: int, a: int, b: int)
    requires
        s > 0,
    ensures
        a < b ==> a * s + s <= b * s,
        a == b ==> a * s == b * s,
        a * s < b * s ==> a < b,
        a * s == b * s ==> a == b,
{
    assert(a < b ==> a * s + s <= b * s) by (nonlinear_arith)
        requires
            s > 0,
    ;
    assert(b < a ==> b * s + s <= a * s) by (nonlinear_arith)
        requires
            s > 0,
    ;
}

proof fn lemma_slots_fit(bytes: int, s: int, k: int)
    requires
        s > 0,
        bytes >= 0,
        0 <= k <= bytes / s,
    ensures
        k * s <= bytes,
        k < bytes / s ==> k * s + s <= bytes,
{
    vstd::arithmetic::div_mod::lemma_fundamental_div_mod(bytes, s);
    let q = bytes / s;
    assert(k * s <= q * s) by (nonlinear_arith)
        requires
            k <= q,
            s > 0,
    ;
    assert(k < q ==> k * s + s <= q * s) by (nonlinear_arith)
        requires
            s > 0,
    ;
    assert(s * q == q * s) by (nonlinear_arith);
}

/// Address of the `k`-th object of `obj_size` bytes from `page_start` on.
#[verifier::opaque]
pub open spec fn object_addr(page_start: u64, obj_size: u64, k: int) -> int {
    page_start + k * obj_size
}

/// Every slot of the list is a slot from `lo` up to `hi`.
#[verifier::opaque]
pub open spec fn slots_within(list: Seq<int>, lo: int, hi: int) -> bool {
    forall|i: int| 0 <= i < list.len() ==> lo <= #[trigger] list[i] < hi
}

/// The slots of the list ascend.
#[verifier::opaque]
pub open spec fn ascending(list: Seq<int>) -> bool {
    forall|i: int, j: int| 0 <= i < j < list.len() ==> #[trigger] list[i] < #[trigger] list[j]
}

/// The word of every slot of the list is the address of the object in the
/// next slot of the list, that of the last one 0.
#[verifier::opaque]
pub open spec fn chained(list: Seq<int>, words: Seq<u64>, page_start: u64, obj_size: u64) -> bool {
    forall|i: int|
        0 <= i < list.len() ==> words[#[trigger] list[i]] == (if i + 1 < list.len() {
            object_addr(page_start, obj_size, list[i + 1]) as u64
        } else {
            0
        })
}

proof fn lemma_list_at(
    list: Seq<int>,
    words: Seq<u64>,
    page_start: u64,
    obj_size: u64,
    lo: int,
    hi: int,
    i: int,
)
    requires
        slots_within(list, lo, hi),
        ascending(list),
        chained(list, words, page_start, obj_size),
        0 <= i < list.len(),
    ensures
        lo <= list[i] < hi,
        words[list[i]] == (if i + 1 < list.len() {
            object_addr(page_start, obj_size, list[i + 1]) as u64
        } else {
            0
        }),
        i + 1 < list.len() ==> list[i] < list[i + 1] && lo <= list[i + 1] < hi,
        i > 0 ==> list[i - 1] < list[i],
{
    reveal(slots_within);
    reveal(ascending);
    reveal(chained);
}

/// A slot between its neighbours in an ascending list is above all before it
/// and below all behind it.
proof fn lemma_place(list: Seq<int>, p: int, k: int)
    requires
        ascending(list),
        0 <= p <= list.len(),
        p > 0 ==> list[p - 1] < k,
        p < list.len() ==> k < list[p],
    ensures
        forall|i: int| 0 <= i < p ==> list[i] < k,
        forall|i: int| p <= i < list.len() ==> k < list[i],
        forall|i: int| 0 <= i < list.len() ==> list[i] != k,
        ascending(list.insert(p, k)),
{
    reveal(ascending);
    assert forall|i: int| 0 <= i < p implies list[i] < k by {
        if i < p - 1 {
            assert(list[i] < list[p - 1]);
        }
    }
    assert forall|i: int| p <= i < list.len() implies k < list[i] by {
        if i > p {
            assert(list[p] < list[i]);
        }
    }
    let after = list.insert(p, k);
    assert forall|i: int, j: int| 0 <= i < j < after.len() implies #[trigger] after[i]
        < #[trigger] after[j] by {
        let i0 = if i < p { i } else { i - 1 };
        let j0 = if j < p { j } else { j - 1 };
        if i != p {
            assert(after[i] == list[i0]);
        }
        if j != p {
            assert(after[j] == list[j0]);
        }
        if i != p && j != p {
            assert(list[i0] < list[j0]);
        }
    }
}

proof fn lemma_insert_within(list: Seq<int>, lo: int, hi: int, p: int, k: int)
    requires
        slots_within(list, lo, hi),
        0 <= p <= list.len(),
        lo <= k < hi,
    ensures
        slots_within(list.insert(p, k), lo, hi),
{
    reveal(slots_within);
    let after = list.insert(p, k);
    assert forall|i: int| 0 <= i < after.len() implies lo <= #[trigger] after[i] < hi by {
        if i < p {
            assert(after[i] == list[i]);
        } else if i > p {
            assert(after[i] == list[i - 1]);
        }
    }
}

/// Linking a slot into a chained list: its word points to the slot behind
/// it, and the word of the slot before it points to it.
proof fn lemma_insert_chained(
    list: Seq<int>,
    before: Seq<u64>,
    after: Seq<u64>,
    page_start: u64,
    obj_size: u64,
    p: int,
    k: int,
)
    requires
        chained(list, before, page_start, obj_size),
        ascending(list),
        slots_within(list, 0, before.len() as int),
        0 <= k < before.len(),
        before.len() == after.len(),
        0 <= p <= list.len(),
        p > 0 ==> list[p - 1] < k,
        p < list.len() ==> k < list[p],
        after[k] == (if p < list.len() {
            object_addr(page_start, obj_size, list[p]) as u64
        } else {
            0
        }),
        p > 0 ==> after[list[p - 1]] == object_addr(page_start, obj_size, k) as u64,
        forall|x: int|
            0 <= x < before.len() && x != k && (p == 0 || x != list[p - 1]) ==> after[x]
                == before[x],
    ensures
        chained(list.insert(p, k), after, page_start, obj_size),
{
    lemma_place(list, p, k);
    reveal(chained);
    reveal(ascending);
    reveal(slots_within);
    let n = list.len() as int;
    let l2 = list.insert(p, k);
    assert forall|i: int| 0 <= i < l2.len() implies after[#[trigger] l2[i]] == (if i + 1
        < l2.len() {
        object_addr(page_start, obj_size, l2[i + 1]) as u64
    } else {
        0
    }) by {
        if i < p {
            assert(l2[i] == list[i]);
            if i + 1 == p {
                assert(l2[i + 1] == k);
            } else {
                assert(l2[i + 1] == list[i + 1]);
                assert(list[i] < list[p - 1]);
                assert(before[list[i]] == object_addr(page_start, obj_size, list[i + 1]) as u64);
            }
        } else if i > p {
            assert(l2[i] == list[i - 1]);
            if i + 1 < l2.len() {
                assert(l2[i + 1] == list[i]);
            }
            if p > 0 {
                assert(list[p - 1] < list[i - 1]);
            }
            assert(before[list[i - 1]] == (if i < n {
                object_addr(page_start, obj_size, list[i]) as u64
            } else {
                0
            }));
        } else {
            assert(l2[p] == k);
            if p < n {
                assert(l2[p + 1] == list[p]);
            }
        }
    }
}

/// Unlinking the last slot of a chained list: the word of the slot before
/// it ends the list.
proof fn lemma_drop_last(
    list: Seq<int>,
    before: Seq<u64>,
    after: Seq<u64>,
    page_start: u64,
    obj_size: u64,
    lo: int,
    hi: int,
)
    requires
        chained(list, before, page_start, obj_size),
        ascending(list),
        slots_within(list, lo, hi),
        0 <= lo,
        hi <= before.len(),
        list.len() > 0,
        after == (if list.len() > 1 {
            before.update(list[list.len() - 2], 0)
        } else {
            before
        }),
    ensures
        chained(list.drop_last(), after, page_start, obj_size),
        ascending(list.drop_last()),
        slots_within(list.drop_last(), lo, hi),
{
    reveal(chained);
    reveal(ascending);
    reveal(slots_within);
    let n = list.len() as int;
    let l2 = list.drop_last();
    assert forall|i: int| 0 <= i < l2.len() implies after[#[trigger] l2[i]] == (if i + 1
        < l2.len() {
        object_addr(page_start, obj_size, l2[i + 1]) as u64
    } else {
        0
    }) by {
        assert(l2[i] == list[i]);
        if i < n - 2 {
            assert(list[i] < list[n - 2]);
            assert(l2[i + 1] == list[i + 1]);
            assert(before[list[i]] == object_addr(page_start, obj_size, list[i + 1]) as u64);
        }
    }
    assert forall|i: int, j: int| 0 <= i < j < l2.len() implies #[trigger] l2[i]
        < #[trigger] l2[j] by {
        assert(list[i] < list[j]);
    }
    assert forall|i: int| 0 <= i < l2.len() implies lo <= #[trigger] l2[i] < hi by {
        assert(l2[i] == list[i]);
    }
}

/// What a cache entry holds: its pages, the size of its objects, its free
/// objects in the order of its free list, and the number of objects that are out.
pub struct CacheView {
    pub page_start: u64,
    pub page_num: u64,
    pub obj_size: u64,
    pub free: Seq<u64>,
    pub allocated: nat,
}

/// A cache entry: a run of pages cut into objects of one size. The free
/// objects form a list in ascending order of address; each holds in its
/// first word the address of the next, the last one 0.
pub struct CachePage {
    /// Address of the first page.
    pub page_start: u64,
    /// Number of pages.
    pub page_num: u64,
    /// Size of an object in bytes.
    pub obj_size: u64,
    /// Number of free objects.
    pub obj_free: u64,
    /// Number of objects that are out.
    pub obj_alloc: u64,
    /// Address of the first free object.
    pub obj_start: u64,
    /// The first word of each object slot of the pages.
    pub words: Vec<u64>,
    /// The slots of the free objects, in the order of the list.
    pub list: Ghost<Seq<int>>,
}

impl View for CachePage {
    type V = CacheView;

    open spec fn view(&self) -> CacheView {
        CacheView {
            page_start: self.page_start,
            page_num: self.page_num,
            obj_size: self.obj_size,
            free: Seq::new(self.list@.len(), |i: int| self.addr_of(self.list@[i]) as u64),
            allocated: self.obj_alloc as nat,
        }
    }
}

impl CachePage {
    /// Address of the object in slot `k`.
    pub open spec fn addr_of(&self, k: int) -> int {
        object_addr(self.page_start, self.obj_size, k)
    }

    /// Number of slots at the start of the pages that are kept for the entry's header.
    pub open spec fn reserved(&self) -> int {
        (CACHE_HEADER_SIZE + self.obj_size - 1) / (self.obj_size as int)
    }

    /// Number of object slots of the pages.
    pub open spec fn slots(&self) -> int {
        (self.page_num * PAGE_SIZE) / (self.obj_size as int)
    }

    /// `ptr` is the address of an object of this entry.
    pub open spec fn is_object(&self, ptr: u64) -> bool {
        exists|k: int| self.reserved() <= k < self.slots() && ptr == #[trigger] self.addr_of(k)
    }

    /// `ptr` lies in the pages of this entry.
    pub open spec fn holds(&self, ptr: u64) -> bool {
        self.page_start <= ptr < self.page_start + self.page_num * PAGE_SIZE
    }

    /// The pages are cut into objects, the first of which are reserved.
    pub open spec fn geometry(&self) -> bool {
        &&& self.obj_size > 0
        &&& self.page_start + self.page_num * PAGE_SIZE <= u64::MAX
        &&& self.words@.len() == self.slots()
        &&& 1 <= self.reserved() <= self.slots()
    }

    /// The entry's invariant: the free objects are objects of the entry in
    /// ascending order, linked through their first words, and with the
    /// objects that are out they are all the objects there are.
    pub closed spec fn wf(&self) -> bool {
        &&& self.geometry()
        &&& self.list@.len() == self.obj_free
        &&& self.obj_free + self.obj_alloc == self.slots() - self.reserved()
        &&& slots_within(self.list@, self.reserved(), self.slots())
        &&& ascending(self.list@)
        &&& self.obj_free > 0 ==> self.obj_start == self.addr_of(self.list@[0])
        &&& chained(self.list@, self.words@, self.page_start, self.obj_size)
    }

    /// What the invariant says of the free objects.
    pub proof fn lemma_free_list(&self)
        requires
            self.wf(),
        ensures
            self.geometry(),
            self@.free.len() == self.obj_free,
            self@.allocated == self.obj_alloc,
            self.obj_free + self.obj_alloc == self.slots() - self.reserved(),
            forall|i: int| 0 <= i < self@.free.len() ==> self.is_object(#[trigger] self@.free[i]),
            forall|i: int, j: int|
                0 <= i < j < self@.free.len() ==> #[trigger] self@.free[i] < #[trigger] self@.free[j],
            forall|i: int|
                0 <= i < self@.free.len() ==> self.page_start <= #[trigger] self@.free[i]
                    < self.page_start + self.page_num * PAGE_SIZE,
    {
        assert forall|i: int| 0 <= i < self@.free.len() implies self.is_object(
            #[trigger] self@.free[i],
        ) && self.page_start <= self@.free[i] < self.page_start + self.page_num * PAGE_SIZE by {
            self.lemma_at(i);
            self.lemma_slot(self.list@[i]);
        }
        assert forall|i: int, j: int| 0 <= i < j < self@.free.len() implies #[trigger] self@.free[i]
            < #[trigger] self@.free[j] by {
            self.lemma_at(i);
            self.lemma_at(j);
            self.lemma_slot(self.list@[i]);
            self.lemma_slot(self.list@[j]);
            assert(self.list@[i] < self.list@[j]) by {
                reveal(ascending);
            }
            self.lemma_slots_ordered(self.list@[i], self.list@[j]);
        }
    }

    /// What the invariant says of the `i`-th free object.
    proof fn lemma_at(&self, i: int)
        requires
            self.wf(),
            0 <= i < self.list@.len(),
        ensures
            self.reserved() <= self.list@[i] < self.slots(),
            self.words@[self.list@[i]] == (if i + 1 < self.list@.len() {
                self.addr_of(self.list@[i + 1]) as u64
            } else {
                0
            }),
            i + 1 < self.list@.len() ==> self.list@[i] < self.list@[i + 1] && self.reserved()
                <= self.list@[i + 1] < self.slots(),
            i > 0 ==> self.list@[i - 1] < self.list@[i],
    {
        lemma_list_at(
            self.list@,
            self.words@,
            self.page_start,
            self.obj_size,
            self.reserved(),
            self.slots(),
            i,
        );
    }

    /// The object in a slot lies in the pages, and its address tells the slot.
    proof fn lemma_slot(&self, k: int)
        requires
            self.geometry(),
            0 <= k <= self.slots(),
        ensures
            self.page_start <= self.addr_of(k) <= self.page_start + self.page_num * PAGE_SIZE,
            k < self.slots() ==> self.addr_of(k) + self.obj_size <= self.page_start + self.page_num
                * PAGE_SIZE,
            (self.addr_of(k) - self.page_start) / (self.obj_size as int) == k,
            k >= 1 ==> self.addr_of(k) > 0,
    {
        reveal(object_addr);
        lemma_slot_index(self.page_start as int, self.obj_size as int, k);
        lemma_slots_fit(self.page_num * PAGE_SIZE, self.obj_size as int, k);
        lemma_slot_order(self.obj_size as int, 0, k);
    }

    /// The objects are in the order of their slots.
    proof fn lemma_slots_ordered(&self, a: int, b: int)
        requires
            self.geometry(),
            0 <= a <= self.slots(),
            0 <= b <= self.slots(),
        ensures
            a < b <==> self.addr_of(a) < self.addr_of(b),
            a == b <==> self.addr_of(a) == self.addr_of(b),
    {
        reveal(object_addr);
        lemma_slot_order(self.obj_size as int, a, b);
        lemma_slot_order(self.obj_size as int, b, a);
    }

    /// The slot of the object at `addr`.
    fn slot(&self, addr: u64, Ghost(k): Ghost<int>) -> (i: usize)
        requires
            self.geometry(),
            0 <= k < self.slots(),
            addr == self.addr_of(k),
        ensures
            i == k,
    {
        proof {
            self.lemma_slot(k);
            assert(addr - self.page_start == self.addr_of(k) - self.page_start);
            assert(k < self.words@.len());
        }
        let n = self.words.len();
        let q = (addr - self.page_start) / self.obj_size;
        assert(q == k && q < n);
        q as usize
    }

    /// Whether `ptr` is the address of an object of this entry.
    pub fn has_object(&self, ptr: u64) -> (found: bool)
        requires
            self.geometry(),
        ensures
            found == self.is_object(ptr),
    {
        let size = self.obj_size;
        let n = self.words.len() as u64;
        let first = if size >= CACHE_HEADER_SIZE {
            1
        } else {
            (CACHE_HEADER_SIZE - 1 + size) / size
        };
        proof {
            if size >= CACHE_HEADER_SIZE {
                vstd::arithmetic::div_mod::lemma_fundamental_div_mod_converse(
                    CACHE_HEADER_SIZE + size - 1,
                    size as int,
                    1,
                    CACHE_HEADER_SIZE - 1,
                );
            }
            assert(first == self.reserved());
        }
        if ptr < self.page_start {
            proof {
                assert forall|k: int| self.reserved() <= k < self.slots() implies ptr
                    != #[trigger] self.addr_of(k) by {
                    self.lemma_slot(k);
                }
            }
            return false;
        }
        let off = ptr - self.page_start;
        let q = off / size;
        proof {
            vstd::arithmetic::div_mod::lemma_fundamental_div_mod(off as int, size as int);
            assert(size * q == q * size) by (nonlinear_arith);
            if off % size == 0 {
                reveal(object_addr);
                assert(ptr == self.addr_of(q as int));
            }
            assert forall|k: int| self.reserved() <= k < self.slots() && ptr == #[trigger] self.addr_of(
                k,
            ) implies k == q && off % size == 0 by {
                self.lemma_slot(k);
                reveal(object_addr);
                vstd::arithmetic::div_mod::lemma_fundamental_div_mod_converse(
                    off as int,
                    size as int,
                    k,
                    0,
                );
            }
        }
        off % size == 0 && first <= q && q < n
    }

    /// Whether `ptr` is the address of an object of this entry that is
    /// out: an object, and not on the list of the free ones.
    pub fn is_out(&self, ptr: u64) -> (out: bool)
        requires
            self.wf(),
        ensures
            out == (self.is_object(ptr) && !self@.free.contains(ptr)),
    {
        let ghost list = self.list@;
        let ghost n = list.len() as int;
        if !self.has_object(ptr) {
            return false;
        }
        if self.obj_free == 0 {
            return true;
        }
        proof {
            self.lemma_at(0);
        }
        let mut cur = self.obj_start;
        let ghost mut j: int = 0;
        loop
            invariant
                self.wf(),
                list == self.list@,
                n == list.len(),
                0 <= j < n,
                self.reserved() <= list[j] < self.slots(),
                cur == self.addr_of(list[j]),
                self.is_object(ptr),
                forall|i: int| 0 <= i < j ==> self@.free[i] != ptr,
            decreases n - j,
        {
            proof {
                self.lemma_at(j);
                self.lemma_slot(list[j]);
                assert(self@.free[j] == cur);
                if j + 1 < n {
                    self.lemma_slot(list[j + 1]);
                }
            }
            if cur == ptr {
                return false;
            }
            let i = self.slot(cur, Ghost(list[j]));
            let next = self.words[i];
            if next == 0 {
                proof {
                    assert(j + 1 == n);
                    assert forall|i: int| 0 <= i < n implies self@.free[i] != ptr by {}
                }
                return true;
            }
            cur = next;
            proof {
                j = j + 1;
            }
        }
    }

    /// Links the free objects of a new entry: each to the next, the last to nothing.
    pub fn init(&mut self)
        requires
            old(self).geometry(),
            old(self).obj_alloc == 0,
            old(self).obj_free == old(self).slots() - old(self).reserved(),
        ensures
            final(self).wf(),
            final(self)@.page_start == old(self).page_start,
            final(self)@.page_num == old(self).page_num,
            final(self)@.obj_size == old(self).obj_size,
            final(self)@.allocated == 0,
            final(self)@.free == Seq::new(
                (old(self).slots() - old(self).reserved()) as nat,
                |i: int| old(self).addr_of(old(self).reserved() + i) as u64,
            ),
    {
        let n = self.words.len();
        let first = n - (self.obj_free as usize);
        proof {
            self.lemma_slot(first as int);
            reveal(object_addr);
        }
        self.obj_start = self.page_start + (first as u64) * self.obj_size;
        let mut i: usize = first;
        while i < n
            invariant
                first <= i <= n,
                n == self.words@.len(),
                self.geometry(),
                self.page_start == old(self).page_start,
                self.page_num == old(self).page_num,
                self.obj_size == old(self).obj_size,
                self.obj_free == old(self).obj_free,
                self.obj_alloc == 0,
                first == self.reserved(),
                self.obj_start == self.addr_of(first as int),
                forall|j: int|
                    first <= j < i ==> self.words@[j] == (if j + 1 < n {
                        self.addr_of(j + 1) as u64
                    } else {
                        0
                    }),
            decreases n - i,
        {
            if i + 1 < n {
                proof {
                    self.lemma_slot(i + 1);
                    reveal(object_addr);
                }
                let next = self.page_start + ((i + 1) as u64) * self.obj_size;
                self.words.set(i, next);
            } else {
                self.words.set(i, 0);
            }
            i += 1;
        }
        self.list = Ghost(Seq::new((n - first) as nat, |j: int| first + j));
        proof {
            reveal(slots_within);
            reveal(ascending);
            reveal(chained);
            assert(self@.free =~= Seq::new(
                (old(self).slots() - old(self).reserved()) as nat,
                |i: int| old(self).addr_of(old(self).reserved() + i) as u64,
            ));
        }
    }

    /// Takes the last object off the free list.
    pub fn alloc_obj(&mut self) -> (r: Option<u64>)
        requires
            old(self).wf(),
        ensures
            final(self).wf(),
            old(self)@.free.len() == 0 ==> r is None && final(self)@ == old(self)@,
            old(self)@.free.len() > 0 ==> r == Some(old(self)@.free.last()) && final(self)@ == (
            CacheView {
                free: old(self)@.free.drop_last(),
                allocated: old(self)@.allocated + 1,
                ..old(self)@
            }),
    {
        if self.obj_free == 0 {
            return None;
        }
        let ghost list = self.list@;
        let ghost n = list.len() as int;
        proof {
            self.lemma_at(0);
        }
        self.obj_free -= 1;
        self.obj_alloc += 1;
        let mut next_ptr = self.obj_start;
        let i0 = self.slot(next_ptr, Ghost(list[0]));
        if self.words[i0] == 0 {
            proof {
                if n > 1 {
                    old(self).lemma_slot(list[1]);
                    assert(false);
                }
                self.list = Ghost(list.drop_last());
                lemma_drop_last(
                    list,
                    old(self).words@,
                    self.words@,
                    self.page_start,
                    self.obj_size,
                    self.reserved(),
                    self.slots(),
                );
                assert(self@.free =~= old(self)@.free.drop_last());
            }
            return Some(self.obj_start);
        }
        let ghost mut j: int = 0;
        loop
            invariant
                0 <= j < n - 1,
                n == list.len(),
                list == old(self).list@,
                old(self).wf(),
                old(self).obj_free > 0,
                self.geometry(),
                self.page_start == old(self).page_start,
                self.page_num == old(self).page_num,
                self.obj_size == old(self).obj_size,
                self.obj_start == old(self).obj_start,
                self.words@ == old(self).words@,
                self.list@ == list,
                self.obj_free == old(self).obj_free - 1,
                self.obj_alloc == old(self).obj_alloc + 1,
                self.reserved() <= list[j] < self.slots(),
                next_ptr == self.addr_of(list[j]),
            decreases n - j,
        {
            let prev_ptr = next_ptr;
            let ip = self.slot(prev_ptr, Ghost(list[j]));
            proof {
                old(self).lemma_at(j);
                old(self).lemma_at(j + 1);
                self.lemma_slot(list[j + 1]);
            }
            next_ptr = self.words[ip];
            let inext = self.slot(next_ptr, Ghost(list[j + 1]));
            if self.words[inext] == 0 {
                proof {
                    if j + 2 < n {
                        self.lemma_slot(list[j + 2]);
                        assert(false);
                    }
                }
                self.words.set(ip, 0);
                proof {
                    self.list = Ghost(list.drop_last());
                    lemma_drop_last(
                        list,
                        old(self).words@,
                        self.words@,
                        self.page_start,
                        self.obj_size,
                        self.reserved(),
                        self.slots(),
                    );
                    old(self).lemma_at(0);
                    assert(self.list@[0] == list[0]);
                    assert(self@.free =~= old(self)@.free.drop_last());
                    assert(old(self)@.free.last() == next_ptr);
                }
                return Some(next_ptr);
            }
            proof {
                j = j + 1;
            }
        }
    }

    /// The free objects after the object in slot `kp` took place `p` of the list.
    proof fn lemma_view_inserted(&self, after: &CachePage, kp: int, p: int)
        requires
            self.wf(),
            self.reserved() <= kp < self.slots(),
            0 <= p <= self.list@.len(),
            p > 0 ==> self.list@[p - 1] < kp,
            p < self.list@.len() ==> kp < self.list@[p],
            after.page_start == self.page_start,
            after.obj_size == self.obj_size,
            after.list@ == self.list@.insert(p, kp),
        ensures
            after@.free == insert_sorted(self@.free, self.addr_of(kp) as u64),
    {
        let list = self.list@;
        let ptr = self.addr_of(kp) as u64;
        let free = self@.free;
        self.lemma_slot(kp);
        lemma_place(list, p, kp);
        assert forall|i: int| 0 <= i < p implies free[i] < ptr by {
            self.lemma_at(i);
            self.lemma_slot(list[i]);
            self.lemma_slots_ordered(list[i], kp);
        }
        assert forall|i: int| p <= i < free.len() implies free[i] >= ptr by {
            self.lemma_at(i);
            self.lemma_slot(list[i]);
            self.lemma_slots_ordered(kp, list[i]);
        }
        lemma_rank(free, ptr, p);
        assert forall|i: int| 0 <= i < after@.free.len() implies after@.free[i] == free.insert(
            p,
            ptr,
        )[i] by {
            if i < p {
                assert(after.list@[i] == list[i]);
            } else if i > p {
                assert(after.list@[i] == list[i - 1]);
            }
        }
        assert(after@.free =~= insert_sorted(free, ptr));
    }

    /// What putting the free object in slot `kp` at place `p` of the list
    /// gives, once the words of the slot and of the one before it are set.
    proof fn lemma_linked_in(before: CachePage, after: CachePage, kp: int, p: int)
        requires
            before.wf(),
            before.obj_alloc > 0,
            before.reserved() <= kp < before.slots(),
            0 <= p <= before.list@.len(),
            p > 0 ==> before.list@[p - 1] < kp,
            p < before.list@.len() ==> before.list@[p] > kp,
            after.page_start == before.page_start,
            after.page_num == before.page_num,
            after.obj_size == before.obj_size,
            after.obj_free == before.obj_free + 1,
            after.obj_alloc == before.obj_alloc - 1,
            after.list@ == before.list@.insert(p, kp),
            after.words@.len() == before.words@.len(),
            after.obj_start == (if p == 0 {
                before.addr_of(kp) as u64
            } else {
                before.obj_start
            }),
            after.words@[kp] == (if p < before.list@.len() {
                before.addr_of(before.list@[p]) as u64
            } else {
                0
            }),
            p > 0 ==> after.words@[before.list@[p - 1]] == before.addr_of(kp) as u64,
            forall|k: int|
                0 <= k < before.words@.len() && k != kp && (p == 0 || k != before.list@[p - 1])
                    ==> after.words@[k] == before.words@[k],
        ensures
            after.wf(),
            after@ == (CacheView {
                free: insert_sorted(before@.free, before.addr_of(kp) as u64),
                allocated: (before@.allocated - 1) as nat,
                ..before@
            }),
    {
        let list = before.list@;
        before.lemma_slot(kp);
        lemma_place(list, p, kp);
        lemma_insert_within(list, before.reserved(), before.slots(), p, kp);
        assert(slots_within(list, 0, before.words@.len() as int)) by {
            reveal(slots_within);
        }
        lemma_insert_chained(
            list,
            before.words@,
            after.words@,
            before.page_start,
            before.obj_size,
            p,
            kp,
        );
        before.lemma_view_inserted(&after, kp, p);
        if p > 0 {
            assert(after.list@[0] == list[0]);
        } else {
            assert(after.list@[0] == kp);
        }
    }

    /// Puts the object at `ptr` back on the free list, in its place by address.
    pub fn free_obj(&mut self, ptr: u64)
        requires
            old(self).wf(),
            old(self).is_object(ptr),
            !old(self)@.free.contains(ptr),
            old(self)@.allocated > 0,
        ensures
            final(self).wf(),
            final(self)@ == (CacheView {
                free: insert_sorted(old(self)@.free, ptr),
                allocated: (old(self)@.allocated - 1) as nat,
                ..old(self)@
            }),
    {
        let ghost list = self.list@;
        let ghost n = list.len() as int;
        let ghost kp = choose|k: int|
            self.reserved() <= k < self.slots() && ptr == #[trigger] self.addr_of(k);
        proof {
            self.lemma_slot(kp);
            assert forall|i: int| 0 <= i < n implies list[i] != kp by {
                if list[i] == kp {
                    assert(self@.free[i] == ptr);
                    assert(false);
                }
            }
        }
        let ip = self.slot(ptr, Ghost(kp));
        self.obj_alloc -= 1;
        if self.obj_free == 0 {
            self.obj_free += 1;
            self.obj_start = ptr;
            self.words.set(ip, 0);
            proof {
                self.list = Ghost(list.insert(0, kp));
                Self::lemma_linked_in(*old(self), *self, kp, 0);
            }
            return;
        }
        self.obj_free += 1;
        proof {
            old(self).lemma_at(0);
            self.lemma_slot(list[0]);
            self.lemma_slots_ordered(kp, list[0]);
        }
        if ptr < self.obj_start {
            self.words.set(ip, self.obj_start);
            self.obj_start = ptr;
            proof {
                self.list = Ghost(list.insert(0, kp));
                Self::lemma_linked_in(*old(self), *self, kp, 0);
            }
            return;
        }
        let mut next_ptr = self.obj_start;
        let ghost mut j: int = 0;
        loop
            invariant
                0 <= j < n,
                n == list.len(),
                list == old(self).list@,
                old(self).wf(),
                old(self).obj_alloc > 0,
                old(self).reserved() <= kp < old(self).slots(),
                ptr == old(self).addr_of(kp),
                ip == kp,
                forall|i: int| 0 <= i < n ==> list[i] != kp,
                self.geometry(),
                self.page_start == old(self).page_start,
                self.page_num == old(self).page_num,
                self.obj_size == old(self).obj_size,
                self.obj_start == old(self).obj_start,
                self.words@ == old(self).words@,
                self.list@ == list,
                self.obj_free == old(self).obj_free + 1,
                self.obj_alloc == old(self).obj_alloc - 1,
                self.reserved() <= list[j] < self.slots(),
                next_ptr == self.addr_of(list[j]),
                list[j] < kp,
            decreases n - j,
        {
            let inext = self.slot(next_ptr, Ghost(list[j]));
            let w = self.words[inext];
            proof {
                old(self).lemma_at(j);
                self.lemma_slot(list[j]);
                self.lemma_slots_ordered(list[j], kp);
                if j + 1 < n {
                    old(self).lemma_at(j + 1);
                    self.lemma_slot(list[j + 1]);
                    self.lemma_slots_ordered(kp, list[j + 1]);
                }
            }
            if next_ptr < ptr && w > ptr {
                self.words.set(ip, w);
                self.words.set(inext, ptr);
                proof {
                    self.list = Ghost(list.insert(j + 1, kp));
                    Self::lemma_linked_in(*old(self), *self, kp, j + 1);
                }
                return;
            }
            if w == 0 {
                self.words.set(inext, ptr);
                self.words.set(ip, 0);
                proof {
                    self.list = Ghost(list.insert(j + 1, kp));
                    Self::lemma_linked_in(*old(self), *self, kp, j + 1);
                }
                return;
            }
            next_ptr = w;
            proof {
                j = j + 1;
            }
        }
    }
}

} // verus!
