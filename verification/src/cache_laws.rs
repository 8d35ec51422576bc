//! What holds of the object cache over a request and its release.

use crate::buddy_allocator::Heap;
use crate::cache_manager::{
    cache_pages, cache_reserved, cache_slots, empty_table, entry_holds, first_holding, first_room,
    first_serving, given_back, lemma_cache_pages, lemma_first_holding, lemma_first_room,
    lemma_first_serving, new_entry, opens_entry, released, served, serves, taken, CacheTable,
    CACHE_PAGE_LIMIT,
};
use crate::mcache::{cache_sizes, insert_sorted, lemma_rank, object_addr, CacheView, CACHE_NUM};
use crate::power::page_range;
use crate::PAGE_SIZE;
use vstd::prelude::*;

verus! {

/// An entry as the cache keeps it: it has objects that are out, and its
/// free objects lie in its pages, in ascending order.
pub open spec fn entry_sound(c: CacheView) -> bool {
    &&& c.allocated > 0
    &&& c.page_num > 0
    &&& forall|k: int| 0 <= k < c.free.len() ==> entry_holds(c, #[trigger] c.free[k])
    &&& forall|j: int, k: int| 0 <= j < k < c.free.len() ==> #[trigger] c.free[j] < #[trigger] c.free[k]
}

/// The pages of two entries do not overlap.
pub open spec fn entries_apart(a: CacheView, b: CacheView) -> bool {
    a.page_start + a.page_num * PAGE_SIZE <= b.page_start || b.page_start + b.page_num * PAGE_SIZE
        <= a.page_start
}

/// The tables as the cache keeps them: each of full length, the entries
/// sound, and no two entries on the same pages.
pub open spec fn tables_sound(ts: Seq<CacheTable>) -> bool {
    &&& forall|l: int| 0 <= l < ts.len() ==> (#[trigger] ts[l]).len() == CACHE_NUM
    &&& forall|l: int, i: int|
        0 <= l < ts.len() && 0 <= i < CACHE_NUM && (#[trigger] ts[l][i]) is Some ==> entry_sound(
            ts[l][i]->0,
        )
    &&& forall|l: int, i: int, l2: int, i2: int|
        0 <= l < ts.len() && 0 <= i < CACHE_NUM && 0 <= l2 < ts.len() && 0 <= i2 < CACHE_NUM && (l
            != l2 || i != i2) && (#[trigger] ts[l][i]) is Some && (#[trigger] ts[l2][i2]) is Some
            ==> entries_apart(ts[l][i]->0, ts[l2][i2]->0)
}

/// No entry of the tables is on the pages of `e`.
pub open spec fn apart_from(ts: Seq<CacheTable>, e: CacheView) -> bool {
    forall|l: int, i: int|
        0 <= l < ts.len() && 0 <= i < CACHE_NUM && (#[trigger] ts[l][i]) is Some ==> entries_apart(
            ts[l][i]->0,
            e,
        )
}

/// The first of the pages of an entry, as a page of the heap.
pub open spec fn entry_page(c: CacheView) -> int {
    c.page_start as int / (PAGE_SIZE as int)
}

/// The pages of the entry are pages of the heap that are out.
pub open spec fn entry_backed(c: CacheView, heap: Heap) -> bool {
    &&& c.page_start as int % (PAGE_SIZE as int) == 0
    &&& heap.start <= entry_page(c)
    &&& entry_page(c) + c.page_num <= heap.start + heap.pages
    &&& heap.free.disjoint(page_range(entry_page(c) - heap.start, c.page_num as int))
}

/// The pages of every entry of the tables are pages of the heap that are out.
pub open spec fn tables_backed(ts: Seq<CacheTable>, heap: Heap) -> bool {
    forall|l: int, i: int|
        0 <= l < ts.len() && 0 <= i < CACHE_NUM && (#[trigger] ts[l][i]) is Some ==> entry_backed(
            ts[l][i]->0,
            heap,
        )
}

/// The run of `n` pages that the heap hands out is a run of its free
/// pages, and the addresses of its pages fit in 64 bits.
pub open spec fn heap_hands(heap: Heap, n: int) -> bool {
    let base = heap.alloc_base(n);
    &&& heap.start + heap.pages <= CACHE_PAGE_LIMIT
    &&& 0 <= heap.start <= base
    &&& base + n <= heap.start + heap.pages
    &&& page_range(base - heap.start, n).subset_of(heap.free)
}

/// The cache as it stands with its heap: the tables sound, and the pages
/// of their entries out of the heap.
pub open spec fn cache_inv(ts: Seq<CacheTable>, heap: Heap) -> bool {
    tables_sound(ts) && tables_backed(ts, heap)
}

/// `ptr` lies in the pages of an entry of the tables, or of the entry that is opened.
pub open spec fn held_within(ts: Seq<CacheTable>, heap: Heap, obj_size: u64, ptr: u64) -> bool {
    ||| exists|l: int, i: int|
        0 <= l < ts.len() && 0 <= i < CACHE_NUM && (#[trigger] ts[l][i]) is Some && entry_holds(
            ts[l][i]->0,
            ptr,
        )
    ||| opens_entry(ts, obj_size) && entry_holds(new_entry(heap, obj_size), ptr)
}

/// An object that went out last goes back to the end of the free list.
pub proof fn lemma_taken_given_back(c: CacheView)
    requires
        entry_sound(c),
        c.free.len() > 0,
    ensures
        given_back(taken(c), c.free.last()) == c,
{
    let rest = c.free.drop_last();
    let last = c.free.last();
    assert forall|i: int| 0 <= i < rest.len() implies rest[i] < last by {
        assert(c.free[i] < c.free[c.free.len() - 1]);
    }
    lemma_rank(rest, last, rest.len() as int);
    assert(insert_sorted(rest, last) =~= c.free);
}

/// A new entry has free objects, and the last of them lies in its pages,
/// which start at the page that the heap hands out.
pub proof fn lemma_new_entry(heap: Heap, obj_size: u64)
    requires
        cache_sizes().contains(obj_size),
        heap.start + heap.pages <= CACHE_PAGE_LIMIT,
        0 <= heap.start <= heap.alloc_base(cache_pages(obj_size)),
        heap.alloc_base(cache_pages(obj_size)) + cache_pages(obj_size) <= heap.start + heap.pages,
    ensures
        new_entry(heap, obj_size).free.len() > 0,
        entry_holds(new_entry(heap, obj_size), new_entry(heap, obj_size).free.last()),
        new_entry(heap, obj_size).allocated == 0,
        new_entry(heap, obj_size).page_start as int / (PAGE_SIZE as int) == heap.alloc_base(
            cache_pages(obj_size),
        ),
        new_entry(heap, obj_size).page_num == cache_pages(obj_size),
        new_entry(heap, obj_size).page_num > 0,
        new_entry(heap, obj_size).page_start as int % (PAGE_SIZE as int) == 0,
        entry_sound(taken(new_entry(heap, obj_size))),
{
    lemma_cache_pages(obj_size);
    reveal(object_addr);
    let k = choose|k: int| 0 <= k < 16 && cache_sizes()[k] == obj_size;
    assert(cache_sizes()[k] == obj_size);
    let e = new_entry(heap, obj_size);
    assert(cache_slots(e.page_num, obj_size) == 512);
    assert(cache_reserved(obj_size) == 1);
    assert(e.free.len() == 511);
    assert(e.free.last() == object_addr(e.page_start, obj_size, 511) as u64);
    assert(511 * obj_size + obj_size == e.page_num * PAGE_SIZE) by (nonlinear_arith)
        requires
            e.page_num == obj_size / 8,
            obj_size % 8 == 0,
            PAGE_SIZE == 4096,
    ;
    let t = taken(e);
    assert forall|j: int| 0 <= j < e.free.len() implies entry_holds(e, #[trigger] e.free[j])
        && e.free[j] == e.page_start + (1 + j) * obj_size by {
        assert((1 + j) * obj_size + obj_size <= 511 * obj_size + obj_size) by (nonlinear_arith)
            requires
                0 <= j < 511,
                obj_size > 0,
        ;
        assert((1 + j) * obj_size >= 0) by (nonlinear_arith)
            requires
                0 <= j,
                obj_size > 0,
        ;
    }
    assert forall|k: int| 0 <= k < t.free.len() implies entry_holds(t, #[trigger] t.free[k]) by {
        assert(t.free[k] == e.free[k]);
        assert(entry_holds(e, e.free[k]));
    }
    assert forall|j: int, k: int| 0 <= j < k < t.free.len() implies #[trigger] t.free[j]
        < #[trigger] t.free[k] by {
        assert(t.free[j] == e.free[j]);
        assert(t.free[k] == e.free[k]);
        assert((1 + j) * obj_size < (1 + k) * obj_size) by (nonlinear_arith)
            requires
                0 <= j < k,
                obj_size > 0,
        ;
    }
}

/// An entry on pages that are out of the heap is apart from an entry on free pages.
pub proof fn lemma_apart_new(ts: Seq<CacheTable>, heap: Heap, obj_size: u64)
    requires
        cache_inv(ts, heap),
        cache_sizes().contains(obj_size),
        heap_hands(heap, cache_pages(obj_size)),
    ensures
        apart_from(ts, new_entry(heap, obj_size)),
{
    let e = new_entry(heap, obj_size);
    let n = cache_pages(obj_size);
    let base = heap.alloc_base(n);
    lemma_new_entry(heap, obj_size);
    assert forall|l: int, i: int|
        0 <= l < ts.len() && 0 <= i < CACHE_NUM && (#[trigger] ts[l][i]) is Some implies entries_apart(
        ts[l][i]->0,
        e,
    ) by {
        let c = ts[l][i]->0;
        assert(entry_sound(c));
        assert(entry_backed(c, heap));
        let p = entry_page(c);
        if p < base + n && base < p + c.page_num {
            let x = if p < base {
                base
            } else {
                p
            };
            assert(page_range(base - heap.start, n).contains(x - heap.start));
            assert(page_range(p - heap.start, c.page_num as int).contains(x - heap.start));
            assert(false);
        }
    }
}

/// In a table where only entry `i` holds `ptr`, the object at `ptr` goes back to entry `i`.
proof fn lemma_only_holder(t: CacheTable, ptr: u64, i: int)
    requires
        0 <= i < t.len(),
        t[i] is Some,
        entry_holds(t[i]->0, ptr),
        forall|j: int| 0 <= j < t.len() && j != i && (#[trigger] t[j]) is Some ==> !entry_holds(
            t[j]->0,
            ptr,
        ),
    ensures
        first_holding(t, ptr, 0) == i,
{
    lemma_first_holding(t, ptr, 0);
    let r = first_holding(t, ptr, 0);
    if r < i {
        assert(t[r] is Some);
    }
    if r > i {
        assert(!(t[i] is Some && entry_holds(t[i]->0, ptr)));
    }
}

/// In a table where no entry holds `ptr`, the object at `ptr` goes back to none.
proof fn lemma_no_holder(t: CacheTable, ptr: u64)
    requires
        forall|j: int| 0 <= j < t.len() && (#[trigger] t[j]) is Some ==> !entry_holds(t[j]->0, ptr),
    ensures
        first_holding(t, ptr, 0) == t.len(),
{
    lemma_first_holding(t, ptr, 0);
    let r = first_holding(t, ptr, 0);
    if r < t.len() {
        assert(t[r] is Some);
    }
}

proof fn lemma_backed_rest(ts: Seq<CacheTable>, heap: Heap)
    requires
        tables_backed(ts, heap),
        ts.len() > 0,
    ensures
        tables_backed(ts.drop_first(), heap),
{
    let rest = ts.drop_first();
    assert forall|l: int, i: int|
        0 <= l < rest.len() && 0 <= i < CACHE_NUM && (#[trigger] rest[l][i]) is Some implies entry_backed(
        rest[l][i]->0,
        heap,
    ) by {
        assert(rest[l] == ts[l + 1]);
        assert(ts[l + 1][i] is Some);
    }
}

proof fn lemma_sound_rest(ts: Seq<CacheTable>)
    requires
        tables_sound(ts),
        ts.len() > 0,
    ensures
        tables_sound(ts.drop_first()),
{
    let rest = ts.drop_first();
    assert forall|l: int| 0 <= l < rest.len() implies (#[trigger] rest[l]).len() == CACHE_NUM by {
        assert(rest[l] == ts[l + 1]);
    }
    assert forall|l: int, i: int|
        0 <= l < rest.len() && 0 <= i < CACHE_NUM && (#[trigger] rest[l][i]) is Some implies entry_sound(
        rest[l][i]->0,
    ) by {
        assert(rest[l] == ts[l + 1]);
        assert(ts[l + 1][i] is Some);
    }
    assert forall|l: int, i: int, l2: int, i2: int|
        0 <= l < rest.len() && 0 <= i < CACHE_NUM && 0 <= l2 < rest.len() && 0 <= i2 < CACHE_NUM
            && (l != l2 || i != i2) && (#[trigger] rest[l][i]) is Some && (
        #[trigger] rest[l2][i2]) is Some implies entries_apart(rest[l][i]->0, rest[l2][i2]->0) by {
        assert(rest[l] == ts[l + 1]);
        assert(rest[l2] == ts[l2 + 1]);
        assert(ts[l + 1][i] is Some);
        assert(ts[l2 + 1][i2] is Some);
    }
}

/// Slab round trip: serving a request and taking back what it was served
/// with leaves every entry as it was, the heap with the free pages that
/// it had, and at most one table more, which is empty.
pub proof fn lemma_round_trip(ts: Seq<CacheTable>, heap: Heap, obj_size: u64)
    requires
        cache_inv(ts, heap),
        cache_sizes().contains(obj_size),
        opens_entry(ts, obj_size) ==> heap_hands(heap, cache_pages(obj_size)),
    ensures
        ({
            let s = served(ts, heap, obj_size);
            let r = released(s.0, s.1, s.2);
            &&& r.1.free == heap.free
            &&& r.1.start == heap.start
            &&& r.1.pages == heap.pages
            &&& (r.0 == ts || r.0 == ts.push(empty_table()))
            &&& held_within(ts, heap, obj_size, s.2)
        }),
    decreases ts.len(),
{
    let s = served(ts, heap, obj_size);
    let n = cache_pages(obj_size);
    let e = new_entry(heap, obj_size);
    if opens_entry(ts, obj_size) {
        lemma_new_entry(heap, obj_size);
        lemma_cache_pages(obj_size);
        lemma_apart_new(ts, heap, obj_size);
    }
    if ts.len() == 0 {
        let t1 = empty_table().update(0, Some(taken(e)));
        assert(s.0 == seq![t1]);
        lemma_only_holder(t1, s.2, 0);
        lemma_heap_round_trip(heap, n);
        assert(t1.update(0, None) =~= empty_table());
        assert(seq![t1].update(0, empty_table()) =~= ts.push(empty_table()));
    } else {
        let t = ts[0];
        let hit = first_serving(t, obj_size, 0);
        let room = first_room(t, 0);
        lemma_first_serving(t, obj_size, 0);
        lemma_first_room(t, 0);
        if hit < t.len() {
            let c = t[hit]->0;
            assert(ts[0][hit] is Some);
            assert(entry_sound(c));
            let t1 = t.update(hit, Some(taken(c)));
            assert(s.0 == ts.update(0, t1));
            assert(entry_holds(c, c.free[c.free.len() - 1]));
            assert forall|j: int| 0 <= j < t1.len() && j != hit && (#[trigger] t1[j]) is Some implies !entry_holds(
                t1[j]->0,
                s.2,
            ) by {
                assert(ts[0][j] is Some);
                assert(entries_apart(ts[0][j]->0, ts[0][hit]->0));
            }
            lemma_only_holder(t1, s.2, hit);
            lemma_taken_given_back(c);
            assert(t1.update(hit, Some(c)) =~= t);
            assert(ts.update(0, t1).update(0, t) =~= ts);
        } else if room < t.len() {
            let t1 = t.update(room, Some(taken(e)));
            assert(s.0 == ts.update(0, t1));
            assert forall|j: int| 0 <= j < t1.len() && j != room && (#[trigger] t1[j]) is Some implies !entry_holds(
                t1[j]->0,
                s.2,
            ) by {
                assert(ts[0][j] is Some);
                assert(entries_apart(ts[0][j]->0, e));
            }
            lemma_only_holder(t1, s.2, room);
            lemma_heap_round_trip(heap, n);
            assert(t1.update(room, None) =~= t);
            assert(ts.update(0, t1).update(0, t) =~= ts);
        } else {
            let rest = ts.drop_first();
            lemma_sound_rest(ts);
            lemma_backed_rest(ts, heap);
            assert(opens_entry(ts, obj_size) == opens_entry(rest, obj_size));
            lemma_round_trip(rest, heap, obj_size);
            let sr = served(rest, heap, obj_size);
            assert(s.0 == seq![t] + sr.0);
            assert(s.2 == sr.2);
            assert((seq![t] + sr.0)[0] == t);
            assert((seq![t] + sr.0).drop_first() =~= sr.0);
            // no entry of the first table holds what a later table handed out
            assert forall|j: int| 0 <= j < t.len() && (#[trigger] t[j]) is Some implies !entry_holds(
                t[j]->0,
                s.2,
            ) by {
                assert(ts[0][j] is Some);
                if opens_entry(rest, obj_size) && entry_holds(e, s.2) {
                    assert(entries_apart(ts[0][j]->0, e));
                } else {
                    let (l, i) = choose|l: int, i: int|
                        0 <= l < rest.len() && 0 <= i < CACHE_NUM && (#[trigger] rest[l][i]) is Some
                            && entry_holds(rest[l][i]->0, s.2);
                    assert(rest[l] == ts[l + 1]);
                    assert(ts[l + 1][i] is Some);
                    assert(entries_apart(ts[0][j]->0, ts[l + 1][i]->0));
                }
            }
            lemma_no_holder(t, s.2);
            let rr = released(sr.0, sr.1, sr.2);
            assert(released(s.0, s.1, s.2) == (seq![t] + rr.0, rr.1));
            if rr.0 == rest {
                assert(seq![t] + rest =~= ts);
            } else {
                assert(seq![t] + rest.push(empty_table()) =~= ts.push(empty_table()));
            }
            if !(opens_entry(ts, obj_size) && entry_holds(e, s.2)) {
                let (l, i) = choose|l: int, i: int|
                    0 <= l < rest.len() && 0 <= i < CACHE_NUM && (#[trigger] rest[l][i]) is Some
                        && entry_holds(rest[l][i]->0, s.2);
                assert(rest[l] == ts[l + 1]);
                assert(ts[l + 1][i] is Some && entry_holds(ts[l + 1][i]->0, s.2));
            }
        }
    }
}

/// A run that the heap hands out and takes back leaves its free pages as they were.
proof fn lemma_heap_round_trip(heap: Heap, n: int)
    requires
        page_range(heap.alloc_base(n) - heap.start, n).subset_of(heap.free),
    ensures
        heap.after_alloc(n).after_free(heap.alloc_base(n), n).free == heap.free,
        heap.after_alloc(n).after_free(heap.alloc_base(n), n).start == heap.start,
        heap.after_alloc(n).after_free(heap.alloc_base(n), n).pages == heap.pages,
{
    let r = page_range(heap.alloc_base(n) - heap.start, n);
    assert(heap.free.difference(r).union(r) =~= heap.free);
}

/// The table that serves a request for `obj_size` bytes; the number of tables where a new one does.
pub open spec fn serving_level(ts: Seq<CacheTable>, obj_size: u64) -> int
    decreases ts.len(),
{
    if ts.len() == 0 {
        0
    } else if first_serving(ts[0], obj_size, 0) < ts[0].len() || first_room(ts[0], 0)
        < ts[0].len() {
        0
    } else {
        1 + serving_level(ts.drop_first(), obj_size)
    }
}

/// The slot of its table that serves a request for `obj_size` bytes.
pub open spec fn serving_slot(ts: Seq<CacheTable>, obj_size: u64) -> int
    decreases ts.len(),
{
    if ts.len() == 0 {
        0
    } else if first_serving(ts[0], obj_size, 0) < ts[0].len() {
        first_serving(ts[0], obj_size, 0)
    } else if first_room(ts[0], 0) < ts[0].len() {
        first_room(ts[0], 0)
    } else {
        serving_slot(ts.drop_first(), obj_size)
    }
}

/// The tables with an empty one behind them where a request opens a new table.
pub open spec fn with_serving_table(ts: Seq<CacheTable>, obj_size: u64) -> Seq<CacheTable> {
    if serving_level(ts, obj_size) < ts.len() {
        ts
    } else {
        ts.push(empty_table())
    }
}

/// The entry that serves a request: the one in the serving slot, or a new one.
pub open spec fn serving_entry(ts: Seq<CacheTable>, heap: Heap, obj_size: u64) -> CacheView {
    if opens_entry(ts, obj_size) {
        new_entry(heap, obj_size)
    } else {
        ts[serving_level(ts, obj_size)][serving_slot(ts, obj_size)]->0
    }
}

/// A request changes one slot of one table: there the serving entry
/// stands with its last free object out. That object is what the request
/// is served with, and the heap gives pages only where the entry is new.
pub proof fn lemma_served_at(ts: Seq<CacheTable>, heap: Heap, obj_size: u64)
    requires
        forall|l: int| 0 <= l < ts.len() ==> (#[trigger] ts[l]).len() == CACHE_NUM,
    ensures
        ({
            let level = serving_level(ts, obj_size);
            let slot = serving_slot(ts, obj_size);
            let base = with_serving_table(ts, obj_size);
            let x = serving_entry(ts, heap, obj_size);
            let s = served(ts, heap, obj_size);
            &&& 0 <= level <= ts.len()
            &&& 0 <= slot < CACHE_NUM
            &&& opens_entry(ts, obj_size) <==> base[level][slot] is None
            &&& !opens_entry(ts, obj_size) ==> serves(ts[level], obj_size, slot)
            &&& s.0 == base.update(level, base[level].update(slot, Some(taken(x))))
            &&& s.1 == (if opens_entry(ts, obj_size) {
                heap.after_alloc(cache_pages(obj_size))
            } else {
                heap
            })
            &&& s.2 == x.free.last()
        }),
    decreases ts.len(),
{
    let level = serving_level(ts, obj_size);
    let slot = serving_slot(ts, obj_size);
    let base = with_serving_table(ts, obj_size);
    let x = serving_entry(ts, heap, obj_size);
    let s = served(ts, heap, obj_size);
    if ts.len() == 0 {
        assert(base =~= seq![empty_table()]);
        assert(s.0 =~= base.update(0, base[0].update(0, Some(taken(x)))));
    } else {
        let t = ts[0];
        lemma_first_serving(t, obj_size, 0);
        lemma_first_room(t, 0);
        if first_serving(t, obj_size, 0) < t.len() {
        } else if first_room(t, 0) < t.len() {
        } else {
            let rest = ts.drop_first();
            assert forall|l: int| 0 <= l < rest.len() implies (#[trigger] rest[l]).len()
                == CACHE_NUM by {
                assert(rest[l] == ts[l + 1]);
            }
            lemma_served_at(rest, heap, obj_size);
            let lr = serving_level(rest, obj_size);
            let base_r = with_serving_table(rest, obj_size);
            assert(seq![t] + base_r =~= base);
            assert(base[level] == base_r[lr]);
            let sr = served(rest, heap, obj_size);
            assert(seq![t] + base_r.update(lr, base_r[lr].update(slot, Some(taken(x))))
                =~= base.update(level, base[level].update(slot, Some(taken(x)))));
            if lr < rest.len() {
                assert(rest[lr] == ts[lr + 1]);
            }
            assert(opens_entry(ts, obj_size) == opens_entry(rest, obj_size));
        }
    }
}

/// Serving a request keeps the cache as it stands with its heap.
pub proof fn lemma_served_inv(ts: Seq<CacheTable>, heap: Heap, obj_size: u64)
    requires
        cache_inv(ts, heap),
        cache_sizes().contains(obj_size),
        opens_entry(ts, obj_size) ==> heap_hands(heap, cache_pages(obj_size)),
    ensures
        cache_inv(served(ts, heap, obj_size).0, served(ts, heap, obj_size).1),
{
    lemma_served_at(ts, heap, obj_size);
    let level = serving_level(ts, obj_size);
    let slot = serving_slot(ts, obj_size);
    let base = with_serving_table(ts, obj_size);
    let x = serving_entry(ts, heap, obj_size);
    let s = served(ts, heap, obj_size);
    let n = cache_pages(obj_size);
    if opens_entry(ts, obj_size) {
        lemma_new_entry(heap, obj_size);
        lemma_apart_new(ts, heap, obj_size);
        lemma_cache_pages(obj_size);
    } else {
        assert(ts[level][slot] is Some);
        let c = ts[level][slot]->0;
        assert(entry_sound(c));
        assert(entry_backed(c, heap));
        assert forall|k: int| 0 <= k < taken(c).free.len() implies entry_holds(
            taken(c),
            #[trigger] taken(c).free[k],
        ) by {
            assert(taken(c).free[k] == c.free[k]);
            assert(entry_holds(c, c.free[k]));
        }
        assert forall|j: int, k: int| 0 <= j < k < taken(c).free.len() implies #[trigger] taken(
            c,
        ).free[j] < #[trigger] taken(c).free[k] by {
            assert(c.free[j] < c.free[k]);
        }
        assert(entry_sound(taken(c)));
    }
    // every other entry stands where it stood
    assert forall|l: int, i: int|
        0 <= l < s.0.len() && 0 <= i < CACHE_NUM && (l != level || i != slot) && (
        #[trigger] s.0[l][i]) is Some implies l < ts.len() && ts[l][i] == s.0[l][i] by {
        if l == level {
            assert(s.0[l] == base[level].update(slot, Some(taken(x))));
        } else {
            assert(s.0[l] == base[l]);
        }
        if l >= ts.len() {
            assert(base[l] == empty_table());
        }
    }
    assert(s.0[level][slot] == Some(taken(x)));
    assert forall|l: int| 0 <= l < s.0.len() implies (#[trigger] s.0[l]).len() == CACHE_NUM by {
        if l == level {
            if level >= ts.len() {
                assert(base[level] == empty_table());
            }
        } else if l >= ts.len() {
            assert(base[l] == empty_table());
        }
    }
    assert forall|l: int, i: int|
        0 <= l < s.0.len() && 0 <= i < CACHE_NUM && (#[trigger] s.0[l][i]) is Some implies entry_sound(
        s.0[l][i]->0,
    ) && entry_backed(s.0[l][i]->0, s.1) by {
        if l == level && i == slot {
        } else {
            assert(ts[l][i] is Some);
            assert(entry_sound(ts[l][i]->0));
            assert(entry_backed(ts[l][i]->0, heap));
        }
    }
    assert forall|l: int, i: int, l2: int, i2: int|
        0 <= l < s.0.len() && 0 <= i < CACHE_NUM && 0 <= l2 < s.0.len() && 0 <= i2 < CACHE_NUM && (l
            != l2 || i != i2) && (#[trigger] s.0[l][i]) is Some && (
        #[trigger] s.0[l2][i2]) is Some implies entries_apart(s.0[l][i]->0, s.0[l2][i2]->0) by {
        if l == level && i == slot {
            assert(ts[l2][i2] is Some);
            if opens_entry(ts, obj_size) {
                assert(entries_apart(ts[l2][i2]->0, x));
            } else {
                assert(entries_apart(ts[l][i]->0, ts[l2][i2]->0));
            }
        } else if l2 == level && i2 == slot {
            assert(ts[l][i] is Some);
            if opens_entry(ts, obj_size) {
                assert(entries_apart(ts[l][i]->0, x));
            } else {
                assert(entries_apart(ts[l][i]->0, ts[l2][i2]->0));
            }
        } else {
            assert(ts[l][i] is Some);
            assert(ts[l2][i2] is Some);
        }
    }
}

/// The table whose entry holds `ptr`; the number of tables where none does.
pub open spec fn holding_level(ts: Seq<CacheTable>, ptr: u64) -> int
    decreases ts.len(),
{
    if ts.len() == 0 {
        0
    } else if first_holding(ts[0], ptr, 0) < ts[0].len() {
        0
    } else {
        1 + holding_level(ts.drop_first(), ptr)
    }
}

/// The slot of its table whose entry holds `ptr`.
pub open spec fn holding_slot(ts: Seq<CacheTable>, ptr: u64) -> int
    decreases ts.len(),
{
    if ts.len() == 0 {
        0
    } else if first_holding(ts[0], ptr, 0) < ts[0].len() {
        first_holding(ts[0], ptr, 0)
    } else {
        holding_slot(ts.drop_first(), ptr)
    }
}

/// A release changes the slot of the entry that holds the object, and
/// nothing where no entry holds it.
pub proof fn lemma_released_at(ts: Seq<CacheTable>, heap: Heap, ptr: u64)
    requires
        forall|l: int| 0 <= l < ts.len() ==> (#[trigger] ts[l]).len() == CACHE_NUM,
    ensures
        ({
            let level = holding_level(ts, ptr);
            let slot = holding_slot(ts, ptr);
            let r = released(ts, heap, ptr);
            &&& 0 <= level <= ts.len()
            &&& level == ts.len() <==> crate::cache_manager::owner(ts, ptr) is None
            &&& level == ts.len() ==> r == (ts, heap)
            &&& level < ts.len() ==> {
                let c = ts[level][slot]->0;
                &&& 0 <= slot < CACHE_NUM
                &&& ts[level][slot] is Some
                &&& crate::cache_manager::owner(ts, ptr) == Some(c)
                &&& entry_holds(c, ptr)
                &&& r.0 == ts.update(
                    level,
                    ts[level].update(
                        slot,
                        if c.allocated == 1 {
                            None
                        } else {
                            Some(given_back(c, ptr))
                        },
                    ),
                )
                &&& r.1 == (if c.allocated == 1 {
                    heap.after_free(entry_page(c), c.page_num as int)
                } else {
                    heap
                })
            }
        }),
    decreases ts.len(),
{
    if ts.len() > 0 {
        let t = ts[0];
        lemma_first_holding(t, ptr, 0);
        if first_holding(t, ptr, 0) < t.len() {
        } else {
            let rest = ts.drop_first();
            assert forall|l: int| 0 <= l < rest.len() implies (#[trigger] rest[l]).len()
                == CACHE_NUM by {
                assert(rest[l] == ts[l + 1]);
            }
            lemma_released_at(rest, heap, ptr);
            let lr = holding_level(rest, ptr);
            let slot = holding_slot(rest, ptr);
            if lr < rest.len() {
                assert(rest[lr] == ts[lr + 1]);
                let c = rest[lr][slot]->0;
                let e = if c.allocated == 1 {
                    None
                } else {
                    Some(given_back(c, ptr))
                };
                assert(seq![t] + rest.update(lr, rest[lr].update(slot, e)) =~= ts.update(
                    lr + 1,
                    ts[lr + 1].update(slot, e),
                ));
            } else {
                assert(seq![t] + rest =~= ts);
            }
        }
    }
}

/// An ascending sequence with a value that it lacks put in its place ascends.
pub proof fn lemma_insert_sorted(s: Seq<u64>, x: u64)
    requires
        forall|j: int, k: int| 0 <= j < k < s.len() ==> #[trigger] s[j] < #[trigger] s[k],
        !s.contains(x),
    ensures
        insert_sorted(s, x).len() == s.len() + 1,
        forall|j: int, k: int|
            0 <= j < k < insert_sorted(s, x).len() ==> #[trigger] insert_sorted(s, x)[j]
                < #[trigger] insert_sorted(s, x)[k],
        forall|k: int|
            0 <= k < insert_sorted(s, x).len() ==> #[trigger] insert_sorted(s, x)[k] == x
                || s.contains(insert_sorted(s, x)[k]),
{
    let p = lemma_place_of(s, x);
    lemma_rank(s, x, p);
    let r = s.insert(p, x);
    assert forall|j: int, k: int| 0 <= j < k < r.len() implies #[trigger] r[j] < #[trigger] r[k] by {
        let j0 = if j < p { j } else { j - 1 };
        let k0 = if k < p { k } else { k - 1 };
        if j != p {
            assert(r[j] == s[j0]);
        }
        if k != p {
            assert(r[k] == s[k0]);
        }
    }
    assert forall|k: int| 0 <= k < r.len() implies #[trigger] r[k] == x || s.contains(r[k]) by {
        let k0 = if k < p { k } else { k - 1 };
        if k != p {
            assert(r[k] == s[k0]);
        }
    }
}

/// The place of a value in an ascending sequence that lacks it.
proof fn lemma_place_of(s: Seq<u64>, x: u64) -> (p: int)
    requires
        forall|j: int, k: int| 0 <= j < k < s.len() ==> #[trigger] s[j] < #[trigger] s[k],
        !s.contains(x),
    ensures
        0 <= p <= s.len(),
        forall|i: int| 0 <= i < p ==> s[i] < x,
        forall|i: int| p <= i < s.len() ==> s[i] > x,
    decreases s.len(),
{
    if s.len() == 0 {
        0
    } else if s.last() < x {
        assert forall|i: int| 0 <= i < s.len() implies s[i] < x by {
            if i < s.len() - 1 {
                assert(s[i] < s[s.len() - 1]);
            }
        }
        s.len() as int
    } else {
        assert(s[s.len() - 1] != x);
        let head = s.drop_last();
        assert forall|j: int, k: int| 0 <= j < k < head.len() implies #[trigger] head[j]
            < #[trigger] head[k] by {
            assert(s[j] < s[k]);
        }
        assert(!head.contains(x)) by {
            if head.contains(x) {
                let i = choose|i: int| 0 <= i < head.len() && head[i] == x;
                assert(s[i] == x);
            }
        }
        let p = lemma_place_of(head, x);
        assert forall|i: int| p <= i < s.len() implies s[i] > x by {
            if i < s.len() - 1 {
                assert(head[i] > x);
            }
        }
        assert forall|i: int| 0 <= i < p implies s[i] < x by {
            assert(head[i] < x);
        }
        p
    }
}

/// Taking an object back keeps the cache as it stands with its heap.
pub proof fn lemma_released_inv(ts: Seq<CacheTable>, heap: Heap, ptr: u64)
    requires
        cache_inv(ts, heap),
        crate::cache_manager::can_release_object(ts, heap, ptr),
    ensures
        cache_inv(released(ts, heap, ptr).0, released(ts, heap, ptr).1),
{
    lemma_released_at(ts, heap, ptr);
    let level = holding_level(ts, ptr);
    let slot = holding_slot(ts, ptr);
    let r = released(ts, heap, ptr);
    if level < ts.len() {
        let c = ts[level][slot]->0;
        assert(entry_sound(c));
        assert(entry_backed(c, heap));
        if c.allocated != 1 {
            let g = given_back(c, ptr);
            lemma_insert_sorted(c.free, ptr);
            assert forall|k: int| 0 <= k < g.free.len() implies entry_holds(g, #[trigger] g.free[k]) by {
                if g.free[k] != ptr {
                    let i = choose|i: int| 0 <= i < c.free.len() && c.free[i] == g.free[k];
                    assert(entry_holds(c, c.free[i]));
                }
            }
            assert(entry_sound(g));
        }
        assert forall|l: int, i: int|
            0 <= l < r.0.len() && 0 <= i < CACHE_NUM && (l != level || i != slot) implies (
        #[trigger] r.0[l][i]) == ts[l][i] by {
            if l == level {
                assert(r.0[l] == ts[level].update(slot, r.0[level][slot]));
            }
        }
        assert forall|l: int| 0 <= l < r.0.len() implies (#[trigger] r.0[l]).len() == CACHE_NUM by {}
        assert forall|l: int, i: int|
            0 <= l < r.0.len() && 0 <= i < CACHE_NUM && (#[trigger] r.0[l][i]) is Some implies entry_sound(
            r.0[l][i]->0,
        ) && entry_backed(r.0[l][i]->0, r.1) by {
            if l == level && i == slot {
            } else {
                assert(ts[l][i] is Some);
                let d = ts[l][i]->0;
                assert(entry_sound(d));
                assert(entry_backed(d, heap));
                if c.allocated == 1 {
                    assert(entries_apart(d, c));
                    let pd = entry_page(d);
                    let pc = entry_page(c);
                    assert(page_range(pd - heap.start, d.page_num as int).disjoint(
                        page_range(pc - heap.start, c.page_num as int),
                    ));
                }
            }
        }
        assert forall|l: int, i: int, l2: int, i2: int|
            0 <= l < r.0.len() && 0 <= i < CACHE_NUM && 0 <= l2 < r.0.len() && 0 <= i2 < CACHE_NUM
                && (l != l2 || i != i2) && (#[trigger] r.0[l][i]) is Some && (
            #[trigger] r.0[l2][i2]) is Some implies entries_apart(r.0[l][i]->0, r.0[l2][i2]->0) by {
            assert(ts[l][i] is Some);
            assert(ts[l2][i2] is Some);
            assert(entries_apart(ts[l][i]->0, ts[l2][i2]->0));
        }
    }
}

} // verus!
