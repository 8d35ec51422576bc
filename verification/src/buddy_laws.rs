//! What holds of the buddy allocator over any run of allocations and
//! releases, stated over a ledger of the runs that are out.

use crate::buddy_allocator::{freed, BuddyAllocator};
use crate::power::{
    aligned, buddy_of, lemma_add_range_len, lemma_buddy, lemma_pow2_64, lemma_pow2_double,
    lemma_power_2_order, order_of, page_range, parent_of,
};
use vstd::arithmetic::power2::pow2;
use vstd::prelude::*;

verus! {

/// A run of pages that is out.
pub struct Run {
    /// Its first page, counted from the allocator's `start`.
    pub first: int,
    /// Its length in pages.
    pub pages: int,
}

impl Run {
    /// The pages of the run.
    pub open spec fn range(self) -> Set<int> {
        page_range(self.first, self.pages)
    }
}

/// The pages of the runs of `live`.
pub open spec fn live_set(live: Seq<Run>) -> Set<int>
    decreases live.len(),
{
    if live.len() == 0 {
        Set::empty()
    } else {
        live_set(live.drop_last()).union(live.last().range())
    }
}

/// The sum of the lengths of the runs of `live`.
pub open spec fn live_pages(live: Seq<Run>) -> int
    decreases live.len(),
{
    if live.len() == 0 {
        0
    } else {
        live_pages(live.drop_last()) + live.last().pages
    }
}

/// No two runs of `live` share a page.
pub open spec fn no_overlap(live: Seq<Run>) -> bool {
    forall|i: int, j: int|
        0 <= i < j < live.len() ==> (#[trigger] live[i]).range().disjoint((#[trigger] live[j]).range())
}

/// `live` lists the runs that are out of `b`: they do not overlap, and
/// their pages are the pages of the heap that are not free.
pub open spec fn accounts(b: BuddyAllocator, live: Seq<Run>) -> bool {
    &&& forall|i: int| 0 <= i < live.len() ==> (#[trigger] live[i]).pages >= 0
    &&& no_overlap(live)
    &&& live_set(live) == page_range(0, b@.pages as int).difference(b@.free)
}

/// A page is out where it lies in one of the runs that are out.
pub proof fn lemma_live_set(live: Seq<Run>, x: int)
    ensures
        live_set(live).contains(x) <==> exists|i: int|
            0 <= i < live.len() && (#[trigger] live[i]).range().contains(x),
    decreases live.len(),
{
    if live.len() > 0 {
        let head = live.drop_last();
        lemma_live_set(head, x);
        if live_set(live).contains(x) {
            if live.last().range().contains(x) {
                assert(live[live.len() - 1].range().contains(x));
            } else {
                let i = choose|i: int| 0 <= i < head.len() && (#[trigger] head[i]).range().contains(x);
                assert(live[i].range().contains(x));
            }
        }
        if exists|i: int| 0 <= i < live.len() && (#[trigger] live[i]).range().contains(x) {
            let i = choose|i: int| 0 <= i < live.len() && (#[trigger] live[i]).range().contains(x);
            if i < live.len() - 1 {
                assert(head[i].range().contains(x));
            }
        }
    }
}

/// The runs that are out hold as many pages as their lengths add up to.
pub proof fn lemma_live_len(live: Seq<Run>)
    requires
        forall|i: int| 0 <= i < live.len() ==> (#[trigger] live[i]).pages >= 0,
        no_overlap(live),
    ensures
        live_set(live).finite(),
        live_set(live).len() == live_pages(live),
    decreases live.len(),
{
    if live.len() > 0 {
        let head = live.drop_last();
        let last = live.last();
        assert forall|i: int, j: int| 0 <= i < j < head.len() implies (#[trigger] head[i]).range().disjoint(
            (#[trigger] head[j]).range(),
        ) by {
            assert(live[i].range().disjoint(live[j].range()));
        }
        assert forall|i: int| 0 <= i < head.len() implies (#[trigger] head[i]).pages >= 0 by {
            assert(live[i].pages >= 0);
        }
        lemma_live_len(head);
        assert forall|x: int| live_set(head).contains(x) implies !last.range().contains(x) by {
            lemma_live_set(head, x);
            let i = choose|i: int| 0 <= i < head.len() && (#[trigger] head[i]).range().contains(x);
            assert(live[i].range().disjoint(live[live.len() - 1].range()));
        }
        assert(live[live.len() - 1].pages >= 0);
        lemma_add_range_len(live_set(head), last.first, last.pages);
    }
}

/// Conservation: the free pages and the pages of the runs that are out add
/// up to the pages of the heap.
pub proof fn lemma_conservation(b: BuddyAllocator, live: Seq<Run>)
    requires
        b.wf(),
        accounts(b, live),
    ensures
        b.free + live_pages(live) == b@.pages,
{
    b.lemma_free_pages();
    lemma_live_len(live);
    let heap = page_range(0, b@.pages as int);
    crate::power::lemma_range_len(0, b@.pages as int);
    assert(b@.free.union(live_set(live)) =~= heap);
    vstd::set_lib::lemma_set_disjoint_lens(b@.free, live_set(live));
}

/// Of a heap whose pages are all free, no run is out.
pub proof fn lemma_accounts_init(b: BuddyAllocator)
    requires
        b@.free == page_range(0, b@.pages as int),
    ensures
        accounts(b, Seq::<Run>::empty()),
{
    assert(live_set(Seq::<Run>::empty()) =~= page_range(0, b@.pages as int).difference(
        b@.free,
    ));
}

/// An allocation adds its run to the runs that are out, and the run shares
/// no page with any of them.
pub proof fn lemma_accounts_alloc(
    pre: BuddyAllocator,
    post: BuddyAllocator,
    live: Seq<Run>,
    first: int,
    pages: int,
)
    requires
        pre.wf(),
        accounts(pre, live),
        0 <= pages,
        post@.pages == pre@.pages,
        page_range(first, pages).subset_of(pre@.free),
        post@.free == pre@.free.difference(page_range(first, pages)),
    ensures
        accounts(post, live.push(Run { first, pages })),
        forall|i: int| 0 <= i < live.len() ==> (#[trigger] live[i]).range().disjoint(page_range(first, pages)),
{
    pre.lemma_free_pages();
    let run = Run { first, pages };
    let after = live.push(run);
    assert forall|i: int| 0 <= i < live.len() implies (#[trigger] live[i]).range().disjoint(
        page_range(first, pages),
    ) by {
        assert forall|x: int| live[i].range().contains(x) implies !page_range(first, pages).contains(
            x,
        ) by {
            lemma_live_set(live, x);
        }
    }
    assert(after.drop_last() =~= live);
    assert(live_set(after) =~= page_range(0, post@.pages as int).difference(post@.free));
    assert forall|i: int, j: int| 0 <= i < j < after.len() implies (#[trigger] after[i]).range().disjoint(
        (#[trigger] after[j]).range(),
    ) by {
        if j < live.len() {
            assert(live[i].range().disjoint(live[j].range()));
        } else {
            assert(live[i].range().disjoint(page_range(first, pages)));
        }
    }
}

/// A run that is out holds no free page, so it can be given back; giving it
/// back takes it off the runs that are out.
pub proof fn lemma_accounts_free(pre: BuddyAllocator, post: BuddyAllocator, live: Seq<Run>, i: int)
    requires
        pre.wf(),
        accounts(pre, live),
        0 <= i < live.len(),
        post@.pages == pre@.pages,
        post@.free == pre@.free.union(live[i].range()),
    ensures
        pre@.free.disjoint(live[i].range()),
        live[i].range().subset_of(page_range(0, pre@.pages as int)),
        accounts(post, live.remove(i)),
{
    pre.lemma_free_pages();
    let after = live.remove(i);
    let heap = page_range(0, pre@.pages as int);
    assert forall|x: int| live[i].range().contains(x) implies heap.contains(x)
        && !pre@.free.contains(x) by {
        lemma_live_set(live, x);
    }
    assert forall|j: int, k: int| 0 <= j < k < after.len() implies (#[trigger] after[j]).range().disjoint(
        (#[trigger] after[k]).range(),
    ) by {
        let j0 = if j < i { j } else { j + 1 };
        let k0 = if k < i { k } else { k + 1 };
        assert(after[j] == live[j0]);
        assert(after[k] == live[k0]);
        assert(live[j0].range().disjoint(live[k0].range()));
    }
    assert forall|j: int| 0 <= j < after.len() implies (#[trigger] after[j]).pages >= 0 by {
        let j0 = if j < i { j } else { j + 1 };
        assert(after[j] == live[j0]);
    }
    assert forall|x: int| live_set(after).contains(x) <==> heap.difference(post@.free).contains(
        x,
    ) by {
        lemma_live_set(after, x);
        lemma_live_set(live, x);
        if live_set(after).contains(x) {
            let j = choose|j: int| 0 <= j < after.len() && (#[trigger] after[j]).range().contains(x);
            let j0 = if j < i { j } else { j + 1 };
            assert(after[j] == live[j0]);
            assert(live[j0].range().contains(x));
            if j0 < i {
                assert(live[j0].range().disjoint(live[i].range()));
            } else {
                assert(live[i].range().disjoint(live[j0].range()));
            }
        }
        if heap.difference(post@.free).contains(x) {
            assert(live_set(live).contains(x));
            let j0 = choose|j: int| 0 <= j < live.len() && (#[trigger] live[j]).range().contains(x);
            assert(j0 != i);
            let j = if j0 < i { j0 } else { j0 - 1 };
            assert(after[j] == live[j0]);
            assert(after[j].range().contains(x));
        }
    }
    assert(live_set(after) =~= heap.difference(post@.free));
}

/// No overlap: two runs that are out share no page.
pub proof fn lemma_no_overlap(b: BuddyAllocator, live: Seq<Run>, i: int, j: int)
    requires
        accounts(b, live),
        0 <= i < live.len(),
        0 <= j < live.len(),
        i != j,
    ensures
        live[i].range().disjoint(live[j].range()),
{
    if i < j {
        assert(live[i].range().disjoint(live[j].range()));
    } else {
        assert(live[j].range().disjoint(live[i].range()));
    }
}

/// Merging: the run that comes back while its buddy is free leaves the
/// buddy's list, and it is their parent that comes back at the next order.
pub proof fn lemma_freed_merges(runs: Seq<Seq<int>>, a: int, order: int)
    requires
        0 <= order < 63,
        runs[order].contains(buddy_of(a, order)),
    ensures
        freed(runs, a, order) == freed(
            runs.update(order, runs[order].remove(runs[order].index_of(buddy_of(a, order)))),
            parent_of(a, order),
            order + 1,
        ),
{
}

/// Merging ends where the buddy is not free: there the run heads the list
/// of its order. So the parent of two buddies that both came back heads the
/// list of the next order, unless its own buddy is free too.
pub proof fn lemma_freed_rests(runs: Seq<Seq<int>>, a: int, order: int)
    requires
        0 <= order < 64,
        order == 63 || !runs[order].contains(buddy_of(a, order)),
    ensures
        freed(runs, a, order) == runs.update(order, seq![a] + runs[order]),
{
}

/// The `i`-th run of order `q` holds the pages from `lo` up to `hi`.
pub open spec fn run_holds(runs: Seq<Seq<int>>, q: int, i: int, lo: int, hi: int) -> bool {
    &&& 0 <= q < 64
    &&& 0 <= i < runs[q].len()
    &&& runs[q][i] <= lo
    &&& hi <= runs[q][i] + pow2(q as nat)
}

/// A run that comes back changes no list of an order below its own.
pub proof fn lemma_freed_below(runs: Seq<Seq<int>>, a: int, order: int, p: int)
    requires
        runs.len() == 64,
        0 <= p < order < 64,
    ensures
        freed(runs, a, order).len() == 64,
        freed(runs, a, order)[p] == runs[p],
    decreases 64 - order,
{
    let b = buddy_of(a, order);
    if order < 63 && runs[order].contains(b) {
        let rest = runs.update(order, runs[order].remove(runs[order].index_of(b)));
        lemma_freed_below(rest, parent_of(a, order), order + 1, p);
    }
}

/// A run that came back lies in one free run, of its own order or a higher one.
pub proof fn lemma_freed_holds(runs: Seq<Seq<int>>, a: int, order: int)
    requires
        runs.len() == 64,
        0 <= order < 64,
        0 <= a,
        aligned(a, order),
    ensures
        exists|q: int, i: int|
            order <= q && #[trigger] run_holds(
                freed(runs, a, order),
                q,
                i,
                a,
                a + pow2(order as nat),
            ),
    decreases 64 - order,
{
    let b = buddy_of(a, order);
    if order < 63 && runs[order].contains(b) {
        let rest = runs.update(order, runs[order].remove(runs[order].index_of(b)));
        let up = parent_of(a, order);
        lemma_buddy(a, order);
        lemma_pow2_double(order as nat);
        lemma_freed_holds(rest, up, order + 1);
        let (q, i) = choose|q: int, i: int|
            order + 1 <= q && #[trigger] run_holds(
                freed(rest, up, order + 1),
                q,
                i,
                up,
                up + pow2((order + 1) as nat),
            );
        assert(run_holds(freed(runs, a, order), q, i, a, a + pow2(order as nat)));
    } else {
        let after = runs.update(order, seq![a] + runs[order]);
        assert(freed(runs, a, order) == after);
        assert(after[order][0] == a);
        assert(run_holds(freed(runs, a, order), order, 0, a, a + pow2(order as nat)));
    }
}

/// Merge: where a run comes back while its buddy is free, neither of the
/// two is on the list of their order afterwards, and one free run of a
/// higher order holds the pages of both.
pub proof fn lemma_merge(b: &BuddyAllocator, base: int, n: int)
    requires
        b.wf(),
        b@.can_free(base, n),
        order_of(n) < 63,
        b@.runs[order_of(n)].contains(buddy_of(base - b@.start, order_of(n))),
    ensures
        ({
            let k = order_of(n);
            let rel = base - b@.start;
            let after = b@.after_free(base, n).runs;
            &&& !after[k].contains(rel)
            &&& !after[k].contains(buddy_of(rel, k))
            &&& exists|q: int, i: int|
                k < q && #[trigger] run_holds(
                    after,
                    q,
                    i,
                    parent_of(rel, k),
                    parent_of(rel, k) + 2 * n,
                )
        }),
{
    let k = order_of(n);
    let rel = base - b@.start;
    let runs = b@.runs;
    let twin = buddy_of(rel, k);
    let up = parent_of(rel, k);
    let at = runs[k].index_of(twin);
    let rest = runs.update(k, runs[k].remove(at));
    let after = b@.after_free(base, n).runs;
    b.lemma_free_pages();
    lemma_power_2_order(n);
    lemma_pow2_64();
    lemma_pow2_double(k as nat);
    lemma_buddy(rel, k);
    assert(after == freed(rest, up, k + 1));
    lemma_freed_below(rest, up, k + 1, k);
    assert(after[k] == runs[k].remove(at));
    assert(0 <= at < runs[k].len() && runs[k][at] == twin);
    assert forall|j: int| 0 <= j < after[k].len() implies after[k][j] != twin && after[k][j]
        != rel by {
        let l = if j < at {
            j
        } else {
            j + 1
        };
        assert(after[k][j] == runs[k][l]);
        b.lemma_no_free_buddies(k, at, l);
        b.lemma_free_run(k, l);
        if runs[k][l] == rel {
            assert(page_range(rel, n).contains(rel));
            assert(b@.free.contains(rel));
        }
    }
    lemma_freed_holds(rest, up, k + 1);
    let (q, i) = choose|q: int, i: int|
        k + 1 <= q && #[trigger] run_holds(
            freed(rest, up, k + 1),
            q,
            i,
            up,
            up + pow2((k + 1) as nat),
        );
    assert(run_holds(after, q, i, up, up + 2 * n));
}

} // verus!
