//! The buddy page allocator: power-of-two runs of pages, kept in one free
//! list per order and merged with their buddies as soon as they come back.

pub use crate::buddy_lists::{FreeNode, NODE_CAPACITY};
use crate::buddy_lists::{
    lemma_fresh, lemma_head, lemma_inserted, lemma_removed, lemma_run, lemma_runs_apart,
    spare_list, Lists,
};
use crate::power::{
    aligned, buddy_of, is_power_2, lemma_add_range_len, lemma_aligned_lower, lemma_buddy,
    lemma_order_of_nonneg, lemma_order_of_pow2, lemma_pow2_64, lemma_pow2_double,
    lemma_power_2_order, lemma_range_halves, lemma_range_len, lemma_same_parent,
    lemma_sub_range_len, order_of, page_range, parent_of, power_2,
};
use vstd::arithmetic::div_mod::{lemma_fundamental_div_mod, lemma_fundamental_div_mod_converse};
use vstd::arithmetic::power2::{lemma_pow2_strictly_increases, pow2};
use vstd::prelude::*;

verus! {

/// Number of orders: runs are of `2^0` to `2^63` pages.
pub const BUDDY_ALLOC_MAX_POW: usize = 64;

/// `r` is the least power of two that is at least `n`.
pub open spec fn is_ceil_power_2(n: int, r: int) -> bool {
    exists|k: nat|
        k < 64 && r == #[trigger] pow2(k) && n <= r && (k > 0 ==> pow2((k - 1) as nat) < n)
}

/// The first power of two from `2^k` on that is at least `n`; 0 where none fits in 64 bits.
pub open spec fn ceil_power_2_from(n: int, k: nat) -> int
    decreases 64 - k,
{
    if k >= 64 {
        0
    } else if pow2(k) >= n {
        pow2(k) as int
    } else {
        ceil_power_2_from(n, k + 1)
    }
}

/// The least power of two that is at least `n`; 0 where it does not fit in 64 bits.
pub open spec fn ceil_power_2(n: int) -> int {
    ceil_power_2_from(n, 0)
}

/// Up to `2^63`, the ceiling of `n` is the least power of two that is at least `n`.
pub proof fn lemma_ceil_power_2(n: int)
    requires
        n <= 0x8000_0000_0000_0000,
    ensures
        is_ceil_power_2(n, ceil_power_2(n)),
{
    lemma_pow2_64();
    lemma_ceil_least(n, 0);
}

proof fn lemma_ceil_least(n: int, k: nat)
    requires
        n <= 0x8000_0000_0000_0000,
        k < 64,
        k > 0 ==> pow2((k - 1) as nat) < n,
    ensures
        is_ceil_power_2(n, ceil_power_2_from(n, k)),
    decreases 64 - k,
{
    lemma_pow2_64();
    if pow2(k) >= n {
        assert(ceil_power_2_from(n, k) == pow2(k));
    } else {
        assert(k < 63);
        lemma_ceil_least(n, k + 1);
    }
}

/// A power of two is its own ceiling.
pub proof fn lemma_ceil_power_2_of_power(k: nat)
    requires
        k < 64,
    ensures
        ceil_power_2(pow2(k) as int) == pow2(k),
{
    lemma_ceil_from(pow2(k) as int, k, 0);
}

proof fn lemma_ceil_from(n: int, k: nat, i: nat)
    requires
        k < 64,
        i <= k,
        n == pow2(k),
    ensures
        ceil_power_2_from(n, i) == pow2(k),
    decreases k - i,
{
    if i < k {
        lemma_pow2_strictly_increases(i, k);
        lemma_ceil_from(n, k, i + 1);
    }
}

/// The least power of two that is at least `mem_size`, or 0 where that
/// power does not fit in 64 bits.
pub fn ceil_to_power_2(mem_size: u64) -> (ceil_size: u64)
    ensures
        ceil_size == ceil_power_2(mem_size as int),
        mem_size <= 0x8000_0000_0000_0000 ==> is_ceil_power_2(mem_size as int, ceil_size as int),
        mem_size > 0x8000_0000_0000_0000 ==> ceil_size == 0,
{
    let mut ceil_size: u64 = 1;
    let mut pow: usize = 0;
    proof {
        lemma_pow2_64();
        vstd::arithmetic::power2::lemma2_to64();
    }
    while pow < BUDDY_ALLOC_MAX_POW
        invariant
            pow <= 64,
            pow < 64 ==> ceil_size == pow2(pow as nat),
            pow == 64 ==> ceil_size == 0 && mem_size > 0x8000_0000_0000_0000,
            pow > 0 && pow < 64 ==> pow2((pow - 1) as nat) < mem_size,
            pow2(63) == 0x8000_0000_0000_0000,
            ceil_power_2_from(mem_size as int, pow as nat) == ceil_power_2(mem_size as int),
        ensures
            ceil_size == ceil_power_2(mem_size as int),
            mem_size <= 0x8000_0000_0000_0000 ==> is_ceil_power_2(mem_size as int, ceil_size as int),
            mem_size > 0x8000_0000_0000_0000 ==> ceil_size == 0,
        decreases 64 - pow,
    {
        if ceil_size >= mem_size {
            proof {
                lemma_pow2_64();
                assert(ceil_size == pow2(pow as nat));
            }
            break;
        }
        proof {
            lemma_pow2_64();
            lemma_pow2_double(pow as nat);
        }
        assert(ceil_size < 0x8000_0000_0000_0000 ==> ceil_size << 1 == 2 * ceil_size) by (bit_vector);
        assert(0x8000_0000_0000_0000u64 << 1 == 0) by (bit_vector);
        ceil_size <<= 1;
        pow += 1;
    }
    ceil_size
}

/// The least order from `k` up whose list holds a run; 64 where there is none.
pub open spec fn first_fit(runs: Seq<Seq<int>>, k: int) -> int
    decreases 64 - k,
{
    if k >= 64 {
        64
    } else if k >= 0 && runs[k].len() > 0 {
        k
    } else {
        first_fit(runs, k + 1)
    }
}

/// Where `first_fit` points, and that the lists before it are empty.
pub proof fn lemma_first_fit(runs: Seq<Seq<int>>, k: int)
    requires
        0 <= k <= 64,
    ensures
        k <= first_fit(runs, k) <= 64,
        first_fit(runs, k) < 64 ==> runs[first_fit(runs, k)].len() > 0,
        forall|p: int| k <= p < first_fit(runs, k) ==> (#[trigger] runs[p]).len() == 0,
    decreases 64 - k,
{
    if k < 64 && runs[k].len() == 0 {
        lemma_first_fit(runs, k + 1);
    }
}

/// The free lists after the head run of order `q`, which starts at `a`, was
/// taken and cut down to order `k`: at each order from `k` to `q - 1` the
/// upper half that was cut off heads the list.
pub open spec fn split(runs: Seq<Seq<int>>, a: int, k: int, q: int) -> Seq<Seq<int>> {
    Seq::new(
        64,
        |p: int|
            if p == q {
                runs[q].drop_first()
            } else if k <= p < q {
                seq![a + pow2(p as nat)] + runs[p]
            } else {
                runs[p]
            },
    )
}

/// The free lists after a run of order `k` was allocated.
pub open spec fn allocated(runs: Seq<Seq<int>>, k: int) -> Seq<Seq<int>> {
    let q = first_fit(runs, k);
    split(runs, runs[q][0], k, q)
}

/// The free lists after the run of `order` at `a` came back: while the
/// run's buddy is free the two merge into their parent, and what is left
/// heads the list of its order.
pub open spec fn freed(runs: Seq<Seq<int>>, a: int, order: int) -> Seq<Seq<int>>
    decreases 64 - order,
{
    let b = buddy_of(a, order);
    if 0 <= order < 63 && runs[order].contains(b) {
        freed(
            runs.update(order, runs[order].remove(runs[order].index_of(b))),
            parent_of(a, order),
            order + 1,
        )
    } else {
        runs.update(order, seq![a] + runs[order])
    }
}

/// The free lists of a heap of `page_num` pages that was never touched: one
/// run for each binary digit 1 of `page_num`, the larger runs first in the heap.
pub open spec fn init_runs(page_num: int) -> Seq<Seq<int>> {
    Seq::new(
        64,
        |p: int|
            if page_num % (pow2((p + 1) as nat) as int) >= pow2(p as nat) {
                seq![page_num - page_num % (pow2((p + 1) as nat) as int)]
            } else {
                Seq::<int>::empty()
            },
    )
}

/// How often the run of `order` at `a` merges with a free buddy as it comes back.
pub open spec fn merges(runs: Seq<Seq<int>>, a: int, order: int) -> nat
    decreases 64 - order,
{
    let b = buddy_of(a, order);
    if 0 <= order < 63 && runs[order].contains(b) {
        1 + merges(
            runs.update(order, runs[order].remove(runs[order].index_of(b))),
            parent_of(a, order),
            order + 1,
        )
    } else {
        0
    }
}

/// What an allocator holds: the heap it manages, its free lists, its free
/// pages and its spare cells.
pub struct Heap {
    /// Number of the first page of the heap.
    pub start: int,
    /// Number of pages of the heap.
    pub pages: nat,
    /// The free list of each order, head first: each run by its first page, counted from `start`.
    pub runs: Seq<Seq<int>>,
    /// The free pages, counted from `start`.
    pub free: Set<int>,
    /// Number of list cells that hold no run.
    pub spare: nat,
}

/// The `i`-th of the runs `runs` of `order` shares a page with the pages from `lo` up to `hi`.
pub open spec fn meets(runs: Seq<int>, order: int, lo: u64, hi: u64, i: int) -> bool {
    &&& 0 <= i < runs.len()
    &&& runs[i] < hi
    &&& lo < runs[i] + pow2(order as nat)
}

impl Heap {
    /// A run of `n` pages can be allocated: `n` is a power of two, a run of
    /// at least `n` pages is free, and there are cells for what is cut off it.
    pub open spec fn can_alloc(self, n: int) -> bool {
        &&& is_power_2(n)
        &&& order_of(n) < 64
        &&& first_fit(self.runs, order_of(n)) < 64
        &&& first_fit(self.runs, order_of(n)) - order_of(n) <= self.spare + 1
    }

    /// The first page of the run that an allocation of `n` pages hands out.
    pub open spec fn alloc_base(self, n: int) -> int {
        self.start + self.runs[first_fit(self.runs, order_of(n))][0]
    }

    /// The heap after an allocation of `n` pages.
    pub open spec fn after_alloc(self, n: int) -> Heap {
        Heap {
            start: self.start,
            pages: self.pages,
            runs: allocated(self.runs, order_of(n)),
            free: self.free.difference(page_range(self.alloc_base(n) - self.start, n)),
            spare: (self.spare + 1 - (first_fit(self.runs, order_of(n)) - order_of(n))) as nat,
        }
    }

    /// The run of `n` pages at page `base` can be given back: `n` is a power
    /// of two, the run is aligned to `n`, lies in the heap and holds no free
    /// page, and there is a cell for it: a spare one, or the one of the
    /// buddy that it merges with.
    pub open spec fn can_free(self, base: int, n: int) -> bool {
        let rel = base - self.start;
        let k = order_of(n);
        &&& is_power_2(n)
        &&& k < 64
        &&& 0 <= rel
        &&& aligned(rel, k)
        &&& rel + n <= self.pages
        &&& self.free.disjoint(page_range(rel, n))
        &&& (self.spare > 0 || (k < 63 && self.runs[k].contains(buddy_of(rel, k))))
    }

    /// The heap after the run of `n` pages at page `base` was given back.
    pub open spec fn after_free(self, base: int, n: int) -> Heap {
        let rel = base - self.start;
        let k = order_of(n);
        Heap {
            start: self.start,
            pages: self.pages,
            runs: freed(self.runs, rel, k),
            free: self.free.union(page_range(rel, n)),
            spare: (self.spare + merges(self.runs, rel, k) - 1) as nat,
        }
    }
}

/// The kernel's buddy allocator.
///
/// Free runs of `2^p` pages are kept on the list of order `p`. The lists
/// are threaded through the cells of a fixed arena by index, so that the
/// allocator never allocates for its own sake.
pub struct BuddyAllocator {
    /// Number of the first page of the heap.
    pub start: u64,
    /// Number of free pages.
    pub free: u64,
    /// Head cell of the free list of each order.
    pub pows: [Option<usize>; 64],
    /// Head cell of the list of spare cells.
    pub free_start: Option<usize>,
    /// The arena of list cells.
    pub free_nodes: [FreeNode; NODE_CAPACITY],
    /// The lists as sequences, and the pages they hold.
    pub lists: Ghost<Lists>,
}

impl View for BuddyAllocator {
    type V = Heap;

    closed spec fn view(&self) -> Heap {
        Heap {
            start: self.start as int,
            pages: self.lists@.pages,
            runs: self.lists@.all_runs(),
            free: self.lists@.owner.dom(),
            spare: self.lists@.chains[spare_list()].len(),
        }
    }
}

impl BuddyAllocator {
    /// The arena is the one that the ledger speaks of.
    pub closed spec fn synced(&self) -> bool {
        &&& self.lists@.nodes == self.free_nodes@
        &&& self.lists@.heads == self.pows@.push(self.free_start)
    }

    /// The lists are sound; the count of free pages may be behind.
    pub closed spec fn wf_lists(&self) -> bool {
        &&& self.synced()
        &&& self.lists@.wf()
        &&& self.start + self.lists@.pages <= u64::MAX
    }

    /// The allocator's invariant: the cells of the arena form the free lists
    /// and the list of spare cells, each cell on one list; every free run is
    /// aligned to its size and lies in the heap; the runs do not overlap; no
    /// two runs of one order are buddies; and `free` is the number of free
    /// pages, which is the sum over the orders of the list's length times
    /// `2^order`.
    pub closed spec fn wf(&self) -> bool {
        &&& self.wf_lists()
        &&& self.free == self.lists@.owner.dom().len()
        &&& self.free == self.lists@.weight()
        &&& self.lists@.cells_on_lists() == NODE_CAPACITY
    }

    /// Takes a spare cell, makes it the run at `node.addr` and puts it at the
    /// head of the list of order `pow`.
    fn add_node(&mut self, pow: usize, node: FreeNode)
        requires
            old(self).wf_lists(),
            pow < 64,
            old(self).lists@.chains[spare_list()].len() > 0,
            old(self).lists@.removed(spare_list(), 0).can_insert(
                pow as int,
                old(self).lists@.chains[spare_list()][0],
                node.addr,
            ),
        ensures
            final(self).wf_lists(),
            final(self).start == old(self).start,
            final(self).free == old(self).free,
            final(self).lists@ == old(self).lists@.removed(spare_list(), 0).inserted(
                pow as int,
                old(self).lists@.chains[spare_list()][0],
                node.addr,
            ),
    {
        let ghost m = self.lists@;
        let ghost c = m.chains[spare_list()][0];
        proof {
            lemma_head(m, spare_list());
            lemma_removed(m, spare_list(), 0);
            lemma_inserted(m.removed(spare_list(), 0), pow as int, c, node.addr);
        }
        let cell = self.free_start.unwrap();
        self.free_start = self.free_nodes[cell].next;
        let linked = FreeNode { addr: node.addr, next: self.pows[pow] };
        self.pows[pow] = Some(cell);
        self.free_nodes[cell] = linked;
        self.lists = Ghost(m.removed(spare_list(), 0).inserted(pow as int, c, node.addr));
        proof {
            assert(self.lists@.nodes =~= self.free_nodes@);
            assert(self.lists@.heads =~= self.pows@.push(self.free_start));
        }
    }

    /// Puts the detached cell `node` on the list of spare cells.
    fn add_free_node(&mut self, node: usize)
        requires
            old(self).wf_lists(),
            old(self).lists@.can_insert(spare_list(), node as int, 0),
        ensures
            final(self).wf_lists(),
            final(self).start == old(self).start,
            final(self).free == old(self).free,
            final(self).lists@ == old(self).lists@.inserted(spare_list(), node as int, 0),
    {
        let ghost m = self.lists@;
        proof {
            lemma_inserted(m, spare_list(), node as int, 0);
        }
        self.free_nodes[node].next = self.free_start;
        self.free_start = Some(node);
        self.lists = Ghost(m.inserted(spare_list(), node as int, 0));
        proof {
            assert(self.lists@.nodes =~= self.free_nodes@);
            assert(self.lists@.heads =~= self.pows@.push(self.free_start));
        }
    }

    /// Takes the head run off the list of order `pow` and hands its cell's content out.
    fn pop_node(&mut self, pow: usize) -> (node: FreeNode)
        requires
            old(self).wf_lists(),
            pow < 64,
            old(self).lists@.chains[pow as int].len() > 0,
        ensures
            final(self).wf_lists(),
            final(self).start == old(self).start,
            final(self).free == old(self).free,
            final(self).lists@ == old(self).lists@.removed(pow as int, 0),
            node == old(self).lists@.nodes[old(self).lists@.chains[pow as int][0]],
            old(self).pows[pow as int] == Some(old(self).lists@.chains[pow as int][0] as usize),
    {
        let ghost m = self.lists@;
        proof {
            lemma_head(m, pow as int);
            lemma_removed(m, pow as int, 0);
        }
        let node = self.free_nodes[self.pows[pow].unwrap()];
        self.pows[pow] = node.next;
        self.lists = Ghost(m.removed(pow as int, 0));
        proof {
            assert(self.lists@.nodes =~= self.free_nodes@);
            assert(self.lists@.heads =~= self.pows@.push(self.free_start));
        }
        node
    }

    /// Takes the cell `cell`, which follows `prev` on the list of order `pow`,
    /// off that list and makes it a spare.
    fn unlink_after(&mut self, pow: usize, prev: usize, cell: usize, Ghost(j): Ghost<int>)
        requires
            old(self).wf_lists(),
            pow < 64,
            0 <= j,
            j + 1 < old(self).lists@.chains[pow as int].len(),
            prev == old(self).lists@.chains[pow as int][j],
            cell == old(self).lists@.chains[pow as int][j + 1],
        ensures
            final(self).wf_lists(),
            final(self).start == old(self).start,
            final(self).free == old(self).free,
            final(self).lists@ == old(self).lists@.removed(pow as int, j + 1).inserted(
                spare_list(),
                cell as int,
                0,
            ),
    {
        let ghost m = self.lists@;
        proof {
            lemma_run(m, pow as int, j);
            lemma_run(m, pow as int, j + 1);
            lemma_removed(m, pow as int, j + 1);
        }
        let next = self.free_nodes[cell].next;
        self.free_nodes[prev].next = next;
        self.lists = Ghost(m.removed(pow as int, j + 1));
        proof {
            assert(self.lists@.nodes =~= self.free_nodes@);
            assert(self.lists@.heads =~= self.pows@.push(self.free_start));
        }
        self.add_free_node(cell);
    }

    /// Looks on the list of order `pow` for the run at `addr`; where it is
    /// there, takes it off the list and makes its cell a spare.
    fn take_run(&mut self, pow: usize, addr: u64) -> (found: bool)
        requires
            old(self).wf_lists(),
            pow < 64,
        ensures
            final(self).wf_lists(),
            final(self).start == old(self).start,
            final(self).free == old(self).free,
            found == old(self).lists@.runs(pow as int).contains(addr as int),
            !found ==> final(self).lists@ == old(self).lists@,
            found ==> ({
                let i = old(self).lists@.runs(pow as int).index_of(addr as int);
                &&& 0 <= i < old(self).lists@.chains[pow as int].len()
                &&& old(self).lists@.runs(pow as int)[i] == addr
                &&& final(self).lists@ == old(self).lists@.removed(pow as int, i).inserted(
                    spare_list(),
                    old(self).lists@.chains[pow as int][i],
                    0,
                )
            }),
    {
        let ghost m = self.lists@;
        let ghost runs = m.runs(pow as int);
        proof {
            lemma_head(m, pow as int);
        }
        match self.pows[pow] {
            None => {
                assert(runs.len() == 0);
                false
            },
            Some(head) => {
                proof {
                    lemma_run(m, pow as int, 0);
                }
                if self.free_nodes[head].addr == addr {
                    proof {
                        lemma_removed(m, pow as int, 0);
                        assert(runs[0] == addr);
                        let i = runs.index_of(addr as int);
                        if i != 0 {
                            lemma_runs_apart(m, pow as int, i, 0);
                        }
                    }
                    let _ = self.pop_node(pow);
                    self.add_free_node(head);
                    return true;
                }
                let mut prev = head;
                let ghost mut j: int = 0;
                loop
                    invariant
                        self.wf_lists(),
                        self.lists@ == m,
                        *self == *old(self),
                        runs == m.runs(pow as int),
                        pow < 64,
                        0 <= j < m.chains[pow as int].len(),
                        prev == m.chains[pow as int][j],
                        forall|i: int| 0 <= i <= j ==> runs[i] != addr,
                    decreases m.chains[pow as int].len() - j,
                {
                    proof {
                        lemma_run(m, pow as int, j);
                    }
                    match self.free_nodes[prev].next {
                        None => {
                            return false;
                        },
                        Some(next) => {
                            proof {
                                lemma_run(m, pow as int, j + 1);
                            }
                            if self.free_nodes[next].addr == addr {
                                proof {
                                    assert(runs[j + 1] == addr);
                                    let i = runs.index_of(addr as int);
                                    if i != j + 1 {
                                        lemma_runs_apart(m, pow as int, i, j + 1);
                                    }
                                }
                                self.unlink_after(pow, prev, next, Ghost(j));
                                return true;
                            }
                            prev = next;
                            proof {
                                j = j + 1;
                            }
                        },
                    }
                }
            },
        }
    }

    /// Gives the run of `page_num` pages at page `base` back. While the run's
    /// buddy is free the two are merged into their parent; what is left goes
    /// to the head of the list of its order.
    pub fn free_pages(&mut self, base: u64, page_num: u64)
        requires
            old(self).wf(),
            old(self)@.can_free(base as int, page_num as int),
        ensures
            final(self).wf(),
            final(self)@ == old(self)@.after_free(base as int, page_num as int),
            final(self).free == old(self).free + page_num,
    {
        let ghost k = order_of(page_num as int);
        let ghost rel = base - self.start;
        let ghost m0 = self.lists@;
        proof {
            lemma_pow2_64();
        }
        let mut power_psh: usize = 0;
        while power_2(power_psh) != page_num
            invariant
                0 <= power_psh <= k < 64,
                pow2(k as nat) == page_num,
            decreases k - power_psh,
        {
            proof {
                if power_psh == k {
                    assert(false);
                }
            }
            power_psh += 1;
        }
        proof {
            if power_psh < k {
                lemma_pow2_strictly_increases(power_psh as nat, k as nat);
            }
        }
        let mut ptr_psh = base - self.start;
        let mut size = page_num;
        loop
            invariant
                self.wf_lists(),
                self.start == old(self).start,
                self.free == old(self).free,
                self.lists@.pages == m0.pages,
                k <= power_psh < 64,
                size == pow2(power_psh as nat),
                aligned(ptr_psh as int, power_psh as int),
                ptr_psh + size <= self.lists@.pages,
                self.lists@.owner.dom().disjoint(page_range(ptr_psh as int, size as int)),
                self.lists@.owner.dom().union(page_range(ptr_psh as int, size as int))
                    == m0.owner.dom().union(page_range(rel, page_num as int)),
                self.lists@.weight() + size == m0.weight() + page_num,
                freed(self@.runs, ptr_psh as int, power_psh as int) == freed(old(self)@.runs, rel, k),
                merges(self@.runs, ptr_psh as int, power_psh as int) + (power_psh - k) == merges(
                    old(self)@.runs,
                    rel,
                    k,
                ),
                self.lists@.chains[spare_list()].len() == m0.chains[spare_list()].len() + (power_psh
                    - k),
                self.lists@.cells_on_lists() == m0.cells_on_lists(),
                power_psh == k ==> self.lists@ == m0 && ptr_psh == rel,
                m0.shaped(),
            ensures
                self.wf_lists(),
                self.start == old(self).start,
                self.free == old(self).free,
                self.lists@.pages == m0.pages,
                k <= power_psh < 64,
                size == pow2(power_psh as nat),
                aligned(ptr_psh as int, power_psh as int),
                ptr_psh + size <= self.lists@.pages,
                self.lists@.owner.dom().disjoint(page_range(ptr_psh as int, size as int)),
                self.lists@.owner.dom().union(page_range(ptr_psh as int, size as int))
                    == m0.owner.dom().union(page_range(rel, page_num as int)),
                self.lists@.weight() + size == m0.weight() + page_num,
                freed(self@.runs, ptr_psh as int, power_psh as int) == freed(old(self)@.runs, rel, k),
                merges(self@.runs, ptr_psh as int, power_psh as int) + (power_psh - k) == merges(
                    old(self)@.runs,
                    rel,
                    k,
                ),
                self.lists@.chains[spare_list()].len() == m0.chains[spare_list()].len() + (power_psh
                    - k),
                self.lists@.cells_on_lists() == m0.cells_on_lists(),
                power_psh == k ==> self.lists@ == m0 && ptr_psh == rel,
                power_psh >= 63 || !self.lists@.runs(power_psh as int).contains(
                    buddy_of(ptr_psh as int, power_psh as int),
                ),
            decreases 64 - power_psh,
        {
            if power_psh >= 63 {
                break;
            }
            let ghost m = self.lists@;
            let ghost b = buddy_of(ptr_psh as int, power_psh as int);
            proof {
                lemma_pow2_64();
                lemma_pow2_strictly_increases(power_psh as nat, 63);
                lemma_pow2_double(power_psh as nat);
                lemma_buddy(ptr_psh as int, power_psh as int);
            }
            let buddy = if ptr_psh % (2 * size) == 0 {
                ptr_psh + size
            } else {
                ptr_psh - size
            };
            assert(buddy == b);
            if !self.take_run(power_psh, buddy) {
                break;
            }
            proof {
                let i = m.runs(power_psh as int).index_of(b);
                let c = m.chains[power_psh as int][i];
                let r = m.removed(power_psh as int, i);
                lemma_run(m, power_psh as int, i);
                lemma_removed(m, power_psh as int, i);
                lemma_inserted(r, spare_list(), c, 0);
                lemma_range_halves(parent_of(ptr_psh as int, power_psh as int), power_psh as int);
                assert(self@.runs == m.all_runs().update(
                    power_psh as int,
                    m.runs(power_psh as int).remove(i),
                ));
            }
            if buddy < ptr_psh {
                ptr_psh = buddy;
            }
            power_psh += 1;
            size *= 2;
        }
        let ghost m = self.lists@;
        proof {
            if power_psh == k {
                assert(old(self)@.runs[k] == m0.runs(k));
                assert(m0.chains[spare_list()].len() > 0);
            }
            lemma_removed(m, spare_list(), 0);
            let r = m.removed(spare_list(), 0);
            let c = m.chains[spare_list()][0];
            assert forall|i: int| 0 <= i < r.chains[power_psh as int].len() implies parent_of(
                r.addr(#[trigger] r.chains[power_psh as int][i]),
                power_psh as int,
            ) != parent_of(ptr_psh as int, power_psh as int) by {
                lemma_run(m, power_psh as int, i);
                let x = m.runs(power_psh as int)[i];
                lemma_range_len(x, size as int);
                assert(page_range(x, size as int).contains(x));
                assert(page_range(ptr_psh as int, size as int).contains(ptr_psh as int));
                if parent_of(x, power_psh as int) == parent_of(ptr_psh as int, power_psh as int) {
                    lemma_same_parent(x, ptr_psh as int, power_psh as int);
                    lemma_buddy(ptr_psh as int, power_psh as int);
                    if power_psh >= 63 {
                        assert(false);
                    } else {
                        assert(m.runs(power_psh as int)[i] == buddy_of(
                            ptr_psh as int,
                            power_psh as int,
                        ));
                        assert(false);
                    }
                }
            }
            lemma_inserted(r, power_psh as int, c, ptr_psh);
            lemma_add_range_len(m0.owner.dom(), rel, page_num as int);
        }
        self.add_node(power_psh, FreeNode::new(ptr_psh));
        proof {
            lemma_range_len(0, self.lists@.pages as int);
            vstd::set_lib::lemma_len_subset(
                self.lists@.owner.dom(),
                page_range(0, self.lists@.pages as int),
            );
        }
        self.free += page_num;
    }

    /// An allocator that manages no page yet.
    pub fn new() -> (b: Self)
        ensures
            b.start == 0,
            b.free == 0,
            b.free_start is None,
            forall|p: int| 0 <= p < 64 ==> b.pows[p] is None,
    {
        let pows: [Option<usize>; 64] = [None;64];
        let free_nodes: [FreeNode; NODE_CAPACITY] = [FreeNode { addr: 0, next: None };NODE_CAPACITY];
        BuddyAllocator {
            start: 0,
            free: 0,
            pows,
            free_start: None,
            free_nodes,
            lists: Ghost(Lists::fresh(free_nodes@, pows@.push(None), 0)),
        }
    }

    /// A copy of the allocator, for trying on it what an operation would do.
    pub fn duplicate(&self) -> (copy: Self)
        ensures
            copy == *self,
    {
        BuddyAllocator {
            start: self.start,
            free: self.free,
            pows: self.pows,
            free_start: self.free_start,
            free_nodes: self.free_nodes,
            lists: self.lists,
        }
    }

    /// Takes over the `page_num` pages from page `mem_start` on, all of them free.
    pub fn init(&mut self, mem_start: u64, page_num: u64)
        requires
            page_num > 0,
            mem_start + page_num <= u64::MAX,
        ensures
            final(self).wf(),
            final(self).free == page_num,
            final(self)@.start == mem_start,
            final(self)@.pages == page_num,
            final(self)@.runs == init_runs(page_num as int),
            final(self)@.free == page_range(0, page_num as int),
            final(self)@.spare >= NODE_CAPACITY - 64,
    {
        self.free = page_num;
        self.start = mem_start;
        self.free_start = Some(0);
        let mut i: usize = 0;
        while i < NODE_CAPACITY
            invariant
                self.free == page_num,
                self.start == mem_start,
                self.free_start == Some(0usize),
                i <= NODE_CAPACITY,
                forall|j: int|
                    0 <= j < i ==> (#[trigger] self.free_nodes[j]).next == (if j + 1
                        < NODE_CAPACITY {
                        Some((j + 1) as usize)
                    } else {
                        None
                    }),
            decreases NODE_CAPACITY - i,
        {
            if i < NODE_CAPACITY - 1 {
                self.free_nodes[i] = FreeNode { addr: 0, next: Some(i + 1) };
            } else {
                self.free_nodes[i] = FreeNode { addr: 0, next: None };
            }
            i += 1;
        }
        let mut p: usize = 0;
        while p < BUDDY_ALLOC_MAX_POW
            invariant
                self.free == page_num,
                self.start == mem_start,
                self.free_start == Some(0usize),
                forall|j: int|
                    0 <= j < NODE_CAPACITY ==> (#[trigger] self.free_nodes[j]).next == (if j + 1
                        < NODE_CAPACITY {
                        Some((j + 1) as usize)
                    } else {
                        None
                    }),
                p <= 64,
                forall|j: int| 0 <= j < p ==> (#[trigger] self.pows[j]) is None,
            decreases 64 - p,
        {
            self.pows[p] = None;
            p += 1;
        }
        self.lists = Ghost(
            Lists::fresh(self.free_nodes@, self.pows@.push(self.free_start), page_num as nat),
        );
        proof {
            lemma_fresh(self.free_nodes@, self.pows@.push(self.free_start), page_num as nat);
            lemma_pow2_64();
            assert(page_range(0, 0) =~= Set::<int>::empty());
        }
        let mut remaining = page_num;
        let mut current_ptr: u64 = 0;
        let mut pow: usize = BUDDY_ALLOC_MAX_POW;
        while pow > 0
            invariant
                self.wf_lists(),
                self.start == mem_start,
                self.free == page_num,
                self.lists@.pages == page_num,
                mem_start + page_num <= u64::MAX,
                pow <= 64,
                remaining < pow2(pow as nat),
                current_ptr + remaining == page_num,
                aligned(current_ptr as int, pow as int),
                forall|p: int|
                    pow <= p < 64 ==> (#[trigger] self@.runs[p]) == init_runs(page_num as int)[p],
                forall|p: int| 0 <= p < pow ==> (#[trigger] self@.runs[p]).len() == 0,
                self.lists@.owner.dom() == page_range(0, current_ptr as int),
                self.lists@.weight() == current_ptr,
                self.lists@.cells_on_lists() == NODE_CAPACITY,
                self.lists@.chains[spare_list()].len() >= NODE_CAPACITY - (64 - pow),
            decreases pow,
        {
            pow -= 1;
            let size = power_2(pow);
            let ghost m = self.lists@;
            proof {
                lemma_pow2_double(pow as nat);
                lemma_aligned_lower(current_ptr as int, pow as int);
                let d = pow2((pow + 1) as nat) as int;
                let quot = current_ptr as int / d;
                lemma_fundamental_div_mod(current_ptr as int, d);
                assert(page_num as int == quot * d + remaining) by (nonlinear_arith)
                    requires
                        current_ptr as int == d * quot,
                        current_ptr + remaining == page_num,
                ;
                lemma_fundamental_div_mod_converse(page_num as int, d, quot, remaining as int);
                assert(self@.runs[pow as int] == m.runs(pow as int));
            }
            if remaining >= size {
                proof {
                    lemma_removed(m, spare_list(), 0);
                    let r = m.removed(spare_list(), 0);
                    let c = m.chains[spare_list()][0];
                    assert(r.chains[pow as int].len() == 0);
                    lemma_inserted(r, pow as int, c, current_ptr);
                    assert(page_range(0, current_ptr as int).union(
                        page_range(current_ptr as int, size as int),
                    ) =~= page_range(0, current_ptr + size));
                }
                self.add_node(pow, FreeNode::new(current_ptr));
                remaining -= size;
                current_ptr += size;
                proof {
                    assert(self@.runs[pow as int] =~= init_runs(page_num as int)[pow as int]);
                }
            } else {
                proof {
                    assert(self@.runs[pow as int] =~= init_runs(page_num as int)[pow as int]);
                }
            }
        }
        proof {
            vstd::arithmetic::power2::lemma2_to64();
            lemma_range_len(0, page_num as int);
            assert(self@.runs =~= init_runs(page_num as int));
        }
    }

    /// Whether a run of `page_num` pages can be allocated: `page_num` is a
    /// power of two, a run of at least as many pages is free, and there are
    /// cells for what is cut off it.
    pub fn can_alloc(&self, page_num: u64) -> (ok: bool)
        requires
            self.wf(),
        ensures
            ok == self@.can_alloc(page_num as int),
    {
        let ghost m = self.lists@;
        proof {
            lemma_pow2_64();
            if is_power_2(page_num as int) {
                lemma_power_2_order(page_num as int);
            }
        }
        let mut k: usize = 0;
        while k < BUDDY_ALLOC_MAX_POW && power_2(k) != page_num
            invariant
                k <= 64,
                forall|j: nat| j < k ==> pow2(j) != page_num,
            decreases 64 - k,
        {
            k += 1;
        }
        if k == BUDDY_ALLOC_MAX_POW {
            return false;
        }
        proof {
            lemma_order_of_pow2(k as nat);
            lemma_first_fit(self@.runs, k as int);
        }
        let mut q: usize = k;
        while q < BUDDY_ALLOC_MAX_POW && self.pows[q].is_none()
            invariant
                k <= q <= 64,
                self.wf(),
                m == self.lists@,
                forall|p: int| k <= p < q ==> (#[trigger] self@.runs[p]).len() == 0,
            decreases 64 - q,
        {
            proof {
                lemma_head(m, q as int);
                assert(self@.runs[q as int] == m.runs(q as int));
            }
            q += 1;
        }
        proof {
            if q < 64 {
                lemma_head(m, q as int);
                assert(self@.runs[q as int] == m.runs(q as int));
            }
            Self::lemma_first_fit_is(self@.runs, k as int, q as int);
        }
        if q == BUDDY_ALLOC_MAX_POW {
            return false;
        }
        let need = q - k;
        if need <= 1 {
            return true;
        }
        proof {
            lemma_head(m, spare_list());
        }
        let mut count: usize = 0;
        let mut cur = self.free_start;
        while count < need - 1 && cur.is_some()
            invariant
                self.wf(),
                m == self.lists@,
                count <= need - 1,
                count <= m.chains[spare_list()].len(),
                cur == (if count < m.chains[spare_list()].len() {
                    Some(m.chains[spare_list()][count as int] as usize)
                } else {
                    None
                }),
            decreases need - 1 - count,
        {
            proof {
                crate::buddy_lists::lemma_spare(m, count as int);
            }
            cur = self.free_nodes[cur.unwrap()].next;
            count += 1;
        }
        count == need - 1
    }

    /// Whether a run of order `pow` shares a page with the pages from `lo` up to `hi`.
    fn list_meets(&self, pow: usize, lo: u64, hi: u64) -> (found: bool)
        requires
            self.wf(),
            pow < 64,
        ensures
            found == exists|i: int| meets(self.lists@.runs(pow as int), pow as int, lo, hi, i),
    {
        let ghost m = self.lists@;
        let ghost runs = m.runs(pow as int);
        let ghost len = m.chains[pow as int].len();
        proof {
            lemma_head(m, pow as int);
            lemma_pow2_64();
        }
        let size = power_2(pow);
        let mut cur = self.pows[pow];
        let ghost mut j: int = 0;
        loop
            invariant
                self.wf(),
                m == self.lists@,
                runs == m.runs(pow as int),
                len == m.chains[pow as int].len(),
                pow < 64,
                size == pow2(pow as nat),
                0 <= j <= len,
                cur == (if j < len {
                    Some(m.chains[pow as int][j] as usize)
                } else {
                    None
                }),
                forall|i: int| 0 <= i < j ==> !meets(runs, pow as int, lo, hi, i),
            decreases len - j,
        {
            match cur {
                None => {
                    return false;
                },
                Some(c) => {
                    proof {
                        lemma_run(m, pow as int, j);
                    }
                    let a = self.free_nodes[c].addr;
                    if a < hi && lo < a + size {
                        proof {
                            assert(meets(runs, pow as int, lo, hi, j));
                        }
                        return true;
                    }
                    cur = self.free_nodes[c].next;
                    proof {
                        assert(!meets(runs, pow as int, lo, hi, j));
                        j = j + 1;
                    }
                },
            }
        }
    }

    /// Whether the run at `addr` is on the list of order `pow`.
    fn has_run(&self, pow: usize, addr: u64) -> (found: bool)
        requires
            self.wf(),
            pow < 64,
        ensures
            found == self.lists@.runs(pow as int).contains(addr as int),
    {
        let ghost m = self.lists@;
        let ghost runs = m.runs(pow as int);
        let ghost len = m.chains[pow as int].len();
        proof {
            lemma_head(m, pow as int);
        }
        let mut cur = self.pows[pow];
        let ghost mut j: int = 0;
        loop
            invariant
                self.wf(),
                m == self.lists@,
                runs == m.runs(pow as int),
                len == m.chains[pow as int].len(),
                pow < 64,
                0 <= j <= len,
                cur == (if j < len {
                    Some(m.chains[pow as int][j] as usize)
                } else {
                    None
                }),
                forall|i: int| 0 <= i < j ==> runs[i] != addr,
            decreases len - j,
        {
            match cur {
                None => {
                    return false;
                },
                Some(c) => {
                    proof {
                        lemma_run(m, pow as int, j);
                    }
                    if self.free_nodes[c].addr == addr {
                        proof {
                            assert(runs[j] == addr);
                        }
                        return true;
                    }
                    cur = self.free_nodes[c].next;
                    proof {
                        j = j + 1;
                    }
                },
            }
        }
    }

    /// Whether the run of `page_num` pages at page `base` can be given back
    /// to the allocator, which manages `pages` pages: `page_num` is a power
    /// of two, the run is aligned to it, lies in the heap and shares no
    /// page with a free run, and there is a cell for it.
    pub fn can_free(&self, pages: u64, base: u64, page_num: u64) -> (ok: bool)
        requires
            self.wf(),
            pages == self@.pages,
        ensures
            ok == self@.can_free(base as int, page_num as int),
    {
        let ghost m = self.lists@;
        proof {
            lemma_pow2_64();
            if is_power_2(page_num as int) {
                lemma_power_2_order(page_num as int);
            }
        }
        let mut k: usize = 0;
        while k < BUDDY_ALLOC_MAX_POW && power_2(k) != page_num
            invariant
                k <= 64,
                forall|j: nat| j < k ==> pow2(j) != page_num,
            decreases 64 - k,
        {
            k += 1;
        }
        if k == BUDDY_ALLOC_MAX_POW {
            return false;
        }
        proof {
            lemma_order_of_pow2(k as nat);
        }
        if base < self.start {
            return false;
        }
        let rel = base - self.start;
        if rel % page_num != 0 || rel > pages || page_num > pages - rel {
            return false;
        }
        let hi = rel + page_num;
        let mut p: usize = 0;
        while p < BUDDY_ALLOC_MAX_POW
            invariant
                p <= 64,
                self.wf(),
                m == self.lists@,
                hi == rel + page_num,
                rel == base - self.start,
                page_num > 0,
                forall|q: int, i: int| 0 <= q < p ==> !#[trigger] meets(m.runs(q), q, rel, hi, i),
            decreases 64 - p,
        {
            if self.list_meets(p, rel, hi) {
                proof {
                    let i = choose|i: int| meets(m.runs(p as int), p as int, rel, hi, i);
                    lemma_run(m, p as int, i);
                    lemma_pow2_64();
                    let a = m.runs(p as int)[i];
                    let x = if a < rel {
                        rel as int
                    } else {
                        a
                    };
                    assert(page_range(a, pow2(p as nat) as int).contains(x));
                    assert(m.owner.dom().contains(x));
                    assert(page_range(rel as int, page_num as int).contains(x));
                    assert(!self@.free.disjoint(page_range(rel as int, page_num as int)));
                }
                return false;
            }
            p += 1;
        }
        proof {
            assert forall|x: int| m.owner.dom().contains(x) implies !page_range(
                rel as int,
                page_num as int,
            ).contains(x) by {
                crate::buddy_cover::lemma_covered(m, x);
                let (q, j) = choose|q: int, j: int| #[trigger] m.holds(q, j, x);
                assert(!meets(m.runs(q), q, rel, hi, j));
                assert(m.runs(q)[j] == m.addr(m.chains[q][j]));
            }
            assert(m.owner.dom().disjoint(page_range(rel as int, page_num as int)));
            lemma_head(m, spare_list());
        }
        if self.free_start.is_some() {
            return true;
        }
        if k >= 63 {
            return false;
        }
        proof {
            lemma_pow2_strictly_increases(k as nat, 63);
            lemma_pow2_double(k as nat);
            lemma_buddy(rel as int, k as int);
            assert(self@.runs[k as int] == m.runs(k as int));
        }
        let buddy = if rel % (2 * page_num) == 0 {
            rel + page_num
        } else {
            rel - page_num
        };
        self.has_run(k, buddy)
    }

    /// The first order from `k` up with a run is `q`, where the lists between are empty.
    proof fn lemma_first_fit_is(runs: Seq<Seq<int>>, k: int, q: int)
        requires
            0 <= k <= q <= 64,
            forall|p: int| k <= p < q ==> (#[trigger] runs[p]).len() == 0,
            q < 64 ==> runs[q].len() > 0,
        ensures
            first_fit(runs, k) == q,
        decreases q - k,
    {
        if k < q {
            assert(runs[k].len() == 0);
            Self::lemma_first_fit_is(runs, k + 1, q);
        }
    }

    /// Allocates a run of `page_num` pages and hands out the number of its
    /// first page. The run is cut from the head run of the least order that
    /// has one; what is cut off goes back on the lists, the upper half at
    /// each order.
    pub fn alloc_pages(&mut self, page_num: u64) -> (base: u64)
        requires
            old(self).wf(),
            old(self)@.can_alloc(page_num as int),
        ensures
            final(self).wf(),
            final(self)@ == old(self)@.after_alloc(page_num as int),
            final(self).free == old(self).free - page_num,
            base == old(self)@.alloc_base(page_num as int),
            old(self)@.start <= base,
            base + page_num <= old(self)@.start + old(self)@.pages,
            aligned(base - old(self)@.start, order_of(page_num as int)),
            page_range(base - old(self)@.start, page_num as int).subset_of(old(self)@.free),
    {
        let ghost k = order_of(page_num as int);
        let ghost m0 = self.lists@;
        let ghost q = first_fit(self@.runs, k);
        proof {
            lemma_pow2_64();
            lemma_order_of_nonneg(page_num as int);
            lemma_first_fit(self@.runs, k);
            assert(self@.runs[q] == m0.runs(q));
        }
        let mut pow: usize = 0;
        while !(self.pows[pow].is_some() && power_2(pow) >= page_num)
            invariant
                *self == *old(self),
                self.wf_lists(),
                m0 == self.lists@,
                0 <= pow <= q < 64,
                0 <= k <= q,
                pow2(k as nat) == page_num,
                m0.chains[q].len() > 0,
            decreases q - pow,
        {
            proof {
                if pow == q {
                    lemma_run(m0, q, 0);
                    if k < q {
                        lemma_pow2_strictly_increases(k as nat, q as nat);
                    }
                    assert(false);
                }
            }
            pow += 1;
        }
        proof {
            if pow < k {
                lemma_pow2_strictly_increases(pow as nat, k as nat);
            }
            if pow < q {
                assert(self@.runs[pow as int] == m0.runs(pow as int));
                lemma_head(m0, pow as int);
                assert(false);
            }
            lemma_run(m0, q, 0);
            lemma_removed(m0, q, 0);
            lemma_inserted(m0.removed(q, 0), spare_list(), m0.chains[q][0], 0);
        }
        let cell = self.pows[pow].unwrap();
        let node = self.pop_node(pow);
        self.add_free_node(cell);
        let ghost a = node.addr as int;
        let mut found_size = power_2(pow);
        let mut order = pow;
        proof {
            assert(self@.runs =~= split(old(self)@.runs, a, q, q));
            assert forall|p: int| k <= p < q implies (#[trigger] old(self)@.runs[p]).len() == 0 by {}
        }
        while found_size > page_num
            invariant
                self.wf_lists(),
                self.start == old(self).start,
                self.free == old(self).free,
                self.lists@.pages == m0.pages,
                m0 == old(self).lists@,
                m0.shaped(),
                0 <= k <= order <= q < 64,
                pow2(k as nat) == page_num,
                found_size == pow2(order as nat),
                a == node.addr,
                a == old(self)@.runs[q][0],
                q == first_fit(old(self)@.runs, k),
                self@.runs == split(old(self)@.runs, a, order as int, q),
                forall|p: int| k <= p < q ==> (#[trigger] old(self)@.runs[p]).len() == 0,
                self.lists@.owner.dom() == m0.owner.dom().difference(
                    page_range(a, found_size as int),
                ),
                page_range(a, pow2(q as nat) as int).subset_of(m0.owner.dom()),
                self.lists@.weight() == m0.weight() - found_size,
                self.lists@.chains[spare_list()].len() == m0.chains[spare_list()].len() + 1 - (q
                    - order),
                q - k <= m0.chains[spare_list()].len() + 1,
                self.lists@.cells_on_lists() == m0.cells_on_lists(),
                aligned(a, order as int),
                a + found_size <= m0.pages,
            decreases order,
        {
            proof {
                if order == k {
                    assert(false);
                }
                lemma_pow2_double((order - 1) as nat);
                lemma_aligned_lower(a, order - 1);
                lemma_range_halves(a, order - 1);
                if order < q {
                    lemma_pow2_strictly_increases(order as nat, q as nat);
                }
            }
            found_size /= 2;
            order -= 1;
            let ghost m = self.lists@;
            proof {
                lemma_removed(m, spare_list(), 0);
                let r = m.removed(spare_list(), 0);
                let c = m.chains[spare_list()][0];
                assert(self@.runs[order as int] == m.runs(order as int));
                assert(r.chains[order as int].len() == 0);
                lemma_inserted(r, order as int, c, (node.addr + found_size) as u64);
            }
            self.add_node(order, FreeNode::new(node.addr + found_size));
            proof {
                assert(self@.runs =~= split(old(self)@.runs, a, order as int, q));
                assert(self.lists@.owner.dom() =~= m0.owner.dom().difference(
                    page_range(a, found_size as int),
                ));
            }
        }
        proof {
            if k < order {
                lemma_pow2_strictly_increases(k as nat, order as nat);
            }
            if order < q {
                lemma_pow2_strictly_increases(order as nat, q as nat);
            }
            assert(page_range(a, page_num as int).subset_of(m0.owner.dom()));
            lemma_sub_range_len(m0.owner.dom(), a, page_num as int);
        }
        self.free -= page_num;
        self.start + node.addr
    }

    /// The free pages are pages of the heap, `free` counts them, and the
    /// lists hold as many.
    pub proof fn lemma_free_pages(&self)
        requires
            self.wf(),
        ensures
            self@.start == self.start,
            self@.runs.len() == 64,
            self@.free.finite(),
            self@.free.subset_of(page_range(0, self@.pages as int)),
            self.free == self@.free.len(),
            self.free <= self@.pages,
            self.free == crate::buddy_lists::weight_upto(self@.runs, 64),
            self@.start + self@.pages <= u64::MAX,
    {
        let m = self.lists@;
        lemma_range_len(0, m.pages as int);
        vstd::set_lib::lemma_len_subset(m.owner.dom(), page_range(0, m.pages as int));
        crate::buddy_lists::lemma_weight_same(m.chains, self@.runs, 64);
    }

    /// The head of an order's list holds the first run of the order; the
    /// list is empty where there is no head, and the head has no successor
    /// where the order has one run.
    pub proof fn lemma_list_head(&self, order: int)
        requires
            self.wf(),
            0 <= order < 64,
        ensures
            match self.pows[order] {
                Some(c) => {
                    &&& c < NODE_CAPACITY
                    &&& self@.runs[order].len() > 0
                    &&& self.free_nodes[c as int].addr == self@.runs[order][0]
                    &&& self.free_nodes[c as int].next is None <==> self@.runs[order].len() == 1
                },
                None => self@.runs[order].len() == 0,
            },
    {
        lemma_head(self.lists@, order);
        assert(self@.runs[order] == self.lists@.runs(order));
        if self.lists@.chains[order].len() > 0 {
            lemma_run(self.lists@, order, 0);
        }
    }

    /// Every free run is aligned to its size and lies in the heap, and its pages are free.
    pub proof fn lemma_free_run(&self, order: int, i: int)
        requires
            self.wf(),
            0 <= order < 64,
            0 <= i < self@.runs[order].len(),
        ensures
            0 <= self@.runs[order][i],
            aligned(self@.runs[order][i], order),
            self@.runs[order][i] + pow2(order as nat) <= self@.pages,
            page_range(self@.runs[order][i], pow2(order as nat) as int).subset_of(self@.free),
    {
        lemma_run(self.lists@, order, i);
    }

    /// No two free runs are buddies: they would have been merged.
    pub proof fn lemma_no_free_buddies(&self, order: int, i: int, j: int)
        requires
            self.wf(),
            0 <= order < 64,
            0 <= i < self@.runs[order].len(),
            0 <= j < self@.runs[order].len(),
        ensures
            self@.runs[order][j] != buddy_of(self@.runs[order][i], order),
            i != j ==> self@.runs[order][j] != self@.runs[order][i],
    {
        lemma_run(self.lists@, order, i);
        lemma_run(self.lists@, order, j);
        lemma_buddy(self@.runs[order][i], order);
        if i != j {
            lemma_runs_apart(self.lists@, order, i, j);
        } else {
            lemma_pow2_64();
        }
    }

    /// The run that an allocation hands out is a run of free pages of the heap.
    pub proof fn lemma_alloc_base(&self, n: int)
        requires
            self.wf(),
            self@.can_alloc(n),
        ensures
            0 <= self@.start <= self@.alloc_base(n),
            self@.alloc_base(n) + n <= self@.start + self@.pages,
            self@.start + self@.pages <= u64::MAX,
            aligned(self@.alloc_base(n) - self@.start, order_of(n)),
            page_range(self@.alloc_base(n) - self@.start, n).subset_of(self@.free),
    {
        let k = order_of(n);
        let q = first_fit(self@.runs, k);
        lemma_order_of_nonneg(n);
        lemma_first_fit(self@.runs, k);
        self.lemma_free_run(q, 0);
        let a = self@.runs[q][0];
        if k < q {
            lemma_pow2_strictly_increases(k as nat, q as nat);
        }
        Self::lemma_aligned_down(a, q, k);
    }

    /// A block that is aligned to its size is aligned to every smaller order.
    proof fn lemma_aligned_down(a: int, q: int, k: int)
        requires
            0 <= a,
            0 <= k <= q,
            aligned(a, q),
        ensures
            aligned(a, k),
        decreases q - k,
    {
        if k < q {
            lemma_aligned_lower(a, q - 1);
            Self::lemma_aligned_down(a, q - 1, k);
        }
    }
}

} // verus!
