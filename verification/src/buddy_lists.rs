//! The buddy allocator's lists as plain values: the cells of the arena, the
//! sequence of cells that each list threads through them, and the two
//! steps that every operation is made of, taking a cell off a list and
//! putting one at a list's head.

use crate::power::{aligned, lemma_pow2_64, page_range, parent_of};
use vstd::arithmetic::power2::pow2;
use vstd::prelude::*;

verus! {

/// Number of list cells in the allocator's arena.
pub const NODE_CAPACITY: usize = 8196;

/// A list cell: one free run of pages, or a spare.
#[derive(Clone, Copy, Debug)]
pub struct FreeNode {
    /// First page of the run, counted from the allocator's `start`.
    pub addr: u64,
    /// The next cell of the same list.
    pub next: Option<usize>,
}

impl FreeNode {
    /// A cell for the run at `addr`, on no list yet.
    pub fn new(addr: u64) -> (node: Self)
        ensures
            node.addr == addr,
            node.next is None,
    {
        Self { addr, next: None }
    }
}

/// Index of the list of spare cells; the lists before it are those of the orders.
pub open spec fn spare_list() -> int {
    64
}

/// Tag of a cell that is on no list.
pub open spec fn detached() -> int {
    65
}

/// The arena and what its lists hold.
pub struct Lists {
    /// The cells.
    pub nodes: Seq<FreeNode>,
    /// The head cell of each list.
    pub heads: Seq<Option<usize>>,
    /// Number of pages that the allocator manages.
    pub pages: nat,
    /// The cells of each list, head first.
    pub chains: Seq<Seq<int>>,
    /// For each cell, the list that it is on.
    pub tag: Seq<int>,
    /// For each free page, the cell of the run that it lies in.
    pub owner: Map<int, int>,
}

/// The head of a list of cells.
pub open spec fn first_of(cells: Seq<int>) -> Option<usize> {
    if cells.len() == 0 {
        None
    } else {
        Some(cells[0] as usize)
    }
}

/// The cell behind the `i`-th cell of a list.
pub open spec fn next_of(cells: Seq<int>, i: int) -> Option<usize> {
    if i + 1 < cells.len() {
        Some(cells[i + 1] as usize)
    } else {
        None
    }
}

impl Lists {
    /// First page of the run in cell `c`.
    pub open spec fn addr(self, c: int) -> int {
        self.nodes[c].addr as int
    }

    /// The free runs of `order`, head first, each by its first page.
    pub open spec fn runs(self, order: int) -> Seq<int> {
        Seq::new(self.chains[order].len(), |i: int| self.addr(self.chains[order][i]))
    }

    /// The arena has all its cells, and every list its place.
    pub open spec fn shaped(self) -> bool {
        &&& self.nodes.len() == NODE_CAPACITY
        &&& self.heads.len() == 65
        &&& self.chains.len() == 65
        &&& self.tag.len() == NODE_CAPACITY
    }

    /// Every cell of a list is a cell of the arena and carries the list's tag.
    #[verifier::opaque]
    pub open spec fn tagged(self) -> bool {
        forall|l: int, i: int|
            0 <= l < 65 && 0 <= i < self.chains[l].len() ==> {
                &&& 0 <= #[trigger] self.chains[l][i] < NODE_CAPACITY
                &&& self.tag[self.chains[l][i]] == l
            }
    }

    /// No cell is twice on a list.
    #[verifier::opaque]
    pub open spec fn distinct(self) -> bool {
        forall|l: int, i: int, j: int|
            0 <= l < 65 && 0 <= i < j < self.chains[l].len() ==> #[trigger] self.chains[l][i]
                != #[trigger] self.chains[l][j]
    }

    /// The heads and the cells' links spell out the lists.
    #[verifier::opaque]
    pub open spec fn linked(self) -> bool {
        &&& forall|l: int| 0 <= l < 65 ==> self.heads[l] == first_of(#[trigger] self.chains[l])
        &&& forall|l: int, i: int|
            0 <= l < 65 && 0 <= i < self.chains[l].len() ==> self.nodes[#[trigger] self.chains[l][i]].next
                == next_of(self.chains[l], i)
    }

    /// Every run is aligned to its size and lies in the heap.
    #[verifier::opaque]
    pub open spec fn placed(self) -> bool {
        forall|p: int, i: int|
            0 <= p < 64 && 0 <= i < self.chains[p].len() ==> {
                &&& aligned(self.addr(#[trigger] self.chains[p][i]), p)
                &&& self.addr(self.chains[p][i]) + pow2(p as nat) <= self.pages
            }
    }

    /// Page `x` lies in the `i`-th run of `order`.
    pub open spec fn holds(self, order: int, i: int, x: int) -> bool {
        &&& 0 <= order < 64
        &&& 0 <= i < self.chains[order].len()
        &&& self.addr(self.chains[order][i]) <= x < self.addr(self.chains[order][i]) + pow2(
            order as nat,
        )
    }

    /// The pages of every run are free, and the run's own.
    #[verifier::opaque]
    pub open spec fn owned(self) -> bool {
        forall|p: int, i: int, x: int| #[trigger]
            self.holds(p, i, x) ==> self.owner.dom().contains(x) && self.owner[x]
                == self.chains[p][i]
    }

    /// No two runs of one order are halves of one parent.
    #[verifier::opaque]
    pub open spec fn apart(self) -> bool {
        forall|p: int, i: int, j: int|
            0 <= p < 64 && 0 <= i < self.chains[p].len() && 0 <= j < self.chains[p].len() && i != j
                ==> parent_of(self.addr(#[trigger] self.chains[p][i]), p) != parent_of(
                self.addr(#[trigger] self.chains[p][j]),
                p,
            )
    }

    /// The free pages are finitely many, all of the heap.
    pub open spec fn bounded(self) -> bool {
        &&& self.owner.dom().finite()
        &&& forall|x: int| self.owner.dom().contains(x) ==> 0 <= x < self.pages
    }

    /// The lists are sound.
    pub open spec fn wf(self) -> bool {
        &&& self.shaped()
        &&& self.tagged()
        &&& self.distinct()
        &&& self.linked()
        &&& self.placed()
        &&& self.owned()
        &&& self.apart()
        &&& self.bounded()
    }

    /// Pages on the free lists: the sum over the orders of the list's length times `2^order`.
    pub open spec fn weight(self) -> int {
        weight_upto(self.chains, 64)
    }

    /// The free lists of all orders.
    pub open spec fn all_runs(self) -> Seq<Seq<int>> {
        Seq::new(64, |p: int| self.runs(p))
    }

    /// Number of cells that are on a list.
    pub open spec fn cells_on_lists(self) -> int {
        count_upto(self.chains, 65)
    }

    /// The lists with the `i`-th cell of list `l` taken off.
    pub open spec fn removed(self, l: int, i: int) -> Lists {
        let c = self.chains[l][i];
        let prev = self.chains[l][i - 1];
        Lists {
            nodes: if i == 0 {
                self.nodes
            } else {
                self.nodes.update(
                    prev,
                    FreeNode { addr: self.nodes[prev].addr, next: self.nodes[c].next },
                )
            },
            heads: if i == 0 {
                self.heads.update(l, self.nodes[c].next)
            } else {
                self.heads
            },
            pages: self.pages,
            chains: self.chains.update(l, self.chains[l].remove(i)),
            tag: self.tag.update(c, detached()),
            owner: if l < 64 {
                self.owner.remove_keys(page_range(self.addr(c), pow2(l as nat) as int))
            } else {
                self.owner
            },
        }
    }

    /// The lists with cell `c`, which is on none, put at the head of list `l`;
    /// on the list of an order it becomes the run at `a`.
    pub open spec fn inserted(self, l: int, c: int, a: u64) -> Lists {
        Lists {
            nodes: self.nodes.update(
                c,
                FreeNode { addr: if l < 64 { a } else { self.nodes[c].addr }, next: self.heads[l] },
            ),
            heads: self.heads.update(l, Some(c as usize)),
            pages: self.pages,
            chains: self.chains.update(l, seq![c] + self.chains[l]),
            tag: self.tag.update(c, l),
            owner: if l < 64 {
                self.owner.union_prefer_right(
                    Map::new(
                        |x: int| page_range(a as int, pow2(l as nat) as int).contains(x),
                        |x: int| c,
                    ),
                )
            } else {
                self.owner
            },
        }
    }
}

/// Pages held by the first `n` lists of `chains`.
pub open spec fn weight_upto(chains: Seq<Seq<int>>, n: int) -> int
    decreases n,
{
    if n <= 0 {
        0
    } else {
        weight_upto(chains, n - 1) + chains[n - 1].len() * pow2((n - 1) as nat)
    }
}

/// Number of cells on the first `n` lists of `chains`.
pub open spec fn count_upto(chains: Seq<Seq<int>>, n: int) -> int
    decreases n,
{
    if n <= 0 {
        0
    } else {
        count_upto(chains, n - 1) + chains[n - 1].len()
    }
}

proof fn lemma_count_update(before: Seq<Seq<int>>, after: Seq<Seq<int>>, l: int, n: int)
    requires
        0 <= l < 65,
        0 <= n <= 65,
        before.len() == 65,
        after.len() == 65,
        forall|l2: int| 0 <= l2 < 65 && l2 != l ==> (#[trigger] after[l2]).len() == before[l2].len(),
    ensures
        count_upto(after, n) == count_upto(before, n) + (if l < n {
            after[l].len() - before[l].len()
        } else {
            0
        }),
    decreases n,
{
    if n > 0 {
        lemma_count_update(before, after, l, n - 1);
        if l != n - 1 {
            assert(after[n - 1].len() == before[n - 1].len());
        }
    }
}

proof fn lemma_weight_update(before: Seq<Seq<int>>, after: Seq<Seq<int>>, order: int, n: int)
    requires
        0 <= order < 65,
        0 <= n <= 64,
        before.len() == 65,
        after.len() == 65,
        forall|l: int| 0 <= l < 64 && l != order ==> (#[trigger] after[l]).len() == before[l].len(),
    ensures
        weight_upto(after, n) == weight_upto(before, n) + (if order < n {
            (after[order].len() - before[order].len()) * pow2(order as nat)
        } else {
            0
        }),
    decreases n,
{
    if n > 0 {
        lemma_weight_update(before, after, order, n - 1);
        if order == n - 1 {
            let x = pow2(order as nat) as int;
            let a = after[order].len() as int;
            let b = before[order].len() as int;
            assert(a * x == b * x + (a - b) * x) by (nonlinear_arith);
        } else {
            assert(after[n - 1].len() == before[n - 1].len());
        }
    }
}

proof fn lemma_removed_tagged(m: Lists, l: int, i: int)
    requires
        m.shaped(),
        m.tagged(),
        m.distinct(),
        0 <= l < 65,
        0 <= i < m.chains[l].len(),
    ensures
        m.removed(l, i).tagged(),
        m.removed(l, i).distinct(),
{
    reveal(Lists::tagged);
    reveal(Lists::distinct);
    let r = m.removed(l, i);
    let c = m.chains[l][i];
    assert forall|l2: int, k: int| 0 <= l2 < 65 && 0 <= k < r.chains[l2].len() implies 0
        <= #[trigger] r.chains[l2][k] < NODE_CAPACITY && r.tag[r.chains[l2][k]] == l2 by {
        if l2 == l {
            let k0 = if k < i { k } else { k + 1 };
            assert(r.chains[l2][k] == m.chains[l][k0]);
            assert(m.chains[l][k0] != m.chains[l][i]);
        } else {
            assert(r.chains[l2][k] == m.chains[l2][k]);
        }
    }
    assert forall|l2: int, j: int, k: int| 0 <= l2 < 65 && 0 <= j < k < r.chains[l2].len() implies #[trigger] r.chains[l2][j]
        != #[trigger] r.chains[l2][k] by {
        if l2 == l {
            let j0 = if j < i { j } else { j + 1 };
            let k0 = if k < i { k } else { k + 1 };
            assert(r.chains[l2][j] == m.chains[l][j0]);
            assert(r.chains[l2][k] == m.chains[l][k0]);
        } else {
            assert(r.chains[l2][j] == m.chains[l2][j]);
            assert(r.chains[l2][k] == m.chains[l2][k]);
        }
    }
}

proof fn lemma_removed_linked(m: Lists, l: int, i: int)
    requires
        m.shaped(),
        m.tagged(),
        m.distinct(),
        m.linked(),
        0 <= l < 65,
        0 <= i < m.chains[l].len(),
    ensures
        m.removed(l, i).linked(),
{
    reveal(Lists::tagged);
    reveal(Lists::distinct);
    reveal(Lists::linked);
    let r = m.removed(l, i);
    let c = m.chains[l][i];
    assert forall|l2: int| 0 <= l2 < 65 implies r.heads[l2] == first_of(#[trigger] r.chains[l2]) by {
        if l2 == l {
            assert(m.heads[l] == first_of(m.chains[l]));
            if i == 0 {
                assert(m.nodes[c].next == next_of(m.chains[l], 0));
                if r.chains[l].len() > 0 {
                    assert(r.chains[l][0] == m.chains[l][1]);
                }
            } else {
                assert(r.chains[l][0] == m.chains[l][0]);
            }
        } else {
            assert(m.heads[l2] == first_of(m.chains[l2]));
        }
    }
    assert forall|l2: int, k: int| 0 <= l2 < 65 && 0 <= k < r.chains[l2].len() implies r.nodes[#[trigger] r.chains[l2][k]].next
        == next_of(r.chains[l2], k) by {
        if l2 == l {
            let k0 = if k < i { k } else { k + 1 };
            assert(r.chains[l][k] == m.chains[l][k0]);
            assert(m.nodes[m.chains[l][k0]].next == next_of(m.chains[l], k0));
            assert(m.nodes[m.chains[l][i]].next == next_of(m.chains[l], i));
            if k + 1 < r.chains[l].len() {
                let k1 = if k + 1 < i { k + 1 } else { k + 2 };
                assert(r.chains[l][k + 1] == m.chains[l][k1]);
            }
            if i > 0 {
                if k0 == i - 1 {
                } else {
                    assert(m.chains[l][k0] != m.chains[l][i - 1]);
                }
            }
        } else {
            assert(r.chains[l2][k] == m.chains[l2][k]);
            assert(m.nodes[m.chains[l2][k]].next == next_of(m.chains[l2], k));
            if i > 0 {
                assert(m.tag[m.chains[l][i - 1]] == l);
                assert(m.tag[m.chains[l2][k]] == l2);
            }
        }
    }
}

/// Taking a cell off a list leaves the cells of every run as they were.
proof fn lemma_removed_addr(m: Lists, l: int, i: int)
    requires
        m.shaped(),
        m.tagged(),
        0 <= l < 65,
        0 <= i < m.chains[l].len(),
    ensures
        forall|c: int| 0 <= c < NODE_CAPACITY ==> #[trigger] m.removed(l, i).addr(c) == m.addr(c),
{
    reveal(Lists::tagged);
    if i > 0 {
        assert(0 <= m.chains[l][i - 1] < NODE_CAPACITY);
    }
}

proof fn lemma_removed_runs(m: Lists, l: int, i: int)
    requires
        m.wf(),
        0 <= l < 65,
        0 <= i < m.chains[l].len(),
    ensures
        m.removed(l, i).placed(),
        m.removed(l, i).apart(),
        m.removed(l, i).owned(),
        m.removed(l, i).bounded(),
{
    let r = m.removed(l, i);
    let c = m.chains[l][i];
    lemma_removed_addr(m, l, i);
    assert(r.placed()) by {
        reveal(Lists::tagged);
        reveal(Lists::placed);
        assert forall|p: int, k: int| 0 <= p < 64 && 0 <= k < r.chains[p].len() implies aligned(
            r.addr(#[trigger] r.chains[p][k]),
            p,
        ) && r.addr(r.chains[p][k]) + pow2(p as nat) <= r.pages by {
            let k0 = if p == l && k >= i { k + 1 } else { k };
            assert(r.chains[p][k] == m.chains[p][k0]);
            assert(0 <= m.chains[p][k0] < NODE_CAPACITY);
        }
    }
    assert(r.apart()) by {
        reveal(Lists::tagged);
        reveal(Lists::apart);
        assert forall|p: int, j: int, k: int|
            0 <= p < 64 && 0 <= j < r.chains[p].len() && 0 <= k < r.chains[p].len() && j
                != k implies parent_of(r.addr(#[trigger] r.chains[p][j]), p) != parent_of(
            r.addr(#[trigger] r.chains[p][k]),
            p,
        ) by {
            let j0 = if p == l && j >= i { j + 1 } else { j };
            let k0 = if p == l && k >= i { k + 1 } else { k };
            assert(r.chains[p][j] == m.chains[p][j0]);
            assert(r.chains[p][k] == m.chains[p][k0]);
            assert(0 <= m.chains[p][j0] < NODE_CAPACITY);
            assert(0 <= m.chains[p][k0] < NODE_CAPACITY);
        }
    }
    assert(r.owned()) by {
        reveal(Lists::tagged);
        reveal(Lists::distinct);
        reveal(Lists::owned);
        assert forall|p: int, k: int, x: int| #[trigger] r.holds(p, k, x) implies r.owner.dom().contains(
            x,
        ) && r.owner[x] == r.chains[p][k] by {
            let k0 = if p == l && k >= i { k + 1 } else { k };
            assert(r.chains[p][k] == m.chains[p][k0]);
            assert(0 <= m.chains[p][k0] < NODE_CAPACITY);
            assert(m.tag[m.chains[p][k0]] == p);
            assert(r.addr(m.chains[p][k0]) == m.addr(m.chains[p][k0]));
            assert(m.holds(p, k0, x));
            if l < 64 {
                if page_range(m.addr(c), pow2(l as nat) as int).contains(x) {
                    assert(m.holds(l, i, x));
                    assert(m.tag[m.chains[l][i]] == l);
                    if p == l {
                        assert(m.chains[l][k0] != m.chains[l][i]);
                    }
                    assert(false);
                }
            }
        }
    }
    assert(r.bounded()) by {
        if l < 64 {
            assert(r.owner.dom().subset_of(m.owner.dom()));
            vstd::set_lib::lemma_len_subset(r.owner.dom(), m.owner.dom());
        }
    }
}

/// What taking the `i`-th cell off list `l` leaves.
pub proof fn lemma_removed(m: Lists, l: int, i: int)
    requires
        m.wf(),
        0 <= l < 65,
        0 <= i < m.chains[l].len(),
    ensures
        m.removed(l, i).wf(),
        l < 64 ==> m.removed(l, i).runs(l) == m.runs(l).remove(i),
        forall|p: int| 0 <= p < 64 && p != l ==> #[trigger] m.removed(l, i).runs(p) == m.runs(p),
        l < 64 ==> m.removed(l, i).weight() == m.weight() - pow2(l as nat),
        l == 64 ==> m.removed(l, i).weight() == m.weight(),
        l < 64 ==> m.removed(l, i).owner.dom() == m.owner.dom().difference(
            page_range(m.addr(m.chains[l][i]), pow2(l as nat) as int),
        ),
        l < 64 ==> page_range(m.addr(m.chains[l][i]), pow2(l as nat) as int).subset_of(
            m.owner.dom(),
        ),
        m.removed(l, i).cells_on_lists() == m.cells_on_lists() - 1,
        0 <= m.chains[l][i] < NODE_CAPACITY,
        l < 64 ==> m.removed(l, i).all_runs() == m.all_runs().update(l, m.runs(l).remove(i)),
        l == 64 ==> m.removed(l, i).all_runs() == m.all_runs(),
{
    let r = m.removed(l, i);
    lemma_count_update(m.chains, r.chains, l, 65);
    assert(0 <= m.chains[l][i] < NODE_CAPACITY) by {
        reveal(Lists::tagged);
    }
    lemma_removed_tagged(m, l, i);
    lemma_removed_linked(m, l, i);
    lemma_removed_runs(m, l, i);
    lemma_removed_addr(m, l, i);
    lemma_weight_update(m.chains, r.chains, l, 64);
    assert(r.shaped()) by {
        reveal(Lists::tagged);
        assert(0 <= m.chains[l][i] < NODE_CAPACITY);
        if i > 0 {
            assert(0 <= m.chains[l][i - 1] < NODE_CAPACITY);
        }
    }
    if l < 64 {
        let x = pow2(l as nat) as int;
        assert((r.chains[l].len() - m.chains[l].len()) * x == -x) by (nonlinear_arith)
            requires
                r.chains[l].len() - m.chains[l].len() == -1,
        ;
    }
    assert forall|p: int| 0 <= p < 64 && p != l implies #[trigger] r.runs(p) == m.runs(p) by {
        reveal(Lists::tagged);
        assert forall|k: int| 0 <= k < m.chains[p].len() implies r.addr(r.chains[p][k]) == m.addr(
            m.chains[p][k],
        ) by {
            assert(0 <= m.chains[p][k] < NODE_CAPACITY);
        }
        assert(r.runs(p) =~= m.runs(p));
    }
    if l < 64 {
        reveal(Lists::tagged);
        reveal(Lists::owned);
        assert forall|k: int| 0 <= k < r.chains[l].len() implies r.addr(r.chains[l][k])
            == m.runs(l).remove(i)[k] by {
            let k0 = if k >= i { k + 1 } else { k };
            assert(r.chains[l][k] == m.chains[l][k0]);
            assert(0 <= m.chains[l][k0] < NODE_CAPACITY);
        }
        assert(r.runs(l) =~= m.runs(l).remove(i));
        assert(r.owner.dom() =~= m.owner.dom().difference(
            page_range(m.addr(m.chains[l][i]), pow2(l as nat) as int),
        ));
        assert forall|x: int|
            page_range(m.addr(m.chains[l][i]), pow2(l as nat) as int).contains(
                x,
            ) implies m.owner.dom().contains(x) by {
            assert(m.holds(l, i, x));
        }
        assert(r.all_runs() =~= m.all_runs().update(l, m.runs(l).remove(i)));
    } else {
        assert(r.all_runs() =~= m.all_runs());
    }
}

impl Lists {
    /// Cell `c` is on no list and may be put on list `l`, as the run at `a` where `l` is an order.
    pub open spec fn can_insert(self, l: int, c: int, a: u64) -> bool {
        &&& 0 <= l < 65
        &&& 0 <= c < NODE_CAPACITY
        &&& self.tag[c] == detached()
        &&& l < 64 ==> {
            &&& aligned(a as int, l)
            &&& a + pow2(l as nat) <= self.pages
            &&& self.owner.dom().disjoint(page_range(a as int, pow2(l as nat) as int))
            &&& forall|i: int|
                0 <= i < self.chains[l].len() ==> parent_of(self.addr(#[trigger] self.chains[l][i]), l)
                    != parent_of(a as int, l)
        }
    }
}

proof fn lemma_inserted_tagged(m: Lists, l: int, c: int, a: u64)
    requires
        m.shaped(),
        m.tagged(),
        m.distinct(),
        0 <= l < 65,
        0 <= c < NODE_CAPACITY,
        m.tag[c] == detached(),
    ensures
        m.inserted(l, c, a).tagged(),
        m.inserted(l, c, a).distinct(),
        forall|l2: int, k: int| 0 <= l2 < 65 && 0 <= k < m.chains[l2].len() ==> #[trigger] m.chains[l2][k] != c,
{
    reveal(Lists::tagged);
    reveal(Lists::distinct);
    let r = m.inserted(l, c, a);
    assert forall|l2: int, k: int| 0 <= l2 < 65 && 0 <= k < m.chains[l2].len() implies #[trigger] m.chains[l2][k] != c by {
        assert(m.tag[m.chains[l2][k]] == l2);
    }
    assert forall|l2: int, k: int| 0 <= l2 < 65 && 0 <= k < r.chains[l2].len() implies 0
        <= #[trigger] r.chains[l2][k] < NODE_CAPACITY && r.tag[r.chains[l2][k]] == l2 by {
        if l2 == l {
            if k > 0 {
                assert(r.chains[l2][k] == m.chains[l][k - 1]);
            }
        } else {
            assert(r.chains[l2][k] == m.chains[l2][k]);
        }
    }
    assert forall|l2: int, j: int, k: int| 0 <= l2 < 65 && 0 <= j < k < r.chains[l2].len() implies #[trigger] r.chains[l2][j]
        != #[trigger] r.chains[l2][k] by {
        if l2 == l {
            assert(r.chains[l2][k] == m.chains[l][k - 1]);
            if j > 0 {
                assert(r.chains[l2][j] == m.chains[l][j - 1]);
            }
        } else {
            assert(r.chains[l2][j] == m.chains[l2][j]);
            assert(r.chains[l2][k] == m.chains[l2][k]);
        }
    }
}

proof fn lemma_inserted_linked(m: Lists, l: int, c: int, a: u64)
    requires
        m.shaped(),
        m.tagged(),
        m.linked(),
        0 <= l < 65,
        0 <= c < NODE_CAPACITY,
        m.tag[c] == detached(),
    ensures
        m.inserted(l, c, a).linked(),
{
    reveal(Lists::tagged);
    reveal(Lists::linked);
    let r = m.inserted(l, c, a);
    assert forall|l2: int| 0 <= l2 < 65 implies r.heads[l2] == first_of(#[trigger] r.chains[l2]) by {
        assert(m.heads[l2] == first_of(m.chains[l2]));
        if l2 == l {
            assert(r.chains[l][0] == c);
        }
    }
    assert forall|l2: int, k: int| 0 <= l2 < 65 && 0 <= k < r.chains[l2].len() implies r.nodes[#[trigger] r.chains[l2][k]].next
        == next_of(r.chains[l2], k) by {
        if l2 == l {
            assert(m.heads[l] == first_of(m.chains[l]));
            if k > 0 {
                assert(r.chains[l][k] == m.chains[l][k - 1]);
                assert(m.tag[m.chains[l][k - 1]] == l);
                assert(m.nodes[m.chains[l][k - 1]].next == next_of(m.chains[l], k - 1));
                if k + 1 < r.chains[l].len() {
                    assert(r.chains[l][k + 1] == m.chains[l][k]);
                }
            } else {
                if 1 < r.chains[l].len() {
                    assert(r.chains[l][1] == m.chains[l][0]);
                }
            }
        } else {
            assert(r.chains[l2][k] == m.chains[l2][k]);
            assert(m.tag[m.chains[l2][k]] == l2);
            assert(m.nodes[m.chains[l2][k]].next == next_of(m.chains[l2], k));
        }
    }
}

proof fn lemma_inserted_runs(m: Lists, l: int, c: int, a: u64)
    requires
        m.wf(),
        m.can_insert(l, c, a),
    ensures
        m.inserted(l, c, a).placed(),
        m.inserted(l, c, a).apart(),
        m.inserted(l, c, a).owned(),
        m.inserted(l, c, a).bounded(),
{
    let r = m.inserted(l, c, a);
    lemma_inserted_tagged(m, l, c, a);
    lemma_pow2_64();
    assert(r.placed()) by {
        reveal(Lists::tagged);
        reveal(Lists::placed);
        assert forall|p: int, k: int| 0 <= p < 64 && 0 <= k < r.chains[p].len() implies aligned(
            r.addr(#[trigger] r.chains[p][k]),
            p,
        ) && r.addr(r.chains[p][k]) + pow2(p as nat) <= r.pages by {
            if p == l && k == 0 {
            } else {
                let k0 = if p == l { k - 1 } else { k };
                assert(r.chains[p][k] == m.chains[p][k0]);
                assert(0 <= m.chains[p][k0] < NODE_CAPACITY);
            }
        }
    }
    assert(r.apart()) by {
        reveal(Lists::tagged);
        reveal(Lists::apart);
        assert forall|p: int, j: int, k: int|
            0 <= p < 64 && 0 <= j < r.chains[p].len() && 0 <= k < r.chains[p].len() && j
                != k implies parent_of(r.addr(#[trigger] r.chains[p][j]), p) != parent_of(
            r.addr(#[trigger] r.chains[p][k]),
            p,
        ) by {
            let j0 = if p == l { j - 1 } else { j };
            let k0 = if p == l { k - 1 } else { k };
            if j0 >= 0 {
                assert(r.chains[p][j] == m.chains[p][j0]);
                assert(0 <= m.chains[p][j0] < NODE_CAPACITY);
            }
            if k0 >= 0 {
                assert(r.chains[p][k] == m.chains[p][k0]);
                assert(0 <= m.chains[p][k0] < NODE_CAPACITY);
            }
        }
    }
    assert(r.owned()) by {
        reveal(Lists::tagged);
        reveal(Lists::owned);
        assert forall|p: int, k: int, x: int| #[trigger] r.holds(p, k, x) implies r.owner.dom().contains(
            x,
        ) && r.owner[x] == r.chains[p][k] by {
            if p == l && k == 0 {
            } else {
                let k0 = if p == l { k - 1 } else { k };
                assert(r.chains[p][k] == m.chains[p][k0]);
                assert(0 <= m.chains[p][k0] < NODE_CAPACITY);
                assert(m.chains[p][k0] != c);
                assert(r.addr(m.chains[p][k0]) == m.addr(m.chains[p][k0]));
                assert(m.holds(p, k0, x));
                if l < 64 {
                    assert(!page_range(a as int, pow2(l as nat) as int).contains(x));
                }
            }
        }
    }
    assert(r.bounded()) by {
        if l < 64 {
            let size = pow2(l as nat) as int;
            assert(r.owner.dom() =~= m.owner.dom().union(page_range(a as int, size)));
            vstd::set_lib::lemma_int_range(a as int, a + size);
            vstd::set::axiom_set_union_finite(m.owner.dom(), page_range(a as int, size));
        }
    }
}

/// What putting the detached cell `c` at the head of list `l` gives.
pub proof fn lemma_inserted(m: Lists, l: int, c: int, a: u64)
    requires
        m.wf(),
        m.can_insert(l, c, a),
    ensures
        m.inserted(l, c, a).wf(),
        l < 64 ==> m.inserted(l, c, a).runs(l) == seq![a as int] + m.runs(l),
        forall|p: int| 0 <= p < 64 && p != l ==> #[trigger] m.inserted(l, c, a).runs(p) == m.runs(p),
        l < 64 ==> m.inserted(l, c, a).weight() == m.weight() + pow2(l as nat),
        l == 64 ==> m.inserted(l, c, a).weight() == m.weight(),
        l < 64 ==> m.inserted(l, c, a).owner.dom() == m.owner.dom().union(
            page_range(a as int, pow2(l as nat) as int),
        ),
        m.inserted(l, c, a).cells_on_lists() == m.cells_on_lists() + 1,
        l < 64 ==> m.inserted(l, c, a).all_runs() == m.all_runs().update(
            l,
            seq![a as int] + m.runs(l),
        ),
        l == 64 ==> m.inserted(l, c, a).all_runs() == m.all_runs(),
{
    let r = m.inserted(l, c, a);
    lemma_count_update(m.chains, r.chains, l, 65);
    lemma_inserted_tagged(m, l, c, a);
    lemma_inserted_linked(m, l, c, a);
    lemma_inserted_runs(m, l, c, a);
    lemma_weight_update(m.chains, r.chains, l, 64);
    assert forall|p: int| 0 <= p < 64 && p != l implies #[trigger] r.runs(p) == m.runs(p) by {
        assert forall|k: int| 0 <= k < m.chains[p].len() implies r.addr(r.chains[p][k]) == m.addr(
            m.chains[p][k],
        ) by {
            reveal(Lists::tagged);
            assert(m.chains[p][k] != c);
            assert(0 <= m.chains[p][k] < NODE_CAPACITY);
        }
        assert(r.runs(p) =~= m.runs(p));
    }
    if l < 64 {
        let x = pow2(l as nat) as int;
        assert((r.chains[l].len() - m.chains[l].len()) * x == x) by (nonlinear_arith)
            requires
                r.chains[l].len() - m.chains[l].len() == 1,
        ;
        assert forall|k: int| 0 <= k < r.chains[l].len() implies r.addr(r.chains[l][k]) == (seq![
            a as int,
        ] + m.runs(l))[k] by {
            reveal(Lists::tagged);
            if k > 0 {
                assert(r.chains[l][k] == m.chains[l][k - 1]);
                assert(m.chains[l][k - 1] != c);
                assert(0 <= m.chains[l][k - 1] < NODE_CAPACITY);
            }
        }
        assert(r.runs(l) =~= seq![a as int] + m.runs(l));
        assert(r.owner.dom() =~= m.owner.dom().union(page_range(a as int, pow2(l as nat) as int)));
        assert(r.all_runs() =~= m.all_runs().update(l, seq![a as int] + m.runs(l)));
    } else {
        assert(r.all_runs() =~= m.all_runs());
    }
}

/// What holds of the `i`-th run of `order`.
pub proof fn lemma_run(m: Lists, order: int, i: int)
    requires
        m.wf(),
        0 <= order < 64,
        0 <= i < m.chains[order].len(),
    ensures
        0 <= m.chains[order][i] < NODE_CAPACITY,
        m.tag[m.chains[order][i]] == order,
        m.runs(order)[i] == m.addr(m.chains[order][i]),
        0 <= m.runs(order)[i],
        aligned(m.runs(order)[i], order),
        m.runs(order)[i] + pow2(order as nat) <= m.pages,
        page_range(m.runs(order)[i], pow2(order as nat) as int).subset_of(m.owner.dom()),
        m.nodes[m.chains[order][i]].next == next_of(m.chains[order], i),
        i == 0 ==> m.heads[order] == Some(m.chains[order][0] as usize),
{
    reveal(Lists::tagged);
    reveal(Lists::placed);
    reveal(Lists::owned);
    reveal(Lists::linked);
    assert(m.heads[order] == first_of(m.chains[order]));
    assert forall|x: int| page_range(m.runs(order)[i], pow2(order as nat) as int).contains(
        x,
    ) implies m.owner.dom().contains(x) by {
        assert(m.holds(order, i, x));
    }
}

/// The head of list `l` is the first cell of its sequence.
pub proof fn lemma_head(m: Lists, l: int)
    requires
        m.wf(),
        0 <= l < 65,
    ensures
        m.heads[l] == first_of(m.chains[l]),
        m.chains[l].len() > 0 ==> 0 <= m.chains[l][0] < NODE_CAPACITY,
{
    reveal(Lists::linked);
    reveal(Lists::tagged);
}

/// What holds of the `i`-th spare cell.
pub proof fn lemma_spare(m: Lists, i: int)
    requires
        m.wf(),
        0 <= i < m.chains[spare_list()].len(),
    ensures
        0 <= m.chains[spare_list()][i] < NODE_CAPACITY,
        m.nodes[m.chains[spare_list()][i]].next == next_of(m.chains[spare_list()], i),
        i + 1 < m.chains[spare_list()].len() ==> 0 <= m.chains[spare_list()][i + 1]
            < NODE_CAPACITY,
{
    reveal(Lists::tagged);
    reveal(Lists::linked);
}

/// Two runs of one order start at different pages, under different parents.
pub proof fn lemma_runs_apart(m: Lists, order: int, i: int, j: int)
    requires
        m.wf(),
        0 <= order < 64,
        0 <= i < m.chains[order].len(),
        0 <= j < m.chains[order].len(),
        i != j,
    ensures
        m.runs(order)[i] != m.runs(order)[j],
        parent_of(m.runs(order)[i], order) != parent_of(m.runs(order)[j], order),
{
    reveal(Lists::apart);
}

/// The pages on the lists depend on the lists' lengths alone.
pub proof fn lemma_weight_same(a: Seq<Seq<int>>, b: Seq<Seq<int>>, n: int)
    requires
        0 <= n <= 64,
        forall|l: int| 0 <= l < n ==> (#[trigger] a[l]).len() == b[l].len(),
    ensures
        weight_upto(a, n) == weight_upto(b, n),
    decreases n,
{
    if n > 0 {
        lemma_weight_same(a, b, n - 1);
        assert(a[n - 1].len() == b[n - 1].len());
    }
}

/// Lists that are all empty hold no page and no cell.
pub proof fn lemma_empty_lists(chains: Seq<Seq<int>>, n: int)
    requires
        0 <= n <= chains.len(),
        forall|l: int| 0 <= l < n ==> (#[trigger] chains[l]).len() == 0,
    ensures
        weight_upto(chains, n) == 0,
        count_upto(chains, n) == 0,
    decreases n,
{
    if n > 0 {
        lemma_empty_lists(chains, n - 1);
        assert(chains[n - 1].len() == 0);
        assert(0 * pow2((n - 1) as nat) == 0) by (nonlinear_arith);
    }
}

impl Lists {
    /// The lists of a fresh arena: no run yet, and cell `i` followed by cell
    /// `i + 1` on the list of spare cells.
    pub open spec fn fresh(nodes: Seq<FreeNode>, heads: Seq<Option<usize>>, pages: nat) -> Lists {
        Lists {
            nodes,
            heads,
            pages,
            chains: Seq::new(
                65,
                |l: int|
                    if l == spare_list() {
                        Seq::new(NODE_CAPACITY as nat, |i: int| i)
                    } else {
                        Seq::<int>::empty()
                    },
            ),
            tag: Seq::new(NODE_CAPACITY as nat, |c: int| spare_list()),
            owner: Map::<int, int>::empty(),
        }
    }
}

/// A fresh arena is sound.
pub proof fn lemma_fresh(nodes: Seq<FreeNode>, heads: Seq<Option<usize>>, pages: nat)
    requires
        nodes.len() == NODE_CAPACITY,
        heads.len() == 65,
        forall|l: int| 0 <= l < 64 ==> (#[trigger] heads[l]) is None,
        heads[spare_list()] == Some(0usize),
        forall|i: int|
            0 <= i < NODE_CAPACITY ==> (#[trigger] nodes[i]).next == (if i + 1 < NODE_CAPACITY {
                Some((i + 1) as usize)
            } else {
                None
            }),
    ensures
        Lists::fresh(nodes, heads, pages).wf(),
        Lists::fresh(nodes, heads, pages).weight() == 0,
        Lists::fresh(nodes, heads, pages).cells_on_lists() == NODE_CAPACITY,
        Lists::fresh(nodes, heads, pages).all_runs() == Seq::new(64, |p: int| Seq::<int>::empty()),
{
    let m = Lists::fresh(nodes, heads, pages);
    reveal(Lists::tagged);
    reveal(Lists::distinct);
    reveal(Lists::linked);
    reveal(Lists::placed);
    reveal(Lists::owned);
    reveal(Lists::apart);
    lemma_empty_lists(m.chains, 64);
    assert(count_upto(m.chains, 65) == count_upto(m.chains, 64) + m.chains[64].len());
    assert forall|l: int, i: int| 0 <= l < 65 && 0 <= i < m.chains[l].len() implies m.nodes[#[trigger] m.chains[l][i]].next
        == next_of(m.chains[l], i) by {
        assert(l == 64);
        assert(m.chains[l][i] == i);
    }
    assert(m.all_runs() =~= Seq::new(64, |p: int| Seq::<int>::empty())) by {
        assert forall|p: int| 0 <= p < 64 implies #[trigger] m.runs(p) =~= Seq::<int>::empty() by {}
    }
}

} // verus!
