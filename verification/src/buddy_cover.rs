//! The free pages are the pages of the free runs: the runs hold free pages
//! only, no page twice, and as many as there are free pages.

use crate::buddy_lists::{lemma_run, weight_upto, Lists};
use crate::power::{lemma_add_range_len, lemma_pow2_64, page_range};
use vstd::arithmetic::power2::pow2;
use vstd::prelude::*;
use vstd::set_lib::lemma_subset_equality;

verus! {

/// The pages of the runs of the orders below `p` and of the first `i` runs of order `p`.
pub open spec fn held_before(m: Lists, p: int, i: int) -> Set<int> {
    Set::new(
        |x: int| exists|q: int, j: int| #[trigger] m.holds(q, j, x) && (q < p || (q == p && j < i)),
    )
}

/// A page lies in one run at most.
proof fn lemma_one_run(m: Lists, p: int, i: int, q: int, j: int, x: int)
    requires
        m.wf(),
        m.holds(p, i, x),
        m.holds(q, j, x),
    ensures
        p == q,
        i == j,
{
    reveal(Lists::owned);
    reveal(Lists::tagged);
    reveal(Lists::distinct);
    assert(m.owner[x] == m.chains[p][i]);
    assert(m.owner[x] == m.chains[q][j]);
    assert(m.tag[m.chains[p][i]] == p);
    assert(m.tag[m.chains[q][j]] == q);
    if i < j {
        assert(m.chains[p][i] != m.chains[p][j]);
    } else if j < i {
        assert(m.chains[p][j] != m.chains[p][i]);
    }
}

/// The runs before the `i`-th of order `p` hold free pages only, and as
/// many as their sizes add up to.
proof fn lemma_held_before(m: Lists, p: int, i: int)
    requires
        m.wf(),
        0 <= p <= 64,
        0 <= i,
        p < 64 ==> i <= m.chains[p].len(),
        p == 64 ==> i == 0,
    ensures
        held_before(m, p, i).finite(),
        held_before(m, p, i).subset_of(m.owner.dom()),
        held_before(m, p, i).len() == weight_upto(m.chains, p) + i * pow2(p as nat),
    decreases p, i,
{
    let now = held_before(m, p, i);
    if i > 0 {
        lemma_held_before(m, p, i - 1);
        let prev = held_before(m, p, i - 1);
        let a = m.addr(m.chains[p][i - 1]);
        let size = pow2(p as nat) as int;
        let run = page_range(a, size);
        lemma_run(m, p, i - 1);
        lemma_pow2_64();
        assert forall|x: int| prev.contains(x) implies !run.contains(x) by {
            if run.contains(x) {
                let (q, j) = choose|q: int, j: int| #[trigger]
                    m.holds(q, j, x) && (q < p || (q == p && j < i - 1));
                assert(m.holds(p, i - 1, x));
                lemma_one_run(m, p, i - 1, q, j, x);
            }
        }
        assert forall|x: int| now.contains(x) <==> prev.union(run).contains(x) by {
            if now.contains(x) {
                let (q, j) = choose|q: int, j: int| #[trigger]
                    m.holds(q, j, x) && (q < p || (q == p && j < i));
                if q == p && j == i - 1 {
                    assert(run.contains(x));
                } else {
                    assert(m.holds(q, j, x) && (q < p || (q == p && j < i - 1)));
                    assert(prev.contains(x));
                }
            }
            if run.contains(x) {
                assert(m.holds(p, i - 1, x));
            }
            if prev.contains(x) {
                let (q, j) = choose|q: int, j: int| #[trigger]
                    m.holds(q, j, x) && (q < p || (q == p && j < i - 1));
                assert(m.holds(q, j, x) && (q < p || (q == p && j < i)));
            }
        }
        assert(now =~= prev.union(run));
        lemma_add_range_len(prev, a, size);
        assert((i - 1) * size + size == i * size) by (nonlinear_arith);
    } else if p > 0 {
        let n = m.chains[p - 1].len() as int;
        lemma_held_before(m, p - 1, n);
        let prev = held_before(m, p - 1, n);
        assert forall|x: int| now.contains(x) <==> prev.contains(x) by {
            if now.contains(x) {
                let (q, j) = choose|q: int, j: int| #[trigger]
                    m.holds(q, j, x) && (q < p || (q == p && j < 0));
                assert(m.holds(q, j, x) && (q < p - 1 || (q == p - 1 && j < n)));
            }
            if prev.contains(x) {
                let (q, j) = choose|q: int, j: int| #[trigger]
                    m.holds(q, j, x) && (q < p - 1 || (q == p - 1 && j < n));
                assert(m.holds(q, j, x) && (q < p || (q == p && j < 0)));
            }
        }
        assert(now =~= prev);
        assert(0 * pow2(p as nat) == 0);
    } else {
        assert(now =~= Set::<int>::empty());
        assert(0 * pow2(p as nat) == 0);
    }
}

/// Every free page lies in a free run.
pub proof fn lemma_covered(m: Lists, x: int)
    requires
        m.wf(),
        m.owner.dom().len() == m.weight(),
        m.owner.dom().contains(x),
    ensures
        exists|q: int, j: int| #[trigger] m.holds(q, j, x),
{
    lemma_held_before(m, 64, 0);
    let all = held_before(m, 64, 0);
    assert(0 * pow2(64) == 0);
    lemma_subset_equality(all, m.owner.dom());
    assert(all.contains(x));
    let (q, j) = choose|q: int, j: int| #[trigger] m.holds(q, j, x) && (q < 64 || (q == 64 && j < 0));
    assert(m.holds(q, j, x));
}

} // verus!
