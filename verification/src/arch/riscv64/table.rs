//! The SV39 page table as a value: directories of 512 entries under the
//! numbers of the pages that hold them, three levels deep, and what
//! mapping and unmapping a page do to it.

use crate::buddy_allocator::Heap;
use vstd::prelude::*;

verus! {

/// Entries of a page directory.
pub const DIR_ENTRIES: usize = 512;

/// Page numbers are below this: a physical page number has 44 bits.
pub const PPN_LIMIT: u64 = 0x1000_0000_0000;

/// Virtual page numbers are below this: three indices of 9 bits.
pub const VPN_LIMIT: u64 = 0x800_0000;

/// Index of `vpn` into the root directory.
pub open spec fn v1(vpn: u64) -> int {
    (vpn >> 18) as int
}

/// Index of `vpn` into the directory of the middle level.
pub open spec fn v2(vpn: u64) -> int {
    ((vpn >> 9) & 0x1ff) as int
}

/// Index of `vpn` into the directory of the leaves.
pub open spec fn v3(vpn: u64) -> int {
    (vpn & 0x1ff) as int
}

/// The entry that points to the directory in page `f`: valid, no access bit.
pub open spec fn link(f: u64) -> u64 {
    (f << 10) | 1
}

/// The page that an entry points to.
pub open spec fn child(e: u64) -> u64 {
    e >> 10
}

/// A directory without entries.
pub open spec fn zeros() -> Seq<u64> {
    Seq::new(512, |i: int| 0u64)
}

/// The directory holds no entry.
pub open spec fn all_zero(d: Seq<u64>) -> bool {
    forall|i: int| 0 <= i < 512 ==> d[i] == 0
}

/// The three indices of a virtual page are indices of a directory.
pub proof fn lemma_indices(vpn: u64)
    requires
        vpn < VPN_LIMIT,
    ensures
        0 <= v1(vpn) < 512,
        0 <= v2(vpn) < 512,
        0 <= v3(vpn) < 512,
{
    assert(vpn < 0x800_0000 ==> (vpn >> 18) < 512) by (bit_vector);
    assert(((vpn >> 9) & 0x1ff) < 512) by (bit_vector);
    assert((vpn & 0x1ff) < 512) by (bit_vector);
}

/// The three indices tell the virtual page.
pub proof fn lemma_indices_injective(a: u64, b: u64)
    requires
        a < VPN_LIMIT,
        b < VPN_LIMIT,
        v1(a) == v1(b),
        v2(a) == v2(b),
        v3(a) == v3(b),
    ensures
        a == b,
{
    assert(a < 0x800_0000 && b < 0x800_0000 && (a >> 18) == (b >> 18) && ((a >> 9) & 0x1ff) == ((b
        >> 9) & 0x1ff) && (a & 0x1ff) == (b & 0x1ff) ==> a == b) by (bit_vector);
}

/// The link to a page is not zero and points to the page.
pub proof fn lemma_link(f: u64)
    requires
        f < PPN_LIMIT,
    ensures
        child(link(f)) == f,
        link(f) != 0,
{
    assert(f < 0x1000_0000_0000 ==> ((f << 10) | 1) >> 10 == f) by (bit_vector);
    assert(((f << 10) | 1) != 0) by (bit_vector);
}

/// A page table: the root directory's page and the directories by page.
pub struct Table {
    pub root: u64,
    pub dirs: Map<u64, Seq<u64>>,
}

/// How the directories of a table hang together: the level of each, and
/// for each but the root the slot that points to it.
pub struct Shape {
    pub level: Map<u64, int>,
    pub up: Map<u64, (u64, int)>,
}

impl Table {
    /// The entry of the root directory on the way to `vpn`.
    pub open spec fn entry1(self, vpn: u64) -> u64 {
        self.dirs[self.root][v1(vpn)]
    }

    /// The directory of the middle level on the way to `vpn`.
    pub open spec fn dir1(self, vpn: u64) -> u64 {
        child(self.entry1(vpn))
    }

    /// The entry of the middle directory on the way to `vpn`.
    pub open spec fn entry2(self, vpn: u64) -> u64 {
        self.dirs[self.dir1(vpn)][v2(vpn)]
    }

    /// The directory of leaves on the way to `vpn`.
    pub open spec fn dir0(self, vpn: u64) -> u64 {
        child(self.entry2(vpn))
    }

    /// The leaf entry of `vpn`.
    pub open spec fn entry3(self, vpn: u64) -> u64 {
        self.dirs[self.dir0(vpn)][v3(vpn)]
    }

    /// What a walk of the table for `vpn` finds: the leaf entry, if the way
    /// to it is there and it is not zero.
    pub open spec fn walk(self, vpn: u64) -> Option<u64> {
        if self.entry1(vpn) == 0 || self.entry2(vpn) == 0 || self.entry3(vpn) == 0 {
            None
        } else {
            Some(self.entry3(vpn))
        }
    }

    /// The table with entry `i` of directory `d` set to `e`.
    pub open spec fn with_entry(self, d: u64, i: int, e: u64) -> Table {
        Table { root: self.root, dirs: self.dirs.insert(d, self.dirs[d].update(i, e)) }
    }

    /// The table with a new, empty directory in page `f`, entered in slot `i` of directory `p`.
    pub open spec fn attached(self, p: u64, i: int, f: u64) -> Table {
        Table { root: self.root, dirs: self.dirs.insert(f, zeros()) }.with_entry(p, i, link(f))
    }

    /// The table without the directory that slot `i` of directory `p` points to.
    pub open spec fn detached(self, p: u64, i: int) -> Table {
        Table { root: self.root, dirs: self.dirs.remove(child(self.dirs[p][i])) }.with_entry(
            p,
            i,
            0,
        )
    }

    /// The directories form a tree of three levels under the root: every
    /// entry above the leaves is zero or the link to a directory of the next
    /// level, which no other entry points to.
    #[verifier::opaque]
    pub open spec fn tree(self, s: Shape) -> bool {
        &&& self.dirs.contains_key(self.root)
        &&& s.level[self.root] == 2
        &&& forall|d: u64| #[trigger]
            self.dirs.contains_key(d) ==> self.dirs[d].len() == 512 && 0 <= s.level[d] <= 2 && d
                < PPN_LIMIT
        &&& forall|d: u64| #[trigger]
            self.dirs.contains_key(d) && d != self.root ==> {
                &&& self.dirs.contains_key(s.up[d].0)
                &&& 0 <= s.up[d].1 < 512
                &&& s.level[s.up[d].0] == s.level[d] + 1
                &&& self.dirs[s.up[d].0][s.up[d].1] == link(d)
            }
        &&& forall|p: u64, i: int|
            self.dirs.contains_key(p) && s.level[p] >= 1 && 0 <= i < 512 && #[trigger] self.dirs[p][i]
                != 0 ==> {
                &&& self.dirs[p][i] == link(child(self.dirs[p][i]))
                &&& self.dirs.contains_key(child(self.dirs[p][i]))
                &&& child(self.dirs[p][i]) != self.root
                &&& s.up[child(self.dirs[p][i])] == (p, i)
            }
    }

    /// No directory but the root is empty.
    #[verifier::opaque]
    pub open spec fn dense(self) -> bool {
        forall|d: u64| #[trigger] self.dirs.contains_key(d) && d != self.root ==> !all_zero(self.dirs[d])
    }

    /// The table's invariant.
    pub open spec fn wf(self) -> bool {
        &&& exists|s: Shape| self.tree(s)
        &&& self.dense()
    }

    /// The table's directories are pages of the heap that are out.
    pub open spec fn backed_by(self, heap: Heap) -> bool {
        &&& heap.start + heap.pages <= PPN_LIMIT
        &&& forall|d: u64| #[trigger]
            self.dirs.contains_key(d) ==> heap.start <= d < heap.start + heap.pages
                && !heap.free.contains(d - heap.start)
    }

    /// The table of one empty root directory in page `root`.
    pub open spec fn empty(root: u64) -> Table {
        Table { root, dirs: Map::<u64, Seq<u64>>::empty().insert(root, zeros()) }
    }
}

/// What the tree says of the way from the root towards `vpn`.
pub proof fn lemma_path(t: Table, s: Shape, vpn: u64)
    requires
        t.tree(s),
        vpn < VPN_LIMIT,
    ensures
        t.dirs.contains_key(t.root),
        t.dirs[t.root].len() == 512,
        s.level[t.root] == 2,
        t.entry1(vpn) != 0 ==> {
            &&& t.dirs.contains_key(t.dir1(vpn))
            &&& t.dirs[t.dir1(vpn)].len() == 512
            &&& t.dir1(vpn) != t.root
            &&& t.dir1(vpn) < PPN_LIMIT
            &&& s.level[t.dir1(vpn)] == 1
            &&& s.up[t.dir1(vpn)] == (t.root, v1(vpn))
            &&& t.entry1(vpn) == link(t.dir1(vpn))
        },
        t.entry1(vpn) != 0 && t.entry2(vpn) != 0 ==> {
            &&& t.dirs.contains_key(t.dir0(vpn))
            &&& t.dirs[t.dir0(vpn)].len() == 512
            &&& t.dir0(vpn) != t.root
            &&& t.dir0(vpn) != t.dir1(vpn)
            &&& t.dir0(vpn) < PPN_LIMIT
            &&& s.level[t.dir0(vpn)] == 0
            &&& s.up[t.dir0(vpn)] == (t.dir1(vpn), v2(vpn))
            &&& t.entry2(vpn) == link(t.dir0(vpn))
        },
{
    reveal(Table::tree);
    lemma_indices(vpn);
    assert(t.dirs.contains_key(t.root));
    if t.entry1(vpn) != 0 {
        let d1 = t.dir1(vpn);
        assert(t.dirs[t.root][v1(vpn)] != 0);
        assert(t.dirs.contains_key(d1));
        if t.entry2(vpn) != 0 {
            let d0 = t.dir0(vpn);
            assert(t.dirs[d1][v2(vpn)] != 0);
            assert(t.dirs.contains_key(d0));
        }
    }
}

/// A new directory can be hung into an empty slot above the leaves.
pub proof fn lemma_attached(t: Table, s: Shape, p: u64, i: int, f: u64) -> (s2: Shape)
    requires
        t.tree(s),
        t.dirs.contains_key(p),
        s.level[p] >= 1,
        0 <= i < 512,
        t.dirs[p][i] == 0,
        !t.dirs.contains_key(f),
        f < PPN_LIMIT,
    ensures
        t.attached(p, i, f).tree(s2),
        s2.level == s.level.insert(f, s.level[p] - 1),
        s2.up == s.up.insert(f, (p, i)),
{
    reveal(Table::tree);
    let r = t.attached(p, i, f);
    let s2 = Shape { level: s.level.insert(f, s.level[p] - 1), up: s.up.insert(f, (p, i)) };
    lemma_link(f);
    assert(r.dirs.contains_key(r.root));
    assert forall|d: u64| #[trigger] r.dirs.contains_key(d) implies r.dirs[d].len() == 512 && 0
        <= s2.level[d] <= 2 && d < PPN_LIMIT by {
        if d != f {
            assert(t.dirs.contains_key(d));
        }
    }
    assert forall|d: u64| #[trigger] r.dirs.contains_key(d) && d != r.root implies {
        &&& r.dirs.contains_key(s2.up[d].0)
        &&& 0 <= s2.up[d].1 < 512
        &&& s2.level[s2.up[d].0] == s2.level[d] + 1
        &&& r.dirs[s2.up[d].0][s2.up[d].1] == link(d)
    } by {
        if d != f {
            assert(t.dirs.contains_key(d));
            assert(t.dirs.contains_key(s.up[d].0));
            if s.up[d].0 == p && s.up[d].1 == i {
                lemma_link(d);
                assert(false);
            }
        }
    }
    assert forall|q: u64, j: int|
        r.dirs.contains_key(q) && s2.level[q] >= 1 && 0 <= j < 512 && #[trigger] r.dirs[q][j]
            != 0 implies {
        &&& r.dirs[q][j] == link(child(r.dirs[q][j]))
        &&& r.dirs.contains_key(child(r.dirs[q][j]))
        &&& child(r.dirs[q][j]) != r.root
        &&& s2.up[child(r.dirs[q][j])] == (q, j)
    } by {
        if q == f {
            assert(r.dirs[q][j] == 0);
        } else if q == p && j == i {
        } else {
            assert(t.dirs.contains_key(q));
            assert(t.dirs[q][j] == r.dirs[q][j]);
            assert(t.dirs[q][j] != 0);
        }
    }
    s2
}

/// An entry of a directory of leaves can be set to anything.
pub proof fn lemma_with_leaf(t: Table, s: Shape, d: u64, i: int, e: u64)
    requires
        t.tree(s),
        t.dirs.contains_key(d),
        s.level[d] == 0,
        0 <= i < 512,
    ensures
        t.with_entry(d, i, e).tree(s),
{
    reveal(Table::tree);
    let r = t.with_entry(d, i, e);
    assert(r.dirs.contains_key(r.root));
    assert forall|x: u64| #[trigger] r.dirs.contains_key(x) implies r.dirs[x].len() == 512 && 0
        <= s.level[x] <= 2 && x < PPN_LIMIT by {
        assert(t.dirs.contains_key(x));
    }
    assert forall|x: u64| #[trigger] r.dirs.contains_key(x) && x != r.root implies {
        &&& r.dirs.contains_key(s.up[x].0)
        &&& 0 <= s.up[x].1 < 512
        &&& s.level[s.up[x].0] == s.level[x] + 1
        &&& r.dirs[s.up[x].0][s.up[x].1] == link(x)
    } by {
        assert(t.dirs.contains_key(x));
        assert(t.dirs.contains_key(s.up[x].0));
    }
    assert forall|q: u64, j: int|
        r.dirs.contains_key(q) && s.level[q] >= 1 && 0 <= j < 512 && #[trigger] r.dirs[q][j]
            != 0 implies {
        &&& r.dirs[q][j] == link(child(r.dirs[q][j]))
        &&& r.dirs.contains_key(child(r.dirs[q][j]))
        &&& child(r.dirs[q][j]) != r.root
        &&& s.up[child(r.dirs[q][j])] == (q, j)
    } by {
        assert(t.dirs.contains_key(q));
        assert(t.dirs[q][j] == r.dirs[q][j]);
    }
}

/// A directory that no entry hangs under can be taken out of the slot that points to it.
pub proof fn lemma_detached(t: Table, s: Shape, p: u64, i: int)
    requires
        t.tree(s),
        t.dirs.contains_key(p),
        s.level[p] >= 1,
        0 <= i < 512,
        t.dirs[p][i] != 0,
        s.level[child(t.dirs[p][i])] == 0 || all_zero(t.dirs[child(t.dirs[p][i])]),
    ensures
        t.detached(p, i).tree(s),
{
    reveal(Table::tree);
    let r = t.detached(p, i);
    let c = child(t.dirs[p][i]);
    assert(t.dirs.contains_key(c));
    assert(r.dirs.contains_key(r.root));
    assert forall|x: u64| #[trigger] r.dirs.contains_key(x) implies r.dirs[x].len() == 512 && 0
        <= s.level[x] <= 2 && x < PPN_LIMIT by {
        assert(t.dirs.contains_key(x));
    }
    assert forall|x: u64| #[trigger] r.dirs.contains_key(x) && x != r.root implies {
        &&& r.dirs.contains_key(s.up[x].0)
        &&& 0 <= s.up[x].1 < 512
        &&& s.level[s.up[x].0] == s.level[x] + 1
        &&& r.dirs[s.up[x].0][s.up[x].1] == link(x)
    } by {
        assert(t.dirs.contains_key(x));
        assert(t.dirs.contains_key(s.up[x].0));
        let q = s.up[x].0;
        let j = s.up[x].1;
        lemma_link(x);
        if q == c {
            assert(t.dirs[q][j] != 0);
            assert(false);
        }
        if q == p && j == i {
            assert(false);
        }
    }
    assert forall|q: u64, j: int|
        r.dirs.contains_key(q) && s.level[q] >= 1 && 0 <= j < 512 && #[trigger] r.dirs[q][j]
            != 0 implies {
        &&& r.dirs[q][j] == link(child(r.dirs[q][j]))
        &&& r.dirs.contains_key(child(r.dirs[q][j]))
        &&& child(r.dirs[q][j]) != r.root
        &&& s.up[child(r.dirs[q][j])] == (q, j)
    } by {
        assert(t.dirs.contains_key(q));
        assert(t.dirs[q][j] == r.dirs[q][j]);
        assert(t.dirs[q][j] != 0);
    }
}

impl Table {
    /// Number of directories that are missing on the way to `vpn`.
    pub open spec fn missing(self, vpn: u64) -> nat {
        if self.entry1(vpn) == 0 {
            2
        } else if self.entry2(vpn) == 0 {
            1
        } else {
            0
        }
    }

    /// The table after `vpn` was mapped with the leaf entry `leaf`, where
    /// the directories that were missing went into the pages `fa` and `fb`,
    /// in this order.
    pub open spec fn mapped_with(self, vpn: u64, leaf: u64, fa: u64, fb: u64) -> Table {
        let t1 = if self.entry1(vpn) == 0 {
            self.attached(self.root, v1(vpn), fa)
        } else {
            self
        };
        let f0 = if self.entry1(vpn) == 0 {
            fb
        } else {
            fa
        };
        let t2 = if t1.entry2(vpn) == 0 {
            t1.attached(t1.dir1(vpn), v2(vpn), f0)
        } else {
            t1
        };
        t2.with_entry(t2.dir0(vpn), v3(vpn), leaf)
    }

    /// The table after `vpn` was mapped with the leaf entry `leaf`, the
    /// missing directories taken from `heap` page by page.
    pub open spec fn mapped(self, heap: Heap, vpn: u64, leaf: u64) -> Table {
        self.mapped_with(
            vpn,
            leaf,
            heap.alloc_base(1) as u64,
            heap.after_alloc(1).alloc_base(1) as u64,
        )
    }

    /// The heap after the directories that are missing on the way to `vpn` were taken from it.
    pub open spec fn heap_after_map(self, heap: Heap, vpn: u64) -> Heap {
        if self.missing(vpn) == 0 {
            heap
        } else if self.missing(vpn) == 1 {
            heap.after_alloc(1)
        } else {
            heap.after_alloc(1).after_alloc(1)
        }
    }

    /// `vpn` can be mapped: it is a virtual page number, and `heap` has the
    /// pages for the directories that are missing.
    pub open spec fn can_map(self, heap: Heap, vpn: u64) -> bool {
        &&& vpn < VPN_LIMIT
        &&& self.missing(vpn) >= 1 ==> heap.can_alloc(1)
        &&& self.missing(vpn) == 2 ==> heap.after_alloc(1).can_alloc(1)
    }

    /// The pages of the directories that unmapping `vpn` leaves empty, the lower one first.
    pub open spec fn released(self, vpn: u64) -> Seq<u64> {
        let t = self.with_entry(self.dir0(vpn), v3(vpn), 0);
        if all_zero(t.dirs[t.dir0(vpn)]) {
            let t1 = t.detached(t.dir1(vpn), v2(vpn));
            if all_zero(t1.dirs[t1.dir1(vpn)]) {
                seq![self.dir0(vpn), self.dir1(vpn)]
            } else {
                seq![self.dir0(vpn)]
            }
        } else {
            Seq::<u64>::empty()
        }
    }

    /// The table after `vpn` was unmapped: its leaf entry is zero, and the
    /// directories that this left empty are gone, from the leaves up.
    pub open spec fn unmapped(self, vpn: u64) -> Table {
        let t = self.with_entry(self.dir0(vpn), v3(vpn), 0);
        if all_zero(t.dirs[t.dir0(vpn)]) {
            let t1 = t.detached(t.dir1(vpn), v2(vpn));
            if all_zero(t1.dirs[t1.dir1(vpn)]) {
                t1.detached(t1.root, v1(vpn))
            } else {
                t1
            }
        } else {
            t
        }
    }

    /// The heap after the directories that unmapping `vpn` leaves empty were given back.
    pub open spec fn heap_after_unmap(self, heap: Heap, vpn: u64) -> Heap {
        let r = self.released(vpn);
        if r.len() == 0 {
            heap
        } else if r.len() == 1 {
            heap.after_free(r[0] as int, 1)
        } else {
            heap.after_free(r[0] as int, 1).after_free(r[1] as int, 1)
        }
    }

    /// `vpn` can be unmapped: the directories on the way to it are there,
    /// and those that are left empty can be given back to `heap`.
    pub open spec fn can_unmap(self, heap: Heap, vpn: u64) -> bool {
        let r = self.released(vpn);
        &&& vpn < VPN_LIMIT
        &&& self.entry1(vpn) != 0
        &&& self.entry2(vpn) != 0
        &&& r.len() >= 1 ==> heap.can_free(r[0] as int, 1)
        &&& r.len() == 2 ==> heap.after_free(r[0] as int, 1).can_free(r[1] as int, 1)
    }
}

/// A table of one empty root directory is sound.
pub proof fn lemma_empty(root: u64)
    requires
        root < PPN_LIMIT,
    ensures
        Table::empty(root).wf(),
        forall|vpn: u64| vpn < VPN_LIMIT ==> #[trigger] Table::empty(root).walk(vpn) is None,
{
    let t = Table::empty(root);
    let s = Shape {
        level: Map::<u64, int>::empty().insert(root, 2),
        up: Map::<u64, (u64, int)>::empty(),
    };
    reveal(Table::tree);
    reveal(Table::dense);
    assert(t.tree(s));
    assert forall|vpn: u64| vpn < VPN_LIMIT implies #[trigger] t.walk(vpn) is None by {
        lemma_indices(vpn);
    }
}

/// Walk round trip: mapping a page keeps the table sound, and a walk for
/// the page then ends at the leaf entry that was written.
pub proof fn lemma_mapped(t: Table, vpn: u64, leaf: u64, fa: u64, fb: u64)
    requires
        t.wf(),
        vpn < VPN_LIMIT,
        leaf != 0,
        t.missing(vpn) >= 1 ==> !t.dirs.contains_key(fa) && fa < PPN_LIMIT,
        t.missing(vpn) == 2 ==> !t.dirs.contains_key(fb) && fb < PPN_LIMIT && fa != fb,
    ensures
        t.mapped_with(vpn, leaf, fa, fb).wf(),
        t.mapped_with(vpn, leaf, fa, fb).walk(vpn) == Some(leaf),
        t.mapped_with(vpn, leaf, fa, fb).root == t.root,
        forall|d: u64|
            t.mapped_with(vpn, leaf, fa, fb).dirs.contains_key(d) <==> (t.dirs.contains_key(d) || (
            t.missing(vpn) >= 1 && d == fa) || (t.missing(vpn) == 2 && d == fb)),
{
    let s = choose|s: Shape| t.tree(s);
    lemma_indices(vpn);
    lemma_path(t, s, vpn);
    let (t1, s1) = if t.entry1(vpn) == 0 {
        let s1 = lemma_attached(t, s, t.root, v1(vpn), fa);
        lemma_link(fa);
        (t.attached(t.root, v1(vpn), fa), s1)
    } else {
        (t, s)
    };
    lemma_path(t1, s1, vpn);
    let f0 = if t.entry1(vpn) == 0 {
        fb
    } else {
        fa
    };
    assert(t1.entry1(vpn) != 0);
    let (t2, s2) = if t1.entry2(vpn) == 0 {
        let s2 = lemma_attached(t1, s1, t1.dir1(vpn), v2(vpn), f0);
        lemma_link(f0);
        (t1.attached(t1.dir1(vpn), v2(vpn), f0), s2)
    } else {
        (t1, s1)
    };
    lemma_path(t2, s2, vpn);
    assert(t2.entry1(vpn) != 0);
    assert(t2.entry2(vpn) != 0);
    let d0 = t2.dir0(vpn);
    let d1 = t2.dir1(vpn);
    lemma_with_leaf(t2, s2, d0, v3(vpn), leaf);
    let r = t2.with_entry(d0, v3(vpn), leaf);
    assert(r == t.mapped_with(vpn, leaf, fa, fb));
    assert(r.entry1(vpn) == t2.entry1(vpn));
    assert(r.entry2(vpn) == t2.entry2(vpn));
    assert(r.entry3(vpn) == leaf);
    assert(r.dense()) by {
        reveal(Table::dense);
        assert forall|d: u64| #[trigger] r.dirs.contains_key(d) && d != r.root implies !all_zero(
            r.dirs[d],
        ) by {
            if d == d0 {
                assert(r.dirs[d][v3(vpn)] != 0);
            } else if d == d1 {
                assert(r.dirs[d][v2(vpn)] != 0);
            } else {
                assert(t.dirs.contains_key(d));
                assert(r.dirs[d] == t.dirs[d]);
            }
        }
    }
}

/// Mapping a page leaves what a walk for any other page finds.
pub proof fn lemma_mapped_other(t: Table, vpn: u64, leaf: u64, fa: u64, fb: u64, other: u64)
    requires
        t.wf(),
        vpn < VPN_LIMIT,
        other < VPN_LIMIT,
        other != vpn,
        leaf != 0,
        t.missing(vpn) >= 1 ==> !t.dirs.contains_key(fa) && fa < PPN_LIMIT,
        t.missing(vpn) == 2 ==> !t.dirs.contains_key(fb) && fb < PPN_LIMIT && fa != fb,
    ensures
        t.mapped_with(vpn, leaf, fa, fb).walk(other) == t.walk(other),
{
    let s = choose|s: Shape| t.tree(s);
    lemma_indices(vpn);
    lemma_indices(other);
    lemma_path(t, s, vpn);
    lemma_path(t, s, other);
    if v1(vpn) == v1(other) && v2(vpn) == v2(other) && v3(vpn) == v3(other) {
        lemma_indices_injective(vpn, other);
    }
    let (t1, s1) = if t.entry1(vpn) == 0 {
        let s1 = lemma_attached(t, s, t.root, v1(vpn), fa);
        lemma_link(fa);
        (t.attached(t.root, v1(vpn), fa), s1)
    } else {
        (t, s)
    };
    lemma_path(t1, s1, vpn);
    lemma_path(t1, s1, other);
    let f0 = if t.entry1(vpn) == 0 {
        fb
    } else {
        fa
    };
    assert(t1.walk(other) == t.walk(other));
    let (t2, s2) = if t1.entry2(vpn) == 0 {
        let s2 = lemma_attached(t1, s1, t1.dir1(vpn), v2(vpn), f0);
        lemma_link(f0);
        (t1.attached(t1.dir1(vpn), v2(vpn), f0), s2)
    } else {
        (t1, s1)
    };
    lemma_path(t2, s2, vpn);
    lemma_path(t2, s2, other);
    assert(t2.walk(other) == t1.walk(other));
    let r = t2.with_entry(t2.dir0(vpn), v3(vpn), leaf);
    assert(r.walk(other) == t2.walk(other));
}

/// Unmapping a page keeps the table sound, and a walk for the page then finds nothing.
pub proof fn lemma_unmapped(t: Table, vpn: u64)
    requires
        t.wf(),
        vpn < VPN_LIMIT,
        t.entry1(vpn) != 0,
        t.entry2(vpn) != 0,
    ensures
        t.unmapped(vpn).wf(),
        t.unmapped(vpn).walk(vpn) is None,
        t.unmapped(vpn).root == t.root,
        forall|d: u64|
            t.unmapped(vpn).dirs.contains_key(d) <==> (t.dirs.contains_key(d)
                && !t.released(vpn).contains(d)),
        forall|i: int|
            0 <= i < t.released(vpn).len() ==> t.dirs.contains_key(#[trigger] t.released(vpn)[i])
                && t.released(vpn)[i] != t.root,
        t.released(vpn).len() == 2 ==> t.released(vpn)[0] != t.released(vpn)[1],
{
    let s = choose|s: Shape| t.tree(s);
    lemma_indices(vpn);
    lemma_path(t, s, vpn);
    let d0 = t.dir0(vpn);
    let d1 = t.dir1(vpn);
    lemma_with_leaf(t, s, d0, v3(vpn), 0);
    let c = t.with_entry(d0, v3(vpn), 0);
    lemma_path(c, s, vpn);
    assert(c.dir0(vpn) == d0 && c.dir1(vpn) == d1);
    assert(c.entry3(vpn) == 0);
    reveal(Table::dense);
    let r = t.unmapped(vpn);
    if all_zero(c.dirs[d0]) {
        lemma_detached(c, s, d1, v2(vpn));
        let c1 = c.detached(d1, v2(vpn));
        assert(c1.entry1(vpn) == c.entry1(vpn));
        assert(c1.dir1(vpn) == d1);
        assert(c1.dirs[d1][v2(vpn)] == 0);
        if all_zero(c1.dirs[d1]) {
            lemma_detached(c1, s, t.root, v1(vpn));
            assert(r.dirs[r.root][v1(vpn)] == 0);
            assert(t.released(vpn) =~= seq![d0, d1]);
            assert(t.released(vpn)[0] == d0 && t.released(vpn)[1] == d1);
            assert forall|d: u64| #[trigger] r.dirs.contains_key(d) && d != r.root implies !all_zero(
                r.dirs[d],
            ) by {
                assert(t.dirs.contains_key(d));
                assert(r.dirs[d] == t.dirs[d]);
            }
        } else {
            assert(t.released(vpn) =~= seq![d0]);
            assert(t.released(vpn)[0] == d0);
            assert forall|d: u64| #[trigger] r.dirs.contains_key(d) && d != r.root implies !all_zero(
                r.dirs[d],
            ) by {
                assert(t.dirs.contains_key(d));
                if d != d1 {
                    assert(r.dirs[d] == t.dirs[d]);
                }
            }
        }
    } else {
        assert(t.released(vpn) =~= Seq::<u64>::empty());
        assert forall|d: u64| #[trigger] r.dirs.contains_key(d) && d != r.root implies !all_zero(
            r.dirs[d],
        ) by {
            assert(t.dirs.contains_key(d));
            if d != d0 {
                assert(r.dirs[d] == t.dirs[d]);
            }
        }
    }
}

/// Unmapping a page leaves what a walk for any other page finds.
pub proof fn lemma_unmapped_other(t: Table, vpn: u64, other: u64)
    requires
        t.wf(),
        vpn < VPN_LIMIT,
        other < VPN_LIMIT,
        other != vpn,
        t.entry1(vpn) != 0,
        t.entry2(vpn) != 0,
    ensures
        t.unmapped(vpn).walk(other) == t.walk(other),
{
    let s = choose|s: Shape| t.tree(s);
    lemma_indices(vpn);
    lemma_indices(other);
    lemma_path(t, s, vpn);
    lemma_path(t, s, other);
    if v1(vpn) == v1(other) && v2(vpn) == v2(other) && v3(vpn) == v3(other) {
        lemma_indices_injective(vpn, other);
    }
    let d0 = t.dir0(vpn);
    let d1 = t.dir1(vpn);
    lemma_link(d0);
    lemma_link(d1);
    lemma_with_leaf(t, s, d0, v3(vpn), 0);
    let c = t.with_entry(d0, v3(vpn), 0);
    lemma_path(c, s, vpn);
    lemma_path(c, s, other);
    assert(c.walk(other) == t.walk(other));
    if all_zero(c.dirs[d0]) {
        lemma_detached(c, s, d1, v2(vpn));
        let c1 = c.detached(d1, v2(vpn));
        assert(c1.entry1(vpn) == c.entry1(vpn));
        assert(c1.dir1(vpn) == d1);
        lemma_path(c1, s, other);
        if c.entry1(other) != 0 && c.entry2(other) != 0 && c.dir0(other) == d0 {
            assert(c.dirs[d0][v3(other)] == 0);
        }
        assert(c1.walk(other) == c.walk(other));
        if all_zero(c1.dirs[d1]) {
            lemma_detached(c1, s, t.root, v1(vpn));
            let c2 = c1.detached(t.root, v1(vpn));
            if c1.entry1(other) != 0 && c1.dir1(other) == d1 {
                assert(c1.dirs[d1][v2(other)] == 0);
            }
            assert(c2.walk(other) == c1.walk(other));
        }
    }
}

/// Collapse: mapping one page into a table of one empty root directory and
/// unmapping it again gives the two directories in between back and leaves
/// the table as it was.
pub proof fn lemma_collapse(root: u64, vpn: u64, leaf: u64, fa: u64, fb: u64)
    requires
        root < PPN_LIMIT,
        fa < PPN_LIMIT,
        fb < PPN_LIMIT,
        fa != root,
        fb != root,
        fa != fb,
        vpn < VPN_LIMIT,
        leaf != 0,
    ensures
        Table::empty(root).mapped_with(vpn, leaf, fa, fb).released(vpn) == seq![fb, fa],
        Table::empty(root).mapped_with(vpn, leaf, fa, fb).unmapped(vpn) == Table::empty(root),
        all_zero(Table::empty(root).mapped_with(vpn, leaf, fa, fb).unmapped(vpn).dirs[root]),
{
    let t = Table::empty(root);
    lemma_empty(root);
    lemma_indices(vpn);
    lemma_link(fa);
    lemma_link(fb);
    let m = t.mapped_with(vpn, leaf, fa, fb);
    let t1 = t.attached(root, v1(vpn), fa);
    assert(t1.entry1(vpn) == link(fa));
    assert(t1.dir1(vpn) == fa);
    assert(t1.entry2(vpn) == 0);
    let t2 = t1.attached(fa, v2(vpn), fb);
    assert(t2.entry1(vpn) == link(fa));
    assert(t2.entry2(vpn) == link(fb));
    assert(t2.dir0(vpn) == fb);
    assert(m == t2.with_entry(fb, v3(vpn), leaf));
    assert(m.entry1(vpn) == link(fa));
    assert(m.entry2(vpn) == link(fb));
    let c = m.with_entry(fb, v3(vpn), 0);
    assert(c.dirs[fb] =~= zeros());
    assert(c.dir0(vpn) == fb && c.dir1(vpn) == fa);
    let c1 = c.detached(fa, v2(vpn));
    assert(c1.dirs[fa] =~= zeros());
    assert(c1.dir1(vpn) == fa);
    let c2 = c1.detached(root, v1(vpn));
    assert(c2.dirs[root] =~= zeros());
    assert(c2.dirs =~= t.dirs);
    assert(m.released(vpn) =~= seq![fb, fa]);
}

/// The table and the heap after the pages of `pages`, each with its leaf
/// entry, were mapped one after the other.
pub open spec fn map_all(t: Table, heap: Heap, pages: Seq<(u64, u64)>) -> (Table, Heap)
    decreases pages.len(),
{
    if pages.len() == 0 {
        (t, heap)
    } else {
        map_all(
            t.mapped(heap, pages[0].0, pages[0].1),
            t.heap_after_map(heap, pages[0].0),
            pages.drop_first(),
        )
    }
}

/// The pages of `pages` can be mapped one after the other.
pub open spec fn can_map_all(t: Table, heap: Heap, pages: Seq<(u64, u64)>) -> bool
    decreases pages.len(),
{
    pages.len() == 0 || (t.can_map(heap, pages[0].0) && can_map_all(
        t.mapped(heap, pages[0].0, pages[0].1),
        t.heap_after_map(heap, pages[0].0),
        pages.drop_first(),
    ))
}

/// Mapping two lists of pages one after the other maps their concatenation.
pub proof fn lemma_map_all_concat(t: Table, heap: Heap, a: Seq<(u64, u64)>, b: Seq<(u64, u64)>)
    ensures
        map_all(t, heap, a + b) == map_all(map_all(t, heap, a).0, map_all(t, heap, a).1, b),
        can_map_all(t, heap, a + b) == (can_map_all(t, heap, a) && can_map_all(
            map_all(t, heap, a).0,
            map_all(t, heap, a).1,
            b,
        )),
    decreases a.len(),
{
    if a.len() == 0 {
        assert(a + b =~= b);
    } else {
        assert((a + b).drop_first() =~= a.drop_first() + b);
        assert((a + b)[0] == a[0]);
        lemma_map_all_concat(
            t.mapped(heap, a[0].0, a[0].1),
            t.heap_after_map(heap, a[0].0),
            a.drop_first(),
            b,
        );
    }
}

} // verus!
