//! The virtual file system: a table of mounted file systems, and the
//! routing of a path to the one that is mounted at its longest prefix.

use vstd::prelude::*;
use vstd::slice::slice_subrange;

verus! {

/// The components of a path as texts.
pub open spec fn path_view(path: Seq<String>) -> Seq<Seq<char>> {
    Seq::new(path.len(), |i: int| path[i]@)
}

/// Every component of `prefix` is the component of `path` at its place.
pub open spec fn is_prefix(prefix: Seq<Seq<char>>, path: Seq<Seq<char>>) -> bool {
    &&& prefix.len() <= path.len()
    &&& forall|i: int| 0 <= i < prefix.len() ==> prefix[i] == path[i]
}

/// Among the first `n` mount points, the one that is the longest prefix of
/// `path`, the first of them where several are as long; none where none is
/// a prefix.
pub open spec fn longest_prefix(points: Seq<Seq<Seq<char>>>, path: Seq<Seq<char>>, n: int) -> Option<
    int,
>
    decreases n,
{
    if n <= 0 {
        None
    } else {
        let before = longest_prefix(points, path, n - 1);
        if is_prefix(points[n - 1], path) && (before is None || points[n - 1].len()
            > points[before->0].len()) {
            Some(n - 1)
        } else {
            before
        }
    }
}

/// The first mount point from the `i`-th on that `prefix` is a prefix of;
/// the number of mount points where there is none.
pub open spec fn first_under(points: Seq<Seq<Seq<char>>>, prefix: Seq<Seq<char>>, i: int) -> int
    decreases points.len() - i,
{
    if i < 0 || i >= points.len() {
        points.len() as int
    } else if is_prefix(prefix, points[i]) {
        i
    } else {
        first_under(points, prefix, i + 1)
    }
}

/// Longest prefix: the mount point that a path is routed to is a prefix
/// of it, no mount point that is a prefix of it is longer, and none that is
/// as long comes before it; a path is routed nowhere only where no mount
/// point is a prefix of it.
pub proof fn lemma_longest_prefix(points: Seq<Seq<Seq<char>>>, path: Seq<Seq<char>>, n: int)
    requires
        0 <= n <= points.len(),
    ensures
        match longest_prefix(points, path, n) {
            Some(b) => {
                &&& 0 <= b < n
                &&& is_prefix(points[b], path)
                &&& forall|j: int|
                    0 <= j < n && is_prefix(#[trigger] points[j], path) ==> points[j].len()
                        <= points[b].len() && (points[j].len() == points[b].len() ==> b <= j)
            },
            None => forall|j: int| 0 <= j < n ==> !is_prefix(#[trigger] points[j], path),
        },
    decreases n,
{
    if n > 0 {
        lemma_longest_prefix(points, path, n - 1);
    }
}

/// What a file is.
#[derive(Clone, Copy, Debug, PartialEq, Eq, Structural)]
pub enum FileType {
    RegularFile,
    Directory,
    CharDev,
    BlockDev,
    SymbolLink,
}

/// An open file.
#[derive(Clone, Copy, Debug, PartialEq, Eq, Structural)]
pub struct File {
    pub fd: u64,
    pub kind: FileType,
}

/// What a file system offers. A failure tells no more than that it is one.
pub trait FileSystem {
    /// The open files of this file system: the path of each, by its number.
    open spec fn files(&self) -> Map<u64, Seq<Seq<char>>> {
        arbitrary()
    }

    /// What opening `path` gives in this state.
    open spec fn open_result(&self, path: Seq<Seq<char>>) -> Result<File, ()> {
        arbitrary()
    }

    /// The path of the file that `path` is opened as.
    open spec fn target(&self, path: Seq<Seq<char>>) -> Seq<Seq<char>> {
        arbitrary()
    }

    /// The open files after `path` was opened with the result `r`: with
    /// the new file among them where it was opened, as before where not.
    open spec fn files_after_open(&self, path: Seq<Seq<char>>, r: Result<File, ()>) -> Map<
        u64,
        Seq<Seq<char>>,
    > {
        match r {
            Ok(f) => self.files().insert(f.fd, self.target(path)),
            Err(_) => self.files(),
        }
    }

    fn create(&mut self, path: &[String]) -> (r: Result<File, ()>);

    /// Opens the file at `path`: on success the file is among the open
    /// files under its number, on failure the open files are as before.
    fn open(&mut self, path: &[String]) -> (r: Result<File, ()>)
        ensures
            r == old(self).open_result(path_view(path@)),
            final(self).files() == old(self).files_after_open(path_view(path@), r),
    ;

    /// Writes `buf` to the file and tells how many bytes were written.
    fn write(&mut self, fd: &File, buf: &[u8]) -> (r: Result<u64, ()>);

    /// Reads from the file at `offset` into `buf` and tells how many bytes were read.
    fn read(&mut self, fd: &File, buf: &mut [u8], offset: u64) -> (r: Result<u64, ()>)
        ensures
            final(buf)@.len() == old(buf)@.len(),
    ;

    fn remove(&mut self, path: &[String]) -> (r: Result<(), ()>);

    fn rename(&mut self, src: &[String], dst: &[String]) -> (r: Result<(), ()>);

    fn close(&mut self, fd: &File) -> (r: Result<(), ()>);

    fn list_dir(&mut self) -> (r: Result<Vec<String>, ()>);
}

/// Whether every component of `prefix` is the component of `path` at its place.
pub fn starts_with(path: &[String], prefix: &[String]) -> (r: bool)
    ensures
        r == is_prefix(path_view(prefix@), path_view(path@)),
{
    if prefix.len() > path.len() {
        return false;
    }
    let mut i: usize = 0;
    while i < prefix.len()
        invariant
            i <= prefix@.len() <= path@.len(),
            forall|j: int| 0 <= j < i ==> path_view(prefix@)[j] == path_view(path@)[j],
        decreases prefix@.len() - i,
    {
        if prefix[i] != path[i] {
            assert(path_view(prefix@)[i as int] != path_view(path@)[i as int]);
            return false;
        }
        i += 1;
    }
    true
}

/// The table of mounted file systems.
pub struct VirtualFileSystem {
    /// The path that each file system is mounted at.
    pub mount_points: Vec<Vec<String>>,
    /// The mounted file systems, each at the place of its mount point.
    pub mounted_fs: Vec<Box<dyn FileSystem>>,
}

impl Default for VirtualFileSystem {
    fn default() -> (vfs: Self)
        ensures
            vfs.wf(),
            vfs.points().len() == 0,
    {
        VirtualFileSystem { mount_points: Vec::new(), mounted_fs: Vec::new() }
    }
}

impl VirtualFileSystem {
    /// The mount points as texts.
    pub open spec fn points(&self) -> Seq<Seq<Seq<char>>> {
        Seq::new(self.mount_points@.len(), |i: int| path_view(self.mount_points@[i]@))
    }

    /// Every mount point has its file system.
    pub open spec fn wf(&self) -> bool {
        self.mount_points@.len() == self.mounted_fs@.len()
    }

    /// Where `path` is routed: the place of the file system in the table,
    /// and the length of its mount point.
    pub open spec fn route_of(&self, path: Seq<Seq<char>>) -> Option<(usize, usize)> {
        match longest_prefix(self.points(), path, self.points().len() as int) {
            Some(i) => Some((i as usize, self.points()[i].len() as usize)),
            None => None,
        }
    }

    /// Routes `path` to the file system that is mounted at its longest prefix.
    pub fn route(&self, path: &[String]) -> (r: Option<(usize, usize)>)
        ensures
            r == self.route_of(path_view(path@)),
    {
        let mut found: Option<(usize, usize)> = None;
        let mut p: usize = 0;
        while p < self.mount_points.len()
            invariant
                p <= self.mount_points@.len(),
                found == (match longest_prefix(self.points(), path_view(path@), p as int) {
                    Some(i) => Some((i as usize, self.points()[i].len() as usize)),
                    None => None,
                }),
                found matches Some(f) ==> f.0 < p && f.1 == self.points()[f.0 as int].len(),
            decreases self.mount_points@.len() - p,
        {
            let point = &self.mount_points[p];
            proof {
                assert(path_view(point@) == self.points()[p as int]);
                assert(self.points()[p as int].len() == point@.len());
                lemma_longest_prefix(self.points(), path_view(path@), p as int);
            }
            let matching = starts_with(path, point.as_slice());
            let longer = match found {
                Some((_, depth)) => point.len() > depth,
                None => true,
            };
            if matching && longer {
                found = Some((p, point.len()));
            }
            p += 1;
        }
        found
    }

    /// Opens `path` in the file system that is mounted at its longest
    /// prefix, by the rest of the path, and in no other: every other file
    /// system is as it was. Fails, and leaves every file system as it
    /// was, where no mount point is a prefix of the path.
    pub fn open(&mut self, path: &[String]) -> (r: Result<File, ()>)
        requires
            old(self).wf(),
        ensures
            final(self).wf(),
            final(self).mount_points == old(self).mount_points,
            final(self).points() == old(self).points(),
            final(self).mounted_fs@.len() == old(self).mounted_fs@.len(),
            match old(self).route_of(path_view(path@)) {
                Some((i, depth)) => {
                    let rest = path_view(path@).skip(depth as int);
                    let before = old(self).mounted_fs@;
                    let after = final(self).mounted_fs@;
                    &&& r == before[i as int].open_result(rest)
                    &&& after[i as int].files() == before[i as int].files_after_open(rest, r)
                    &&& forall|j: int| 0 <= j < before.len() && j != i ==> after[j] == before[j]
                },
                None => r is Err && final(self).mounted_fs@ == old(self).mounted_fs@,
            },
    {
        proof {
            lemma_longest_prefix(self.points(), path_view(path@), self.points().len() as int);
        }
        match self.route(path) {
            Some((i, depth)) => {
                let rest = slice_subrange(path, depth, path.len());
                proof {
                    assert(path_view(rest@) =~= path_view(path@).skip(depth as int));
                }
                self.mounted_fs[i].open(rest)
            },
            None => Err(()),
        }
    }

    /// Mounts `fs` at `mount_point`, behind what is mounted already.
    pub fn mount(&mut self, fs: Box<dyn FileSystem>, mount_point: &[String])
        requires
            old(self).wf(),
        ensures
            final(self).wf(),
            final(self).points() == old(self).points().push(path_view(mount_point@)),
            final(self).mounted_fs@ == old(self).mounted_fs@.push(fs),
    {
        let mut point: Vec<String> = Vec::new();
        let mut i: usize = 0;
        while i < mount_point.len()
            invariant
                *self == *old(self),
                i <= mount_point@.len(),
                point@.len() == i,
                forall|j: int| 0 <= j < i ==> point@[j]@ == mount_point@[j]@,
            decreases mount_point@.len() - i,
        {
            point.push(mount_point[i].clone());
            i += 1;
        }
        self.mounted_fs.push(fs);
        self.mount_points.push(point);
        proof {
            vstd::seq::axiom_seq_push_len(old(self).mounted_fs@, fs);
            assert(path_view(point@) =~= path_view(mount_point@));
            assert(self.points() =~= old(self).points().push(path_view(mount_point@)));
        }
    }

    /// Takes the first file system out of the table whose mount point
    /// `mount_point` is a prefix of.
    pub fn umount(&mut self, mount_point: &[String])
        requires
            old(self).wf(),
        ensures
            final(self).wf(),
            ({
                let i = first_under(old(self).points(), path_view(mount_point@), 0);
                if i < old(self).points().len() {
                    &&& final(self).points() == old(self).points().remove(i)
                    &&& final(self).mounted_fs@ == old(self).mounted_fs@.remove(i)
                } else {
                    &&& final(self).points() == old(self).points()
                    &&& final(self).mounted_fs@ == old(self).mounted_fs@
                }
            }),
    {
        let ghost points = self.points();
        let ghost prefix = path_view(mount_point@);
        let mut i: usize = 0;
        while i < self.mount_points.len()
            invariant
                *self == *old(self),
                self.wf(),
                points == self.points(),
                prefix == path_view(mount_point@),
                i <= self.mount_points@.len(),
                first_under(points, prefix, i as int) == first_under(points, prefix, 0),
            decreases self.mount_points@.len() - i,
        {
            assert(path_view(self.mount_points@[i as int]@) == points[i as int]);
            if starts_with(self.mount_points[i].as_slice(), mount_point) {
                self.mount_points.remove(i);
                self.mounted_fs.remove(i);
                proof {
                    old(self).mounted_fs@.remove_ensures(i as int);
                    assert(self.points() =~= points.remove(i as int));
                }
                return;
            }
            i += 1;
        }
    }
}

} // verus!
