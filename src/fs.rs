use crate::addr::Addr;
use vstd::prelude::*;

verus! {

/// Why a filesystem operation failed.
#[derive(Clone, Copy, Debug, PartialEq, Eq, Structural)]
pub enum ErrorKind {
    NotFound,
    PermissionDenied,
}

/// The error of a filesystem operation.
#[derive(Clone, Copy, Debug, PartialEq, Eq, Structural)]
pub struct Error {
    pub kind: ErrorKind,
}

impl Error {
    pub fn kind(&self) -> (r: ErrorKind)
        ensures
            r == self.kind,
    {
        self.kind
    }
}

/// The abstract state of every simulated disk: for each disk, in the order the
/// disks were first reached, its node address and its map from path to inode;
/// for each inode, its current bytes and the bytes that last reached the disk.
pub struct FsModel {
    pub disks: Seq<(Addr, Map<Seq<char>, nat>)>,
    pub data: Seq<Seq<u8>>,
    pub durable: Seq<Seq<u8>>,
}

/// The content of a file after `bytes` are written at `off`: a gap between
/// the old end and `off` reads as zeros.
pub open spec fn written(old: Seq<u8>, bytes: Seq<u8>, off: int) -> Seq<u8> {
    let end = if old.len() < off + bytes.len() { off + bytes.len() } else { old.len() as int };
    Seq::new(
        end as nat,
        |i: int|
            if off <= i < off + bytes.len() {
                bytes[i - off]
            } else if i < old.len() {
                old[i]
            } else {
                0u8
            },
    )
}

/// The content of a file after it is truncated or zero-extended to `n` bytes.
pub open spec fn resized(old: Seq<u8>, n: nat) -> Seq<u8> {
    Seq::new(n, |i: int| if i < old.len() { old[i] } else { 0u8 })
}

/// How many bytes a read of `want` bytes at `off` copies from `content`.
pub open spec fn read_len(content: Seq<u8>, want: nat, off: int) -> nat {
    if off >= content.len() {
        0
    } else if content.len() - off < want {
        (content.len() - off) as nat
    } else {
        want
    }
}

/// What `buf` holds after a read at `off` from `content`: its first
/// `read_len` bytes come from the file, the rest are left as they were.
pub open spec fn read_into(content: Seq<u8>, buf: Seq<u8>, off: int) -> Seq<u8> {
    let n = read_len(content, buf.len(), off);
    Seq::new(buf.len(), |j: int| if j < n { content[off + j] } else { buf[j] })
}

impl FsModel {
    /// Node addresses are unique among disks, every path names an existing
    /// inode, and no inode is reachable from two places: disks never share files.
    pub open spec fn wf(self) -> bool {
        &&& self.data.len() == self.durable.len()
        &&& forall|d1: int, d2: int|
            0 <= d1 < d2 < self.disks.len() ==> self.disks[d1].0 != self.disks[d2].0
        &&& forall|d: int, p: Seq<char>|
            0 <= d < self.disks.len() && #[trigger] self.disks[d].1.contains_key(p)
                ==> self.disks[d].1[p] < self.data.len()
        &&& forall|d1: int, p1: Seq<char>, d2: int, p2: Seq<char>|
            0 <= d1 < self.disks.len() && 0 <= d2 < self.disks.len()
                && #[trigger] self.disks[d1].1.contains_key(p1)
                && #[trigger] self.disks[d2].1.contains_key(p2) && (d1 != d2 || p1 != p2)
                ==> self.disks[d1].1[p1] != self.disks[d2].1[p2]
    }

    /// Every file, and every durable copy, is short enough to index by `usize`.
    pub open spec fn lengths_fit(self) -> bool {
        &&& forall|i: int| 0 <= i < self.data.len() ==> #[trigger] self.data[i].len() <= usize::MAX
        &&& forall|i: int|
            0 <= i < self.durable.len() ==> #[trigger] self.durable[i].len() <= usize::MAX
    }

    pub open spec fn empty() -> FsModel {
        FsModel { disks: Seq::empty(), data: Seq::empty(), durable: Seq::empty() }
    }

    pub open spec fn has_disk(self, a: Addr) -> bool {
        exists|d: int| 0 <= d < self.disks.len() && self.disks[d].0 == a
    }

    /// The disk of node `a`, if it has been reached.
    pub open spec fn disk_of(self, a: Addr) -> nat {
        (choose|d: int| 0 <= d < self.disks.len() && self.disks[d].0 == a) as nat
    }

    /// Reaching the disk of node `a`: the existing one, or a new empty one.
    pub open spec fn handle(self, a: Addr) -> (FsModel, nat) {
        if self.has_disk(a) {
            (self, self.disk_of(a))
        } else {
            (FsModel { disks: self.disks.push((a, Map::empty())), ..self }, self.disks.len())
        }
    }

    /// The inode at path `p` of disk `d`, if there is one.
    pub open spec fn open(self, d: nat, p: Seq<char>) -> Option<nat> {
        if self.disks[d as int].1.contains_key(p) {
            Some(self.disks[d as int].1[p])
        } else {
            None
        }
    }

    /// The inode at path `p` of disk `d`, made empty and new if there is none.
    pub open spec fn create(self, d: nat, p: Seq<char>) -> (FsModel, nat) {
        if self.disks[d as int].1.contains_key(p) {
            (self, self.disks[d as int].1[p])
        } else {
            let n = self.data.len();
            (
                FsModel {
                    disks: self.disks.update(
                        d as int,
                        (self.disks[d as int].0, self.disks[d as int].1.insert(p, n)),
                    ),
                    data: self.data.push(Seq::empty()),
                    durable: self.durable.push(Seq::empty()),
                },
                n,
            )
        }
    }

    pub open spec fn write(self, i: nat, bytes: Seq<u8>, off: int) -> FsModel {
        FsModel { data: self.data.update(i as int, written(self.data[i as int], bytes, off)), ..self }
    }

    pub open spec fn set_len(self, i: nat, n: nat) -> FsModel {
        FsModel { data: self.data.update(i as int, resized(self.data[i as int], n)), ..self }
    }

    /// Marking the current bytes of inode `i` as having reached the disk.
    pub open spec fn sync(self, i: nat) -> FsModel {
        FsModel { durable: self.durable.update(i as int, self.data[i as int]), ..self }
    }

    /// Whether inode `i` is a file of the disk of node `a`.
    pub open spec fn owns(self, a: Addr, i: int) -> bool {
        exists|d: int, p: Seq<char>|
            0 <= d < self.disks.len() && self.disks[d].0 == a && #[trigger] self.disks[d].1.contains_key(p)
                && self.disks[d].1[p] == i
    }

    /// A power failure of node `a`: each of its files falls back to what last
    /// reached the disk; the files of other nodes are untouched.
    pub open spec fn power_fail(self, a: Addr) -> FsModel {
        FsModel {
            data: Seq::new(
                self.data.len(),
                |i: int| if self.owns(a, i) { self.durable[i] } else { self.data[i] },
            ),
            ..self
        }
    }
}

/// The files of one disk, as a map from path to inode.
pub open spec fn dir_view(files: Seq<(String, usize)>) -> Map<Seq<char>, nat> {
    Map::new(
        |p: Seq<char>| exists|k: int| 0 <= k < files.len() && files[k].0@ == p,
        |p: Seq<char>| files[choose|k: int| 0 <= k < files.len() && files[k].0@ == p].1 as nat,
    )
}

/// Whether one of the first `k` files names inode `j`.
pub open spec fn touched(files: Seq<(String, usize)>, k: int, j: int) -> bool {
    exists|kk: int| 0 <= kk < k && files[kk].1 == j
}

pub open spec fn unique_paths(files: Seq<(String, usize)>) -> bool {
    forall|k1: int, k2: int|
        0 <= k1 < files.len() && 0 <= k2 < files.len() && k1 != k2 ==> files[k1].0@ != files[k2].0@
}

proof fn lemma_dir_at(files: Seq<(String, usize)>, k: int)
    requires
        unique_paths(files),
        0 <= k < files.len(),
    ensures
        dir_view(files).contains_key(files[k].0@),
        dir_view(files)[files[k].0@] == files[k].1 as nat,
{
    let p = files[k].0@;
    assert(dir_view(files).contains_key(p));
    let j = choose|j: int| 0 <= j < files.len() && files[j].0@ == p;
    assert(j == k);
}

proof fn lemma_dir_push(files: Seq<(String, usize)>, s: String, i: usize)
    requires
        unique_paths(files),
        !dir_view(files).contains_key(s@),
    ensures
        unique_paths(files.push((s, i))),
        dir_view(files.push((s, i))) == dir_view(files).insert(s@, i as nat),
{
    let nf = files.push((s, i));
    assert forall|k1: int, k2: int|
        0 <= k1 < nf.len() && 0 <= k2 < nf.len() && k1 != k2 implies nf[k1].0@ != nf[k2].0@ by {
        if k1 < files.len() && k2 < files.len() {
        } else if k1 < files.len() {
            assert(files[k1].0@ != s@);
        } else {
            assert(files[k2].0@ != s@);
        }
    }
    let m1 = dir_view(nf);
    let m2 = dir_view(files).insert(s@, i as nat);
    assert forall|p: Seq<char>| m1.contains_key(p) <==> m2.contains_key(p) by {
        if m2.contains_key(p) && p != s@ {
            let k = choose|k: int| 0 <= k < files.len() && files[k].0@ == p;
            assert(nf[k] == files[k]);
        }
        if m2.contains_key(p) && p == s@ {
            assert(nf[files.len() as int] == (s, i));
        }
    }
    assert forall|p: Seq<char>| #[trigger] m1.contains_key(p) implies m1[p] == m2[p] by {
        let k = choose|k: int| 0 <= k < nf.len() && nf[k].0@ == p;
        lemma_dir_at(nf, k);
        if k < files.len() {
            lemma_dir_at(files, k);
        }
    }
    assert(m1 =~= m2);
}

struct Disk {
    addr: Addr,
    files: Vec<(String, usize)>,
}

/// One file's bytes, as they are now and as they last reached the disk.
pub struct INode {
    path: String,
    data: Vec<u8>,
    durable: Vec<u8>,
}

impl INode {
    pub fn new(path: &str) -> (r: INode)
        ensures
            r.path()@ == path@,
            r.data()@ == Seq::<u8>::empty(),
            r.durable()@ == Seq::<u8>::empty(),
    {
        INode { path: path.to_owned(), data: Vec::new(), durable: Vec::new() }
    }

    pub closed spec fn path(&self) -> String {
        self.path
    }

    pub closed spec fn data(&self) -> Vec<u8> {
        self.data
    }

    pub closed spec fn durable(&self) -> Vec<u8> {
        self.durable
    }
}

/// Every simulated disk, reached by node address and created on first use.
/// All file state lives here; handles to disks and files are indices into it.
pub struct FileSystemRuntime {
    disks: Vec<Disk>,
    inodes: Vec<INode>,
}

/// A handle to the disk of one node.
#[derive(Clone, Copy, Debug, PartialEq, Eq, Structural)]
pub struct FileSystem {
    disk: usize,
}

/// An open file: an inode and whether this handle may write to it.
#[derive(Clone, Copy, Debug, PartialEq, Eq, Structural)]
pub struct File {
    inode: usize,
    can_write: bool,
}

impl FileSystem {
    /// Which disk this handle refers to.
    pub closed spec fn id(self) -> nat {
        self.disk as nat
    }
}

impl File {
    /// The inode this handle refers to.
    pub closed spec fn inode(self) -> nat {
        self.inode as nat
    }

    pub closed spec fn can_write(self) -> bool {
        self.can_write
    }

    pub fn is_writable(&self) -> (r: bool)
        ensures
            r == self.can_write(),
    {
        self.can_write
    }
}

impl View for FileSystemRuntime {
    type V = FsModel;

    closed spec fn view(&self) -> FsModel {
        FsModel {
            disks: Seq::new(
                self.disks@.len(),
                |d: int| (self.disks@[d].addr, dir_view(self.disks@[d].files@)),
            ),
            data: Seq::new(self.inodes@.len(), |i: int| self.inodes@[i].data@),
            durable: Seq::new(self.inodes@.len(), |i: int| self.inodes@[i].durable@),
        }
    }
}

/// File lengths are those of `Vec`s, so they fit a `usize`.
proof fn lemma_lengths_fit(rt: &FileSystemRuntime)
    ensures
        rt@.lengths_fit(),
{
    assert forall|i: int| 0 <= i < rt@.data.len() implies #[trigger] rt@.data[i].len() <= usize::MAX by {
        assert(rt.inodes@[i].data.len() == rt@.data[i].len());
    }
    assert forall|i: int| 0 <= i < rt@.durable.len() implies #[trigger] rt@.durable[i].len() <= usize::MAX by {
        assert(rt.inodes@[i].durable.len() == rt@.durable[i].len());
    }
}

impl FileSystemRuntime {
    /// The representation matches a well-formed model.
    pub closed spec fn wf(&self) -> bool {
        &&& forall|d: int|
            0 <= d < self.disks@.len() ==> unique_paths(#[trigger] self.disks@[d].files@)
        &&& self@.wf()
    }

    pub fn new() -> (r: FileSystemRuntime)
        ensures
            r.wf(),
            r@.wf(),
            r@.lengths_fit(),
            r@ == FsModel::empty(),
    {
        let r = FileSystemRuntime { disks: Vec::new(), inodes: Vec::new() };
        assert(r@.disks =~= Seq::empty());
        assert(r@.data =~= Seq::empty());
        assert(r@.durable =~= Seq::empty());
        proof {
            lemma_lengths_fit(&r);
        }
        r
    }

    /// The disk of node `addr`: the existing one, or a new empty one.
    pub fn handle(&mut self, addr: Addr) -> (r: FileSystem)
        requires
            old(self).wf(),
        ensures
            final(self).wf(),
            final(self)@.wf(),
            final(self)@.lengths_fit(),
            (final(self)@, r.id()) == old(self)@.handle(addr),
            r.id() < final(self)@.disks.len(),
    {
        let mut d: usize = 0;
        while d < self.disks.len()
            invariant
                self.wf(),
                d <= self.disks@.len(),
                forall|j: int| 0 <= j < d ==> self.disks@[j].addr != addr,
            decreases self.disks@.len() - d,
        {
            if self.disks[d].addr == addr {
                proof {
                    assert(self@.disks[d as int].0 == addr);
                    assert(self@.has_disk(addr));
                    let c = self@.disk_of(addr);
                    assert(c == d) by {
                        if (c as int) < (d as int) {
                        } else if (c as int) > (d as int) {
                            assert(self@.disks[d as int].0 != self@.disks[c as int].0);
                        }
                    }
                }
                proof {
                    lemma_lengths_fit(self);
                }
                return FileSystem { disk: d };
            }
            d += 1;
        }
        let ghost m = self@;
        assert(!m.has_disk(addr)) by {
            if m.has_disk(addr) {
                let c = choose|c: int| 0 <= c < m.disks.len() && m.disks[c].0 == addr;
                assert(self.disks@[c].addr == addr);
            }
        }
        self.disks.push(Disk { addr, files: Vec::new() });
        proof {
            assert(dir_view(Seq::<(String, usize)>::empty()) =~= Map::empty());
            assert(self@.disks =~= m.disks.push((addr, Map::empty())));
            assert(self@.data =~= m.data);
            assert(self@.durable =~= m.durable);
            assert(unique_paths(self.disks@[d as int].files@));
            assert forall|dd: int|
                0 <= dd < self.disks@.len() implies unique_paths(#[trigger] self.disks@[dd].files@) by {
                if dd < d {
                    assert(self.disks@[dd] == old(self).disks@[dd]);
                }
            }
        }
        proof {
            lemma_lengths_fit(self);
        }
        FileSystem { disk: d }
    }

    /// Where the disk of node `addr` stands, if it has been reached.
    fn find_disk(&self, addr: Addr) -> (r: Option<usize>)
        requires
            self.wf(),
        ensures
            match r {
                Some(d) => d < self.disks@.len() && self.disks@[d as int].addr == addr,
                None => !self@.has_disk(addr),
            },
    {
        let mut d: usize = 0;
        while d < self.disks.len()
            invariant
                d <= self.disks@.len(),
                forall|j: int| 0 <= j < d ==> self.disks@[j].addr != addr,
            decreases self.disks@.len() - d,
        {
            if self.disks[d].addr == addr {
                return Some(d);
            }
            d += 1;
        }
        assert(!self@.has_disk(addr)) by {
            if self@.has_disk(addr) {
                let c = choose|c: int| 0 <= c < self@.disks.len() && self@.disks[c].0 == addr;
                assert(self.disks@[c].addr == addr);
            }
        }
        None
    }

    /// Simulates a power failure of node `addr`: every file of its disk loses
    /// what was written since it was last made durable. Other nodes' files,
    /// and which files exist, are untouched.
    pub fn power_fail(&mut self, addr: Addr)
        requires
            old(self).wf(),
        ensures
            final(self).wf(),
            final(self)@.wf(),
            final(self)@.lengths_fit(),
            final(self)@ == old(self)@.power_fail(addr),
    {
        let ghost m = self@;
        let d = match self.find_disk(addr) {
            Some(d) => d,
            None => {
                assert(self@.data =~= m.power_fail(addr).data) by {
                    assert forall|i: int| 0 <= i < m.data.len() implies !m.owns(addr, i) by {
                        if m.owns(addr, i) {
                            let (dd, p) = choose|dd: int, p: Seq<char>|
                                0 <= dd < m.disks.len() && m.disks[dd].0 == addr
                                    && #[trigger] m.disks[dd].1.contains_key(p) && m.disks[dd].1[p] == i;
                            assert(m.has_disk(addr));
                        }
                    }
                }
                proof {
                    lemma_lengths_fit(self);
                }
                return ;
            },
        };
        let ghost files = self.disks@[d as int].files@;
        let nfiles = self.disks[d].files.len();
        assert forall|kk: int| 0 <= kk < files.len() implies (#[trigger] files[kk]).1 < m.data.len() by {
            lemma_dir_at(files, kk);
            assert(m.disks[d as int].1.contains_key(files[kk].0@));
        }
        let mut k: usize = 0;
        while k < nfiles
            invariant
                old(self).wf(),
                unique_paths(files),
                forall|kk: int| 0 <= kk < files.len() ==> (#[trigger] files[kk]).1 < m.data.len(),
                d < self.disks@.len(),
                self.disks@[d as int].addr == addr,
                files == self.disks@[d as int].files@,
                nfiles == files.len(),
                k <= nfiles,
                self.disks == old(self).disks,
                self.inodes@.len() == old(self).inodes@.len(),
                m == old(self)@,
                forall|j: int|
                    0 <= j < self.inodes@.len() ==> (#[trigger] self.inodes@[j]).durable@ == m.durable[j],
                forall|j: int|
                    0 <= j < self.inodes@.len() ==> (#[trigger] self.inodes@[j]).data@ == if touched(
                        files,
                        k as int,
                        j,
                    ) {
                        m.durable[j]
                    } else {
                        m.data[j]
                    },
            decreases nfiles - k,
        {
            let j = self.disks[d].files[k].1;
            proof {
                lemma_dir_at(files, k as int);
            }
            let copy = self.inodes[j].durable.clone();
            self.inodes[j].data = copy;
            proof {
                assert(files[k as int].1 == j);
                assert forall|jj: int| 0 <= jj < self.inodes@.len() implies (#[trigger] self.inodes@[jj]).data@ == if touched(files, k + 1, jj) {
                    m.durable[jj]
                } else {
                    m.data[jj]
                } by {
                    if jj == j {
                        assert(touched(files, k + 1, jj));
                    } else {
                        if touched(files, k + 1, jj) {
                            let kk = choose|kk: int| 0 <= kk < k + 1 && files[kk].1 == jj;
                            assert(touched(files, k as int, jj));
                        }
                    }
                }
            }
            k += 1;
        }
        proof {
            assert forall|j: int| 0 <= j < m.data.len() implies touched(files, nfiles as int, j) == m.owns(addr, j) by {
                if touched(files, nfiles as int, j) {
                    let kk = choose|kk: int| 0 <= kk < nfiles && files[kk].1 == j;
                    lemma_dir_at(files, kk);
                    assert(m.disks[d as int].1.contains_key(files[kk].0@));
                }
                if m.owns(addr, j) {
                    let (dd, p) = choose|dd: int, p: Seq<char>|
                        0 <= dd < m.disks.len() && m.disks[dd].0 == addr
                            && #[trigger] m.disks[dd].1.contains_key(p) && m.disks[dd].1[p] == j;
                    assert(dd == d) by {
                        if dd < d {
                            assert(m.disks[dd].0 != m.disks[d as int].0);
                        } else if dd > d {
                            assert(m.disks[d as int].0 != m.disks[dd].0);
                        }
                    }
                    let kk = choose|kk: int| 0 <= kk < files.len() && files[kk].0@ == p;
                    lemma_dir_at(files, kk);
                    assert(touched(files, nfiles as int, j));
                }
            }
            assert(self@.data =~= m.power_fail(addr).data);
            assert(self@.durable =~= m.durable);
            assert(self@.disks =~= m.disks);
            assert forall|dd: int|
                0 <= dd < self.disks@.len() implies unique_paths(#[trigger] self.disks@[dd].files@) by {
                assert(self.disks@[dd] == old(self).disks@[dd]);
            }
            lemma_lengths_fit(self);
        }
    }

    /// Where path `s` stands among the files of disk `d`, if it does.
    fn find(&self, d: usize, s: &String) -> (r: Option<usize>)
        requires
            self.wf(),
            d < self.disks@.len(),
        ensures
            match r {
                Some(k) => k < self.disks@[d as int].files@.len()
                    && self.disks@[d as int].files@[k as int].0@ == s@,
                None => !self@.disks[d as int].1.contains_key(s@),
            },
    {
        let files = &self.disks[d].files;
        let mut k: usize = 0;
        while k < files.len()
            invariant
                files == self.disks@[d as int].files,
                k <= files@.len(),
                forall|j: int| 0 <= j < k ==> files@[j].0@ != s@,
            decreases files@.len() - k,
        {
            if files[k].0 == *s {
                return Some(k);
            }
            k += 1;
        }
        None
    }
}

impl FileSystem {
    /// Opens the file at `path` for reading only; fails with `NotFound` when
    /// this disk has no such file.
    pub fn open(&self, rt: &FileSystemRuntime, path: &str) -> (r: Result<File, Error>)
        requires
            rt.wf(),
            self.id() < rt@.disks.len(),
        ensures
            match rt@.open(self.id(), path@) {
                Some(i) => r is Ok && r->Ok_0.inode() == i && !r->Ok_0.can_write() && i
                    < rt@.data.len(),
                None => r == Err::<File, Error>(Error { kind: ErrorKind::NotFound }),
            },
    {
        let s = path.to_owned();
        match rt.find(self.disk, &s) {
            Some(k) => {
                proof {
                    lemma_dir_at(rt.disks@[self.disk as int].files@, k as int);
                }
                Ok(File { inode: rt.disks[self.disk].files[k].1, can_write: false })
            },
            None => Err(Error { kind: ErrorKind::NotFound }),
        }
    }

    /// Opens the file at `path` for reading and writing, creating it empty if
    /// this disk has no such file; an existing file keeps its content.
    pub fn create(&self, rt: &mut FileSystemRuntime, path: &str) -> (r: Result<File, Error>)
        requires
            old(rt).wf(),
            self.id() < old(rt)@.disks.len(),
        ensures
            final(rt).wf(),
            final(rt)@.wf(),
            final(rt)@.lengths_fit(),
            r is Ok,
            r->Ok_0.can_write(),
            (final(rt)@, r->Ok_0.inode()) == old(rt)@.create(self.id(), path@),
            r->Ok_0.inode() < final(rt)@.data.len(),
    {
        let s = path.to_owned();
        let d = self.disk;
        match rt.find(d, &s) {
            Some(k) => {
                proof {
                    lemma_dir_at(rt.disks@[d as int].files@, k as int);
                }
                proof {
                    lemma_lengths_fit(rt);
                }
                Ok(File { inode: rt.disks[d].files[k].1, can_write: true })
            },
            None => {
                let ghost m = rt@;
                let n = rt.inodes.len();
                rt.inodes.push(INode::new(path));
                rt.disks[d].files.push((s, n));
                proof {
                    let of = old(rt).disks@[d as int].files@;
                    lemma_dir_push(of, s, n);
                    assert(rt.disks@[d as int].files@ =~= of.push((s, n)));
                    let (m2, i2) = m.create(d as nat, path@);
                    assert(rt@.disks =~= m2.disks) by {
                        assert forall|j: int| 0 <= j < m2.disks.len() implies rt@.disks[j] == m2.disks[j] by {
                            if j != d {
                                assert(rt.disks@[j] == old(rt).disks@[j]);
                            }
                        }
                    }
                    assert(rt@.data =~= m2.data) by {
                        assert forall|j: int| 0 <= j < m2.data.len() implies rt@.data[j] == m2.data[j] by {
                            if j < n {
                                assert(rt.inodes@[j] == old(rt).inodes@[j]);
                            }
                        }
                    }
                    assert(rt@.durable =~= m2.durable) by {
                        assert forall|j: int| 0 <= j < m2.durable.len() implies rt@.durable[j] == m2.durable[j] by {
                            if j < n {
                                assert(rt.inodes@[j] == old(rt).inodes@[j]);
                            }
                        }
                    }
                    assert forall|dd: int|
                        0 <= dd < rt.disks@.len() implies unique_paths(#[trigger] rt.disks@[dd].files@) by {
                        if dd != d {
                            assert(rt.disks@[dd] == old(rt).disks@[dd]);
                        }
                    }
                    lemma_create_wf(m, d as nat, path@);
                }
                proof {
                    lemma_lengths_fit(rt);
                }
                Ok(File { inode: n, can_write: true })
            },
        }
    }
}

impl File {
    /// Copies into `buf` the bytes of the file from `offset` on, as many as
    /// both hold, and returns how many; the rest of `buf` is left as it was.
    /// A read at or past the end copies nothing.
    pub fn read_at(&self, rt: &FileSystemRuntime, buf: &mut Vec<u8>, offset: u64) -> (r: Result<
        usize,
        Error,
    >)
        requires
            rt.wf(),
            self.inode() < rt@.data.len(),
        ensures
            ({
                let c = rt@.data[self.inode() as int];
                let n = read_len(c, old(buf)@.len(), offset as int);
                &&& r == Ok::<usize, Error>(n as usize)
                &&& final(buf)@ == read_into(c, old(buf)@, offset as int)
            }),
    {
        let data = &rt.inodes[self.inode].data;
        let ghost c = rt@.data[self.inode() as int];
        assert(data@ == c);
        let len = data.len();
        if offset >= len as u64 {
            assert(buf@ =~= read_into(c, buf@, offset as int));
            return Ok(0);
        }
        let off = offset as usize;
        let n: usize = if len - off < buf.len() { len - off } else { buf.len() };
        let mut k: usize = 0;
        while k < n
            invariant
                data@ == c,
                len == c.len(),
                n == read_len(c, old(buf)@.len(), offset as int),
                off == offset,
                k <= n,
                buf@.len() == old(buf)@.len(),
                forall|j: int| 0 <= j < k ==> buf@[j] == c[off + j],
                forall|j: int| k <= j < buf@.len() ==> buf@[j] == old(buf)@[j],
            decreases n - k,
        {
            buf[k] = data[off + k];
            k += 1;
        }
        assert(buf@ =~= read_into(c, old(buf)@, offset as int));
        Ok(n)
    }

    /// Writes all of `buf` at `offset`, growing the file as needed; a gap
    /// between the old end and `offset` is filled with zeros. A read-only
    /// handle fails with `PermissionDenied` and changes nothing.
    pub fn write_all_at(&self, rt: &mut FileSystemRuntime, buf: &[u8], offset: u64) -> (r: Result<
        (),
        Error,
    >)
        requires
            old(rt).wf(),
            self.inode() < old(rt)@.data.len(),
            self.can_write() ==> offset + buf@.len() <= usize::MAX,
        ensures
            final(rt).wf(),
            final(rt)@.wf(),
            final(rt)@.lengths_fit(),
            self.can_write() ==> r == Ok::<(), Error>(()) && final(rt)@ == old(rt)@.write(
                self.inode(),
                buf@,
                offset as int,
            ),
            !self.can_write() ==> r == Err::<(), Error>(Error { kind: ErrorKind::PermissionDenied })
                && final(rt)@ == old(rt)@,
    {
        if !self.can_write {
            proof {
                lemma_lengths_fit(rt);
            }
            return Err(Error { kind: ErrorKind::PermissionDenied });
        }
        let ghost m = rt@;
        let i = self.inode;
        let ghost c = m.data[i as int];
        let off = offset as usize;
        let end = off + buf.len();
        let len = rt.inodes[i].data.len();
        if len < end {
            rt.inodes[i].data.resize(end, 0u8);
        }
        let mut k: usize = 0;
        while k < buf.len()
            invariant
                rt.disks == old(rt).disks,
                rt.inodes@.len() == old(rt).inodes@.len(),
                forall|j: int| 0 <= j < rt.inodes@.len() && j != i ==> rt.inodes@[j] == old(rt).inodes@[j],
                rt.inodes@[i as int].durable == old(rt).inodes@[i as int].durable,
                i < rt.inodes@.len(),
                c == old(rt).inodes@[i as int].data@,
                off == offset,
                end == off + buf@.len(),
                k <= buf@.len(),
                rt.inodes@[i as int].data@.len() == written(c, buf@, off as int).len(),
                forall|j: int| 0 <= j < off + k ==> rt.inodes@[i as int].data@[j] == written(c, buf@, off as int)[j],
                forall|j: int| off + buf@.len() <= j < rt.inodes@[i as int].data@.len()
                    ==> rt.inodes@[i as int].data@[j] == written(c, buf@, off as int)[j],
            decreases buf@.len() - k,
        {
            rt.inodes[i].data[off + k] = buf[k];
            k += 1;
        }
        proof {
            assert(rt.inodes@[i as int].data@ =~= written(c, buf@, off as int));
            assert(rt@.data =~= m.write(i as nat, buf@, offset as int).data);
            assert(rt@.durable =~= m.durable);
            assert(rt@.disks =~= m.disks);
        }
        proof {
            lemma_lengths_fit(rt);
        }
        Ok(())
    }

    /// Truncates the file, or extends it with zeros, to exactly `size` bytes.
    pub fn set_len(&self, rt: &mut FileSystemRuntime, size: u64) -> (r: Result<(), Error>)
        requires
            old(rt).wf(),
            self.inode() < old(rt)@.data.len(),
            size <= usize::MAX,
        ensures
            final(rt).wf(),
            final(rt)@.wf(),
            final(rt)@.lengths_fit(),
            r == Ok::<(), Error>(()),
            final(rt)@ == old(rt)@.set_len(self.inode(), size as nat),
    {
        let ghost m = rt@;
        let i = self.inode;
        rt.inodes[i].data.resize(size as usize, 0u8);
        proof {
            assert(rt.inodes@[i as int].data@ =~= resized(m.data[i as int], size as nat));
            assert(rt@.data =~= m.set_len(i as nat, size as nat).data);
            assert(rt@.durable =~= m.durable);
            assert(rt@.disks =~= m.disks);
        }
        proof {
            lemma_lengths_fit(rt);
        }
        Ok(())
    }

    /// Makes the current content of the file durable: a later power failure
    /// of its node brings the file back to this content.
    pub fn sync_all(&self, rt: &mut FileSystemRuntime) -> (r: Result<(), Error>)
        requires
            old(rt).wf(),
            self.inode() < old(rt)@.data.len(),
        ensures
            final(rt).wf(),
            final(rt)@.wf(),
            final(rt)@.lengths_fit(),
            r == Ok::<(), Error>(()),
            final(rt)@ == old(rt)@.sync(self.inode()),
    {
        let ghost m = rt@;
        let i = self.inode;
        let copy = rt.inodes[i].data.clone();
        rt.inodes[i].durable = copy;
        proof {
            assert(rt.inodes@[i as int].durable@ =~= m.data[i as int]);
            assert(rt@.durable =~= m.sync(i as nat).durable);
            assert(rt@.data =~= m.data);
            assert(rt@.disks =~= m.disks);
        }
        proof {
            lemma_lengths_fit(rt);
        }
        Ok(())
    }
}

/// Creating a file keeps the model well formed.
proof fn lemma_create_wf(m: FsModel, d: nat, p: Seq<char>)
    requires
        m.wf(),
        d < m.disks.len(),
    ensures
        m.create(d, p).0.wf(),
{
    let m2 = m.create(d, p).0;
    if !m.disks[d as int].1.contains_key(p) {
        let n = m.data.len();
        assert forall|dd: int, q: Seq<char>|
            0 <= dd < m2.disks.len() && #[trigger] m2.disks[dd].1.contains_key(q)
                implies m2.disks[dd].1[q] < m2.data.len() by {
            if dd != d || q != p {
                assert(m.disks[dd].1.contains_key(q));
            }
        }
        assert forall|d1: int, p1: Seq<char>, d2: int, p2: Seq<char>|
            0 <= d1 < m2.disks.len() && 0 <= d2 < m2.disks.len()
                && #[trigger] m2.disks[d1].1.contains_key(p1)
                && #[trigger] m2.disks[d2].1.contains_key(p2) && (d1 != d2 || p1 != p2)
                implies m2.disks[d1].1[p1] != m2.disks[d2].1[p2] by {
            let new1 = d1 == d && p1 == p;
            let new2 = d2 == d && p2 == p;
            if !new1 {
                assert(m.disks[d1].1.contains_key(p1));
            }
            if !new2 {
                assert(m.disks[d2].1.contains_key(p2));
            }
        }
    }
}

} // verus!
