//! A storage held in memory: a table that says, path by path, what the
//! storage answers.
use vstd::prelude::*;
use vstd::string::*;
use crate::error::{IoError, IoErrorKind};
use crate::fs::{FileType, Metadata, SameFileHandle};
use crate::storage::StorageExt;
use crate::wd::DeviceNum;

verus! {

/// What the storage answers for one path.
#[derive(Debug)]
pub struct MemNode {
    pub path: String,
    /// The metadata of the object itself.
    pub lstat: Result<Metadata, IoError>,
    /// The metadata of the object that the path leads to, links followed.
    pub stat: Result<Metadata, IoError>,
    /// The paths that reading the directory hands out, or why it cannot be
    /// read.
    pub entries: Result<Vec<Result<String, IoError>>, IoError>,
    /// The handle of the object that the path leads to.
    pub handle: Result<SameFileHandle, IoError>,
    /// The device of the object that the path leads to.
    pub device: Result<DeviceNum, IoError>,
}

/// A directory that is being read: the paths that are left, the next one
/// last.
#[derive(Debug)]
pub struct MemReadDir {
    pub left: Vec<Result<String, IoError>>,
}

/// A storage in memory. A path that the table does not hold does not
/// exist; of two lines for one path the first counts.
#[derive(Debug)]
pub struct MemFs {
    pub nodes: Vec<MemNode>,
}

/// The answer for a path that does not exist.
pub open spec fn spec_not_found() -> IoError {
    IoError { kind: IoErrorKind::NotFound, code: 2 }
}

/// The answer for reading something that is no directory.
pub open spec fn spec_not_a_directory() -> IoError {
    IoError { kind: IoErrorKind::NotADirectory, code: 20 }
}

/// The index of the first line of `nodes` for `path`, from `from` on.
pub open spec fn spec_find(nodes: Seq<MemNode>, path: Seq<char>, from: int) -> Option<int>
    decreases nodes.len() - from,
{
    if from < 0 || from >= nodes.len() {
        None
    } else if nodes[from].path@ == path {
        Some(from)
    } else {
        spec_find(nodes, path, from + 1)
    }
}

/// Where the last component of `path` begins: behind its last `/`.
pub open spec fn spec_name_start(path: Seq<char>) -> int
    decreases path.len(),
{
    if path.len() == 0 {
        0
    } else if path.last() == '/' {
        path.len() as int
    } else {
        spec_name_start(path.drop_last())
    }
}

/// The last component of `path`: what stands behind its last `/`; the
/// whole path where that is nothing.
pub open spec fn spec_file_name_of(path: Seq<char>) -> Seq<char> {
    let start = spec_name_start(path);
    if start >= path.len() {
        path
    } else {
        path.subrange(start, path.len() as int)
    }
}

/// The sequence `s` read from its end.
pub open spec fn spec_reversed<T>(s: Seq<T>) -> Seq<T> {
    Seq::new(s.len(), |i: int| s[s.len() - 1 - i])
}

impl MemNode {
    /// The line of a regular file.
    pub fn file(path: String, ino: u64, len: u64, device: DeviceNum) -> (r: Self)
        ensures
            r.path == path,
            r.lstat == Ok::<Metadata, IoError>(Metadata { file_type: FileType::File, ino, len }),
            r.stat == r.lstat,
            r.entries == Err::<Vec<Result<String, IoError>>, IoError>(spec_not_a_directory()),
            r.handle == Ok::<SameFileHandle, IoError>(SameFileHandle { dev: device, ino }),
            r.device == Ok::<DeviceNum, IoError>(device),
    {
        let md = Metadata { file_type: FileType::File, ino, len };
        MemNode {
            path,
            lstat: Ok(md),
            stat: Ok(md),
            entries: Err(IoError { kind: IoErrorKind::NotADirectory, code: 20 }),
            handle: Ok(SameFileHandle { dev: device, ino }),
            device: Ok(device),
        }
    }

    /// The line of a directory that lists `children`.
    pub fn dir(path: String, ino: u64, device: DeviceNum, children: Vec<String>) -> (r: Self)
        ensures
            r.path == path,
            r.lstat == Ok::<Metadata, IoError>(Metadata { file_type: FileType::Dir, ino, len: 0 }),
            r.stat == r.lstat,
            r.entries is Ok,
            r.entries->Ok_0@.len() == children@.len(),
            forall|i: int|
                0 <= i < children@.len() ==> (#[trigger] r.entries->Ok_0@[i]) == Ok::<
                    String,
                    IoError,
                >(children@[i]),
            r.handle == Ok::<SameFileHandle, IoError>(SameFileHandle { dev: device, ino }),
            r.device == Ok::<DeviceNum, IoError>(device),
    {
        let md = Metadata { file_type: FileType::Dir, ino, len: 0 };
        let mut entries: Vec<Result<String, IoError>> = Vec::new();
        let mut i: usize = 0;
        while i < children.len()
            invariant
                i <= children@.len(),
                entries@.len() == i,
                forall|k: int|
                    0 <= k < i ==> (#[trigger] entries@[k]) == Ok::<String, IoError>(children@[k]),
            decreases children@.len() - i,
        {
            entries.push(Ok(children[i].clone()));
            i = i + 1;
        }
        MemNode {
            path,
            lstat: Ok(md),
            stat: Ok(md),
            entries: Ok(entries),
            handle: Ok(SameFileHandle { dev: device, ino }),
            device: Ok(device),
        }
    }

    /// The line of a symbolic link that leads to what `target` describes:
    /// the link itself has the inode `ino`; followed, it answers as the
    /// target does. Reading it hands out `children`, the entries of the
    /// target under the path of the link.
    pub fn symlink(path: String, ino: u64, target: &MemNode, children: Vec<String>) -> (r: Self)
        ensures
            r.path == path,
            r.lstat == Ok::<Metadata, IoError>(
                Metadata { file_type: FileType::Symlink, ino, len: 0 },
            ),
            r.stat == target.stat,
            r.handle == target.handle,
            r.device == target.device,
            target.entries is Err ==> r.entries == Err::<Vec<Result<String, IoError>>, IoError>(
                target.entries->Err_0,
            ),
            target.entries is Ok ==> r.entries is Ok && r.entries->Ok_0@.len() == children@.len(),
            target.entries is Ok ==> forall|i: int|
                0 <= i < children@.len() ==> (#[trigger] r.entries->Ok_0@[i]) == Ok::<
                    String,
                    IoError,
                >(children@[i]),
    {
        let entries = match &target.entries {
            Ok(_) => {
                let mut entries: Vec<Result<String, IoError>> = Vec::new();
                let mut i: usize = 0;
                while i < children.len()
                    invariant
                        i <= children@.len(),
                        entries@.len() == i,
                        forall|k: int|
                            0 <= k < i ==> (#[trigger] entries@[k]) == Ok::<String, IoError>(
                                children@[k],
                            ),
                    decreases children@.len() - i,
                {
                    entries.push(Ok(children[i].clone()));
                    i = i + 1;
                }
                Ok(entries)
            },
            Err(e) => Err(*e),
        };
        MemNode {
            path,
            lstat: Ok(Metadata { file_type: FileType::Symlink, ino, len: 0 }),
            stat: target.stat,
            entries,
            handle: target.handle,
            device: target.device,
        }
    }

    /// The line of a symbolic link that leads nowhere.
    pub fn broken_symlink(path: String, ino: u64) -> (r: Self)
        ensures
            r.path == path,
            r.lstat == Ok::<Metadata, IoError>(
                Metadata { file_type: FileType::Symlink, ino, len: 0 },
            ),
            r.stat == Err::<Metadata, IoError>(spec_not_found()),
            r.entries == Err::<Vec<Result<String, IoError>>, IoError>(spec_not_found()),
            r.handle == Err::<SameFileHandle, IoError>(spec_not_found()),
            r.device == Err::<DeviceNum, IoError>(spec_not_found()),
    {
        let e = IoError { kind: IoErrorKind::NotFound, code: 2 };
        MemNode {
            path,
            lstat: Ok(Metadata { file_type: FileType::Symlink, ino, len: 0 }),
            stat: Err(e),
            entries: Err(e),
            handle: Err(e),
            device: Err(e),
        }
    }
}

impl MemFs {
    /// An empty storage: no path exists.
    pub fn new() -> (r: Self)
        ensures
            r.nodes@.len() == 0,
    {
        MemFs { nodes: Vec::new() }
    }

    /// Adds a line to the table. It counts unless an earlier line has the
    /// same path.
    pub fn add(&mut self, node: MemNode)
        ensures
            final(self).nodes@ == old(self).nodes@.push(node),
    {
        self.nodes.push(node);
    }

    /// The line that counts for `path`.
    pub open spec fn lookup(&self, path: Seq<char>) -> Option<MemNode> {
        match spec_find(self.nodes@, path, 0) {
            Some(i) => Some(self.nodes@[i]),
            None => None,
        }
    }

    /// Finds the line that counts for `path`.
    pub fn find(&self, path: &String) -> (r: Option<usize>)
        ensures
            match r {
                Some(i) => i < self.nodes@.len() && spec_find(self.nodes@, path@, 0) == Some(
                    i as int,
                ),
                None => spec_find(self.nodes@, path@, 0) is None,
            },
    {
        let mut i: usize = 0;
        while i < self.nodes.len()
            invariant
                i <= self.nodes@.len(),
                spec_find(self.nodes@, path@, 0) == spec_find(self.nodes@, path@, i as int),
            decreases self.nodes@.len() - i,
        {
            if self.nodes[i].path == *path {
                return Some(i);
            }
            i = i + 1;
        }
        None
    }
}

impl StorageExt for MemFs {
    type ReadDir = MemReadDir;

    open spec fn spec_metadata(&self, path: Seq<char>, follow_link: bool) -> Result<
        Metadata,
        IoError,
    > {
        match self.lookup(path) {
            Some(node) => if follow_link {
                node.stat
            } else {
                node.lstat
            },
            None => Err(spec_not_found()),
        }
    }

    open spec fn spec_read_dir(&self, path: Seq<char>) -> Result<
        Seq<Result<String, IoError>>,
        IoError,
    > {
        match self.lookup(path) {
            Some(node) => match node.entries {
                Ok(v) => Ok(v@),
                Err(e) => Err(e),
            },
            None => Err(spec_not_found()),
        }
    }

    open spec fn spec_pending(&self, rd: &MemReadDir) -> Seq<Result<String, IoError>> {
        spec_reversed(rd.left@)
    }

    open spec fn spec_handle(&self, path: Seq<char>) -> Result<SameFileHandle, IoError> {
        match self.lookup(path) {
            Some(node) => node.handle,
            None => Err(spec_not_found()),
        }
    }

    open spec fn spec_device_num(&self, path: Seq<char>) -> Result<DeviceNum, IoError> {
        match self.lookup(path) {
            Some(node) => node.device,
            None => Err(spec_not_found()),
        }
    }

    open spec fn spec_file_name(&self, path: Seq<char>) -> Seq<char> {
        spec_file_name_of(path)
    }

    fn metadata(&self, path: &String, follow_link: bool) -> (r: Result<Metadata, IoError>) {
        match self.find(path) {
            Some(i) => if follow_link {
                self.nodes[i].stat
            } else {
                self.nodes[i].lstat
            },
            None => Err(IoError { kind: IoErrorKind::NotFound, code: 2 }),
        }
    }

    fn read_dir(&self, path: &String) -> (r: Result<MemReadDir, IoError>) {
        match self.find(path) {
            Some(i) => match &self.nodes[i].entries {
                Ok(v) => {
                    let mut left: Vec<Result<String, IoError>> = Vec::new();
                    let mut k: usize = v.len();
                    while k > 0
                        invariant
                            k <= v@.len(),
                            left@.len() == v@.len() - k,
                            forall|j: int|
                                0 <= j < left@.len() ==> (#[trigger] left@[j]) == v@[v@.len() - 1
                                    - j],
                        decreases k,
                    {
                        k = k - 1;
                        let item = match &v[k] {
                            Ok(p) => Ok(p.clone()),
                            Err(e) => Err(*e),
                        };
                        left.push(item);
                    }
                    proof {
                        assert(spec_reversed(left@) =~= v@);
                    }
                    Ok(MemReadDir { left })
                },
                Err(e) => Err(*e),
            },
            None => Err(IoError { kind: IoErrorKind::NotFound, code: 2 }),
        }
    }

    fn next_entry(&self, rd: &mut MemReadDir) -> (r: Option<Result<String, IoError>>) {
        let ghost before = rd.left@;
        let r = rd.left.pop();
        proof {
            if before.len() > 0 {
                assert(spec_reversed(rd.left@) =~= spec_reversed(before).skip(1));
            }
        }
        r
    }

    fn get_handle(&self, path: &String) -> (r: Result<SameFileHandle, IoError>) {
        match self.find(path) {
            Some(i) => self.nodes[i].handle,
            None => Err(IoError { kind: IoErrorKind::NotFound, code: 2 }),
        }
    }

    fn device_num(&self, path: &String) -> (r: Result<DeviceNum, IoError>) {
        match self.find(path) {
            Some(i) => self.nodes[i].device,
            None => Err(IoError { kind: IoErrorKind::NotFound, code: 2 }),
        }
    }

    fn get_file_name(&self, path: &String) -> (r: String) {
        file_name_of(path)
    }
}

/// The last component of `path`: what stands behind its last `/`; the
/// whole path where that is nothing.
pub fn file_name_of(path: &String) -> (r: String)
    ensures
        r@ == spec_file_name_of(path@),
{
    let s = path.as_str();
    let n = s.unicode_len();
    let mut i: usize = n;
    proof {
        assert(s@.take(n as int) =~= s@);
    }
    while i > 0
        invariant
            i <= n,
            n == s@.len(),
            s@ == path@,
            spec_name_start(s@) == spec_name_start(s@.take(i as int)),
        ensures
            i == 0 || s@[i - 1] == '/',
        decreases i,
    {
        proof {
            assert(s@.take(i as int).drop_last() =~= s@.take(i - 1));
            assert(s@.take(i as int).last() == s@[i - 1]);
        }
        if s.get_char(i - 1) == '/' {
            break ;
        }
        i = i - 1;
    }
    proof {
        if i == 0 {
            assert(s@.take(0).len() == 0);
            assert(s@.subrange(0, n as int) =~= s@);
        } else {
            assert(s@.take(i as int).last() == s@[i - 1]);
            assert(spec_name_start(s@.take(i as int)) == i);
        }
    }
    if i >= n {
        path.clone()
    } else {
        s.substring_char(i, n).to_owned()
    }
}

} // verus!
