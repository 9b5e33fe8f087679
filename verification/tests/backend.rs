use std::cell::Cell;
use std::cmp::Ordering;
use walkdir::{
    ContentFilter, ContentProcessor, DeviceNum, DirEntry, DirEntryExt, Error, FlatDirEntry,
    IoError, Listing, MemFs, MemNode, MemReadDir, Metadata, PathView, Position, RawDirEntry,
    SameFileHandle, Sorter, StorageExt, WalkDir,
};

fn s(x: &str) -> String {
    x.to_string()
}

/// A storage that counts what is asked of it.
struct Counting {
    inner: MemFs,
    opened: Cell<usize>,
    read: Cell<usize>,
    stats: Cell<usize>,
}

impl Counting {
    fn new(inner: MemFs) -> Self {
        Counting { inner, opened: Cell::new(0), read: Cell::new(0), stats: Cell::new(0) }
    }
}

impl StorageExt for Counting {
    type ReadDir = MemReadDir;

    fn spec_metadata(&self, _path: PathView, _follow_link: bool) -> Result<Metadata, IoError> {
        unreachable!()
    }

    fn spec_read_dir(&self, _path: PathView) -> Result<Listing, IoError> {
        unreachable!()
    }

    fn spec_pending(&self, _rd: &MemReadDir) -> Listing {
        unreachable!()
    }

    fn spec_handle(&self, _path: PathView) -> Result<SameFileHandle, IoError> {
        unreachable!()
    }

    fn spec_device_num(&self, _path: PathView) -> Result<DeviceNum, IoError> {
        unreachable!()
    }

    fn spec_file_name(&self, _path: PathView) -> PathView {
        unreachable!()
    }

    fn metadata(&self, path: &String, follow_link: bool) -> Result<Metadata, IoError> {
        self.stats.set(self.stats.get() + 1);
        self.inner.metadata(path, follow_link)
    }

    fn read_dir(&self, path: &String) -> Result<MemReadDir, IoError> {
        self.opened.set(self.opened.get() + 1);
        self.inner.read_dir(path)
    }

    fn next_entry(&self, rd: &mut MemReadDir) -> Option<Result<String, IoError>> {
        self.read.set(self.read.get() + 1);
        self.inner.next_entry(rd)
    }

    fn get_handle(&self, path: &String) -> Result<SameFileHandle, IoError> {
        self.inner.get_handle(path)
    }

    fn device_num(&self, path: &String) -> Result<DeviceNum, IoError> {
        self.inner.device_num(path)
    }

    fn get_file_name(&self, path: &String) -> String {
        self.inner.get_file_name(path)
    }
}

/// /t/a/{x/{p,q},y}, /t/b/{z}, /t/c
fn tree() -> MemFs {
    let mut fs = MemFs::new();
    fs.add(MemNode::dir(s("/t"), 1, 1, vec![s("/t/a"), s("/t/b"), s("/t/c")]));
    fs.add(MemNode::dir(s("/t/a"), 2, 1, vec![s("/t/a/x"), s("/t/a/y")]));
    fs.add(MemNode::dir(s("/t/a/x"), 3, 1, vec![s("/t/a/x/p"), s("/t/a/x/q")]));
    fs.add(MemNode::file(s("/t/a/x/p"), 4, 1, 1));
    fs.add(MemNode::file(s("/t/a/x/q"), 5, 1, 1));
    fs.add(MemNode::file(s("/t/a/y"), 6, 1, 1));
    fs.add(MemNode::dir(s("/t/b"), 7, 1, vec![s("/t/b/z")]));
    fs.add(MemNode::file(s("/t/b/z"), 8, 1, 1));
    fs.add(MemNode::file(s("/t/c"), 9, 1, 1));
    fs
}

#[test]
fn no_directory_at_the_greatest_depth_is_opened() {
    for (max_depth, expected_opens) in [(0usize, 0usize), (1, 1), (2, 3), (3, 4), (9, 4)] {
        let mut it = WalkDir::new("/t", Counting::new(tree())).max_depth(max_depth).into_iter();
        while let Some(step) = it.next() {
            if let Position::Entry(d) = &step {
                assert!(d.depth() <= max_depth);
            }
            assert!(it.states.len() <= max_depth + 1);
        }
        assert_eq!(it.fs.opened.get(), expected_opens);
    }
}

#[test]
fn entries_are_read_one_at_a_time_and_each_is_asked_for_once() {
    let mut it = WalkDir::new("/t", Counting::new(tree())).into_iter();
    // Nothing is read before the first step.
    assert_eq!(it.fs.stats.get(), 0);
    assert_eq!(it.fs.opened.get(), 0);
    it.next();
    assert_eq!(it.fs.stats.get(), 1);
    assert_eq!(it.fs.opened.get(), 0);
    // Entering /t reads its first entry only.
    it.next();
    assert_eq!(it.fs.opened.get(), 1);
    assert_eq!(it.fs.read.get(), 1);
    assert_eq!(it.fs.stats.get(), 2);
    while let Some(_) = it.next() {}
    assert_eq!(it.fs.opened.get(), 4);
    // The metadata of each of the nine entries was asked for once.
    assert_eq!(it.fs.stats.get(), 9);
}

#[test]
fn a_small_limit_reads_directories_early_but_yields_the_same() {
    let run = |limit: usize| {
        let mut it = WalkDir::new("/t", Counting::new(tree())).max_open(limit).into_iter();
        let mut out = Vec::new();
        let mut reads_after_entering_a = 0;
        while let Some(step) = it.next() {
            if let Position::BeforeContent(Some(d)) = &step {
                if d.path() == "/t/a" {
                    reads_after_entering_a = it.fs.read.get();
                }
            }
            out.push(format!("{:?}", step));
        }
        (out, reads_after_entering_a)
    };
    let (wide, wide_reads) = run(10);
    let (narrow, narrow_reads) = run(1);
    assert_eq!(wide, narrow);
    // With room for one stream, /t was read to its end before /t/a was opened.
    assert_eq!(wide_reads, 2);
    assert_eq!(narrow_reads, 5);
}

/// Orders entries by their paths, greatest first.
struct Backwards;

impl Sorter for Backwards {
    fn precedes(&self, _a: &RawDirEntry, _b: &RawDirEntry) -> bool {
        unreachable!()
    }

    fn compare(&self, a: &RawDirEntry, b: &RawDirEntry) -> Ordering {
        b.path.cmp(&a.path)
    }
}

#[test]
fn a_sorter_of_the_caller() {
    let mut it = WalkDir::new("/t", tree()).sort_by(Backwards).into_classic();
    let mut out = Vec::new();
    while let Some(r) = it.next() {
        out.push(r.unwrap().into_path());
    }
    assert_eq!(
        out,
        vec![
            "/t", "/t/c", "/t/b", "/t/b/z", "/t/a", "/t/a/y", "/t/a/x", "/t/a/x/q", "/t/a/x/p"
        ]
    );
}

/// Yields the names of files with their depths, and suppresses directories.
struct FileNames;

impl ContentProcessor for FileNames {
    type Item = (String, usize);

    fn spec_process(&self, _flat: &FlatDirEntry, _depth: usize) -> Option<(String, usize)> {
        unreachable!()
    }

    fn spec_is_dir(_item: &(String, usize)) -> bool {
        unreachable!()
    }

    fn process_direntry(&self, flat: &FlatDirEntry, depth: usize) -> Option<(String, usize)> {
        if flat.is_dir {
            None
        } else {
            let name = flat.raw.path.rsplit('/').next().unwrap().to_string();
            Some((name, depth))
        }
    }

    fn is_dir(_item: &(String, usize)) -> bool {
        false
    }

    fn empty_collection() -> Vec<(String, usize)> {
        Vec::new()
    }
}

#[test]
fn a_content_processor_of_the_caller() {
    let mut it = WalkDir::new("/t", tree()).content_processor(FileNames).into_iter();
    let mut out: Vec<String> = Vec::new();
    while let Some(step) = it.next() {
        out.push(match step {
            Position::BeforeContent(None) => s("before"),
            Position::BeforeContent(Some(_)) => s("before with item"),
            Position::Entry((name, depth)) => format!("{}@{}", name, depth),
            Position::Error(e) => format!("{:?}", e),
            Position::AfterContent => s("after"),
        });
    }
    assert_eq!(
        out,
        vec![
            "before", "before", "before", "p@3", "q@3", "after", "y@2", "after", "before", "z@2",
            "after", "c@1", "after",
        ]
    );
    let mut it = WalkDir::new("/t", tree()).content_processor(FileNames).into_iter();
    it.next();
    let content = it.get_current_dir_content(ContentFilter::NoFilter).unwrap();
    assert_eq!(content, vec![(s("c"), 1)]);
    assert!(FileNames::empty_collection().is_empty());
    assert!(!FileNames::is_dir(&(s("c"), 1)));
}

#[test]
fn errors_carry_path_depth_and_cause() {
    let mut it = WalkDir::new("/missing", tree()).into_iter();
    let err: Error = match it.next() {
        Some(Position::Error(e)) => e,
        other => panic!("unexpected {:?}", other),
    };
    assert_eq!(err.depth(), 0);
    assert_eq!(err.path().map(|p| p.as_str()), Some("/missing"));
    assert_eq!(err.loop_ancestor(), None);
    assert_eq!(err.io_error().map(|e| e.kind), Some(walkdir::IoErrorKind::NotFound));
    assert_eq!(err.clone().into_io_error().map(|e| e.code), Some(2));
    assert!(it.next().is_none());
}

#[test]
fn dir_entry_accessors() {
    let fs = tree();
    let mut it = WalkDir::new("/t", tree()).into_classic();
    it.next();
    let a: DirEntry = it.next().unwrap().unwrap();
    assert_eq!(a.path(), "/t/a");
    assert_eq!(a.file_name(&fs), "a");
    assert_eq!(a.depth(), 1);
    assert!(a.is_dir());
    assert!(!a.path_is_symlink());
    assert_eq!(a.metadata().ino, 2);
    assert_eq!(DirEntryExt::ino(&a), 2);
    assert_eq!(a.file_type(), walkdir::FileType::Dir);
    assert!(a.file_type().is_dir());
    assert!(!a.file_type().is_file());
    assert!(!a.file_type().is_symlink());
    assert_eq!(a.loop_link(), None);
    let copy = a.clone();
    assert_eq!(copy, a);
    let flat = a.into_flat();
    assert!(flat.is_dir);
    assert_eq!(flat.raw.path, "/t/a");
    assert_eq!(DirEntry::from_flat(&flat, 1), copy);
    assert_eq!(copy.into_path(), "/t/a");
}
