use std::cmp::Ordering;
use walkdir::sort::bytes_order;
use walkdir::{
    Ancestor, ByPath, Classifier, ContentFilter, ContentOrder, DirContent, DirEntryContentProcessor,
    DirEntryRecord, DirPass, DirPosition, DirState, Error, ErrorInner, FileType, FlatDirEntry,
    IntoErr, IntoOk, IntoSome, IoError, IoErrorKind, MemFs, MemNode, Metadata, Position,
    RawDirEntry, RawDirEntryKind, ReadDir, SameFileHandle, Sorter, StorageExt,
    WalkDirOptionsImmut,
};

fn s(x: &str) -> String {
    x.to_string()
}

fn tree() -> MemFs {
    let mut fs = MemFs::new();
    fs.add(MemNode::dir(s("/r"), 1, 1, vec![s("/r/b"), s("/r/d"), s("/r/a"), s("/r/gone")]));
    fs.add(MemNode::file(s("/r/a"), 2, 10, 1));
    fs.add(MemNode::file(s("/r/b"), 3, 20, 1));
    fs.add(MemNode::dir(s("/r/d"), 4, 1, vec![s("/r/d/g")]));
    fs.add(MemNode::file(s("/r/d/g"), 5, 5, 1));
    fs
}

fn options() -> WalkDirOptionsImmut {
    WalkDirOptionsImmut::default()
}

fn not_found(path: &str) -> ErrorInner {
    ErrorInner::Io {
        path: Some(s(path)),
        err: IoError { kind: IoErrorKind::NotFound, code: 2 },
    }
}

#[test]
fn mem_fs_answers_from_its_table() {
    let fs = tree();
    assert_eq!(fs.find(&s("/r/d")), Some(3));
    assert_eq!(fs.find(&s("/r/x")), None);
    assert_eq!(
        fs.metadata(&s("/r/a"), false),
        Ok(Metadata { file_type: FileType::File, ino: 2, len: 10 })
    );
    assert_eq!(fs.metadata(&s("/nope"), true).unwrap_err().kind, IoErrorKind::NotFound);
    assert_eq!(fs.get_handle(&s("/r/d")), Ok(SameFileHandle { dev: 1, ino: 4 }));
    assert_eq!(fs.device_num(&s("/r/d")), Ok(1));
    assert_eq!(fs.read_dir(&s("/r/a")).err().unwrap().kind, IoErrorKind::NotADirectory);
    let mut rd = fs.read_dir(&s("/r")).unwrap();
    assert_eq!(fs.next_entry(&mut rd), Some(Ok(s("/r/b"))));
    assert_eq!(fs.next_entry(&mut rd), Some(Ok(s("/r/d"))));
    assert_eq!(fs.next_entry(&mut rd), Some(Ok(s("/r/a"))));
    assert_eq!(fs.next_entry(&mut rd), Some(Ok(s("/r/gone"))));
    assert_eq!(fs.next_entry(&mut rd), None);
    assert_eq!(fs.next_entry(&mut rd), None);
    // Of two lines for one path the first counts.
    let mut fs = tree();
    fs.add(MemNode::file(s("/r/d"), 99, 0, 1));
    assert_eq!(fs.metadata(&s("/r/d"), false).unwrap().file_type, FileType::Dir);
}

#[test]
fn file_names() {
    let fs = MemFs::new();
    assert_eq!(fs.get_file_name(&s("/a/b/c.txt")), "c.txt");
    assert_eq!(fs.get_file_name(&s("plain")), "plain");
    assert_eq!(fs.get_file_name(&s("/")), "/");
    assert_eq!(fs.get_file_name(&s("a/b/")), "a/b/");
    assert_eq!(fs.get_file_name(&s("")), "");
    assert_eq!(fs.get_file_name(&s("/x/\u{e9}t\u{e9}")), "\u{e9}t\u{e9}");
    assert_eq!(walkdir::memfs::file_name_of(&s("x/y")), "y");
}

#[test]
fn byte_order_of_paths() {
    assert_eq!(bytes_order(b"abc", b"abd"), -1);
    assert_eq!(bytes_order(b"abd", b"abc"), 1);
    assert_eq!(bytes_order(b"abc", b"abc"), 0);
    assert_eq!(bytes_order(b"ab", b"abc"), -1);
    assert_eq!(bytes_order(b"abc", b"ab"), 1);
    assert_eq!(bytes_order(b"", b""), 0);
    assert_eq!(bytes_order(b"", b"a"), -1);
    assert_eq!(bytes_order(&[200], &[100]), 1);
    let raw = |p: &str| RawDirEntry {
        path: s(p),
        metadata: Metadata { file_type: FileType::File, ino: 0, len: 0 },
        follow_link: false,
        kind: RawDirEntryKind::DirEntry,
    };
    assert_eq!(ByPath {}.compare(&raw("/a"), &raw("/b")), Ordering::Less);
    assert_eq!(ByPath {}.compare(&raw("/b"), &raw("/a")), Ordering::Greater);
    assert_eq!(ByPath {}.compare(&raw("/a"), &raw("/a")), Ordering::Equal);
    assert_eq!(RawDirEntry::call_cmp(&raw("/z"), &raw("/y"), &ByPath {}), Ordering::Greater);
}

#[test]
fn raw_entries() {
    let fs = tree();
    let root = RawDirEntry::from_path(&s("/r"), &fs).unwrap();
    assert_eq!(root.kind, RawDirEntryKind::Root);
    assert_eq!(root.path(), "/r");
    assert_eq!(root.pathbuf(), "/r");
    assert!(root.is_dir());
    assert!(!root.is_symlink());
    assert!(!root.follow_link());
    assert_eq!(root.file_type(), FileType::Dir);
    assert_eq!(root.metadata().ino, 1);
    assert_eq!(root.file_name(&fs), "r");
    assert_eq!(root.fingerprint(&fs), Ok(SameFileHandle { dev: 1, ino: 1 }));
    assert_eq!(root.clone_dent_parts(), (s("/r"), FileType::Dir, false));
    assert_eq!(root.clone(), root);
    assert_eq!(RawDirEntry::from_path(&s("/x"), &fs), Err(not_found("/x")));
    assert_eq!(RawDirEntry::from_fsdent(s("/r/gone"), &fs), Err(not_found("/r/gone")));
    let a = RawDirEntry::from_fsdent(s("/r/a"), &fs).unwrap();
    assert_eq!(a.kind, RawDirEntryKind::DirEntry);
    assert_eq!(a.metadata().len, 10);
    assert_eq!(a.metadata_follow(&fs), Ok(a.metadata()));
    let denied = IoError { kind: IoErrorKind::PermissionDenied, code: 13 };
    assert_eq!(
        a.error_inner_from_entry(denied),
        ErrorInner::Io { path: Some(s("/r/a")), err: denied }
    );
    assert!(a.read_dir(&fs).is_err());
    assert_eq!(a.into_path(), "/r/a");

    let mut linked = MemFs::new();
    let target = MemNode::dir(s("/t"), 7, 3, vec![]);
    linked.add(MemNode::symlink(s("/l"), 8, &target, vec![]));
    let link = RawDirEntry::from_path(&s("/l"), &linked).unwrap();
    assert!(link.is_symlink());
    let followed = link.follow(&linked).unwrap();
    assert!(followed.follow_link());
    assert!(followed.is_dir());
    assert_eq!(followed.path(), "/l");
    assert_eq!(followed.metadata().ino, 7);
}

#[test]
fn read_dir_hands_out_what_is_left() {
    let fs = tree();
    let mut once = ReadDir::new_once(&s("/r/a"), &fs).unwrap();
    assert_eq!(once.next(&fs).unwrap().unwrap().path(), "/r/a");
    assert!(once.next(&fs).is_none());
    assert!(ReadDir::<MemFs>::new_once(&s("/zzz"), &fs).is_err());

    let root = RawDirEntry::from_path(&s("/r"), &fs).unwrap();
    let mut rd = root.read_dir(&fs).unwrap();
    assert_eq!(rd.next(&fs).unwrap().unwrap().path(), "/r/b");
    let rest = rd.collect_all(&fs);
    assert_eq!(rest.len(), 3);
    assert_eq!(rest[0].as_ref().unwrap().path(), "/r/d");
    assert_eq!(rest[1].as_ref().unwrap().path(), "/r/a");
    assert_eq!(rest[2], Err(not_found("/r/gone")));
    assert!(matches!(rd, ReadDir::Closed));
    assert!(rd.next(&fs).is_none());
    assert!(rd.collect_all(&fs).is_empty());

    let mut failed: ReadDir<MemFs> = ReadDir::Error(Some(not_found("/q")));
    assert_eq!(failed.next(&fs), Some(Err(not_found("/q"))));
    assert_eq!(failed.next(&fs), None);
    let mut failed: ReadDir<MemFs> = ReadDir::Error(Some(not_found("/q")));
    assert_eq!(failed.collect_all(&fs), vec![Err(not_found("/q"))]);
    assert!(matches!(failed, ReadDir::Error(None)));
    let mut rd = ReadDir::new(fs.read_dir(&s("/r/d")).unwrap());
    rd.close();
    assert!(rd.next(&fs).is_none());
}

#[test]
fn records_and_their_marks() {
    let fs = tree();
    let ancestors: Vec<Ancestor> = Vec::new();
    let mut opts = options();
    opts.content_order = ContentOrder::DirsFirst;
    opts.content_filter = ContentFilter::FilesOnly;
    let classifier = Classifier { opts: &opts, root_device: None, ancestors: &ancestors };
    let dir = RawDirEntry::from_fsdent(s("/r/d"), &fs);
    let rec = DirEntryRecord::new(dir, &classifier, 1, &fs).unwrap();
    assert!(rec.first_pass);
    assert!(rec.hidden);
    assert!(rec.can_be_yielded());
    let file = RawDirEntry::from_fsdent(s("/r/a"), &fs);
    let rec = DirEntryRecord::new(file, &classifier, 1, &fs).unwrap();
    assert!(!rec.first_pass);
    assert!(!rec.hidden);
    assert!(rec.can_be_yielded());
    let gone = RawDirEntry::from_fsdent(s("/r/gone"), &fs);
    let rec = DirEntryRecord::new(gone, &classifier, 1, &fs).unwrap();
    assert!(!rec.first_pass);
    assert!(!rec.hidden);
    assert!(rec.can_be_yielded());
    assert_eq!(rec.flat, Err(not_found("/r/gone")));

    opts.content_order = ContentOrder::FilesFirst;
    opts.content_filter = ContentFilter::DirsOnly;
    let classifier = Classifier { opts: &opts, root_device: None, ancestors: &ancestors };
    let file = RawDirEntry::from_fsdent(s("/r/a"), &fs);
    let rec = DirEntryRecord::new(file, &classifier, 1, &fs).unwrap();
    assert!(rec.first_pass);
    assert!(rec.hidden);
    assert!(!rec.can_be_yielded());
    opts.content_filter = ContentFilter::SkipAll;
    opts.content_order = ContentOrder::Unordered;
    let classifier = Classifier { opts: &opts, root_device: None, ancestors: &ancestors };
    let dir = RawDirEntry::from_fsdent(s("/r/d"), &fs);
    let rec = DirEntryRecord::new(dir, &classifier, 1, &fs).unwrap();
    assert!(!rec.first_pass);
    assert!(rec.hidden);
    assert!(rec.can_be_yielded());
    assert_eq!(walkdir::dir::get_initial_pass(&opts), DirPass::Entire);
    opts.content_order = ContentOrder::DirsFirst;
    assert_eq!(walkdir::dir::get_initial_pass(&opts), DirPass::First);
}

#[test]
fn classification_follows_links_and_finds_loops() {
    let mut fs = MemFs::new();
    let a = MemNode::dir(s("/a"), 1, 1, vec![s("/a/b")]);
    let b = MemNode::dir(s("/a/b"), 2, 1, vec![s("/a/b/up"), s("/a/b/top")]);
    fs.add(MemNode::symlink(s("/a/b/up"), 3, &b, vec![]));
    fs.add(MemNode::symlink(s("/a/b/top"), 4, &a, vec![]));
    fs.add(MemNode::dir(s("/other"), 9, 2, vec![]));
    let raw_a = RawDirEntry::from_path(&s("/a"), &fs);
    assert!(raw_a.is_err());
    fs.add(a);
    fs.add(b);
    let raw_a = RawDirEntry::from_path(&s("/a"), &fs).unwrap();
    let raw_b = RawDirEntry::from_fsdent(s("/a/b"), &fs).unwrap();
    let ancestors =
        vec![Ancestor::new(&raw_a, &fs).unwrap(), Ancestor::new(&raw_b, &fs).unwrap()];
    assert!(ancestors[0].is_same(&SameFileHandle { dev: 1, ino: 1 }));
    assert!(!ancestors[0].is_same(&SameFileHandle { dev: 1, ino: 2 }));
    let mut opts = options();
    opts.follow_links = true;
    let classifier = Classifier { opts: &opts, root_device: Some(1), ancestors: &ancestors };
    assert_eq!(classifier.check_loop(2, &s("/a/b/up"), &fs), Ok(Some(1)));
    assert_eq!(classifier.check_loop(2, &s("/a/b/top"), &fs), Ok(Some(0)));
    assert_eq!(classifier.check_loop(2, &s("/other"), &fs), Ok(None));
    // An entry is checked against the directories above it alone.
    assert_eq!(classifier.check_loop(1, &s("/a/b/up"), &fs), Ok(None));
    assert_eq!(classifier.check_loop(0, &s("/a/b/top"), &fs), Ok(None));
    assert!(classifier.check_loop(2, &s("/missing"), &fs).is_err());

    let up = RawDirEntry::from_fsdent(s("/a/b/up"), &fs).unwrap();
    let flat = classifier.process_rawdent(up, 2, &fs).unwrap().unwrap();
    assert!(flat.is_dir);
    assert_eq!(flat.loop_link, Some(1));
    assert!(flat.raw.follow_link);
    assert_eq!(flat.clone(), flat);

    opts.follow_links = false;
    let classifier = Classifier { opts: &opts, root_device: Some(1), ancestors: &ancestors };
    let up = RawDirEntry::from_fsdent(s("/a/b/up"), &fs).unwrap();
    let flat = classifier.process_rawdent(up, 2, &fs).unwrap().unwrap();
    assert!(!flat.is_dir);
    assert_eq!(flat.loop_link, None);
    assert!(!flat.raw.follow_link);

    opts.same_file_system = true;
    let classifier = Classifier { opts: &opts, root_device: Some(1), ancestors: &ancestors };
    let other = RawDirEntry::from_fsdent(s("/other"), &fs).unwrap();
    assert_eq!(classifier.is_same_file_system(&other, &fs), Ok(false));
    assert_eq!(classifier.is_same_file_system(&raw_b, &fs), Ok(true));
    assert!(classifier.process_rawdent(other, 1, &fs).is_none());
    // The root is never checked against its own device.
    let other = RawDirEntry::from_fsdent(s("/other"), &fs).unwrap();
    assert!(classifier.process_rawdent(other, 0, &fs).is_some());
}

#[test]
fn dir_content_reads_as_needed_and_keeps_what_it_read() {
    let fs = tree();
    let ancestors: Vec<Ancestor> = Vec::new();
    let opts = options();
    let classifier = Classifier { opts: &opts, root_device: None, ancestors: &ancestors };
    let root = RawDirEntry::from_path(&s("/r"), &fs).unwrap();
    let mut content: DirContent<MemFs> = DirContent::new(&root, &fs);
    assert!(content.take_open_error().is_none());
    assert_eq!(content.get_next_rec(&classifier, 1, &fs), Some((false, true)));
    assert_eq!(content.content.len(), 1);
    assert_eq!(content.current_pos, Some(0));
    {
        let cur = content.get_current_rec(1).ok().unwrap();
        assert_eq!(cur.path(), "/r/b");
        assert!(!cur.is_dir());
        assert!(!cur.hidden());
        assert_eq!(cur.loop_link(), None);
        assert_eq!(cur.as_flat().raw.path, "/r/b");
        let item = cur.make_item(&DirEntryContentProcessor {}).unwrap();
        assert_eq!(item.depth(), 1);
        assert_eq!(item.path(), "/r/b");
    }
    content.load_all(&classifier, 1, &fs);
    assert_eq!(content.content.len(), 4);
    assert_eq!(content.current_pos, Some(0));
    assert!(matches!(content.rd, ReadDir::Closed));
    let flats = content.iter_content_flats();
    let paths: Vec<&str> = flats.iter().map(|f| f.raw.path.as_str()).collect();
    assert_eq!(paths, vec!["/r/b", "/r/d", "/r/a"]);
    assert_eq!(content.get_next_rec(&classifier, 1, &fs), Some((false, true)));
    assert_eq!(content.get_next_rec(&classifier, 1, &fs), Some((false, true)));
    assert_eq!(content.get_next_rec(&classifier, 1, &fs), Some((false, true)));
    {
        let err = content.get_current_rec(1).err().unwrap();
        assert_eq!(err.into_error(), Error { depth: 1, inner: not_found("/r/gone") });
    }
    assert_eq!(content.get_next_rec(&classifier, 1, &fs), None);
    assert_eq!(content.current_pos, Some(3));
    content.rewind();
    assert_eq!(content.current_pos, None);
    assert_eq!(content.get_next_rec(&classifier, 1, &fs), Some((false, true)));
    assert_eq!(content.current_pos, Some(0));

    content.sort_content_and_rewind(&ByPath {});
    let flats = content.iter_content_flats();
    let paths: Vec<&str> = flats.iter().map(|f| f.raw.path.as_str()).collect();
    assert_eq!(paths, vec!["/r/a", "/r/b", "/r/d"]);
    assert!(content.content[3].flat.is_err());
    assert_eq!(content.current_pos, None);

    let mut sorted: DirContent<MemFs> = DirContent::new(&root, &fs);
    sorted.load_all_and_sort(&classifier, 1, &ByPath {}, &fs);
    assert_eq!(sorted.content, content.content);

    let file = RawDirEntry::from_fsdent(s("/r/a"), &fs).unwrap();
    let mut failed: DirContent<MemFs> = DirContent::new(&file, &fs);
    assert!(matches!(failed.rd, ReadDir::Error(Some(_))));
    let e = failed.take_open_error().unwrap();
    assert_eq!(
        e,
        ErrorInner::Io {
            path: Some(s("/r/a")),
            err: IoError { kind: IoErrorKind::NotADirectory, code: 20 }
        }
    );
    assert!(failed.take_open_error().is_none());
    assert_eq!(failed.get_next_rec(&classifier, 1, &fs), None);
    let mut once: DirContent<MemFs> = DirContent::new_once(&s("/r"), &fs).unwrap();
    assert_eq!(once.get_next_rec(&classifier, 0, &fs), Some((false, true)));
    assert_eq!(once.get_next_rec(&classifier, 0, &fs), None);
    assert!(DirContent::<MemFs>::new_once(&s("/void"), &fs).is_err());
}

/// Orders entries by the length of their paths.
struct ByLength;

impl Sorter for ByLength {
    fn precedes(&self, _a: &RawDirEntry, _b: &RawDirEntry) -> bool {
        unreachable!()
    }

    fn compare(&self, a: &RawDirEntry, b: &RawDirEntry) -> Ordering {
        a.path.len().cmp(&b.path.len())
    }
}

#[test]
fn sorting_is_stable_and_puts_errors_last() {
    let rec = |p: &str| DirEntryRecord {
        flat: Ok(FlatDirEntry {
            raw: RawDirEntry {
                path: s(p),
                metadata: Metadata { file_type: FileType::File, ino: 0, len: 0 },
                follow_link: false,
                kind: RawDirEntryKind::DirEntry,
            },
            is_dir: false,
            loop_link: None,
        }),
        first_pass: false,
        hidden: false,
    };
    let err = |p: &str| DirEntryRecord { flat: Err(not_found(p)), first_pass: false, hidden: false };
    let mut v =
        vec![err("e1"), rec("ccc"), rec("bb"), err("e2"), rec("a"), rec("dd"), rec("eee"), rec("f")];
    walkdir::sort::sort_content(&mut v, &ByLength);
    let expected =
        vec![rec("a"), rec("f"), rec("bb"), rec("dd"), rec("ccc"), rec("eee"), err("e1"), err("e2")];
    assert_eq!(v, expected);
    walkdir::sort::sort_content(&mut v, &ByLength);
    assert_eq!(v, expected);
    assert!(walkdir::sort::record_le(&ByLength, &rec("a"), &rec("bb")));
    assert!(walkdir::sort::record_le(&ByLength, &rec("aa"), &rec("bb")));
    assert!(!walkdir::sort::record_le(&ByLength, &rec("aaa"), &rec("bb")));
    assert!(walkdir::sort::record_le(&ByLength, &rec("aaa"), &err("x")));
    assert!(!walkdir::sort::record_le(&ByLength, &err("x"), &rec("aaa")));
    assert!(walkdir::sort::record_le(&ByLength, &err("x"), &err("y")));
    let mut empty: Vec<DirEntryRecord> = Vec::new();
    walkdir::sort::sort_content(&mut empty, &ByLength);
    assert!(empty.is_empty());
}

#[test]
fn dir_state_goes_over_its_directory_in_passes() {
    let fs = tree();
    let ancestors: Vec<Ancestor> = Vec::new();
    let mut opts = options();
    opts.content_order = ContentOrder::DirsFirst;
    let classifier = Classifier { opts: &opts, root_device: None, ancestors: &ancestors };
    let root = RawDirEntry::from_path(&s("/r"), &fs).unwrap();
    let no_sorter: Option<ByPath> = None;
    let mut state: DirState<MemFs> = DirState::new(&root, 1, &classifier, &no_sorter, &fs).unwrap();
    assert_eq!(state.depth(), 1);
    assert_eq!(state.position, DirPosition::BeforeContent);
    assert_eq!(state.pass, DirPass::First);
    assert!(matches!(state.get_current_position(), Position::BeforeContent(())));
    let mut seen = Vec::new();
    loop {
        state.next_position(&classifier, &fs);
        match state.get_current_position() {
            Position::Entry(f) => seen.push(f.path().clone()),
            Position::Error(e) => seen.push(format!("{:?}", e.into_error().path())),
            Position::AfterContent => break,
            Position::BeforeContent(_) => panic!("went back"),
        }
    }
    assert_eq!(seen, vec!["/r/d", "/r/b", "/r/a", "Some(\"/r/gone\")"]);
    assert_eq!(state.pass, DirPass::Second);
    // Behind the content nothing happens.
    state.next_position(&classifier, &fs);
    assert_eq!(state.position, DirPosition::AfterContent);

    let sorter = Some(ByPath {});
    opts.content_order = ContentOrder::FilesFirst;
    let classifier = Classifier { opts: &opts, root_device: None, ancestors: &ancestors };
    let mut state: DirState<MemFs> = DirState::new(&root, 1, &classifier, &sorter, &fs).unwrap();
    assert!(matches!(state.content.rd, ReadDir::Closed));
    let mut seen = Vec::new();
    loop {
        state.next_position(&classifier, &fs);
        match state.get_current_position() {
            Position::Entry(f) => seen.push(f.path().clone()),
            Position::Error(_) => seen.push(s("error")),
            Position::AfterContent => break,
            Position::BeforeContent(_) => panic!("went back"),
        }
    }
    assert_eq!(seen, vec!["/r/a", "/r/b", "/r/d", "error"]);

    opts.content_order = ContentOrder::Unordered;
    let classifier = Classifier { opts: &opts, root_device: None, ancestors: &ancestors };
    let mut state: DirState<MemFs> = DirState::new(&root, 1, &classifier, &no_sorter, &fs).unwrap();
    state.next_position(&classifier, &fs);
    assert_eq!(state.position, DirPosition::Entry);
    state.load_all(&classifier, &fs);
    assert_eq!(state.content.content.len(), 4);
    assert_eq!(state.content.current_pos, Some(0));
    let all = state.clone_all_content(
        ContentFilter::NoFilter,
        &classifier,
        &DirEntryContentProcessor {},
        &fs,
    );
    assert_eq!(all.len(), 3);
    state.skip_all();
    assert_eq!(state.position, DirPosition::AfterContent);
    assert!(matches!(state.get_current_position(), Position::AfterContent));

    let file = RawDirEntry::from_fsdent(s("/r/a"), &fs).unwrap();
    assert!(DirState::<MemFs>::new(&file, 2, &classifier, &no_sorter, &fs).is_err());
    assert!(DirState::<MemFs>::new_once(&s("/void"), 0, &classifier, &no_sorter, &fs).is_err());
    let mut once =
        DirState::<MemFs>::new_once(&s("/r/a"), 0, &classifier, &no_sorter, &fs).unwrap();
    once.next_position(&classifier, &fs);
    assert!(matches!(once.get_current_position(), Position::Entry(_)));
    once.next_position(&classifier, &fs);
    assert!(matches!(once.get_current_position(), Position::AfterContent));
    let rd = ReadDir::new(fs.read_dir(&s("/r/d")).unwrap());
    let mut state = DirState::from_read_dir(rd, 2, &classifier, &no_sorter, &fs);
    state.next_position(&classifier, &fs);
    match state.get_current_position() {
        Position::Entry(f) => assert_eq!(f.path(), "/r/d/g"),
        _ => panic!("no entry"),
    };
}

#[test]
fn errors_and_small_helpers() {
    let io = IoError { kind: IoErrorKind::Other, code: 7 };
    assert_eq!(ErrorInner::from_io(io), ErrorInner::Io { path: None, err: io });
    assert_eq!(ErrorInner::from_path(s("/p"), io), ErrorInner::Io { path: Some(s("/p")), err: io });
    assert_eq!(walkdir::error::into_io_err(io), ErrorInner::from_io(io));
    assert_eq!(walkdir::error::into_path_err(&s("/p"), io), ErrorInner::from_path(s("/p"), io));
    let l = ErrorInner::from_loop(&s("/a"), &s("/a/b/l"));
    assert_eq!(l, ErrorInner::Loop { ancestor: s("/a"), child: s("/a/b/l") });
    let e = Error::from_inner(l.clone(), 3);
    assert_eq!(e.depth(), 3);
    assert_eq!(e.path().map(|p| p.as_str()), Some("/a/b/l"));
    assert_eq!(e.loop_ancestor().map(|p| p.as_str()), Some("/a"));
    assert_eq!(e.io_error(), None);
    assert_eq!(e.clone(), e);
    assert_eq!(e.into_io_error(), None);
    let e = Error::from_inner(ErrorInner::from_io(io), 0);
    assert_eq!(e.path(), None);
    assert_eq!(e.io_error(), Some(io));
    assert_eq!(5u8.into_some(), Some(5u8));
    let ok: Result<u8, ()> = 5u8.into_ok();
    assert_eq!(ok, Ok(5));
    let err: Result<(), u8> = 5u8.into_err();
    assert_eq!(err, Err(5));
    let md = Metadata { file_type: FileType::Symlink, ino: 1, len: 2 };
    assert!(md.is_symlink());
    assert!(!md.is_dir());
    assert_eq!(md.file_type(), FileType::Symlink);
    assert!(FileType::File.is_file());
    let o = WalkDirOptionsImmut::default();
    assert_eq!(o.max_open, 10);
    assert_eq!(o.max_depth, usize::MAX);
}
