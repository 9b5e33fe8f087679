use walkdir::{
    ByPath, ClassicWalkDirIter, DirEntry, DirEntryContentProcessor, Error, MemFs, MemNode,
    Position, WalkDir, WalkDirIter,
};

type Step = Position<Option<DirEntry>, DirEntry, Error>;

fn s(x: &str) -> String {
    x.to_string()
}

/// /t/a/{x/{p,q},y}, /t/b/{z}, /t/c
fn tree() -> MemFs {
    let mut fs = MemFs::new();
    fs.add(MemNode::dir(s("/t"), 1, 1, vec![s("/t/a"), s("/t/b"), s("/t/c")]));
    fs.add(MemNode::dir(s("/t/a"), 2, 1, vec![s("/t/a/x"), s("/t/a/y")]));
    fs.add(MemNode::dir(s("/t/a/x"), 3, 1, vec![s("/t/a/x/p"), s("/t/a/x/q")]));
    fs.add(MemNode::file(s("/t/a/x/p"), 4, 1, 1));
    fs.add(MemNode::file(s("/t/a/x/q"), 5, 1, 1));
    fs.add(MemNode::file(s("/t/a/y"), 6, 1, 1));
    fs.add(MemNode::dir(s("/t/b"), 7, 1, vec![s("/t/b/z")]));
    fs.add(MemNode::file(s("/t/b/z"), 8, 1, 1));
    fs.add(MemNode::file(s("/t/c"), 9, 1, 1));
    fs
}

fn show(step: &Step) -> String {
    match step {
        Position::BeforeContent(Some(d)) => format!("before {}", d.path()),
        Position::BeforeContent(None) => format!("before ?"),
        Position::Entry(d) => format!("entry {}", d.path()),
        Position::Error(e) => format!("error {:?}", e.path()),
        Position::AfterContent => format!("after"),
    }
}

fn walk() -> WalkDir<MemFs, DirEntryContentProcessor, ByPath> {
    WalkDir::new("/t", tree())
}

#[test]
fn classic_iterator_yields_entries_and_errors_alone() {
    let mut it = walk().into_classic();
    let mut n = 0;
    while let Some(r) = it.next() {
        assert!(r.is_ok());
        n += 1;
    }
    assert_eq!(n, 9);
    assert!(it.next().is_none());

    let mut fs = tree();
    fs.add(MemNode::dir(s("/e"), 30, 1, vec![s("/e/missing"), s("/t/c")]));
    let mut it = WalkDir::new("/e", fs).into_classic();
    assert_eq!(it.next().unwrap().unwrap().path(), "/e");
    let err = it.next().unwrap().unwrap_err();
    assert_eq!(err.path().map(|p| p.as_str()), Some("/e/missing"));
    assert_eq!(err.depth(), 1);
    assert_eq!(it.next().unwrap().unwrap().path(), "/t/c");
    assert!(it.next().is_none());
}

#[test]
fn filter_entry_drops_rejected_files() {
    let mut it = walk().into_iter().filter_entry(|d: &DirEntry| !d.path().ends_with("y"));
    let mut out = Vec::new();
    while let Some(step) = it.next() {
        out.push(show(&step));
    }
    assert_eq!(
        out,
        vec![
            "entry /t",
            "before /t",
            "entry /t/a",
            "before /t/a",
            "entry /t/a/x",
            "before /t/a/x",
            "entry /t/a/x/p",
            "entry /t/a/x/q",
            "after",
            "after",
            "entry /t/b",
            "before /t/b",
            "entry /t/b/z",
            "after",
            "entry /t/c",
            "after",
        ]
    );
}

#[test]
fn filter_entry_skips_the_directory_at_which_the_walk_stands() {
    // The rejected directory /t/a/x is never gone into; with it goes what
    // is left of the directory that holds it.
    let mut it = walk().into_iter().filter_entry(|d: &DirEntry| !d.path().ends_with("x"));
    let mut out = Vec::new();
    while let Some(step) = it.next() {
        out.push(show(&step));
    }
    assert_eq!(
        out,
        vec![
            "entry /t",
            "before /t",
            "entry /t/a",
            "before /t/a",
            "after",
            "entry /t/b",
            "before /t/b",
            "entry /t/b/z",
            "after",
            "entry /t/c",
            "after",
        ]
    );
}

#[test]
fn filter_entry_that_rejects_the_root_yields_nothing() {
    let mut it = walk().into_iter().filter_entry(|_d: &DirEntry| false);
    assert!(it.next().is_none());
    assert!(it.next().is_none());
}

#[test]
fn filters_in_a_row_must_both_pass() {
    let mut it = walk()
        .into_iter()
        .filter_entry(|d: &DirEntry| !d.path().ends_with("p"))
        .filter_entry(|d: &DirEntry| !d.path().ends_with("z"))
        .into_classic();
    let mut out = Vec::new();
    while let Some(r) = it.next() {
        out.push(r.unwrap().into_path());
    }
    assert_eq!(out, vec!["/t", "/t/a", "/t/a/x", "/t/a/x/q", "/t/a/y", "/t/b", "/t/c"]);
}

#[test]
fn classic_filter_entry() {
    let mut it = walk().into_classic().filter_entry(|d: &DirEntry| d.path() != "/t/b");
    let mut out = Vec::new();
    while let Some(r) = it.next() {
        out.push(r.unwrap().into_path());
    }
    // /t/b is rejected; /t/c, which follows it in /t, is skipped with it.
    assert_eq!(out, vec!["/t", "/t/a", "/t/a/x", "/t/a/x/p", "/t/a/x/q", "/t/a/y"]);

    let mut it = walk()
        .into_classic()
        .filter_entry(|d: &DirEntry| d.path() != "/t/a/y")
        .filter_entry(|d: &DirEntry| d.path() != "/t/c");
    let mut out = Vec::new();
    while let Some(r) = it.next() {
        out.push(r.unwrap().into_path());
    }
    assert_eq!(out, vec!["/t", "/t/a", "/t/a/x", "/t/a/x/p", "/t/a/x/q", "/t/b", "/t/b/z"]);
}

#[test]
fn classic_filter_lets_errors_through() {
    let mut fs = tree();
    fs.add(MemNode::dir(s("/e"), 30, 1, vec![s("/e/missing"), s("/t/c")]));
    let mut it = WalkDir::new("/e", fs).into_classic().filter_entry(|d: &DirEntry| d.depth() == 0);
    assert_eq!(it.next().unwrap().unwrap().path(), "/e");
    assert!(it.next().unwrap().is_err());
    assert!(it.next().is_none());
}

#[test]
fn skip_current_dir_through_the_adapters() {
    let mut it = walk().into_classic();
    let mut out = Vec::new();
    while let Some(r) = it.next() {
        let d = r.unwrap();
        if d.path() == "/t/a/x/p" {
            it.skip_current_dir();
        }
        out.push(d.into_path());
    }
    assert_eq!(out, vec!["/t", "/t/a", "/t/a/x", "/t/a/x/p", "/t/a/y", "/t/b", "/t/b/z", "/t/c"]);

    let mut it = walk().into_iter().filter_entry(|_d: &DirEntry| true);
    let mut out = Vec::new();
    while let Some(step) = it.next() {
        let line = show(&step);
        if line == "before /t/a" {
            it.skip_current_dir();
        }
        out.push(line);
    }
    assert_eq!(
        out,
        vec![
            "entry /t",
            "before /t",
            "entry /t/a",
            "before /t/a",
            "after",
            "entry /t/b",
            "before /t/b",
            "entry /t/b/z",
            "after",
            "entry /t/c",
            "after",
        ]
    );

    let mut it = walk().into_classic().filter_entry(|_d: &DirEntry| true);
    let mut out = Vec::new();
    while let Some(r) = it.next() {
        let d = r.unwrap();
        if d.path() == "/t/b" {
            it.skip_current_dir();
        }
        out.push(d.into_path());
    }
    assert_eq!(out, vec!["/t", "/t/a", "/t/a/x", "/t/a/x/p", "/t/a/x/q", "/t/a/y", "/t/b"]);
}

fn count_steps<I: WalkDirIter<DirEntryContentProcessor>>(mut it: I) -> usize {
    let mut n = 0;
    while let Some(_) = it.next_step() {
        n += 1;
    }
    n
}

fn count_entries<I: ClassicWalkDirIter<DirEntryContentProcessor>>(mut it: I) -> usize {
    let mut n = 0;
    while let Some(_) = it.next_entry() {
        n += 1;
    }
    n
}

#[test]
fn iterators_through_their_common_traits() {
    assert_eq!(count_steps(walk().into_iter()), 17);
    assert_eq!(count_steps(walk().into_iter().filter_entry(|d: &DirEntry| d.depth() < 2)), 10);
    assert_eq!(count_entries(walk().into_classic()), 9);
    assert_eq!(count_entries(walk().into_classic().filter_entry(|d: &DirEntry| d.depth() < 2)), 4);
    let mut it = walk().into_iter();
    it.next_step();
    it.next_step();
    it.skip_dir();
    assert!(matches!(it.next_step(), Some(Position::AfterContent)));
    assert!(it.next_step().is_none());
}
