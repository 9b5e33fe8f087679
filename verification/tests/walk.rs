use walkdir::{
    ByPath, ContentFilter, ContentOrder, DirEntry, DirEntryContentProcessor, Error, ErrorInner,
    FileType, IoError, IoErrorKind, MemFs, MemNode, Metadata, Position, ReadDir, SameFileHandle, WalkDir,
};

type Step = Position<Option<DirEntry>, DirEntry, Error>;
type Walk = WalkDir<MemFs, DirEntryContentProcessor, ByPath>;

fn s(x: &str) -> String {
    x.to_string()
}

/// `/r` holds the file `/r/f` and the directory `/r/d`, which holds `/r/d/g`.
fn small_tree() -> MemFs {
    let mut fs = MemFs::new();
    fs.add(MemNode::dir(s("/r"), 1, 1, vec![s("/r/f"), s("/r/d")]));
    fs.add(MemNode::file(s("/r/f"), 2, 10, 1));
    fs.add(MemNode::dir(s("/r/d"), 3, 1, vec![s("/r/d/g")]));
    fs.add(MemNode::file(s("/r/d/g"), 4, 5, 1));
    fs
}

/// Three levels with siblings at each:
/// /t/a/{x/{p,q},y}, /t/b/{z}, /t/c
fn deep_tree() -> MemFs {
    let mut fs = MemFs::new();
    fs.add(MemNode::dir(s("/t"), 1, 1, vec![s("/t/a"), s("/t/b"), s("/t/c")]));
    fs.add(MemNode::dir(s("/t/a"), 2, 1, vec![s("/t/a/x"), s("/t/a/y")]));
    fs.add(MemNode::dir(s("/t/a/x"), 3, 1, vec![s("/t/a/x/p"), s("/t/a/x/q")]));
    fs.add(MemNode::file(s("/t/a/x/p"), 4, 1, 1));
    fs.add(MemNode::file(s("/t/a/x/q"), 5, 1, 1));
    fs.add(MemNode::file(s("/t/a/y"), 6, 1, 1));
    fs.add(MemNode::dir(s("/t/b"), 7, 1, vec![s("/t/b/z")]));
    fs.add(MemNode::file(s("/t/b/z"), 8, 1, 1));
    fs.add(MemNode::file(s("/t/c"), 9, 1, 1));
    fs
}

fn show(step: &Step) -> String {
    match step {
        Position::BeforeContent(Some(d)) => format!("before {}", d.path()),
        Position::BeforeContent(None) => format!("before ?"),
        Position::Entry(d) => format!("entry {} @{}", d.path(), d.depth()),
        Position::Error(e) => match &e.inner {
            ErrorInner::Io { path, err } => {
                format!("error io {:?} {:?} @{}", path, err.kind, e.depth())
            }
            ErrorInner::Loop { ancestor, child } => {
                format!("error loop {} -> {} @{}", child, ancestor, e.depth())
            }
        },
        Position::AfterContent => format!("after"),
    }
}

fn run(walk: Walk) -> Vec<String> {
    let mut it = walk.into_iter();
    let mut out = Vec::new();
    loop {
        match it.next() {
            Some(step) => out.push(show(&step)),
            None => break,
        }
        assert!(out.len() < 10_000);
    }
    assert!(it.next().is_none());
    assert!(it.next().is_none());
    out
}

#[test]
fn scenario_small_tree_default_options() {
    let got = run(WalkDir::new("/r", small_tree()));
    assert_eq!(
        got,
        vec![
            "entry /r @0",
            "before /r",
            "entry /r/f @1",
            "entry /r/d @1",
            "before /r/d",
            "entry /r/d/g @2",
            "after",
            "after",
        ]
    );
}

#[test]
fn default_options_visit_every_entry_once_in_preorder() {
    let mut it = WalkDir::new("/t", deep_tree()).into_classic();
    let mut paths = Vec::new();
    while let Some(r) = it.next() {
        paths.push(r.unwrap().into_path());
    }
    assert_eq!(
        paths,
        vec![
            "/t", "/t/a", "/t/a/x", "/t/a/x/p", "/t/a/x/q", "/t/a/y", "/t/b", "/t/b/z", "/t/c"
        ]
    );
}

#[test]
fn contents_first_yields_directories_after_their_content() {
    let got = run(WalkDir::new("/r", small_tree()).contents_first(true));
    assert_eq!(
        got,
        vec![
            "before /r",
            "entry /r/f @1",
            "before /r/d",
            "entry /r/d/g @2",
            "after",
            "entry /r/d @1",
            "after",
            "entry /r @0",
        ]
    );
    let mut it = WalkDir::new("/t", deep_tree()).contents_first(true).into_classic();
    let mut paths = Vec::new();
    while let Some(r) = it.next() {
        paths.push(r.unwrap().into_path());
    }
    assert_eq!(
        paths,
        vec![
            "/t/a/x/p", "/t/a/x/q", "/t/a/x", "/t/a/y", "/t/a", "/t/b/z", "/t/b", "/t/c", "/t"
        ]
    );
}

#[test]
fn depth_limits_bound_what_is_yielded() {
    let got = run(WalkDir::new("/t", deep_tree()).min_depth(1).max_depth(2));
    assert_eq!(
        got,
        vec![
            "before /t",
            "entry /t/a @1",
            "before /t/a",
            "entry /t/a/x @2",
            "entry /t/a/y @2",
            "after",
            "entry /t/b @1",
            "before /t/b",
            "entry /t/b/z @2",
            "after",
            "entry /t/c @1",
            "after",
        ]
    );
    let got = run(WalkDir::new("/t", deep_tree()).max_depth(0));
    assert_eq!(got, vec!["entry /t @0"]);
}

#[test]
fn depth_limits_are_clamped_against_each_other() {
    let w: Walk = WalkDir::new("/t", deep_tree()).max_depth(2).min_depth(5);
    assert_eq!(w.opts.immut.min_depth, 2);
    assert_eq!(w.opts.immut.max_depth, 2);
    let w: Walk = WalkDir::new("/t", deep_tree()).min_depth(3).max_depth(1);
    assert_eq!(w.opts.immut.min_depth, 3);
    assert_eq!(w.opts.immut.max_depth, 3);
}

#[test]
fn builder_defaults_and_setters() {
    let w: Walk = WalkDir::new("/t", deep_tree());
    assert!(!w.opts.immut.same_file_system);
    assert!(!w.opts.immut.follow_links);
    assert!(!w.opts.immut.yield_loop_links);
    assert_eq!(w.opts.immut.max_open, 10);
    assert_eq!(w.opts.immut.min_depth, 0);
    assert_eq!(w.opts.immut.max_depth, usize::MAX);
    assert!(!w.opts.immut.contents_first);
    assert_eq!(w.opts.immut.content_filter, ContentFilter::NoFilter);
    assert_eq!(w.opts.immut.content_order, ContentOrder::Unordered);
    assert!(w.opts.sorter.is_none());
    assert_eq!(w.root, "/t");
    let w = w
        .same_file_system(true)
        .follow_links(true)
        .yield_loop_links(true)
        .max_open(0)
        .contents_first(true)
        .content_filter(ContentFilter::DirsOnly)
        .content_order(ContentOrder::FilesFirst)
        .sort_by(ByPath {});
    assert!(w.opts.immut.same_file_system);
    assert!(w.opts.immut.follow_links);
    assert!(w.opts.immut.yield_loop_links);
    assert_eq!(w.opts.immut.max_open, 1);
    assert!(w.opts.immut.contents_first);
    assert_eq!(w.opts.immut.content_filter, ContentFilter::DirsOnly);
    assert_eq!(w.opts.immut.content_order, ContentOrder::FilesFirst);
    assert!(w.opts.sorter.is_some());
    let w = w.max_open(7);
    assert_eq!(w.opts.immut.max_open, 7);
}

#[test]
fn dirs_first_and_files_first() {
    let got = run(WalkDir::new("/r", small_tree()).content_order(ContentOrder::DirsFirst));
    assert_eq!(
        got,
        vec![
            "entry /r @0",
            "before /r",
            "entry /r/d @1",
            "before /r/d",
            "entry /r/d/g @2",
            "after",
            "entry /r/f @1",
            "after",
        ]
    );
    let mut fs = small_tree();
    // A second directory listing with the directory ahead of the file.
    fs.add(MemNode::dir(s("/q"), 10, 1, vec![s("/r/d"), s("/r/f")]));
    let got = run(WalkDir::new("/q", fs).content_order(ContentOrder::FilesFirst));
    assert_eq!(
        got,
        vec![
            "entry /q @0",
            "before /q",
            "entry /r/f @1",
            "entry /r/d @1",
            "before /r/d",
            "entry /r/d/g @2",
            "after",
            "after",
        ]
    );
}

#[test]
fn dirs_first_with_contents_first_pushes_directories_first() {
    let got = run(
        WalkDir::new("/r", small_tree())
            .content_order(ContentOrder::DirsFirst)
            .contents_first(true),
    );
    assert_eq!(
        got,
        vec![
            "before /r",
            "before /r/d",
            "entry /r/d/g @2",
            "after",
            "entry /r/d @1",
            "entry /r/f @1",
            "after",
            "entry /r @0",
        ]
    );
}

#[test]
fn content_filters() {
    let got = run(WalkDir::new("/r", small_tree()).content_filter(ContentFilter::FilesOnly));
    assert_eq!(
        got,
        vec!["before /r", "entry /r/f @1", "before /r/d", "entry /r/d/g @2", "after", "after"]
    );
    let got = run(WalkDir::new("/r", small_tree()).content_filter(ContentFilter::DirsOnly));
    assert_eq!(
        got,
        vec!["entry /r @0", "before /r", "entry /r/d @1", "before /r/d", "after", "after"]
    );
    let got = run(WalkDir::new("/r", small_tree()).content_filter(ContentFilter::SkipAll));
    assert_eq!(got, vec!["before /r", "before /r/d", "after", "after"]);
}

#[test]
fn sorted_walk_visits_siblings_in_order() {
    let mut fs = MemFs::new();
    fs.add(MemNode::dir(s("/s"), 1, 1, vec![s("/s/c"), s("/s/a"), s("/s/b")]));
    fs.add(MemNode::file(s("/s/a"), 2, 1, 1));
    fs.add(MemNode::dir(s("/s/b"), 3, 1, vec![s("/s/b/2"), s("/s/b/1")]));
    fs.add(MemNode::file(s("/s/b/1"), 4, 1, 1));
    fs.add(MemNode::file(s("/s/b/2"), 5, 1, 1));
    fs.add(MemNode::file(s("/s/c"), 6, 1, 1));
    let expected = vec![
        "entry /s @0",
        "before /s",
        "entry /s/a @1",
        "entry /s/b @1",
        "before /s/b",
        "entry /s/b/1 @2",
        "entry /s/b/2 @2",
        "after",
        "entry /s/c @1",
        "after",
    ];
    let run_sorted = |fs: MemFs| {
        let mut it = WalkDir::new("/s", fs).sort_by(ByPath {}).into_iter();
        let mut out = Vec::new();
        while let Some(step) = it.next() {
            out.push(show(&step));
        }
        out
    };
    let mut fs2 = MemFs::new();
    for n in 0..fs.nodes.len() {
        let node = &fs.nodes[n];
        fs2.add(MemNode {
            path: node.path.clone(),
            lstat: node.lstat,
            stat: node.stat,
            entries: node.entries.clone(),
            handle: node.handle,
            device: node.device,
        });
    }
    let first = run_sorted(fs);
    assert_eq!(first, expected);
    // The same tree and sorter give the same sequence again.
    assert_eq!(run_sorted(fs2), first);
}

#[test]
fn skip_current_dir_after_entering_a_directory() {
    let mut it = WalkDir::new("/t", deep_tree()).into_iter();
    let mut out = Vec::new();
    while let Some(step) = it.next() {
        let line = show(&step);
        let entered_a = line == "before /t/a";
        out.push(line);
        if entered_a {
            it.skip_current_dir();
        }
    }
    assert_eq!(
        out,
        vec![
            "entry /t @0",
            "before /t",
            "entry /t/a @1",
            "before /t/a",
            "after",
            "entry /t/b @1",
            "before /t/b",
            "entry /t/b/z @2",
            "after",
            "entry /t/c @1",
            "after",
        ]
    );
}

#[test]
fn skip_current_dir_after_an_entry_skips_the_directory_that_holds_it() {
    let mut it = WalkDir::new("/t", deep_tree()).into_iter();
    let mut out = Vec::new();
    while let Some(step) = it.next() {
        let line = show(&step);
        let at_a = line == "entry /t/a @1";
        out.push(line);
        if at_a {
            it.skip_current_dir();
        }
    }
    assert_eq!(out, vec!["entry /t @0", "before /t", "entry /t/a @1", "after"]);
}

#[test]
fn skip_current_dir_before_the_first_step_changes_nothing() {
    let mut it = WalkDir::new("/r", small_tree()).into_iter();
    it.skip_current_dir();
    assert_eq!(show(&it.next().unwrap()), "entry /r @0");
}

fn loop_tree() -> MemFs {
    let mut fs = MemFs::new();
    let a = MemNode::dir(s("/a"), 1, 1, vec![s("/a/link"), s("/a/f")]);
    let link = MemNode::symlink(s("/a/link"), 2, &a, vec![s("/a/link/link"), s("/a/link/f")]);
    fs.add(a);
    fs.add(link);
    fs.add(MemNode::file(s("/a/f"), 3, 1, 1));
    fs
}

#[test]
fn symlink_loop_is_reported_once_and_not_followed() {
    let got = run(WalkDir::new("/a", loop_tree()).follow_links(true));
    assert_eq!(
        got,
        vec![
            "entry /a @0",
            "before /a",
            "error loop /a/link -> /a @1",
            "entry /a/f @1",
            "after",
        ]
    );
}

#[test]
fn symlink_loop_is_yielded_as_a_leaf_when_asked_for() {
    let got = run(WalkDir::new("/a", loop_tree()).follow_links(true).yield_loop_links(true));
    assert_eq!(
        got,
        vec!["entry /a @0", "before /a", "entry /a/link @1", "entry /a/f @1", "after"]
    );
    let mut it = WalkDir::new("/a", loop_tree())
        .follow_links(true)
        .yield_loop_links(true)
        .into_classic();
    it.next();
    let link = it.next().unwrap().unwrap();
    assert_eq!(link.path(), "/a/link");
    assert_eq!(link.loop_link(), Some(0));
    assert!(link.path_is_symlink());
    assert!(link.is_dir());
    assert_eq!(link.file_type(), FileType::Dir);
}

#[test]
fn symlink_loop_is_reported_with_a_sorter_too() {
    let mut it = WalkDir::new("/a", loop_tree()).follow_links(true).sort_by(ByPath {}).into_iter();
    let mut out = Vec::new();
    while let Some(step) = it.next() {
        out.push(show(&step));
    }
    assert_eq!(
        out,
        vec![
            "entry /a @0",
            "before /a",
            "entry /a/f @1",
            "error loop /a/link -> /a @1",
            "after",
        ]
    );
}

#[test]
fn links_are_not_followed_by_default() {
    let got = run(WalkDir::new("/a", loop_tree()));
    assert_eq!(
        got,
        vec!["entry /a @0", "before /a", "entry /a/link @1", "entry /a/f @1", "after"]
    );
    let mut it = WalkDir::new("/a", loop_tree()).into_classic();
    it.next();
    let link = it.next().unwrap().unwrap();
    assert!(link.path_is_symlink());
    assert!(!link.is_dir());
    assert_eq!(link.file_type(), FileType::Symlink);
    assert_eq!(link.loop_link(), None);
}

#[test]
fn followed_link_to_a_directory_elsewhere_is_walked() {
    let mut fs = MemFs::new();
    let target = MemNode::dir(s("/x"), 7, 1, vec![s("/x/k")]);
    fs.add(MemNode::dir(s("/a"), 1, 1, vec![s("/a/l")]));
    fs.add(MemNode::symlink(s("/a/l"), 2, &target, vec![s("/a/l/k")]));
    fs.add(MemNode::file(s("/a/l/k"), 8, 1, 1));
    fs.add(target);
    let got = run(WalkDir::new("/a", fs).follow_links(true));
    assert_eq!(
        got,
        vec![
            "entry /a @0",
            "before /a",
            "entry /a/l @1",
            "before /a/l",
            "entry /a/l/k @2",
            "after",
            "after",
        ]
    );
}

#[test]
fn broken_link_is_an_error_when_links_are_followed() {
    let mut fs = MemFs::new();
    fs.add(MemNode::dir(s("/a"), 1, 1, vec![s("/a/l"), s("/a/f")]));
    fs.add(MemNode::broken_symlink(s("/a/l"), 2));
    fs.add(MemNode::file(s("/a/f"), 3, 1, 1));
    let got = run(WalkDir::new("/a", fs).follow_links(true));
    assert_eq!(
        got,
        vec![
            "entry /a @0",
            "before /a",
            "error io Some(\"/a/l\") NotFound @1",
            "entry /a/f @1",
            "after",
        ]
    );
}

#[test]
fn root_that_is_a_link_is_followed_but_reports_itself_as_a_link() {
    let mut fs = small_tree();
    let r = MemNode::dir(s("/r"), 1, 1, vec![]);
    fs.add(MemNode::symlink(s("/l"), 20, &r, vec![s("/r/f")]));
    let mut it = WalkDir::new("/l", fs).into_iter();
    match it.next().unwrap() {
        Position::Entry(d) => {
            assert_eq!(d.path(), "/l");
            assert!(d.is_dir());
            assert!(d.path_is_symlink());
            assert_eq!(d.file_type(), FileType::Symlink);
            assert_eq!(d.depth(), 0);
        }
        other => panic!("unexpected {:?}", other),
    }
    assert_eq!(show(&it.next().unwrap()), "before /l");
    assert_eq!(show(&it.next().unwrap()), "entry /r/f @1");
    assert_eq!(show(&it.next().unwrap()), "after");
    assert!(it.next().is_none());
}

#[test]
fn root_that_is_a_file_is_the_only_entry() {
    let got = run(WalkDir::new("/r/f", small_tree()));
    assert_eq!(got, vec!["entry /r/f @0"]);
}

#[test]
fn missing_root_is_fatal() {
    let got = run(WalkDir::new("/nowhere", small_tree()));
    assert_eq!(got, vec!["error io Some(\"/nowhere\") NotFound @0"]);
}

#[test]
fn errors_inside_the_tree_do_not_end_the_walk() {
    let mut fs = MemFs::new();
    let denied = IoError { kind: IoErrorKind::PermissionDenied, code: 13 };
    fs.add(MemNode::dir(s("/r"), 1, 1, vec![s("/r/locked"), s("/r/ghost"), s("/r/f")]));
    fs.add(MemNode {
        path: s("/r/locked"),
        lstat: Ok(Metadata { file_type: FileType::Dir, ino: 2, len: 0 }),
        stat: Ok(Metadata { file_type: FileType::Dir, ino: 2, len: 0 }),
        entries: Err(denied),
        handle: Ok(SameFileHandle { dev: 1, ino: 2 }),
        device: Ok(1),
    });
    fs.add(MemNode::file(s("/r/f"), 3, 1, 1));
    let got = run(WalkDir::new("/r", fs));
    assert_eq!(
        got,
        vec![
            "entry /r @0",
            "before /r",
            "entry /r/locked @1",
            "error io Some(\"/r/locked\") PermissionDenied @1",
            "error io Some(\"/r/ghost\") NotFound @1",
            "entry /r/f @1",
            "after",
        ]
    );
}

#[test]
fn a_failure_of_the_stream_is_an_error_without_a_path() {
    let mut fs = MemFs::new();
    let broken = IoError { kind: IoErrorKind::Other, code: 5 };
    fs.add(MemNode {
        path: s("/r"),
        lstat: Ok(Metadata { file_type: FileType::Dir, ino: 1, len: 0 }),
        stat: Ok(Metadata { file_type: FileType::Dir, ino: 1, len: 0 }),
        entries: Ok(vec![Ok(s("/r/f")), Err(broken), Ok(s("/r/g"))]),
        handle: Ok(SameFileHandle { dev: 1, ino: 1 }),
        device: Ok(1),
    });
    fs.add(MemNode::file(s("/r/f"), 2, 1, 1));
    fs.add(MemNode::file(s("/r/g"), 3, 1, 1));
    let got = run(WalkDir::new("/r", fs));
    assert_eq!(
        got,
        vec![
            "entry /r @0",
            "before /r",
            "entry /r/f @1",
            "error io None Other @1",
            "entry /r/g @1",
            "after",
        ]
    );
}

fn two_devices() -> MemFs {
    let mut fs = MemFs::new();
    fs.add(MemNode::dir(s("/r"), 1, 1, vec![s("/r/other"), s("/r/z")]));
    fs.add(MemNode::dir(s("/r/other"), 2, 2, vec![s("/r/other/y")]));
    fs.add(MemNode::file(s("/r/other/y"), 3, 1, 2));
    fs.add(MemNode::file(s("/r/z"), 4, 1, 1));
    fs
}

#[test]
fn same_file_system_passes_over_other_devices() {
    let got = run(WalkDir::new("/r", two_devices()).same_file_system(true));
    assert_eq!(got, vec!["entry /r @0", "before /r", "entry /r/z @1", "after"]);
    let got = run(WalkDir::new("/r", two_devices()));
    assert_eq!(
        got,
        vec![
            "entry /r @0",
            "before /r",
            "entry /r/other @1",
            "before /r/other",
            "entry /r/other/y @2",
            "after",
            "entry /r/z @1",
            "after",
        ]
    );
}

#[test]
fn same_file_system_fails_at_once_where_the_device_is_unknown() {
    let mut fs = MemFs::new();
    let unsupported = IoError { kind: IoErrorKind::Unsupported, code: 0 };
    fs.add(MemNode {
        path: s("/r"),
        lstat: Ok(Metadata { file_type: FileType::Dir, ino: 1, len: 0 }),
        stat: Ok(Metadata { file_type: FileType::Dir, ino: 1, len: 0 }),
        entries: Ok(vec![]),
        handle: Ok(SameFileHandle { dev: 1, ino: 1 }),
        device: Err(unsupported),
    });
    let got = run(WalkDir::new("/r", fs).same_file_system(true));
    assert_eq!(got, vec!["error io Some(\"/r\") Unsupported @0"]);
}

#[test]
fn the_limit_of_open_directories_does_not_change_the_walk() {
    let wide = run(WalkDir::new("/t", deep_tree()).max_open(10));
    for limit in 1..4 {
        assert_eq!(run(WalkDir::new("/t", deep_tree()).max_open(limit)), wide);
        assert_eq!(
            run(WalkDir::new("/t", deep_tree()).max_open(limit).contents_first(true)),
            run(WalkDir::new("/t", deep_tree()).max_open(10).contents_first(true))
        );
        assert_eq!(
            run(WalkDir::new("/t", deep_tree())
                .max_open(limit)
                .content_order(ContentOrder::DirsFirst)),
            run(WalkDir::new("/t", deep_tree())
                .max_open(10)
                .content_order(ContentOrder::DirsFirst))
        );
    }
    assert_eq!(wide.len(), 17);
}

#[test]
fn never_more_streams_open_than_allowed() {
    for limit in 1..4usize {
        let mut it = WalkDir::new("/t", deep_tree()).max_open(limit).into_iter();
        while let Some(_) = it.next() {
            let open = it
                .states
                .iter()
                .filter(|st| matches!(st.content.rd, ReadDir::Opened { .. }))
                .count();
            assert!(open <= limit);
            assert!(it.states.len() - it.oldest_opened <= limit);
        }
    }
}

#[test]
fn content_of_the_current_directory() {
    let mut it = WalkDir::new("/r", small_tree()).into_iter();
    assert!(it.get_current_dir_content(ContentFilter::NoFilter).is_none());
    assert_eq!(show(&it.next().unwrap()), "entry /r @0");
    assert_eq!(show(&it.next().unwrap()), "before /r");
    let all = it.get_current_dir_content(ContentFilter::NoFilter).unwrap();
    let paths: Vec<&str> = all.iter().map(|d| d.path().as_str()).collect();
    assert_eq!(paths, vec!["/r/f", "/r/d"]);
    assert!(all.iter().all(|d| d.depth() == 1));
    let dirs = it.get_current_dir_content(ContentFilter::DirsOnly).unwrap();
    assert_eq!(dirs.len(), 1);
    assert_eq!(dirs[0].path(), "/r/d");
    let files = it.get_current_dir_content(ContentFilter::FilesOnly).unwrap();
    assert_eq!(files.len(), 1);
    assert_eq!(files[0].path(), "/r/f");
    assert!(it.get_current_dir_content(ContentFilter::SkipAll).unwrap().is_empty());
    // The walk goes on as if nothing had happened.
    assert_eq!(show(&it.next().unwrap()), "entry /r/f @1");
    assert_eq!(show(&it.next().unwrap()), "entry /r/d @1");
    assert_eq!(show(&it.next().unwrap()), "before /r/d");
    assert_eq!(show(&it.next().unwrap()), "entry /r/d/g @2");
    assert_eq!(show(&it.next().unwrap()), "after");
    assert_eq!(show(&it.next().unwrap()), "after");
    assert!(it.next().is_none());
    // The walk is over, but its root state is still there.
    assert_eq!(it.get_current_dir_content(ContentFilter::NoFilter).unwrap().len(), 1);
}

#[test]
fn large_directory_is_walked_and_sorted() {
    let n = 3000;
    let mut fs = MemFs::new();
    let mut names = Vec::new();
    for i in 0..n {
        // Listed in an order that is far from sorted.
        names.push(format!("/big/{:05}", (i * 7919) % n));
    }
    fs.add(MemNode::dir(s("/big"), 1, 1, names.clone()));
    for (i, name) in names.iter().enumerate() {
        fs.add(MemNode::file(name.clone(), 2 + i as u64, 0, 1));
    }
    let mut it = WalkDir::new("/big", fs).sort_by(ByPath {}).max_open(1).into_classic();
    let all = it.collect();
    assert_eq!(all.len(), n + 1);
    for (i, r) in all.iter().skip(1).enumerate() {
        assert_eq!(r.as_ref().unwrap().path(), &format!("/big/{:05}", i));
    }
}

#[test]
fn deep_chain_of_directories_is_walked_without_recursion() {
    let depth = 2000;
    let mut fs = MemFs::new();
    let mut path = s("/d");
    for i in 0..depth {
        let child = format!("{}/d", path);
        fs.add(MemNode::dir(path.clone(), i as u64, 1, vec![child.clone()]));
        path = child;
    }
    fs.add(MemNode::file(path, depth as u64, 0, 1));
    let mut it = WalkDir::new("/d", fs).max_open(3).into_iter();
    let steps = it.collect();
    // Each directory is yielded, entered and left; the file is yielded.
    assert_eq!(steps.len(), 3 * depth + 1);
    assert!(matches!(steps[steps.len() - 1], Position::AfterContent));
    assert!(it.next().is_none());
}

#[test]
fn collect_gives_the_steps_that_next_would_give() {
    let mut a = WalkDir::new("/t", deep_tree()).into_iter();
    let mut b = WalkDir::new("/t", deep_tree()).into_iter();
    let first = a.next().unwrap();
    let mut rest = Vec::new();
    while let Some(step) = a.next() {
        rest.push(step);
    }
    let mut all = b.collect();
    assert_eq!(all.len(), 17);
    assert_eq!(all.remove(0), first);
    assert_eq!(all, rest);
    assert!(b.collect().is_empty());
}

#[test]
fn loop_at_the_greatest_depth_is_passed_over() {
    let got = run(WalkDir::new("/a", loop_tree()).follow_links(true).max_depth(1));
    assert_eq!(got, vec!["entry /a @0", "before /a", "entry /a/f @1", "after"]);
    let got = run(
        WalkDir::new("/a", loop_tree()).follow_links(true).max_depth(1).yield_loop_links(true),
    );
    assert_eq!(
        got,
        vec!["entry /a @0", "before /a", "entry /a/link @1", "entry /a/f @1", "after"]
    );
}

#[test]
fn errors_are_yielded_above_the_least_depth_too() {
    let mut fs = MemFs::new();
    fs.add(MemNode::dir(s("/r"), 1, 1, vec![s("/r/ghost"), s("/r/d")]));
    fs.add(MemNode::dir(s("/r/d"), 2, 1, vec![s("/r/d/g")]));
    fs.add(MemNode::file(s("/r/d/g"), 3, 1, 1));
    let got = run(WalkDir::new("/r", fs).min_depth(2));
    assert_eq!(
        got,
        vec![
            "before /r",
            "error io Some(\"/r/ghost\") NotFound @1",
            "before /r/d",
            "entry /r/d/g @2",
            "after",
            "after",
        ]
    );
}

#[test]
fn order_and_sorter_together() {
    let mut fs = MemFs::new();
    fs.add(MemNode::dir(s("/s"), 1, 1, vec![s("/s/c"), s("/s/a"), s("/s/b")]));
    fs.add(MemNode::file(s("/s/a"), 2, 1, 1));
    fs.add(MemNode::dir(s("/s/b"), 3, 1, vec![s("/s/b/2"), s("/s/b/1")]));
    fs.add(MemNode::file(s("/s/b/1"), 4, 1, 1));
    fs.add(MemNode::file(s("/s/b/2"), 5, 1, 1));
    fs.add(MemNode::file(s("/s/c"), 6, 1, 1));
    let mut it = WalkDir::new("/s", fs)
        .sort_by(ByPath {})
        .content_order(ContentOrder::DirsFirst)
        .into_iter();
    let got: Vec<String> = it.collect().iter().map(show).collect();
    assert_eq!(
        got,
        vec![
            "entry /s @0",
            "before /s",
            "entry /s/b @1",
            "before /s/b",
            "entry /s/b/1 @2",
            "entry /s/b/2 @2",
            "after",
            "entry /s/a @1",
            "entry /s/c @1",
            "after",
        ]
    );
}

#[test]
fn skip_current_dir_after_leaving_a_directory_repeats_the_mark() {
    let mut it = WalkDir::new("/r", small_tree()).into_iter();
    let mut out = Vec::new();
    let mut skipped = false;
    while let Some(step) = it.next() {
        let line = show(&step);
        let left = line == "after";
        out.push(line);
        if left && !skipped {
            it.skip_current_dir();
            skipped = true;
        }
    }
    assert_eq!(
        out,
        vec![
            "entry /r @0",
            "before /r",
            "entry /r/f @1",
            "entry /r/d @1",
            "before /r/d",
            "entry /r/d/g @2",
            "after",
            "after",
            "after",
        ]
    );
}

#[test]
fn hidden_directories_are_walked_in_every_order() {
    let got = run(
        WalkDir::new("/t", deep_tree())
            .content_filter(ContentFilter::FilesOnly)
            .contents_first(true)
            .content_order(ContentOrder::FilesFirst),
    );
    assert_eq!(
        got,
        vec![
            "before /t",
            "entry /t/c @1",
            "before /t/a",
            "entry /t/a/y @2",
            "before /t/a/x",
            "entry /t/a/x/p @3",
            "entry /t/a/x/q @3",
            "after",
            "after",
            "before /t/b",
            "entry /t/b/z @2",
            "after",
            "after",
        ]
    );
}
