//! Walking a tree, and recording what changes in it.
use dafs::events::{count, timeline, EventKind, TimelineQuery};
use dafs::metadata::pending;
use dafs::paths::{resolve_path, Interner};
use dafs::record::{
    carry_out, owning_root, plan_change, record_path, record_removal, record_rename, Look, Plan,
};
use dafs::scan::{
    is_excluded, is_skipped, scan, Scan, ScanError, ScanOptions, ScanSummary, Stat, Step, Walked,
    BATCH_SIZE,
};
use dafs::store::{Store, StoreError};
use dafs::watch::{
    Change, RawEvent, RawKind, RenameMode, Watch, DEBOUNCE_MS, PENDING_RENAME_TTL_MS,
};

const ROOT: &str = "/home/user/tree";

fn setup() -> (Store, Interner) {
    (Store::new(), Interner::new())
}

fn file_stat(len: u64, mtime: i64) -> Stat {
    Stat { is_dir: false, len, mtime_unix: Some(mtime) }
}

fn dir_stat() -> Stat {
    Stat { is_dir: true, len: 4096, mtime_unix: Some(1) }
}

/// What walking a tree of these files yields: each directory before what is in
/// it, without what the options skip.
fn walk(root: &str, files: &[(&str, &str)], options: &ScanOptions) -> Vec<Walked> {
    let mut out = vec![Walked::Entry {
        path: root.to_string(),
        depth: 0,
        is_dir: true,
        stat: Some(dir_stat()),
    }];
    let mut dirs: Vec<String> = Vec::new();
    for (name, contents) in files {
        let parts: Vec<&str> = name.split('/').collect();
        let mut path = root.to_string();
        let mut skipped = false;
        for (k, part) in parts.iter().enumerate() {
            path = format!("{path}/{part}");
            let is_dir = k + 1 < parts.len();
            if is_skipped(is_dir, k + 1, part, options) {
                skipped = true;
                break;
            }
            if is_dir && !dirs.contains(&path) {
                dirs.push(path.clone());
                out.push(Walked::Entry {
                    path: path.clone(),
                    depth: k + 1,
                    is_dir: true,
                    stat: Some(dir_stat()),
                });
            }
        }
        if !skipped {
            out.push(Walked::Entry {
                path,
                depth: parts.len(),
                is_dir: false,
                stat: Some(file_stat(contents.len() as u64, 100)),
            });
        }
    }
    out
}

fn scan_tree(
    store: &mut Store,
    interner: &mut Interner,
    root: &str,
    files: &[(&str, &str)],
    options: &ScanOptions,
) -> ScanSummary {
    let items = walk(root, files, options);
    scan(store, interner, root, true, &items, options, 1_000).expect("scan")
}

#[test]
fn a_scan_records_every_file_once() {
    let (mut store, mut i) = setup();
    let files = [("a.txt", "one"), ("b.txt", "two"), ("nested/c.txt", "three")];

    let summary = scan_tree(&mut store, &mut i, ROOT, &files, &ScanOptions::default());

    assert_eq!(summary.files_seen, 3);
    assert_eq!(summary.events_recorded, 3);
    assert_eq!(count(&store), 3);
}

/// A rescan of an unchanged tree must be silent.
#[test]
fn rescanning_an_unchanged_tree_records_nothing() {
    let (mut store, mut i) = setup();
    let files = [("a.txt", "one")];

    scan_tree(&mut store, &mut i, ROOT, &files, &ScanOptions::default());
    let after_first = count(&store);

    let second = scan_tree(&mut store, &mut i, ROOT, &files, &ScanOptions::default());
    assert_eq!(second.events_recorded, 0, "an unchanged rescan emitted events");
    assert_eq!(count(&store), after_first);
}

/// Nor does it add a row, and it sees as much.
#[test]
fn rescanning_an_unchanged_tree_adds_no_row() {
    let (mut store, mut i) = setup();
    let files = [("a.txt", "one"), ("nested/deep/b.txt", "two")];
    let first = scan_tree(&mut store, &mut i, ROOT, &files, &ScanOptions::default());
    let rows = store.files_len();
    let second = scan_tree(&mut store, &mut i, ROOT, &files, &ScanOptions::default());
    assert_eq!(store.files_len(), rows);
    assert_eq!((second.files_seen, second.dirs_seen), (first.files_seen, first.dirs_seen));
    assert_eq!((first.files_seen, first.dirs_seen), (2, 2));
}

/// Entries that the options leave out are passed over even where a walk yields
/// them.
#[test]
fn what_is_left_out_is_not_scanned() {
    let (mut store, mut i) = setup();
    let everything = ScanOptions { skip_dirs: Vec::new(), ..Default::default() };
    let files = [(".git/HEAD", "ref"), ("a.txt", "one"), ("sub/target/out.o", "obj")];
    let items = walk(ROOT, &files, &everything);
    let summary =
        scan(&mut store, &mut i, ROOT, true, &items, &ScanOptions::default(), 1).expect("scan");
    assert_eq!(
        summary,
        ScanSummary { files_seen: 1, dirs_seen: 1, events_recorded: 1, skipped: 0 }
    );
    let paths: Vec<String> =
        timeline(&store, &TimelineQuery::default()).into_iter().map(|e| e.path).collect();
    assert_eq!(paths, vec![format!("{ROOT}/a.txt")]);
}

/// The watch and a scan tell the same of a file that has changed.
#[test]
fn a_touch_tells_what_a_rescan_would() {
    let files = [("a.txt", "one"), ("sub/b.txt", "two")];
    let path = format!("{ROOT}/sub/b.txt");
    let look = |len: u64| Look::Found(file_stat(len, 100));
    let mut told = Vec::new();
    for watched in [true, false] {
        let (mut store, mut i) = setup();
        scan_tree(&mut store, &mut i, ROOT, &files, &ScanOptions::default());
        assert_eq!(record_path(&mut store, &mut i, &roots(), &path, look(3), 7).expect("same"), None);
        assert_eq!(count(&store), 2);
        if watched {
            record_path(&mut store, &mut i, &roots(), &path, look(9), 1_000)
                .expect("record")
                .expect("changed");
        } else {
            let now = [("a.txt", "one"), ("sub/b.txt", "two times")];
            scan_tree(&mut store, &mut i, ROOT, &now, &ScanOptions::default());
        }
        let newest = &timeline(&store, &TimelineQuery::default())[0];
        assert_eq!((newest.kind, newest.size_bytes), (EventKind::Modified, Some(9)));
        told.push((newest.path.clone(), newest.at_unix_ms, store.files_len()));
    }
    assert_eq!(told[0], told[1]);
}

/// What a removed directory held is known still when the directory is back.
#[test]
fn a_removed_directory_that_is_back_tells_nothing_new() {
    let (mut store, mut i) = setup();
    let files = [("sub/b.txt", "two")];
    scan_tree(&mut store, &mut i, ROOT, &files, &ScanOptions::default());
    record_removal(&mut store, &mut i, &roots(), &format!("{ROOT}/sub"), 50).expect("remove");
    assert_eq!(count(&store), 2);
    let again = scan_tree(&mut store, &mut i, ROOT, &files, &ScanOptions::default());
    assert_eq!(again.events_recorded, 0);
    let now = [("sub/b.txt", "two times")];
    let changed = scan_tree(&mut store, &mut i, ROOT, &now, &ScanOptions::default());
    assert_eq!(changed.events_recorded, 1);
    assert_eq!(timeline(&store, &TimelineQuery::default())[0].kind, EventKind::Modified);
}

/// The realistic restart: the process died, so the interner cache is gone.
#[test]
fn rescanning_with_a_cold_interner_records_nothing() {
    let (mut store, mut i) = setup();
    let files = [("a.txt", "one")];
    scan_tree(&mut store, &mut i, ROOT, &files, &ScanOptions::default());
    let after_first = count(&store);

    let mut cold = Interner::new();
    let second = scan_tree(&mut store, &mut cold, ROOT, &files, &ScanOptions::default());
    assert_eq!(second.events_recorded, 0, "a cold interner republished the tree");
    assert_eq!(count(&store), after_first);
}

#[test]
fn a_changed_file_is_recorded_as_modified() {
    let (mut store, mut i) = setup();
    scan_tree(&mut store, &mut i, ROOT, &[("a.txt", "one")], &ScanOptions::default());

    let second = scan_tree(
        &mut store,
        &mut i,
        ROOT,
        &[("a.txt", "substantially longer contents")],
        &ScanOptions::default(),
    );
    assert_eq!(second.events_recorded, 1);

    let entries = timeline(&store, &TimelineQuery::default());
    assert_eq!(entries[0].kind, EventKind::Modified);
    assert!(entries[0].path.ends_with("/a.txt"), "unexpected path {}", entries[0].path);
}

#[test]
fn skipped_directories_are_not_walked() {
    let (mut store, mut i) = setup();
    let files = [
        ("keep.txt", "yes"),
        (".git/objects/deadbeef", "no"),
        ("node_modules/left-pad/index.js", "no"),
    ];

    let summary = scan_tree(&mut store, &mut i, ROOT, &files, &ScanOptions::default());
    assert_eq!(summary.files_seen, 1, "a skipped directory was walked");

    let entries = timeline(&store, &TimelineQuery::default());
    assert_eq!(entries.len(), 1);
    assert!(entries[0].path.ends_with("/keep.txt"));
}

/// A root whose own name is on the skip list must still be scanned.
#[test]
fn a_root_matching_the_skip_list_is_still_scanned() {
    let (mut store, mut i) = setup();
    assert!(!is_skipped(true, 0, "target", &ScanOptions::default()));
    assert!(is_skipped(true, 1, "target", &ScanOptions::default()));
    assert!(!is_skipped(false, 1, "target", &ScanOptions::default()));
    let root = format!("{ROOT}/target");
    let summary =
        scan_tree(&mut store, &mut i, &root, &[("a.txt", "one")], &ScanOptions::default());
    assert_eq!(summary.files_seen, 1, "the root was skipped by its own name");
}

#[test]
fn directories_do_not_generate_events() {
    let (mut store, mut i) = setup();

    let summary = scan_tree(
        &mut store,
        &mut i,
        ROOT,
        &[("nested/deep/a.txt", "one")],
        &ScanOptions::default(),
    );
    assert_eq!(summary.dirs_seen, 2, "nested and deep");
    assert_eq!(summary.events_recorded, 1, "only the file should emit an event");
}

#[test]
fn a_missing_root_is_an_error_not_an_empty_scan() {
    let (mut store, mut i) = setup();
    let missing = format!("{ROOT}/does-not-exist");
    assert!(matches!(
        scan(&mut store, &mut i, &missing, false, &[], &ScanOptions::default(), 0),
        Err(ScanError::MissingRoot(_))
    ));
    assert_eq!(store.files_len(), 0);
    assert_eq!(i.cached(), 0, "a missing root was interned");
}

#[test]
fn a_root_that_names_nothing_is_an_error() {
    let (mut store, mut i) = setup();
    assert!(matches!(
        scan(&mut store, &mut i, "/", true, &[], &ScanOptions::default(), 0),
        Err(ScanError::Store(StoreError::EmptyPath))
    ));
}

#[test]
fn the_entry_limit_bounds_a_scan() {
    let (mut store, mut i) = setup();
    let names: Vec<String> = (0..20).map(|n| format!("file-{n}.txt")).collect();
    let files: Vec<(&str, &str)> = names.iter().map(|n| (n.as_str(), "x")).collect();

    let options = ScanOptions { max_entries: Some(5), ..Default::default() };
    let summary = scan_tree(&mut store, &mut i, ROOT, &files, &options);
    assert!(summary.files_seen <= 5, "the limit was exceeded: {}", summary.files_seen);
    assert_eq!(summary.files_seen, 5);
}

/// A corpus larger than one batch must still record every event.
#[test]
fn a_corpus_larger_than_one_batch_records_every_event() {
    let (mut store, mut i) = setup();
    let n = BATCH_SIZE + 37;
    let names: Vec<String> = (0..n).map(|f| format!("file-{f}.txt")).collect();
    let files: Vec<(&str, &str)> = names.iter().map(|n| (n.as_str(), "x")).collect();

    let summary = scan_tree(&mut store, &mut i, ROOT, &files, &ScanOptions::default());
    assert_eq!(summary.files_seen as usize, n);
    assert_eq!(count(&store) as usize, n, "the final partial batch was lost");
}

#[test]
fn an_entry_that_cannot_be_read_is_counted_and_passed_over() {
    let (mut store, mut i) = setup();
    let items = vec![
        Walked::Unreadable,
        Walked::Entry { path: format!("{ROOT}/locked"), depth: 1, is_dir: false, stat: None },
        Walked::Entry {
            path: format!("{ROOT}/a.txt"),
            depth: 1,
            is_dir: false,
            stat: Some(file_stat(3, 1)),
        },
    ];
    let summary = scan(&mut store, &mut i, ROOT, true, &items, &ScanOptions::default(), 5).expect("scan");
    assert_eq!(
        summary,
        ScanSummary { files_seen: 1, dirs_seen: 0, events_recorded: 1, skipped: 2 }
    );
}

/// A scan that is cut short, in the middle of a batch too, loses nothing that it
/// came to, and the next one makes up for the rest.
#[test]
fn a_scan_after_an_interrupted_one_converges() {
    let (mut store, mut i) = setup();
    let names: Vec<String> = (0..(BATCH_SIZE + 10)).map(|f| format!("file-{f}.txt")).collect();
    let files: Vec<(&str, &str)> = names.iter().map(|n| (n.as_str(), "x")).collect();
    let options = ScanOptions::default();
    let items = walk(ROOT, &files, &options);

    let mut cut = Scan::begin(&mut store, &mut i, ROOT, true).expect("begin");
    let mut steps = Vec::new();
    for item in items.iter().take(BATCH_SIZE + 4) {
        assert!(cut.can_step());
        steps.push(cut.step(&mut store, &mut i, item, &options, 1));
        // Each event comes with the file it is about.
        assert_eq!(count(&store) as usize, steps.len() - 1);
    }
    for (k, step) in steps.iter().enumerate() {
        assert_eq!(*step, if k == BATCH_SIZE { Step::Flush } else { Step::Continue });
    }
    assert_eq!(cut.summary().events_recorded as usize, BATCH_SIZE + 3);
    drop(cut);

    let mut cold = Interner::new();
    let second = scan(&mut store, &mut cold, ROOT, true, &items, &options, 2).expect("rescan");
    assert_eq!(second.events_recorded, 7);
    assert_eq!(count(&store) as usize, BATCH_SIZE + 10);
    let told = timeline(&store, &TimelineQuery { limit: Some(1_000), ..Default::default() });
    let mut files: Vec<_> = told.iter().map(|e| e.file_id).collect();
    files.sort();
    files.dedup();
    assert_eq!(files.len(), told.len(), "a file was told of twice");
    let third = scan(&mut store, &mut cold, ROOT, true, &items, &options, 3).expect("third");
    assert_eq!(third.events_recorded, 0, "a converged store should record nothing on rescan");
}

/// Wherever a scan is cut short, each entry it recorded hangs in the tree.
#[test]
fn a_scan_that_is_cut_short_leaves_no_entry_without_a_parent() {
    let options = ScanOptions::default();
    let items = walk(ROOT, &[("a/b/c.txt", "x"), ("a/d.txt", "y"), ("e.txt", "z")], &options);
    for n in 0..=items.len() {
        let (mut store, mut i) = setup();
        let mut cut = Scan::begin(&mut store, &mut i, ROOT, true).expect("begin");
        for item in items.iter().take(n) {
            cut.step(&mut store, &mut i, item, &options, 1);
        }
        for id in 1..=(store.files_len() as i64) {
            let path = resolve_path(&store, id);
            assert!(path.starts_with("/home"), "{path} is not below the top");
        }
    }
}

#[test]
fn exclusions_match_any_ancestor_not_just_the_leaf() {
    let skip: Vec<String> = [".git", "node_modules"].iter().map(|s| s.to_string()).collect();

    assert!(is_excluded("/home/u/p/.git/objects/ab/cdef", &skip));
    assert!(is_excluded("/home/u/p/node_modules/left-pad/index.js", &skip));
    assert!(!is_excluded("/home/u/p/src/main.rs", &skip));
}

/// A path merely containing an excluded name as a substring is not excluded.
#[test]
fn exclusions_match_whole_components_not_substrings() {
    let skip: Vec<String> = [".git"].iter().map(|s| s.to_string()).collect();
    assert!(!is_excluded("/home/u/p/.gitignore", &skip));
    assert!(!is_excluded("/home/u/p/git/notes.md", &skip));
}

fn roots() -> Vec<String> {
    vec![ROOT.to_string()]
}

#[test]
fn a_touched_path_is_created_once_and_then_modified() {
    let (mut store, mut i) = setup();
    let path = format!("{ROOT}/docs/a.txt");
    let found = Look::Found(file_stat(3, 10));
    let id = record_path(&mut store, &mut i, &roots(), &path, found, 100).expect("record");
    let id = id.expect("a new file is a change");
    assert_eq!(resolve_path(&store, id), path);
    assert_eq!(record_path(&mut store, &mut i, &roots(), &path, found, 200).expect("same"), None);
    let changed = Look::Found(file_stat(4, 20));
    assert_eq!(
        record_path(&mut store, &mut i, &roots(), &path, changed, 300).expect("changed"),
        Some(id)
    );
    let kinds: Vec<EventKind> =
        timeline(&store, &TimelineQuery::default()).iter().map(|e| e.kind).collect();
    assert_eq!(kinds, vec![EventKind::Modified, EventKind::Created]);
}

#[test]
fn a_path_outside_every_root_is_ignored() {
    let (mut store, mut i) = setup();
    let found = Look::Found(file_stat(3, 10));
    let r = record_path(&mut store, &mut i, &roots(), "/etc/passwd", found, 1).expect("record");
    assert_eq!(r, None);
    assert_eq!(store.files_len(), 0);
    assert_eq!(count(&store), 0);
}

#[test]
fn the_longest_root_owns_a_path() {
    let roots: Vec<String> =
        ["/home", "/home/user/src", "/home/user"].iter().map(|s| s.to_string()).collect();
    assert_eq!(owning_root(&roots, "/home/user/src/main.rs"), Some(1));
    assert_eq!(owning_root(&roots, "/home/user/notes.md"), Some(2));
    assert_eq!(owning_root(&roots, "/home/other"), Some(0));
    assert_eq!(owning_root(&roots, "/etc"), None);
}

/// Every path lies under the empty root, which is no directory to record it in.
#[test]
fn an_empty_root_owns_a_path_and_cannot_take_it() {
    let roots: Vec<String> = vec![String::new()];
    assert_eq!(owning_root(&roots, "/a"), Some(0));
    assert_eq!(owning_root(&roots, "a/b"), Some(0));
    let both: Vec<String> = ["", "/home"].iter().map(|s| s.to_string()).collect();
    assert_eq!(owning_root(&both, "/home/a"), Some(1));
    assert_eq!(owning_root(&both, "/etc"), Some(0));
    assert_eq!(owning_root(&[".".to_string()], "/a"), None);

    let (mut store, mut i) = setup();
    let found = Look::Found(file_stat(3, 10));
    assert!(matches!(
        record_path(&mut store, &mut i, &roots, "/a", found, 1),
        Err(ScanError::Store(StoreError::EmptyPath))
    ));
    assert_eq!(store.files_len(), 0);
    assert_eq!(count(&store), 0);
}

/// A root within the scanned one may own a path: it is the same file, and the same
/// is told of it.
#[test]
fn a_touch_under_a_nested_root_is_of_the_scanned_file() {
    let (mut store, mut i) = setup();
    let files = [("src/lib/a.rs", "abc")];
    let options = ScanOptions::default();
    scan_tree(&mut store, &mut i, ROOT, &files, &options);
    let rows = store.files_len();
    let told = count(&store);
    let nested: Vec<String> =
        [ROOT.to_string(), format!("{ROOT}/src"), format!("{ROOT}/src/./lib/")].to_vec();
    let path = format!("{ROOT}/src/lib/a.rs");
    assert_eq!(owning_root(&nested, &path), Some(2));
    let Walked::Entry { stat: Some(seen), .. } = walk(ROOT, &files, &options).pop().expect("walked")
    else {
        panic!("a file was walked")
    };
    assert_eq!(
        record_path(&mut store, &mut i, &nested, &path, Look::Found(seen), 5_000).expect("same"),
        None
    );
    let changed = Stat { len: seen.len + 1, ..seen };
    let id = record_path(&mut store, &mut i, &nested, &path, Look::Found(changed), 6_000)
        .expect("changed")
        .expect("a change");
    assert_eq!(resolve_path(&store, id), path);
    assert_eq!(store.files_len(), rows);
    assert_eq!(count(&store), told + 1);
    let last = &timeline(&store, &TimelineQuery::default())[0];
    assert_eq!((last.kind, last.file_id), (EventKind::Modified, id));
}

/// A limit stops a scan behind the entries that it allows, and rescanning tells of
/// none of them again.
#[test]
fn scans_with_an_entry_limit_tell_of_what_they_came_to() {
    let (mut store, mut i) = setup();
    let files = [("a.txt", "x"), ("b.txt", "x"), ("c.txt", "x"), ("d.txt", "x")];
    let options = ScanOptions { max_entries: Some(3), ..ScanOptions::default() };
    let first = scan_tree(&mut store, &mut i, ROOT, &files, &options);
    let again = scan_tree(&mut store, &mut i, ROOT, &files, &options);
    assert_eq!(again.events_recorded, 0);
    assert_eq!(count(&store) as u64, first.events_recorded as u64);
    assert!(first.events_recorded < 4);
    let rest = scan_tree(&mut store, &mut i, ROOT, &files, &ScanOptions::default());
    assert_eq!(first.events_recorded + rest.events_recorded, 4);
}

/// A deletion keeps the row, its path and the log; a file that comes back is
/// the same file.
#[test]
fn a_removed_file_keeps_its_row_and_comes_back_under_its_id() {
    let (mut store, mut i) = setup();
    let path = format!("{ROOT}/a.txt");
    let found = Look::Found(file_stat(3, 10));
    let id =
        record_path(&mut store, &mut i, &roots(), &path, found, 1).expect("record").expect("new");

    record_removal(&mut store, &mut i, &roots(), &path, 50).expect("remove");
    assert_eq!(store.file(id).deleted_at, Some(50));
    assert_eq!(resolve_path(&store, id), path);
    assert_eq!(count(&store), 2);

    // Removing it again changes nothing.
    record_removal(&mut store, &mut i, &roots(), &path, 60).expect("again");
    assert_eq!(store.file(id).deleted_at, Some(50));
    assert_eq!(count(&store), 2);

    let back =
        record_path(&mut store, &mut i, &roots(), &path, found, 70).expect("record").expect("back");
    assert_eq!(back, id);
    assert_eq!(store.file(id).deleted_at, None);
    let kinds: Vec<EventKind> =
        timeline(&store, &TimelineQuery::default()).iter().map(|e| e.kind).collect();
    assert_eq!(kinds, vec![EventKind::Created, EventKind::Deleted, EventKind::Created]);
}

/// Removing what was never recorded looks it up and creates nothing.
#[test]
fn a_removal_creates_nothing() {
    let (mut store, mut i) = setup();
    let path = format!("{ROOT}/docs/a.txt");
    record_removal(&mut store, &mut i, &roots(), &path, 1).expect("nothing there");
    assert_eq!((store.files_len(), count(&store), i.cached()), (0, 0, 0));

    // Its name is known elsewhere, and still nothing stands there.
    let found = Look::Found(file_stat(3, 10));
    let elsewhere = format!("{ROOT}/a.txt");
    record_path(&mut store, &mut i, &roots(), &elsewhere, found, 2).expect("record");
    let rows = store.files_len();
    record_removal(&mut store, &mut i, &roots(), &path, 3).expect("nothing there");
    assert_eq!((store.files_len(), count(&store)), (rows, 1));

    // Nor does the old end of a move create anything.
    let to = format!("{ROOT}/b.txt");
    let stat = file_stat(3, 10);
    let arrived = record_rename(&mut store, &mut i, ROOT, &path, ROOT, &to, &stat, 4)
        .expect("rename")
        .expect("an arrival");
    assert_eq!(resolve_path(&store, arrived), to);
    assert_eq!(store.files_len(), rows + 1);
}

#[test]
fn a_path_that_is_gone_when_looked_at_is_a_removal() {
    let (mut store, mut i) = setup();
    let path = format!("{ROOT}/a.txt");
    let found = Look::Found(file_stat(3, 10));
    record_path(&mut store, &mut i, &roots(), &path, found, 1).expect("record");
    assert_eq!(record_path(&mut store, &mut i, &roots(), &path, Look::Gone, 2).expect("gone"), None);
    assert_eq!(timeline(&store, &TimelineQuery::default())[0].kind, EventKind::Deleted);
    assert_eq!(
        record_path(&mut store, &mut i, &roots(), &path, Look::Unreadable, 3).expect("unreadable"),
        None
    );
    assert_eq!(count(&store), 2);
}

#[test]
fn a_moved_file_keeps_its_id_and_tells_where_it_was() {
    let (mut store, mut i) = setup();
    let from = format!("{ROOT}/before.txt");
    let to = format!("{ROOT}/deep/after.txt");
    let stat = file_stat(3, 10);
    let id = record_path(&mut store, &mut i, &roots(), &from, Look::Found(stat), 1)
        .expect("record")
        .expect("new");
    let moved = record_rename(&mut store, &mut i, ROOT, &from, ROOT, &to, &stat, 2).expect("rename");
    assert_eq!(moved, Some(id));
    assert_eq!(resolve_path(&store, id), to);
    let entries = timeline(&store, &TimelineQuery::default());
    assert_eq!(entries[0].kind, EventKind::Renamed);
    assert_eq!(entries[0].path, to);
    assert_eq!(entries[0].previous_path.as_deref(), Some(from.as_str()));
    assert_eq!(count(&store), 2);
}

#[test]
fn a_move_over_another_file_replaces_it() {
    let (mut store, mut i) = setup();
    let from = format!("{ROOT}/new.txt");
    let to = format!("{ROOT}/old.txt");
    let stat = file_stat(3, 10);
    let moving = record_path(&mut store, &mut i, &roots(), &from, Look::Found(stat), 1)
        .expect("record")
        .expect("new");
    let replaced = record_path(&mut store, &mut i, &roots(), &to, Look::Found(stat), 2)
        .expect("record")
        .expect("new");
    record_rename(&mut store, &mut i, ROOT, &from, ROOT, &to, &stat, 3).expect("rename");
    assert_eq!(store.file(replaced).deleted_at, Some(3));
    assert_eq!(store.file(moving).deleted_at, None);
    assert_eq!(resolve_path(&store, moving), to);
    assert_eq!(count(&store), 4);
}

#[test]
fn a_move_of_something_unknown_is_an_arrival() {
    let (mut store, mut i) = setup();
    let stat = file_stat(3, 10);
    let to = format!("{ROOT}/b.txt");
    let id = record_rename(&mut store, &mut i, ROOT, &format!("{ROOT}/a.txt"), ROOT, &to, &stat, 3)
        .expect("rename")
        .expect("an arrival");
    assert_eq!(resolve_path(&store, id), to);
    assert_eq!(timeline(&store, &TimelineQuery::default())[0].kind, EventKind::Created);
}

#[test]
fn what_is_excluded_is_never_recorded() {
    let skip = ScanOptions::default().skip_dirs;
    let inside = format!("{ROOT}/.git/HEAD");
    let outside = format!("{ROOT}/notes.md");
    let plan = |change: Change| plan_change(&change, &skip);

    assert!(matches!(plan(Change::Touched(inside.clone())), Plan::Ignore));
    assert!(matches!(plan(Change::Removed(inside.clone())), Plan::Ignore));
    assert!(matches!(plan(Change::Touched(outside.clone())), Plan::Record(p) if p == outside));
    assert!(matches!(plan(Change::Removed(outside.clone())), Plan::Remove(p) if p == outside));
    let rename = |from: &String, to: &String| Change::Renamed { from: from.clone(), to: to.clone() };
    assert!(matches!(plan(rename(&inside, &inside)), Plan::Ignore));
    assert!(matches!(plan(rename(&inside, &outside)), Plan::Record(p) if p == outside));
    assert!(matches!(plan(rename(&outside, &inside)), Plan::Remove(p) if p == outside));
    assert!(matches!(plan(rename(&outside, &outside)), Plan::Move { .. }));
    assert!(matches!(plan(Change::Overflowed), Plan::Rescan));
}

#[test]
fn a_change_that_is_recorded_is_queued_for_extraction() {
    let (mut store, mut i) = setup();
    let path = format!("{ROOT}/a.txt");
    let look = Look::Found(file_stat(3, 10));
    carry_out(&mut store, &mut i, &roots(), &Plan::Record(path.clone()), look, 1_000, 1).expect("touch");
    let queued = pending(&store, 10);
    assert_eq!(queued.len(), 1);
    assert_eq!(resolve_path(&store, queued[0]), path);

    carry_out(&mut store, &mut i, &roots(), &Plan::Remove(path.clone()), Look::Gone, 2_000, 2)
        .expect("remove");
    assert_eq!(timeline(&store, &TimelineQuery::default())[0].kind, EventKind::Deleted);
    let before = count(&store);
    carry_out(&mut store, &mut i, &roots(), &Plan::Ignore, look, 3_000, 3).expect("ignore");
    assert_eq!(count(&store), before);
}

#[test]
fn a_move_out_of_every_root_is_a_removal() {
    let (mut store, mut i) = setup();
    let path = format!("{ROOT}/a.txt");
    let look = Look::Found(file_stat(3, 10));
    carry_out(&mut store, &mut i, &roots(), &Plan::Record(path.clone()), look, 1_000, 1).expect("touch");
    let plan = Plan::Move { from: path, to: "/tmp/a.txt".to_string() };
    carry_out(&mut store, &mut i, &roots(), &plan, look, 2_000, 2).expect("move");
    let entries = timeline(&store, &TimelineQuery::default());
    assert_eq!(entries[0].kind, EventKind::Deleted);
    assert_eq!(entries.len(), 2);
}

fn report(kind: RawKind, path: &str, tracker: Option<usize>) -> RawEvent {
    RawEvent { kind, paths: vec![path.to_string()], tracker, need_rescan: false }
}

#[test]
fn a_created_file_is_reported_once_it_is_quiet() {
    let mut watch = Watch::new();
    watch.absorb(&report(RawKind::Create, "/t/a.txt", None), 1_000);
    assert!(watch.take_expired(1_000 + DEBOUNCE_MS - 1).is_empty());
    assert_eq!(
        watch.take_expired(1_000 + DEBOUNCE_MS),
        vec![Change::Touched("/t/a.txt".to_string())]
    );
    assert_eq!(watch.pending_count(), 0);
}

/// A burst of writes to one path yields one change, not one per write.
#[test]
fn repeated_writes_to_one_path_coalesce() {
    let mut watch = Watch::new();
    let mut now = 1_000;
    for _ in 0..10 {
        watch.absorb(&report(RawKind::Modify, "/t/busy.txt", None), now);
        // Well inside the debounce window, so every write restarts it.
        now += 20;
        assert!(watch.take_expired(now).is_empty());
    }

    let changes = watch.take_expired(now + DEBOUNCE_MS);
    let touches =
        changes.iter().filter(|c| matches!(c, Change::Touched(p) if p.ends_with("busy.txt"))).count();
    assert_eq!(touches, 1, "ten writes should coalesce to one change, got {changes:?}");
}

/// Paths are compared part by part.
#[test]
fn a_path_is_the_same_however_it_is_written() {
    let mut watch = Watch::new();
    watch.absorb(&report(RawKind::Create, "/t/a.txt", None), 1_000);
    watch.absorb(&report(RawKind::Remove, "/t//a.txt", None), 1_100);
    watch.absorb(&report(RawKind::Modify, "/t/./b.txt", None), 1_100);
    assert_eq!(watch.pending_count(), 2);
    assert_eq!(
        watch.take_expired(1_100 + DEBOUNCE_MS),
        vec![Change::Removed("/t//a.txt".to_string()), Change::Touched("/t/./b.txt".to_string())]
    );
}

/// The halves are paired in either order, past a poll, and supersede what was
/// pending for either end.
#[test]
fn a_paired_rename_is_one_change() {
    for source_first in [true, false] {
        let mut watch = Watch::new();
        watch.absorb(&report(RawKind::Modify, "/t/before.txt", None), 900);
        watch.absorb(&report(RawKind::Create, "/t/after.txt", None), 950);
        let from = report(RawKind::Rename(RenameMode::From), "/t/before.txt", Some(7));
        let to = report(RawKind::Rename(RenameMode::To), "/t/after.txt", Some(7));
        let (first, second) = if source_first { (&from, &to) } else { (&to, &from) };
        watch.absorb(first, 1_000);
        assert!(watch.take_expired(1_200).is_empty());
        watch.absorb(second, 1_300);
        assert_eq!(
            watch.take_expired(1_300 + DEBOUNCE_MS),
            vec![Change::Renamed {
                from: "/t/before.txt".to_string(),
                to: "/t/after.txt".to_string()
            }]
        );
        assert_eq!((watch.pending_count(), watch.waiting_halves()), (0, 0));
    }
}

/// A rename arrives as one change with both ends, not as a delete and a create.
#[test]
fn a_rename_within_the_tree_is_reported_as_one_change() {
    let mut watch = Watch::new();
    watch.absorb(&report(RawKind::Rename(RenameMode::From), "/t/before.txt", Some(7)), 1_000);
    assert_eq!(watch.waiting_halves(), 1);
    watch.absorb(&report(RawKind::Rename(RenameMode::To), "/t/after.txt", Some(7)), 1_010);
    assert_eq!(watch.waiting_halves(), 0);

    let changes = watch.take_expired(1_010 + DEBOUNCE_MS);
    let renames: Vec<_> = changes
        .iter()
        .filter_map(|c| match c {
            Change::Renamed { from, to } => Some((from, to)),
            _ => None,
        })
        .collect();

    assert_eq!(renames.len(), 1, "expected exactly one rename, got {changes:?}");
    assert!(renames[0].0.ends_with("before.txt"), "wrong source: {:?}", renames[0].0);
    assert!(renames[0].1.ends_with("after.txt"), "wrong destination: {:?}", renames[0].1);
    assert!(
        !changes.iter().any(|c| matches!(c, Change::Removed(_))),
        "a rename also produced a deletion: {changes:?}"
    );
}

#[test]
fn halves_with_different_ids_are_not_paired() {
    let mut watch = Watch::new();
    watch.absorb(&report(RawKind::Rename(RenameMode::From), "/t/a.txt", Some(1)), 0);
    watch.absorb(&report(RawKind::Rename(RenameMode::To), "/t/b.txt", Some(2)), 0);
    assert_eq!(watch.waiting_halves(), 2);
    let mut changes = watch.take_expired(PENDING_RENAME_TTL_MS + 1);
    changes.extend(watch.take_expired(PENDING_RENAME_TTL_MS + 1 + DEBOUNCE_MS));
    assert!(changes.contains(&Change::Removed("/t/a.txt".to_string())), "{changes:?}");
    assert!(changes.contains(&Change::Touched("/t/b.txt".to_string())), "{changes:?}");
    assert_eq!(changes.len(), 2);
}

/// A half with no partner must not wait forever.
#[test]
fn an_unpaired_rename_half_expires_into_a_plain_change() {
    let mut watch = Watch::new();
    watch.absorb(&report(RawKind::Rename(RenameMode::From), "/t/gone.txt", Some(42)), 0);

    // The half expires first; the debounce then has to lapse.
    let now = PENDING_RENAME_TTL_MS + 50;
    assert!(watch.take_expired(now).is_empty());
    let changes = watch.take_expired(now + DEBOUNCE_MS + 100);

    assert!(
        changes.iter().any(|c| matches!(c, Change::Removed(p) if p.ends_with("gone.txt"))),
        "an unpaired rename source should become a deletion, got {changes:?}"
    );
    assert_eq!(watch.waiting_halves(), 0, "the expired half was not cleaned up");
}

#[test]
fn an_overflow_is_reported_so_the_caller_can_rescan() {
    let mut watch = Watch::new();
    watch.note_overflow();
    let changes = watch.take_expired(10);

    assert!(changes.contains(&Change::Overflowed), "an overflow must be surfaced, got {changes:?}");
    assert!(
        !watch.take_expired(20).contains(&Change::Overflowed),
        "an overflow should be reported once, not latch forever"
    );
}

#[test]
fn a_report_that_asks_for_a_rescan_is_an_overflow() {
    let mut watch = Watch::new();
    let lost = RawEvent { kind: RawKind::Other, paths: vec![], tracker: None, need_rescan: true };
    watch.absorb(&lost, 0);
    assert_eq!(watch.take_expired(0), vec![Change::Overflowed]);
    watch.absorb(&report(RawKind::Access, "/t/read.txt", None), 0);
    assert!(watch.take_expired(10_000).is_empty(), "reading a file is no change");
}
