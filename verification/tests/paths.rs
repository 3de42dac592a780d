//! Interning path components, and turning ids back into paths.
use dafs::fspath::{normalised_components, path_is_under, split_text};
use dafs::load::apply;
use dafs::paths::{ensure_dir_chain, resolve_path, upsert_entry, Interner, CACHE_CAPACITY};
use dafs::store::{FileRow, Store, StoreError, Write};

fn db() -> Store {
    Store::new()
}

#[test]
fn interning_is_stable_and_deduplicates() {
    let mut store = db();
    let mut i = Interner::new();

    let a = i.intern_dir(&mut store, "documents");
    let b = i.intern_dir(&mut store, "documents");
    assert_eq!(a, b, "same name must yield the same id");

    let c = i.intern_dir(&mut store, "downloads");
    assert_ne!(a, c);

    assert_eq!(store.components_len(), 2, "a repeated component was stored twice");
}

/// The cache must never change an answer, only how fast it is reached.
#[test]
fn cold_cache_agrees_with_warm_cache() {
    let mut store = db();
    let mut warm = Interner::new();
    let id = warm.intern_dir(&mut store, "src");

    let mut cold = Interner::new();
    assert_eq!(cold.intern_dir(&mut store, "src"), id);
}

#[test]
fn leaf_names_never_enter_the_cache() {
    let mut store = db();
    let mut i = Interner::new();

    for n in 0..1_000 {
        i.intern_leaf(&mut store, &format!("file-{n}.txt"));
    }

    assert_eq!(i.cached(), 0, "leaf names were cached: {} entries", i.cached());

    // They are still interned, just not held in the cache.
    assert_eq!(store.components_len(), 1_000, "leaf names were not interned at all");
}

#[test]
fn dir_and_leaf_interning_agree_on_ids() {
    let mut store = db();
    let mut i = Interner::new();

    let as_dir = i.intern_dir(&mut store, "notes");
    let as_leaf = i.intern_leaf(&mut store, "notes");
    assert_eq!(as_dir, as_leaf);

    let mut cold = Interner::new();
    assert_eq!(cold.intern_leaf(&mut store, "notes"), as_dir);
}

#[test]
fn cache_is_bounded() {
    let mut store = db();
    let mut i = Interner::new();
    for n in 0..(CACHE_CAPACITY + 100) {
        i.intern_dir(&mut store, &format!("component-{n}"));
    }
    assert!(i.cached() <= CACHE_CAPACITY, "cache grew past its bound: {} entries", i.cached());
    assert_eq!(store.components_len(), CACHE_CAPACITY + 100);
}

#[test]
fn an_interned_name_is_found_by_its_id() {
    let mut store = db();
    let mut i = Interner::default();
    let id = i.intern_leaf(&mut store, "notes.md");
    assert_eq!(id, 1);
    assert_eq!(i.name(&store, id), Some("notes.md".to_string()));
    assert_eq!(i.name(&store, 2), None);
    assert_eq!(i.name(&store, 0), None);
}

#[test]
fn dir_chain_round_trips_to_the_original_path() {
    let mut store = db();
    let mut i = Interner::new();

    let id = ensure_dir_chain(&mut store, &mut i, "/home/user/documents").expect("chain");
    assert_eq!(resolve_path(&store, id), "/home/user/documents");
}

#[test]
fn shared_prefixes_are_stored_once() {
    let mut store = db();
    let mut i = Interner::new();

    ensure_dir_chain(&mut store, &mut i, "/home/user/a").expect("chain a");
    ensure_dir_chain(&mut store, &mut i, "/home/user/b").expect("chain b");
    ensure_dir_chain(&mut store, &mut i, "/home/user/c").expect("chain c");

    // home, user, a, b, c: five components, not nine.
    assert_eq!(store.components_len(), 5);

    // And one row per directory, with the prefix shared rather than copied.
    assert_eq!(store.files_len(), 5, "/home, /home/user, and three leaves");
}

#[test]
fn rescanning_a_tree_is_idempotent() {
    let mut store = db();
    let mut i = Interner::new();

    ensure_dir_chain(&mut store, &mut i, "/home/user/documents").expect("first");
    let after_first = store.files_len();

    ensure_dir_chain(&mut store, &mut i, "/home/user/documents").expect("second");
    let after_second = store.files_len();

    assert_eq!(after_first, after_second, "rescanning duplicated rows");
}

#[test]
fn rescan_with_a_cold_interner_is_idempotent() {
    let mut store = db();

    let mut first = Interner::new();
    ensure_dir_chain(&mut store, &mut first, "/home/user/documents").expect("first");
    let before = store.files_len();

    let mut second = Interner::new();
    ensure_dir_chain(&mut store, &mut second, "/home/user/documents").expect("second");
    let after = store.files_len();

    assert_eq!(before, after, "a cold interner duplicated rows on rescan");
}

#[test]
fn same_name_in_different_directories_is_a_distinct_file() {
    let mut store = db();
    let mut i = Interner::new();

    let a = ensure_dir_chain(&mut store, &mut i, "/a/notes").expect("a");
    let b = ensure_dir_chain(&mut store, &mut i, "/b/notes").expect("b");

    assert_ne!(a, b);
    assert_eq!(resolve_path(&store, a), "/a/notes");
    assert_eq!(resolve_path(&store, b), "/b/notes");
}

#[test]
fn parent_traversal_is_resolved() {
    let mut store = db();
    let mut i = Interner::new();

    let id = ensure_dir_chain(&mut store, &mut i, "/home/user/../user/docs").expect("chain");
    assert_eq!(resolve_path(&store, id), "/home/user/docs");
}

#[test]
fn an_empty_path_is_an_error_not_a_silent_root() {
    let mut store = db();
    let mut i = Interner::new();
    assert!(
        matches!(ensure_dir_chain(&mut store, &mut i, "/"), Err(StoreError::EmptyPath)),
        "a path with no components should be rejected"
    );
    assert_eq!(store.files_len(), 0);
}

/// A parent that does not exist must end the path rather than hang or fail.
#[test]
fn resolving_a_dangling_parent_truncates() {
    let mut store = db();
    let mut i = Interner::new();
    let id = ensure_dir_chain(&mut store, &mut i, "/home/user").expect("chain");

    let row = store.file(id);
    apply(&mut store, Write::SetFile(id, FileRow { parent_id: Some(9999), ..row })).expect("update");

    let path = resolve_path(&store, id);
    assert_eq!(path, "/user", "should return the resolvable suffix");
}

#[test]
fn a_cycle_of_parents_ends() {
    let mut store = db();
    let mut i = Interner::new();
    let id = ensure_dir_chain(&mut store, &mut i, "/a").expect("chain");
    let row = store.file(id);
    apply(&mut store, Write::SetFile(id, FileRow { parent_id: Some(id), ..row })).expect("update");
    assert_eq!(resolve_path(&store, id), "/a".repeat(256));
}

/// Filenames that are legal on a Unix filesystem and easy to mishandle.
fn adversarial_names() -> Vec<&'static str> {
    vec![
        "ordinary.txt",
        // Spaces and shell metacharacters.
        "file with spaces.txt",
        "quote'and\"double.txt",
        "semi;colon && pipe|.txt",
        "$(command substitution).txt",
        "`backticks`.txt",
        // Text in the shape of SQL must be a value rather than syntax.
        "'; DROP TABLE files; --",
        "100% sure.txt",
        "under_score%wildcard.txt",
        // Traversal-shaped as a literal name, which is legal and distinct
        // from a real `..` component.
        "..hidden",
        "...",
        "a..b",
        // Unicode, with characters that are visually confusable or change
        // text direction.
        "café.txt",
        "日本語.txt",
        "emoji-📁.txt",
        "\u{202e}gnp.txt",
        // Two different byte sequences that render identically.
        "e\u{0301}.txt",
        "é.txt",
        // Whitespace that is easy to trim by accident.
        " leading.txt",
        "trailing.txt ",
        "tab\there.txt",
        "newline\nhere.txt",
        // Long, but under the 255-byte limit of one component.
        "aaaaaaaaaaaaaaaaaaaaaaaaaaaaaaaaaaaaaaaaaaaaaaaaaaaaaaaaaaaaaaaa.txt",
    ]
}

/// What the store should make of a path, written down separately.
fn expected_path(path: &std::path::Path) -> String {
    let mut parts: Vec<String> = Vec::new();
    for component in path.components() {
        match component {
            std::path::Component::Normal(part) => parts.push(part.to_string_lossy().into_owned()),
            std::path::Component::ParentDir => {
                parts.pop();
            }
            _ => {}
        }
    }
    if parts.is_empty() {
        return "/".into();
    }
    parts.iter().fold(String::new(), |mut acc, p| {
        acc.push('/');
        acc.push_str(p);
        acc
    })
}

#[test]
fn adversarial_filenames_round_trip() {
    let mut store = db();
    let mut interner = Interner::new();

    for name in adversarial_names() {
        let path = std::path::Path::new("/home/user").join(name);

        let id = ensure_dir_chain(&mut store, &mut interner, path.to_str().expect("utf8"))
            .unwrap_or_else(|e| panic!("interning {name:?} failed: {e:?}"));

        let resolved = resolve_path(&store, id);
        assert_eq!(resolved, expected_path(&path), "path did not round-trip for name {name:?}");
    }
}

/// Names that render identically but differ in bytes are different files.
#[test]
fn visually_identical_names_stay_distinct() {
    let mut store = db();
    let mut interner = Interner::new();

    let precomposed = ensure_dir_chain(&mut store, &mut interner, "/x/\u{e9}.txt").unwrap();
    let decomposed = ensure_dir_chain(&mut store, &mut interner, "/x/e\u{301}.txt").unwrap();

    assert_ne!(
        precomposed, decomposed,
        "two byte-distinct filenames were merged into one file row"
    );
}

/// One name, one id, regardless of cache state or how many times it is seen.
#[test]
fn interning_is_deterministic_across_cache_states() {
    let mut store = db();

    let mut warm = Interner::new();
    let mut ids = Vec::new();
    for name in adversarial_names() {
        let path = format!("/home/user/{name}");
        ids.push(ensure_dir_chain(&mut store, &mut warm, &path).unwrap());
    }

    // Same paths, a cache that has never seen them, and reverse order.
    let mut cold = Interner::new();
    for (name, expected) in adversarial_names().iter().zip(&ids).rev() {
        let path = format!("/home/user/{name}");
        let again = ensure_dir_chain(&mut store, &mut cold, &path).unwrap();
        assert_eq!(again, *expected, "re-interning {name:?} yielded a different id");
    }
}

/// A deep path must not be cut short.
#[test]
fn deep_paths_round_trip() {
    let mut store = db();
    let mut interner = Interner::new();

    let mut path = std::path::PathBuf::from("/");
    for depth in 0..200 {
        path.push(format!("d{depth}"));
    }

    let id = ensure_dir_chain(&mut store, &mut interner, path.to_str().expect("utf8"))
        .expect("deep chain");
    assert_eq!(resolve_path(&store, id), expected_path(&path));
}

/// A path deeper than the resolver's bound is cut rather than followed forever.
#[test]
fn paths_past_the_resolver_bound_truncate_safely() {
    let mut store = db();
    let mut interner = Interner::new();

    let mut path = std::path::PathBuf::from("/");
    for depth in 0..400 {
        path.push(format!("d{depth}"));
    }

    let id = ensure_dir_chain(&mut store, &mut interner, path.to_str().expect("utf8"))
        .expect("very deep chain");
    let resolved = resolve_path(&store, id);

    assert!(!resolved.is_empty(), "resolution returned nothing at all");
    assert!(
        resolved.len() < path.to_string_lossy().len(),
        "a path past the bound should be truncated"
    );
    // The innermost part is what is kept.
    assert!(resolved.starts_with("/d144/d145/"));
    assert!(resolved.ends_with("/d398/d399"));
}

/// A name that is not valid UTF-8 reaches the store with replacement
/// characters, and is interned like any other.
#[test]
fn a_mangled_name_is_interned() {
    let mut store = db();
    let mut interner = Interner::new();
    let name = String::from_utf8_lossy(&[b'b', b'a', b'd', 0xFF, b'.', b't', b'x', b't']).into_owned();
    let id = ensure_dir_chain(&mut store, &mut interner, &format!("/home/user/{name}"))
        .expect("non-utf8 name");
    let resolved = resolve_path(&store, id);
    assert!(resolved.contains('\u{FFFD}'), "expected a replacement char, got {resolved:?}");
    assert!(resolved.starts_with("/home/user/bad"), "unexpected path {resolved:?}");
}

#[test]
fn an_entry_seen_twice_is_one_row() {
    let mut store = db();
    let mut i = Interner::new();
    let dir = ensure_dir_chain(&mut store, &mut i, "/home").expect("dir");
    let name = i.intern_leaf(&mut store, "a.txt");
    let first = upsert_entry(&mut store, Some(dir), name, false, Some(1), Some(10)).expect("first");
    let second = upsert_entry(&mut store, Some(dir), name, false, Some(2), Some(20)).expect("again");
    assert_eq!(first, second);
    assert_eq!(store.files_len(), 2);
    assert_eq!(
        store.file(first),
        FileRow {
            parent_id: Some(dir),
            component_id: name,
            is_dir: false,
            size_bytes: Some(2),
            mtime_unix: Some(20),
            deleted_at: None,
        }
    );
}

#[test]
fn an_entry_under_nothing_is_refused() {
    let mut store = db();
    let mut i = Interner::new();
    let name = i.intern_leaf(&mut store, "a.txt");
    assert_eq!(
        upsert_entry(&mut store, Some(7), name, false, None, None),
        Err(StoreError::MissingReference)
    );
    assert_eq!(
        upsert_entry(&mut store, None, name + 1, false, None, None),
        Err(StoreError::MissingReference)
    );
    assert_eq!(store.files_len(), 0);
}

/// A tombstone at the same place is revived rather than joined by another row.
#[test]
fn a_tombstone_that_is_seen_again_is_live_again() {
    let mut store = db();
    let mut i = Interner::new();
    let name = i.intern_leaf(&mut store, "a.txt");
    let id = upsert_entry(&mut store, None, name, false, Some(1), Some(10)).expect("first");
    let row = store.file(id);
    apply(&mut store, Write::SetFile(id, FileRow { deleted_at: Some(5), ..row })).expect("tombstone");
    let again = upsert_entry(&mut store, None, name, false, Some(3), Some(30)).expect("again");
    assert_eq!(again, id);
    assert_eq!(store.file(id).deleted_at, None);
    assert_eq!(store.files_len(), 1);
}

#[test]
fn a_path_is_cut_at_its_slashes() {
    assert_eq!(split_text("a/b//c/", '/'), vec!["a", "b", "", "c", ""]);
    assert_eq!(split_text("", '/'), vec![""]);
    assert_eq!(normalised_components("/a/./b/../c"), vec!["a", "c"]);
    assert_eq!(normalised_components("../../x"), vec!["x"]);
    assert!(normalised_components("/..").is_empty());
}

#[test]
fn a_resolved_path_stays_as_it_is() {
    let once = normalised_components("/a/./b/../c d//e");
    let path: String = once.iter().map(|name| format!("/{name}")).collect();
    assert_eq!(path, "/a/c d/e");
    assert_eq!(normalised_components(&path), once);
}

#[test]
fn being_under_a_root_goes_by_whole_components() {
    assert!(path_is_under("/home/user", "/home/user/notes.md"));
    assert!(path_is_under("/home/user/", "/home/user"));
    assert!(!path_is_under("/home/user", "/home/username/notes.md"));
    assert!(!path_is_under("/home/user", "/home"));
    assert!(path_is_under("/", "/etc/passwd"));
}
