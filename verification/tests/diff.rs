use qzb::diff::{FsEntry, Snapshot, StateFsTx};

fn file(path: &str, content: &str) -> FsEntry {
    FsEntry { path: path.to_string(), is_dir: false, content: content.to_string() }
}

fn dir(path: &str) -> FsEntry {
    FsEntry { path: path.to_string(), is_dir: true, content: String::new() }
}

#[test]
fn state_fs_changes_reports_initial_and_modified() {
    // Five fresh files are all reported; after one rewrite, exactly
    // that file is reported again.
    let dir_path = "/tmp/state";
    let fbase_path = format!("{dir_path}/test");
    let fcont_init = "Initial file value.";
    let fcont_changed = "The file changed.";
    let mut fs_changes = Snapshot::new();

    let mut listing = vec![];
    let mut init_list_cmp = vec![];
    for differ in 'a'..'f' {
        let fpath = format!("{fbase_path}{differ}");
        listing.push(file(&fpath, fcont_init));
        init_list_cmp.push(fpath);
    }

    let init_list = StateFsTx::state_fs_changes(&mut fs_changes, &listing);
    assert_eq!(init_list, init_list_cmp, "Error: init_list != init_list_cmp");

    let changed_path = format!("{fbase_path}d");
    listing[3] = file(&changed_path, fcont_changed);

    let changes_list = StateFsTx::state_fs_changes(&mut fs_changes, &listing);
    assert_eq!(
        changes_list,
        vec![changed_path],
        "Error: changes_list != changes_list_expected"
    );
}

#[test]
fn diff_completeness_fresh_root() {
    // Files a, b, c under a fresh root are reported exactly, with the
    // intermediate directory.
    let mut snap = Snapshot::new();
    let listing = vec![
        file("/r/a", "1"),
        file("/r/b", "2"),
        dir("/r/sub"),
        file("/r/sub/c", "3"),
    ];
    let changes = StateFsTx::state_fs_changes(&mut snap, &listing);
    assert_eq!(changes, vec!["/r/a", "/r/b", "/r/sub", "/r/sub/c"]);
}

#[test]
fn diff_idempotence() {
    let mut snap = Snapshot::new();
    let listing = vec![file("/r/a", "1"), dir("/r/d"), file("/r/d/b", "2")];
    let first = StateFsTx::state_fs_changes(&mut snap, &listing);
    assert_eq!(first.len(), 3);
    let second = StateFsTx::state_fs_changes(&mut snap, &listing);
    assert!(second.is_empty());
}

#[test]
fn diff_update_detection() {
    let mut snap = Snapshot::new();
    let mut listing = vec![file("/r/a", "old"), file("/r/b", "same")];
    StateFsTx::state_fs_changes(&mut snap, &listing);
    listing[0] = file("/r/a", "new");
    let changes = StateFsTx::state_fs_changes(&mut snap, &listing);
    assert_eq!(changes, vec!["/r/a"]);
}

#[test]
fn diff_deletion_bookkeeping() {
    // Deleting a file yields an empty change set; recreating it with
    // the original content is reported again, because the snapshot
    // entry was purged.
    let mut snap = Snapshot::new();
    let full = vec![file("/r/a", "keep"), file("/r/b", "gone")];
    StateFsTx::state_fs_changes(&mut snap, &full);

    let without = vec![file("/r/a", "keep")];
    let after_delete = StateFsTx::state_fs_changes(&mut snap, &without);
    assert!(after_delete.is_empty());

    let recreated = StateFsTx::state_fs_changes(&mut snap, &full);
    assert_eq!(recreated, vec!["/r/b"]);
}

#[test]
fn snapshot_get_and_insert() {
    let mut snap = Snapshot::new();
    let key = "/r/x".to_string();
    assert!(snap.get(&key).is_none());
    snap.insert(key.clone(), "v1".to_string());
    assert_eq!(snap.get(&key).unwrap().as_str(), "v1");
    snap.insert(key.clone(), "v2".to_string());
    assert_eq!(snap.get(&key).unwrap().as_str(), "v2");
}
