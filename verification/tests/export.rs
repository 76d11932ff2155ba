use dix::snapshot_file::{SnapshotError, SnapshotFile, SnapshotPath};

fn p(hash_digit: char, name: &str) -> String {
    format!("/nix/store/{}-{name}", hash_digit.to_string().repeat(32))
}

fn entry(path: &str, nar_size: i64) -> SnapshotPath {
    SnapshotPath { path: path.to_string(), nar_size }
}

fn paths(file: &SnapshotFile) -> Vec<(String, i64)> {
    file.closure.iter().map(|e| (e.path.clone(), e.nar_size)).collect()
}

#[test]
fn capture_sorts_members_and_selected_paths() {
    let root = p('2', "system");
    let closure = vec![entry(&root, 30), entry(&p('1', "glibc"), 10), entry(&p('0', "bash"), 20)];
    let selected = vec![p('1', "glibc"), p('0', "bash"), p('1', "glibc")];
    let file = SnapshotFile::capture(root.clone(), closure, selected).unwrap();
    assert_eq!(file.schema_version, 1);
    assert_eq!(file.root, root);
    assert_eq!(
        paths(&file),
        vec![(p('0', "bash"), 20), (p('1', "glibc"), 10), (p('2', "system"), 30)]
    );
    assert_eq!(file.selected, vec![p('0', "bash"), p('1', "glibc")]);
    assert!(file.to_snapshot().is_ok());
}

#[test]
fn capture_does_not_depend_on_input_order() {
    let root = p('2', "system");
    let a = SnapshotFile::capture(
        root.clone(),
        vec![entry(&root, 30), entry(&p('1', "glibc"), 10), entry(&p('0', "bash"), 20)],
        vec![p('1', "glibc"), p('0', "bash")],
    )
    .unwrap();
    let b = SnapshotFile::capture(
        root.clone(),
        vec![entry(&p('0', "bash"), 20), entry(&root, 30), entry(&p('1', "glibc"), 10)],
        vec![p('0', "bash"), p('1', "glibc"), p('0', "bash")],
    )
    .unwrap();
    assert_eq!(paths(&a), paths(&b));
    assert_eq!(a.selected, b.selected);
    assert_eq!(a.root, b.root);
}

#[test]
fn capture_of_an_empty_selection() {
    let root = p('2', "hello");
    let file = SnapshotFile::capture(root.clone(), vec![entry(&root, 7)], vec![]).unwrap();
    assert!(file.selected.is_empty());
    assert_eq!(paths(&file), vec![(root, 7)]);
}

#[test]
fn capture_rejects_inconsistent_closures() {
    let root = p('2', "system");
    // Duplicate member: reported at its second occurrence after sorting.
    assert_eq!(
        SnapshotFile::capture(root.clone(), vec![entry(&root, 1), entry(&root, 2)], vec![]).unwrap_err(),
        SnapshotError::DuplicateClosurePath { index: 1 }
    );
    // Root not among the members.
    assert_eq!(
        SnapshotFile::capture(root.clone(), vec![entry(&p('0', "bash"), 1)], vec![]).unwrap_err(),
        SnapshotError::RootMissing
    );
    // Selected path not among the members.
    assert_eq!(
        SnapshotFile::capture(root.clone(), vec![entry(&root, 1)], vec![p('0', "bash")]).unwrap_err(),
        SnapshotError::SelectedMissing { index: 0 }
    );
    // Negative size.
    assert_eq!(
        SnapshotFile::capture(root.clone(), vec![entry(&root, -5)], vec![]).unwrap_err(),
        SnapshotError::NegativeNarSize { index: 0 }
    );
    // Sizes that do not fit in i64.
    assert_eq!(
        SnapshotFile::capture(
            root.clone(),
            vec![entry(&root, i64::MAX), entry(&p('0', "bash"), 1)],
            vec![]
        )
        .unwrap_err(),
        SnapshotError::ClosureSizeOverflow { index: 1 }
    );
}

#[test]
fn sizes_that_sum_to_the_maximum_are_accepted() {
    let root = p('2', "system");
    let file = SnapshotFile::capture(
        root.clone(),
        vec![entry(&root, i64::MAX - 1), entry(&p('0', "bash"), 1)],
        vec![],
    )
    .unwrap();
    let snapshot = file.to_snapshot().unwrap();
    let total: i64 = snapshot.closure.iter().map(|i| i.nar_size()).sum();
    assert_eq!(total, i64::MAX);
}

#[test]
fn exporting_an_exported_file_again_changes_nothing() {
    let root = p('2', "system");
    let first = SnapshotFile::capture(
        root.clone(),
        vec![entry(&p('1', "glibc"), 10), entry(&root, 30)],
        vec![root.clone()],
    )
    .unwrap();
    let again =
        SnapshotFile::capture(first.root.clone(), first.closure.clone(), first.selected.clone())
            .unwrap();
    assert_eq!(paths(&first), paths(&again));
    assert_eq!(first.selected, again.selected);
    assert_eq!(first.root, again.root);
}

#[test]
fn members_with_equal_paths_keep_their_order() {
    let root = p('2', "system");
    assert_eq!(
        SnapshotFile::capture(root.clone(), vec![entry(&root, 5), entry(&root, -1)], vec![])
            .unwrap_err(),
        SnapshotError::DuplicateClosurePath { index: 1 }
    );
    assert_eq!(
        SnapshotFile::capture(root.clone(), vec![entry(&root, -1), entry(&root, 5)], vec![])
            .unwrap_err(),
        SnapshotError::NegativeNarSize { index: 0 }
    );
}

#[test]
fn large_closures_are_exported_and_validated() {
    let alphabet: Vec<char> = "0123456789abcdfghijklmnpqrsvwxyz".chars().collect();
    let name = |i: usize| {
        let hash: String = (0..32).map(|k| alphabet[(i >> (k % 16)) % 32]).collect();
        format!("/nix/store/{hash}-pkg-{i}")
    };
    let n = 20000;
    let closure: Vec<SnapshotPath> = (0..n).rev().map(|i| entry(&name(i), i as i64)).collect();
    let selected: Vec<String> = (0..n).step_by(7).map(name).collect();
    let file = SnapshotFile::capture(name(0), closure, selected).unwrap();
    assert_eq!(file.closure.len(), n);
    assert!(file.closure.windows(2).all(|w| w[0].path < w[1].path));
    let snapshot = file.to_snapshot().unwrap();
    assert_eq!(snapshot.closure.len(), n);
    assert_eq!(snapshot.selected.len(), file.selected.len());
}
