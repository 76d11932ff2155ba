use dix::snapshot_file::{SnapshotError, SnapshotFile, SnapshotPath};
use serde_json::Value;

fn fixture(version: &str, size: i64) -> Value {
    let path = format!("/nix/store/00000000000000000000000000000000-hello-{version}");
    let text = format!(
        r#"{{"schema_version":1,"root":"{path}","closure":[{{"path":"{path}","nar_size":{size}}}],"selected":["{path}"]}}"#
    );
    serde_json::from_str(&text).unwrap()
}

/// The snapshot file that a JSON document of the fixture's shape describes.
fn file_from_value(value: &Value) -> SnapshotFile {
    let closure = value["closure"]
        .as_array()
        .unwrap()
        .iter()
        .map(|entry| SnapshotPath {
            path: entry["path"].as_str().unwrap().to_string(),
            nar_size: entry["nar_size"].as_i64().unwrap(),
        })
        .collect();
    let selected = value["selected"]
        .as_array()
        .unwrap()
        .iter()
        .map(|p| p.as_str().unwrap().to_string())
        .collect();
    SnapshotFile {
        schema_version: value["schema_version"].as_u64().unwrap() as u32,
        root: value["root"].as_str().unwrap().to_string(),
        closure,
        selected,
    }
}

#[test]
fn rejects_corrupt_or_incompatible_snapshots() {
    for mutation in 0..7 {
        let mut value = fixture("1.0", 100);
        match mutation {
            0 => value["schema_version"] = Value::from(2),
            1 => value["closure"][0]["nar_size"] = Value::from(-1),
            2 => {
                let entry = value["closure"][0].clone();
                value["closure"].as_array_mut().unwrap().push(entry);
            },
            3 => {
                value["root"] = Value::from("/nix/store/00000000000000000000000000000000-missing");
            },
            4 => value["closure"][0]["path"] = Value::from("/nix/store/../etc/passwd"),
            5 => {
                value["selected"] = Value::from(vec![Value::from(
                    "/nix/store/00000000000000000000000000000000-missing",
                )]);
            },
            _ => {
                value["closure"][0]["nar_size"] = Value::from(i64::MAX);
                let other: Value = serde_json::from_str(
                    r#"{"path":"/nix/store/11111111111111111111111111111111-other", "nar_size":1}"#,
                )
                .unwrap();
                value["closure"].as_array_mut().unwrap().push(other);
            },
        }
        assert!(file_from_value(&value).to_snapshot().is_err(), "mutation {mutation}");
    }
}

#[test]
fn fixture_is_accepted_with_its_content() {
    let file = file_from_value(&fixture("1.0", 100));
    let snapshot = file.to_snapshot().unwrap();
    assert_eq!(snapshot.closure.len(), 1);
    assert_eq!(
        snapshot.closure[0].path().as_str(),
        "/nix/store/00000000000000000000000000000000-hello-1.0"
    );
    assert_eq!(snapshot.closure[0].nar_size(), 100);
    assert_eq!(snapshot.selected.len(), 1);
    assert_eq!(
        snapshot.selected[0].as_str(),
        "/nix/store/00000000000000000000000000000000-hello-1.0"
    );
}

#[test]
fn each_rejection_names_the_first_failing_check() {
    let cases: Vec<(usize, SnapshotError)> = vec![
        (0, SnapshotError::UnsupportedSchemaVersion { version: 2 }),
        (1, SnapshotError::NegativeNarSize { index: 0 }),
        (2, SnapshotError::DuplicateClosurePath { index: 1 }),
        (3, SnapshotError::RootMissing),
        (
            4,
            SnapshotError::InvalidClosurePath {
                index: 0,
                kind: dix::store_path::PathError::NotTopLevel,
            },
        ),
        (5, SnapshotError::SelectedMissing { index: 0 }),
        (6, SnapshotError::ClosureSizeOverflow { index: 1 }),
    ];
    for (mutation, expected) in cases {
        let mut value = fixture("1.0", 100);
        match mutation {
            0 => value["schema_version"] = Value::from(2),
            1 => value["closure"][0]["nar_size"] = Value::from(-1),
            2 => {
                let entry = value["closure"][0].clone();
                value["closure"].as_array_mut().unwrap().push(entry);
            },
            3 => {
                value["root"] = Value::from("/nix/store/00000000000000000000000000000000-missing");
            },
            4 => value["closure"][0]["path"] = Value::from("/nix/store/../etc/passwd"),
            5 => {
                value["selected"] = Value::from(vec![Value::from(
                    "/nix/store/00000000000000000000000000000000-missing",
                )]);
            },
            _ => {
                value["closure"][0]["nar_size"] = Value::from(i64::MAX);
                let other: Value = serde_json::from_str(
                    r#"{"path":"/nix/store/11111111111111111111111111111111-other", "nar_size":1}"#,
                )
                .unwrap();
                value["closure"].as_array_mut().unwrap().push(other);
            },
        }
        assert_eq!(file_from_value(&value).to_snapshot().unwrap_err(), expected, "mutation {mutation}");
    }
}
