use dix::order::text_less;
use dix::store_path::{root_is_resolved, validate_path, PathError};

const HASH: &str = "0123456789abcdfghijklmnpqrsvwxyz";

#[test]
fn accepts_a_top_level_store_path() {
    let value = format!("/nix/store/{HASH}-hello-2.12.1");
    let path = validate_path(&value).unwrap();
    assert_eq!(path.as_str(), value);
}

#[test]
fn accepts_every_allowed_name_character() {
    let value = format!("/nix/store/{HASH}-aZ09+-._?=");
    assert!(validate_path(&value).is_ok());
}

#[test]
fn rejects_paths_outside_the_store_directory() {
    for value in [
        "/etc/passwd",
        "/nix/store",
        "/nix/store/",
        "/nix/storex/00000000000000000000000000000000-a",
        "/nix/store/../etc/passwd",
        "/nix/store/00000000000000000000000000000000-a/bin",
        "nix/store/00000000000000000000000000000000-a",
        "/nix/store/.",
        "/nix/store/./",
        "",
    ] {
        assert_eq!(validate_path(value).unwrap_err(), PathError::NotTopLevel, "{value}");
    }
}

#[test]
fn rejects_malformed_names_inside_the_store() {
    for value in [
        // `e` is not in the hash alphabet.
        "/nix/store/e0000000000000000000000000000000-a",
        // The hash is one character short.
        "/nix/store/0000000000000000000000000000000-a",
        // The hash is one character long.
        "/nix/store/000000000000000000000000000000000-a",
        // Empty name.
        "/nix/store/00000000000000000000000000000000-",
        // No separator.
        "/nix/store/00000000000000000000000000000000",
        // A space in the name.
        "/nix/store/00000000000000000000000000000000-a b",
        // Upper case in the hash.
        "/nix/store/A0000000000000000000000000000000-a",
        // A non-ASCII name.
        "/nix/store/00000000000000000000000000000000-é",
        // Spellings of a top-level entry other than the store path form.
        "/nix/store/00000000000000000000000000000000-a/",
        "/nix//store/00000000000000000000000000000000-a",
        "//nix/store/00000000000000000000000000000000-a",
        "/nix/./store/00000000000000000000000000000000-a",
        "/nix/store/./00000000000000000000000000000000-a",
        "/nix/store/..",
    ] {
        assert_eq!(validate_path(value).unwrap_err(), PathError::Invalid, "{value}");
    }
}

#[test]
fn text_order_matches_string_order() {
    let words = ["", "a", "ab", "b", "B", "é", "a-b", "a.b", "zz", "z"];
    for a in words {
        for b in words {
            assert_eq!(text_less(a, b), a < b, "{a:?} {b:?}");
        }
    }
}

#[test]
fn only_store_path_spellings_are_used_as_roots_unresolved() {
    let value = format!("/nix/store/{HASH}-nixos-system");
    assert!(root_is_resolved(&value));
    assert!(!root_is_resolved(&format!("{value}/")));
    assert!(!root_is_resolved("/run/current-system"));
    assert!(!root_is_resolved("result"));
}
