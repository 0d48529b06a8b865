use git_profile::commands::{list_lines, remove_op, rename_op};
use git_profile::config::{Config, Profile};
use git_profile::git::find_profile_key;
use git_profile::Error;

fn profile(name: &str, email: &str, signingkey: Option<&str>) -> Profile {
    Profile {
        name: name.to_string(),
        email: email.to_string(),
        signingkey: signingkey.map(|k| k.to_string()),
    }
}

fn abc_catalog() -> Config {
    let mut catalog = Config::new();
    catalog.upsert_profile("a", profile("a", "a@example.com", None));
    catalog.upsert_profile("b", profile("b", "b@example.com", None));
    catalog.upsert_profile("c", profile("c", "c@example.com", Some("signingkey")));
    catalog
}

#[test]
fn has_match() {
    let catalog = abc_catalog();
    let result_b = find_profile_key(&catalog, &profile("b", "b@example.com", None));
    assert!(result_b.is_some());
    assert_eq!(result_b.unwrap(), "b")
}

#[test]
fn no_match() {
    let catalog = abc_catalog();
    let result_a = find_profile_key(&catalog, &profile("a", "b@example.com", None));
    assert!(result_a.is_none());

    let result_b = find_profile_key(&catalog, &profile("b", "b@example.com", Some("test")));
    assert!(result_b.is_none());

    let result_d = find_profile_key(&catalog, &profile("d", "d@example.com", None));
    assert!(result_d.is_none());
}

#[test]
fn find_first_of_equal_values_wins() {
    let mut catalog = Config::new();
    catalog.upsert_profile("first", profile("Same", "same@example.com", None));
    catalog.upsert_profile("second", profile("Same", "same@example.com", None));
    let found = find_profile_key(&catalog, &profile("Same", "same@example.com", None));
    assert_eq!(found.unwrap(), "first");
}

#[test]
fn upsert_keeps_position_and_returns_old_value() {
    let mut catalog = abc_catalog();
    let old = catalog.upsert_profile("b", profile("bee", "bee@example.com", None));
    assert_eq!(old.unwrap(), profile("b", "b@example.com", None));
    assert_eq!(catalog.keys(), vec!["a", "b", "c"]);
    assert_eq!(catalog.get("b").unwrap().name, "bee");
}

#[test]
fn remove_shifts_later_entries_up() {
    let mut catalog = abc_catalog();
    let removed = catalog.remove_profile("b");
    assert_eq!(removed.unwrap(), profile("b", "b@example.com", None));
    assert_eq!(catalog.keys(), vec!["a", "c"]);
    assert!(catalog.remove_profile("b").is_none());
}

#[test]
fn rename_moves_entry_to_the_end() {
    let mut catalog = abc_catalog();
    assert_eq!(rename_op(&mut catalog, "a", "z"), Ok(()));
    assert_eq!(catalog.keys(), vec!["b", "c", "z"]);
    assert_eq!(catalog.get("z").unwrap(), &profile("a", "a@example.com", None));
    assert!(catalog.get("a").is_none());
}

#[test]
fn rename_missing_source_is_not_found() {
    let mut catalog = abc_catalog();
    assert_eq!(rename_op(&mut catalog, "nope", "z"), Err(Error::NotFound));
    assert_eq!(catalog.keys(), vec!["a", "b", "c"]);
}

#[test]
fn rename_existing_target_is_conflict() {
    let mut catalog = abc_catalog();
    assert_eq!(rename_op(&mut catalog, "a", "b"), Err(Error::Conflict));
    assert_eq!(catalog.keys(), vec!["a", "b", "c"]);
}

#[test]
fn remove_missing_key_is_not_found() {
    let mut catalog = abc_catalog();
    assert_eq!(remove_op(&mut catalog, "nope"), Err(Error::NotFound));
    assert_eq!(remove_op(&mut catalog, "a"), Ok(()));
    assert_eq!(catalog.keys(), vec!["b", "c"]);
}

#[test]
fn list_marks_the_current_entry() {
    let catalog = abc_catalog();
    let lines = list_lines(&catalog, &Some("b".to_string()));
    assert_eq!(lines, vec!["  a", "* b", "  c"]);
    let lines = list_lines(&catalog, &None);
    assert_eq!(lines, vec!["  a", "  b", "  c"]);
}

#[test]
fn first_entry_follows_insertion_order() {
    let catalog = abc_catalog();
    let (key, p) = catalog.first().unwrap();
    assert_eq!(key, "a");
    assert_eq!(p, &profile("a", "a@example.com", None));
    assert!(Config::new().first().is_none());
}
