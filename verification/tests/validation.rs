use git_profile::config::{Config, Profile};
use git_profile::email::is_email;
use git_profile::profile_key::no_duplicates;
use git_profile::Error;

fn blank_profile() -> Profile {
    Profile { name: "".to_string(), email: "".to_string(), signingkey: None }
}

#[test]
fn invalid_inputs() {
    vec!["", "@", "@@", "a@b@", "a b", "test", "test@@example.com"].into_iter().for_each(|input| {
        assert!(is_email(input).is_err(), "{} should return error", input);
    })
}

#[test]
fn valid_inputs() {
    vec!["test@example.com", "what.is.this@foo.bar.com", "manydots...+something@gmail.com"]
        .into_iter()
        .for_each(|input| {
            assert!(is_email(input).is_ok(), "{} should return ok", input);
        })
}

#[test]
fn email_rejection_is_a_validation_error() {
    assert_eq!(is_email("not an email").unwrap_err(), Error::ValidationError);
}

#[test]
fn email_label_length_is_bounded() {
    let long_label = "a".repeat(63);
    assert!(is_email(&format!("me@{}.com", long_label)).is_ok());
    let too_long = "a".repeat(64);
    assert!(is_email(&format!("me@{}.com", too_long)).is_err());
}

#[test]
fn email_rejects_hyphens_at_label_edges() {
    assert!(is_email("me@-example.com").is_err());
    assert!(is_email("me@example-.com").is_err());
    assert!(is_email("me@ex-ample.com").is_ok());
}

#[test]
fn has_duplicates() {
    let input = "existing";
    let mut profile_catalog = Config::new();
    profile_catalog.upsert_profile("existing", blank_profile());
    profile_catalog.upsert_profile("other", blank_profile());
    assert!(no_duplicates(input, &profile_catalog).is_err());
}

#[test]
fn has_no_duplicates() {
    let input = "new";
    let mut profile_catalog = Config::new();
    profile_catalog.upsert_profile("existing", blank_profile());
    profile_catalog.upsert_profile("other", blank_profile());
    assert!(no_duplicates(input, &profile_catalog).is_ok());
}

#[test]
fn duplicate_key_is_a_validation_error() {
    let mut profile_catalog = Config::new();
    profile_catalog.upsert_profile("existing", blank_profile());
    assert_eq!(no_duplicates("existing", &profile_catalog).unwrap_err(), Error::ValidationError);
}
