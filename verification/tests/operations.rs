use git_profile::cli::{get_config_path, get_level, CliArgs, Commands};
use git_profile::commands::{
    apply_op, create_profile, edit_target, import_op, print_profile, property_output, update_profile,
    ProfileProperty,
};
use git_profile::config::{Config, Profile};
use git_profile::git::{
    find_profile_key, get_level_flag, profile_from_fields, read_field_output, set_plan,
    ConfigWrite, FieldKind, Level,
};
use git_profile::Error;

fn profile(name: &str, email: &str, signingkey: Option<&str>) -> Profile {
    Profile {
        name: name.to_string(),
        email: email.to_string(),
        signingkey: signingkey.map(|k| k.to_string()),
    }
}

#[test]
fn import_scenario() {
    // An empty catalog, with an external profile present at the default level.
    let mut catalog = Config::new();
    let live = profile("Iam Git", "iam@example.com", None);

    // No key resolves against the empty catalog.
    let resolved = find_profile_key(&catalog, &live);
    assert!(resolved.is_none());

    // The import creates an entry under the caller's chosen key.
    assert_eq!(import_op(&mut catalog, resolved, Some(live.clone()), "work"), Ok(()));
    assert_eq!(catalog.get("work").unwrap(), &live);

    // A second import at the same level now resolves a key: already imported.
    let resolved = find_profile_key(&catalog, &live);
    assert_eq!(resolved, Some("work".to_string()));
    assert_eq!(
        import_op(&mut catalog, resolved, Some(live.clone()), "work2"),
        Err(Error::Conflict)
    );
}

#[test]
fn import_without_live_profile_fails() {
    let mut catalog = Config::new();
    assert_eq!(import_op(&mut catalog, None, None, "work"), Err(Error::NotFound));
    assert!(catalog.is_empty());
}

#[test]
fn import_under_taken_key_is_a_validation_error() {
    let mut catalog = Config::new();
    catalog.upsert_profile("work", profile("A", "a@b.c", None));
    let live = profile("B", "b@b.c", None);
    assert_eq!(import_op(&mut catalog, None, Some(live), "work"), Err(Error::ValidationError));
}

#[test]
fn apply_scenario() {
    // A catalog with one entry "default": name=Foo, email=foo@bar.com, no
    // signing key.
    let mut catalog = Config::new();
    catalog.upsert_profile("default", profile("Foo", "foo@bar.com", None));

    // Applying "default" writes exactly those two fields and clears the
    // signing key, which the profile does not carry.
    let applied = apply_op(&catalog, "default").unwrap();
    assert_eq!(applied.name, "Foo");
    assert_eq!(applied.email, "foo@bar.com");
    assert!(applied.signingkey.is_none());
    let plan = set_plan(applied);
    assert_eq!(
        plan,
        vec![
            ConfigWrite::Assign(FieldKind::Name, "Foo".to_string()),
            ConfigWrite::Assign(FieldKind::Email, "foo@bar.com".to_string()),
            ConfigWrite::Clear(FieldKind::SigningKey),
        ]
    );

    // Reading the store back afterwards: name and email come from the two
    // set fields, the signing-key read reports unset.
    let name = read_field_output(FieldKind::Name, true, "Foo\n");
    let email = read_field_output(FieldKind::Email, true, "foo@bar.com\n");
    let signingkey = read_field_output(FieldKind::SigningKey, false, "");
    let live = profile_from_fields(name, email, signingkey).unwrap();

    // `current --profile-key` resolves back to "default".
    assert_eq!(find_profile_key(&catalog, &live), Some("default".to_string()));
}

#[test]
fn apply_missing_profile_is_not_found() {
    let catalog = Config::new();
    assert_eq!(apply_op(&catalog, "default").unwrap_err(), Error::NotFound);
}

#[test]
fn name_read_ignores_exit_status_quirk() {
    // Known quirk, kept on purpose: a failed name or email read still
    // yields the trimmed output (so a missing key surfaces as ""), while
    // only the signing-key read treats a non-success exit as unset.
    assert_eq!(read_field_output(FieldKind::Name, false, " \t\n"), Some("".to_string()));
    assert_eq!(read_field_output(FieldKind::Email, false, ""), Some("".to_string()));
    assert_eq!(read_field_output(FieldKind::SigningKey, false, "abc"), None);
    assert_eq!(read_field_output(FieldKind::SigningKey, true, " abc \n"), Some("abc".to_string()));
}

#[test]
fn set_plan_keeps_a_present_signing_key() {
    let plan = set_plan(&profile("A", "a@b.c", Some("k1")));
    assert_eq!(
        plan,
        vec![
            ConfigWrite::Assign(FieldKind::Name, "A".to_string()),
            ConfigWrite::Assign(FieldKind::Email, "a@b.c".to_string()),
            ConfigWrite::Assign(FieldKind::SigningKey, "k1".to_string()),
        ]
    );
}

#[test]
fn profile_needs_both_name_and_email() {
    assert!(profile_from_fields(None, Some("a@b.c".to_string()), None).is_none());
    assert!(profile_from_fields(Some("A".to_string()), None, None).is_none());
    let p = profile_from_fields(
        Some("A".to_string()),
        Some("a@b.c".to_string()),
        Some("key".to_string()),
    )
    .unwrap();
    assert_eq!(p, profile("A", "a@b.c", Some("key")));
}

#[test]
fn create_profile_rejects_taken_key() {
    let mut catalog = Config::new();
    assert_eq!(create_profile(&mut catalog, "a", profile("A", "a@b.c", None)), Ok(()));
    assert_eq!(
        create_profile(&mut catalog, "a", profile("B", "b@b.c", None)),
        Err(Error::ValidationError)
    );
}

#[test]
fn update_profile_keeps_position() {
    let mut catalog = Config::new();
    catalog.upsert_profile("a", profile("A", "a@b.c", None));
    catalog.upsert_profile("b", profile("B", "b@b.c", None));
    assert_eq!(update_profile(&mut catalog, "a", profile("A2", "a2@b.c", None)), Ok(()));
    assert_eq!(catalog.keys(), vec!["a", "b"]);
    assert_eq!(catalog.get("a").unwrap().name, "A2");
    assert_eq!(
        update_profile(&mut catalog, "zz", profile("Z", "z@b.c", None)),
        Err(Error::NotFound)
    );
}

#[test]
fn edit_target_selection() {
    let mut catalog = Config::new();
    assert_eq!(edit_target(&catalog, &None), Err(Error::NotFound));

    catalog.upsert_profile("only", profile("A", "a@b.c", None));
    assert_eq!(edit_target(&catalog, &None), Ok(Some("only".to_string())));

    catalog.upsert_profile("more", profile("B", "b@b.c", None));
    assert_eq!(edit_target(&catalog, &None), Ok(None));
    assert_eq!(edit_target(&catalog, &Some("more".to_string())), Ok(Some("more".to_string())));
    assert_eq!(edit_target(&catalog, &Some("nope".to_string())), Err(Error::NotFound));
}

#[test]
fn print_profile_lines() {
    assert_eq!(
        print_profile(&profile("Foo", "foo@bar.com", None)),
        "user.name=Foo\nuser.email=foo@bar.com"
    );
    assert_eq!(
        print_profile(&profile("Foo", "foo@bar.com", Some("k1"))),
        "user.name=Foo\nuser.email=foo@bar.com\nuser.signingkey=k1"
    );
}

#[test]
fn property_output_variants() {
    let key = "work".to_string();
    let p = profile("Foo", "foo@bar.com", None);
    assert_eq!(property_output(&key, &p, &ProfileProperty::Name), Some("Foo".to_string()));
    assert_eq!(property_output(&key, &p, &ProfileProperty::Email), Some("foo@bar.com".to_string()));
    assert_eq!(property_output(&key, &p, &ProfileProperty::SigningKey), None);
    assert_eq!(property_output(&key, &p, &ProfileProperty::ProfileKey), Some("work".to_string()));
    assert_eq!(
        property_output(&key, &p, &ProfileProperty::Profile),
        Some("profile.key=work\nuser.name=Foo\nuser.email=foo@bar.com".to_string())
    );
    let with_key = profile("Foo", "foo@bar.com", Some("k1"));
    assert_eq!(
        property_output(&key, &with_key, &ProfileProperty::SigningKey),
        Some("k1".to_string())
    );
}

#[test]
fn level_flag_strings() {
    assert_eq!(get_level_flag(&Level::Global), "--global");
    assert_eq!(get_level_flag(&Level::System), "--system");
    assert_eq!(get_level_flag(&Level::Local), "--local");
    assert_eq!(get_level_flag(&Level::WorkTree), "--worktree");
    assert_eq!(get_level_flag(&Level::File("x.toml".to_string())), "--file x.toml");
}

#[test]
fn level_selection_precedence() {
    assert_eq!(get_level(true, true, true, true, Some("f".to_string())), Some(Level::System));
    assert_eq!(get_level(false, true, false, false, None), Some(Level::Global));
    assert_eq!(get_level(false, false, true, false, None), Some(Level::Local));
    assert_eq!(get_level(false, false, false, true, None), Some(Level::WorkTree));
    assert_eq!(
        get_level(false, false, false, false, Some("f".to_string())),
        Some(Level::File("f".to_string()))
    );
    assert_eq!(get_level(false, false, false, false, None), None);
}

#[test]
fn explicit_config_path_wins() {
    let args = CliArgs { config_path: Some("/tmp/custom.toml".to_string()), command: Commands::New };
    assert_eq!(get_config_path(&args), Some("/tmp/custom.toml".to_string()));
}

#[test]
fn default_config_path_ends_with_file_name() {
    let args = CliArgs { config_path: None, command: Commands::ConfigPath };
    if let Some(path) = get_config_path(&args) {
        assert!(path.ends_with("/gitprofile.toml"));
    }
}

#[test]
fn error_descriptions() {
    assert_eq!(Error::NotFound.describe(), "profile not found");
    assert_eq!(Error::Conflict.describe(), "profile already exists");
    assert_eq!(Error::ValidationError.describe(), "invalid input");
    assert_eq!(Error::ParseError.describe(), "malformed profile file");
    assert_eq!(Error::IOError.describe(), "filesystem failure");
    assert_eq!(Error::ExternalToolError.describe(), "external tool failure");
}
