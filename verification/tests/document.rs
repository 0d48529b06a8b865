use git_profile::config::{Config, Profile};
use git_profile::format::{from_toml, to_toml};
use git_profile::Error;

fn profile(name: &str, email: &str, signingkey: Option<&str>) -> Profile {
    Profile {
        name: name.to_string(),
        email: email.to_string(),
        signingkey: signingkey.map(|k| k.to_string()),
    }
}

#[test]
fn config_empty() {
    let config: Config = from_toml("").unwrap();
    assert!(config.is_empty());
}

#[test]
fn config_multiple_entries() {
    let config: Config = from_toml(
        r#"
            [profile.default]
            name = 'Foo Bar'
            email = 'foo@bar.com'
            signingkey = 'whatever'

            [profile.no_signingkey]
            name = 'Foo Bar'
            email = 'foo@bar.com'
        "#,
    )
    .unwrap();
    assert_eq!(config.get("default").unwrap().name, "Foo Bar");
    assert_eq!(config.get("default").unwrap().email, "foo@bar.com");
    assert_eq!(
        config.get("default").unwrap().signingkey.as_ref().unwrap(),
        "whatever"
    );

    assert_eq!(config.get("no_signingkey").unwrap().name, "Foo Bar");
    assert_eq!(config.get("no_signingkey").unwrap().email, "foo@bar.com");
    assert_eq!(config.get("no_signingkey").unwrap().signingkey, None);
}

#[test]
fn empty() {
    let config = Config::new();
    let toml_str = to_toml(&config);
    assert_eq!(toml_str, "");
}

#[test]
fn multiple_entries() {
    let mut config = Config::new();
    config.upsert_profile("default", profile("Iam Git", "iam@example.com", None));
    config.upsert_profile("work", profile("Work Profile", "profile@work.com", Some("whatever")));
    let toml_str = to_toml(&config);
    assert_eq!(
        toml_str,
        r#"[profile.default]
name = "Iam Git"
email = "iam@example.com"

[profile.work]
name = "Work Profile"
email = "profile@work.com"
signingkey = "whatever"
"#
    );
}

#[test]
fn round_trip_preserves_catalog() {
    let mut config = Config::new();
    config.upsert_profile("default", profile("Iam Git", "iam@example.com", None));
    config.upsert_profile("work", profile("Work Profile", "profile@work.com", Some("whatever")));
    config.upsert_profile("oss", profile("Open Source", "oss@example.com", None));

    let reloaded = from_toml(&to_toml(&config)).unwrap();
    assert_eq!(reloaded.len(), 3);
    let keys = reloaded.keys();
    assert_eq!(keys, vec!["default", "work", "oss"]);
    assert_eq!(reloaded.get("default").unwrap(), config.get("default").unwrap());
    assert_eq!(reloaded.get("work").unwrap(), config.get("work").unwrap());
    assert_eq!(reloaded.get("oss").unwrap(), config.get("oss").unwrap());
}

#[test]
fn round_trip_empty_catalog_is_empty_document() {
    let config = Config::new();
    let doc = to_toml(&config);
    assert_eq!(doc, "");
    let reloaded = from_toml(&doc).unwrap();
    assert!(reloaded.is_empty());
}

#[test]
fn parse_accepts_crlf_line_endings() {
    let config = from_toml("[profile.a]\r\nname = \"A\"\r\nemail = \"a@example.com\"\r\n").unwrap();
    assert_eq!(config.get("a").unwrap().name, "A");
    assert_eq!(config.get("a").unwrap().email, "a@example.com");
}

#[test]
fn parse_rejects_missing_email() {
    let r = from_toml("[profile.a]\nname = \"A\"\n");
    assert_eq!(r.unwrap_err(), Error::ParseError);
}

#[test]
fn parse_rejects_duplicate_table() {
    let r = from_toml(
        "[profile.a]\nname = \"A\"\nemail = \"a@b.c\"\n\n[profile.a]\nname = \"B\"\nemail = \"b@b.c\"\n",
    );
    assert_eq!(r.unwrap_err(), Error::ParseError);
}

#[test]
fn parse_rejects_repeated_field() {
    let r = from_toml("[profile.a]\nname = \"A\"\nname = \"B\"\nemail = \"a@b.c\"\n");
    assert_eq!(r.unwrap_err(), Error::ParseError);
}

#[test]
fn parse_rejects_unknown_field() {
    let r = from_toml("[profile.a]\nname = \"A\"\nemail = \"a@b.c\"\ncolor = \"red\"\n");
    assert_eq!(r.unwrap_err(), Error::ParseError);
}

#[test]
fn parse_rejects_value_outside_table() {
    let r = from_toml("name = \"A\"\n");
    assert_eq!(r.unwrap_err(), Error::ParseError);
}

#[test]
fn parse_rejects_unquoted_value() {
    let r = from_toml("[profile.a]\nname = A\nemail = \"a@b.c\"\n");
    assert_eq!(r.unwrap_err(), Error::ParseError);
}

#[test]
fn parse_keeps_spaces_inside_quotes() {
    let config = from_toml("[profile.a]\nname = \" spaced out \"\nemail = \"a@b.c\"\n").unwrap();
    assert_eq!(config.get("a").unwrap().name, " spaced out ");
}

#[test]
fn round_trip_escapes_special_characters() {
    let mut config = Config::new();
    config.upsert_profile(
        "my key",
        profile("Joe \"JJ\" Smith", "a@b.c", Some("line\nbreak\tand \\slash")),
    );
    let doc = to_toml(&config);
    assert_eq!(
        doc,
        "[profile.\"my key\"]\nname = \"Joe \\\"JJ\\\" Smith\"\nemail = \"a@b.c\"\nsigningkey = \"line\\nbreak\\tand \\\\slash\"\n"
    );
    let reloaded = from_toml(&doc).unwrap();
    assert_eq!(reloaded.get("my key").unwrap(), config.get("my key").unwrap());
}

#[test]
fn parse_reads_escaped_document() {
    let config = from_toml(
        "[profile.a]\nname = \"Joe \\\"JJ\\\" Smith\"\nemail = \"a@b.c\"\n",
    )
    .unwrap();
    assert_eq!(config.get("a").unwrap().name, "Joe \"JJ\" Smith");
}

#[test]
fn parse_reads_quoted_table_key() {
    let config = from_toml("[profile.\"my key\"]\nname = \"A\"\nemail = \"a@b.c\"\n").unwrap();
    assert_eq!(config.get("my key").unwrap().name, "A");
    assert!(config.get("my").is_none());
}

#[test]
fn parse_rejects_unknown_escape() {
    let r = from_toml("[profile.a]\nname = \"a\\qb\"\nemail = \"a@b.c\"\n");
    assert_eq!(r.unwrap_err(), Error::ParseError);
}

#[test]
fn parse_rejects_unterminated_escape() {
    let r = from_toml("[profile.a]\nname = \"a\\\"\nemail = \"a@b.c\"\n");
    assert_eq!(r.unwrap_err(), Error::ParseError);
}

#[test]
fn single_quoted_value_is_literal() {
    let config = from_toml("[profile.a]\nname = 'a\\nb'\nemail = 'a@b.c'\n").unwrap();
    assert_eq!(config.get("a").unwrap().name, "a\\nb");
}

#[test]
fn round_trip_empty_key_uses_quoted_header() {
    let mut config = Config::new();
    config.upsert_profile("", profile("A", "a@b.c", None));
    let doc = to_toml(&config);
    assert_eq!(doc, "[profile.\"\"]\nname = \"A\"\nemail = \"a@b.c\"\n");
    let reloaded = from_toml(&doc).unwrap();
    assert_eq!(reloaded.get("").unwrap().name, "A");
}
