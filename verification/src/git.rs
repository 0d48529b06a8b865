use vstd::prelude::*;

use vstd::string::StringExecFns;

use crate::config::{CatalogView, Config, Profile, ProfileView};
use crate::errors::Error;
use crate::text::{trim_spec, trim_str};

verus! {

/// Where the external configuration store is read or written: one fixed
/// scope, or an explicit configuration file. Absence of a `Level` means the
/// external tool's own default resolution order.
#[derive(Debug, Clone, PartialEq, Eq)]
pub enum Level {
    Global,
    System,
    Local,
    WorkTree,
    File(String),
}

impl Level {
    /// The scope flag handed to the external tool.
    pub open spec fn spec_flag(self) -> Seq<char> {
        match self {
            Level::Global => "--global"@,
            Level::System => "--system"@,
            Level::Local => "--local"@,
            Level::WorkTree => "--worktree"@,
            Level::File(path) => "--file "@ + path@,
        }
    }
}

/// The scope flag that addresses `level` on the external tool's command line.
pub fn get_level_flag(level: &Level) -> (r: String)
    ensures
        r@ == level.spec_flag(),
{
    match level {
        Level::Global => "--global".to_owned(),
        Level::System => "--system".to_owned(),
        Level::Local => "--local".to_owned(),
        Level::WorkTree => "--worktree".to_owned(),
        Level::File(config_file_path) => {
            let mut flag = "--file ".to_owned();
            flag.append(config_file_path.as_str());
            flag
        },
    }
}

/// The three fixed fields the external store holds for a profile.
#[derive(Debug, Clone, Copy, PartialEq, Eq, Structural)]
pub enum FieldKind {
    Name,
    Email,
    SigningKey,
}

/// Writing to the external store: name and email are always set; an absent
/// signing key is explicitly unset at the addressed scope.
pub trait GitConfigWrite {
    fn set(&self, profile: &Profile, maybe_level: &Option<Level>) -> Result<(), Error>;
}

/// Reading the external store's three profile fields at a scope.
pub trait GitConfigRead {
    fn get_name(&self, maybe_level: &Option<Level>) -> Result<Option<String>, Error>;

    fn get_email(&self, maybe_level: &Option<Level>) -> Result<Option<String>, Error>;

    fn get_signingkey(&self, maybe_level: &Option<Level>) -> Result<Option<String>, Error>;

    fn get(&self, maybe_level: &Option<Level>) -> Result<Option<Profile>, Error>;

    fn get_profile_key(&self, config: &Config, maybe_level: &Option<Level>) -> Result<
        Option<String>,
        Error,
    >;
}

/// A client that can both read and write the external store.
pub trait GitConfigClientType: GitConfigWrite + GitConfigRead {

}

impl<T: GitConfigRead + GitConfigWrite> GitConfigClientType for T {

}

/// The production client of the external configuration store. The calls
/// themselves run the external tool and live outside the library; the
/// decision logic they rely on is below.
#[derive(Debug)]
pub struct GitConfigClient;

impl GitConfigClient {
    pub fn new() -> (r: GitConfigClient) {
        GitConfigClient {}
    }
}

/// Turns one raw field read (the tool's exit status and decoded output)
/// into the field's value. Name and email reads keep the trimmed output
/// whatever the exit status was; only a signing-key read treats a
/// non-success exit as "unset". The asymmetry is deliberate and kept: a
/// missing name or email surfaces as an empty string, never as absence.
pub fn read_field_output(kind: FieldKind, success: bool, raw: &str) -> (r: Option<String>)
    ensures
        kind is SigningKey && !success ==> r is None,
        !(kind is SigningKey && !success) ==> (r matches Some(t) && t@ == trim_spec(raw@)),
{
    match kind {
        FieldKind::SigningKey => {
            if success {
                Some(trim_str(raw).to_owned())
            } else {
                None
            }
        },
        _ => Some(trim_str(raw).to_owned()),
    }
}

/// One write to the external store: assign a field a value, or clear it.
#[derive(Debug, Clone, PartialEq, Eq)]
pub enum ConfigWrite {
    Assign(FieldKind, String),
    Clear(FieldKind),
}

/// The writes that apply a profile at a scope, in order: name and email are
/// always set; the signing key is set when the profile has one and cleared
/// otherwise, so no stale key survives.
pub fn set_plan(profile: &Profile) -> (r: Vec<ConfigWrite>)
    ensures
        r@.len() == 3,
        (r@[0] matches ConfigWrite::Assign(f, v) && f is Name && v@ == profile@.name),
        (r@[1] matches ConfigWrite::Assign(f, v) && f is Email && v@ == profile@.email),
        match profile@.signingkey {
            Some(k) => r@[2] matches ConfigWrite::Assign(f, v) && f is SigningKey && v@ == k,
            None => r@[2] matches ConfigWrite::Clear(f) && f is SigningKey,
        },
{
    let mut plan: Vec<ConfigWrite> = Vec::new();
    plan.push(ConfigWrite::Assign(FieldKind::Name, profile.name.clone()));
    plan.push(ConfigWrite::Assign(FieldKind::Email, profile.email.clone()));
    match &profile.signingkey {
        Some(signingkey) => {
            plan.push(ConfigWrite::Assign(FieldKind::SigningKey, signingkey.clone()));
        },
        None => {
            plan.push(ConfigWrite::Clear(FieldKind::SigningKey));
        },
    }
    plan
}

/// Builds the live profile from the three field reads: a profile exists
/// exactly when both a name and an email were obtained; the signing key is
/// carried over as read.
pub fn profile_from_fields(
    maybe_name: Option<String>,
    maybe_email: Option<String>,
    signingkey: Option<String>,
) -> (r: Option<Profile>)
    ensures
        match (maybe_name, maybe_email) {
            (Some(name), Some(email)) => r matches Some(p) && p@ == (ProfileView {
                name: name@,
                email: email@,
                signingkey: match signingkey {
                    Some(k) => Some(k@),
                    None => None,
                },
            }),
            _ => r is None,
        },
{
    if let (Some(name), Some(email)) = (maybe_name, maybe_email) {
        Some(Profile { name, email, signingkey })
    } else {
        None
    }
}

/// The key of the first entry, in insertion order, whose profile equals `p`.
pub open spec fn find_key_spec(s: CatalogView, p: ProfileView) -> Option<Seq<char>>
    decreases s.len(),
{
    if s.len() == 0 {
        None
    } else if s[0].1 == p {
        Some(s[0].0)
    } else {
        find_key_spec(s.drop_first(), p)
    }
}

/// A found key names an entry structurally equal to the query and none
/// before it matches; no key comes back exactly when no entry matches.
pub proof fn lemma_find_key_spec(s: CatalogView, p: ProfileView)
    ensures
        match find_key_spec(s, p) {
            Some(k) => exists|i: int|
                0 <= i < s.len() && #[trigger] s[i].0 == k && s[i].1 == p && (forall|j: int|
                    0 <= j < i ==> s[j].1 != p),
            None => forall|i: int| 0 <= i < s.len() ==> s[i].1 != p,
        },
    decreases s.len(),
{
    if s.len() == 0 {
    } else if s[0].1 == p {
        assert(s[0].0 == s[0].0 && s[0].1 == p);
    } else {
        lemma_find_key_spec(s.drop_first(), p);
        let rest = s.drop_first();
        match find_key_spec(rest, p) {
            Some(k) => {
                let i = choose|i: int|
                    0 <= i < rest.len() && #[trigger] rest[i].0 == k && rest[i].1 == p && (forall|
                        j: int,
                    | 0 <= j < i ==> rest[j].1 != p);
                assert(s[i + 1].0 == k && s[i + 1].1 == p);
                assert(forall|j: int| 0 < j < i + 1 ==> s[j].1 == rest[j - 1].1);
                assert(forall|j: int| 0 <= j < i + 1 ==> s[j].1 != p);
            },
            None => {
                assert(forall|j: int| 0 < j < s.len() ==> s[j].1 == rest[j - 1].1);
            },
        }
    }
}

/// The key of the first catalog entry structurally equal to `target`.
pub fn find_profile_key(profile_catalog: &Config, target: &Profile) -> (r: Option<String>)
    ensures
        match r {
            Some(k) => find_key_spec(profile_catalog@, target@) == Some(k@),
            None => find_key_spec(profile_catalog@, target@) is None,
        },
{
    let n = profile_catalog.len();
    proof {
        assert(profile_catalog@.skip(0) =~= profile_catalog@);
    }
    let mut i: usize = 0;
    while i < n
        invariant
            0 <= i <= n,
            n == profile_catalog@.len(),
            find_key_spec(profile_catalog@, target@) == find_key_spec(
                profile_catalog@.skip(i as int),
                target@,
            ),
        decreases n - i,
    {
        let entry = profile_catalog.entry_at(i);
        let ghost rem = profile_catalog@.skip(i as int);
        assert(rem[0] == profile_catalog@[i as int]);
        if entry.1.same_as(target) {
            return Some(entry.0.clone());
        }
        proof {
            assert(rem.drop_first() =~= profile_catalog@.skip(i + 1));
        }
        i += 1;
    }
    proof {
        assert(profile_catalog@.skip(n as int).len() == 0);
    }
    None
}

} // verus!
