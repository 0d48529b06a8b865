use vstd::prelude::*;

use vstd::string::StringExecFns;

use crate::config::{
    catalog_has_key, catalog_key_at, catalog_value_of, catalog_wf, CatalogView, Config, Profile,
    ProfileView,
};
use crate::errors::Error;

verus! {

/// Which part of the current profile an operation reports.
#[derive(Debug, Clone, Copy, PartialEq, Eq, Structural)]
pub enum ProfileProperty {
    Name,
    Email,
    SigningKey,
    ProfileKey,
    Profile,
}

/// The display form of a profile: one `user.*` line per present field.
pub open spec fn spec_print_profile(p: ProfileView) -> Seq<char> {
    "user.name="@ + p.name + "\nuser.email="@ + p.email + (match p.signingkey {
        Some(k) => "\nuser.signingkey="@ + k,
        None => Seq::<char>::empty(),
    })
}

/// Renders a profile for display, one `user.*` line per present field.
pub fn print_profile(profile: &Profile) -> (r: String)
    ensures
        r@ == spec_print_profile(profile@),
{
    let mut out = "user.name=".to_owned();
    out.append(profile.name.as_str());
    out.append("\nuser.email=");
    out.append(profile.email.as_str());
    if let Some(signingkey) = &profile.signingkey {
        out.append("\nuser.signingkey=");
        out.append(signingkey.as_str());
    }
    proof {
        assert(out@ =~= spec_print_profile(profile@));
    }
    out
}

/// What `current` reports for the resolved profile and key: the selected
/// field, the key itself, or the full display form prefixed with the key.
/// An absent signing key yields no output.
pub open spec fn spec_property_output(
    key: Seq<char>,
    p: ProfileView,
    property: ProfileProperty,
) -> Option<Seq<char>> {
    match property {
        ProfileProperty::Name => Some(p.name),
        ProfileProperty::Email => Some(p.email),
        ProfileProperty::SigningKey => p.signingkey,
        ProfileProperty::ProfileKey => Some(key),
        ProfileProperty::Profile => Some("profile.key="@ + key + "\n"@ + spec_print_profile(p)),
    }
}

/// Renders the requested property of the current profile.
pub fn property_output(key: &String, profile: &Profile, property: &ProfileProperty) -> (r: Option<
    String,
>)
    ensures
        match r {
            Some(t) => spec_property_output(key@, profile@, *property) == Some(t@),
            None => spec_property_output(key@, profile@, *property) is None,
        },
{
    match property {
        ProfileProperty::Name => Some(profile.name.clone()),
        ProfileProperty::Email => Some(profile.email.clone()),
        ProfileProperty::SigningKey => match &profile.signingkey {
            Some(k) => Some(k.clone()),
            None => None,
        },
        ProfileProperty::ProfileKey => Some(key.clone()),
        ProfileProperty::Profile => {
            let mut out = "profile.key=".to_owned();
            out.append(key.as_str());
            out.append("\n");
            let body = print_profile(profile);
            out.append(body.as_str());
            proof {
                assert(out@ =~= "profile.key="@ + key@ + "\n"@ + spec_print_profile(profile@));
            }
            Some(out)
        },
    }
}

/// Resolves the profile that `apply` writes to the external store: the
/// entry under `profile_key`, or `NotFound` when no such entry exists.
pub fn apply_op<'a>(config: &'a Config, profile_key: &str) -> (r: Result<&'a Profile, Error>)
    requires
        config.wf(),
    ensures
        match r {
            Ok(p) => catalog_has_key(config@, profile_key@) && p@ == catalog_value_of(
                config@,
                profile_key@,
            ),
            Err(e) => !catalog_has_key(config@, profile_key@) && e == Error::NotFound,
        },
{
    match config.get(profile_key) {
        Some(profile) => Ok(profile),
        None => Err(Error::NotFound),
    }
}

/// Removes the entry under `profile_key`, or fails with `NotFound` and
/// leaves the catalog unchanged.
pub fn remove_op(config: &mut Config, profile_key: &str) -> (r: Result<(), Error>)
    requires
        old(config).wf(),
    ensures
        final(config).wf(),
        match r {
            Ok(()) => catalog_has_key(old(config)@, profile_key@) && final(config)@ =~= old(
                config,
            )@.remove(catalog_key_at(old(config)@, profile_key@)),
            Err(e) => !catalog_has_key(old(config)@, profile_key@) && e == Error::NotFound
                && final(config)@ =~= old(config)@,
        },
{
    if !config.has_profile_key(profile_key) {
        return Err(Error::NotFound);
    }
    config.remove_profile(profile_key);
    Ok(())
}

/// Moves the entry under `old_name` to `new_name`. Fails with `NotFound`
/// when `old_name` is absent and with `Conflict` when `new_name` is already
/// taken; on success the old entry is gone and an equal-valued entry stands
/// under the new key, at the end of the insertion order.
pub fn rename_op(config: &mut Config, old_name: &str, new_name: &str) -> (r: Result<(), Error>)
    requires
        old(config).wf(),
    ensures
        final(config).wf(),
        match r {
            Ok(()) => {
                &&& catalog_has_key(old(config)@, old_name@)
                &&& !catalog_has_key(old(config)@, new_name@)
                &&& final(config)@ =~= old(config)@.remove(
                    catalog_key_at(old(config)@, old_name@),
                ).push((new_name@, catalog_value_of(old(config)@, old_name@)))
            },
            Err(e) => {
                &&& final(config)@ =~= old(config)@
                &&& e == Error::NotFound ==> !catalog_has_key(old(config)@, old_name@)
                &&& e == Error::Conflict ==> catalog_has_key(old(config)@, old_name@)
                    && catalog_has_key(old(config)@, new_name@)
                &&& (e == Error::NotFound || e == Error::Conflict)
            },
        },
{
    if !config.has_profile_key(old_name) {
        return Err(Error::NotFound);
    }
    if config.has_profile_key(new_name) {
        return Err(Error::Conflict);
    }
    proof {
        let i = catalog_key_at(config@, old_name@);
        assert(0 <= i < config@.len() && config@[i].0 == old_name@);
        let mid = config@.remove(i);
        assert forall|j: int| 0 <= j < mid.len() implies mid[j].0 != new_name@ by {
            if j < i {
                assert(mid[j] == config@[j]);
            } else {
                assert(mid[j] == config@[j + 1]);
            }
        }
        assert(!catalog_has_key(mid, new_name@));
    }
    config.rename_profile(old_name, new_name);
    Ok(())
}

/// Creates a new entry under `profile_key`. A key already in use is a
/// `ValidationError` (the duplicate-key business rule on create and
/// import); otherwise the entry goes to the end of the insertion order.
pub fn create_profile(config: &mut Config, profile_key: &str, profile: Profile) -> (r: Result<
    (),
    Error,
>)
    requires
        old(config).wf(),
    ensures
        final(config).wf(),
        match r {
            Ok(()) => !catalog_has_key(old(config)@, profile_key@) && final(config)@ =~= old(
                config,
            )@.push((profile_key@, profile@)),
            Err(e) => catalog_has_key(old(config)@, profile_key@) && e == Error::ValidationError
                && final(config)@ =~= old(config)@,
        },
{
    if config.has_profile_key(profile_key) {
        return Err(Error::ValidationError);
    }
    config.upsert_profile(profile_key, profile);
    Ok(())
}

/// The import policy: with a key already resolvable at the level the import
/// is a `Conflict` ("already imported"); with no live profile there is
/// nothing to import (`NotFound`); otherwise the live profile is stored
/// under the caller's key, which must not collide (`ValidationError`).
pub fn import_op(
    config: &mut Config,
    resolved_key: Option<String>,
    live_profile: Option<Profile>,
    profile_key: &str,
) -> (r: Result<(), Error>)
    requires
        old(config).wf(),
    ensures
        final(config).wf(),
        resolved_key is Some ==> (r matches Err(e) && e == Error::Conflict && final(config)@ =~= old(
            config,
        )@),
        resolved_key is None ==> match live_profile {
            Some(p) => match r {
                Ok(()) => !catalog_has_key(old(config)@, profile_key@) && final(config)@ =~= old(
                    config,
                )@.push((profile_key@, p@)),
                Err(e) => catalog_has_key(old(config)@, profile_key@) && e
                    == Error::ValidationError && final(config)@ =~= old(config)@,
            },
            None => r matches Err(e) && e == Error::NotFound && final(config)@ =~= old(config)@,
        },
{
    if resolved_key.is_some() {
        return Err(Error::Conflict);
    }
    match live_profile {
        None => Err(Error::NotFound),
        Some(profile) => create_profile(config, profile_key, profile),
    }
}

/// Which entry `edit` works on: with no profile at all the edit fails; a
/// lone entry is selected implicitly; a supplied key must exist; otherwise
/// the caller must still choose (`Ok(None)`).
pub fn edit_target(config: &Config, supplied_key: &Option<String>) -> (r: Result<
    Option<String>,
    Error,
>)
    ensures
        match r {
            Ok(selected) => match selected {
                Some(k) => config@.len() > 0 && (config@.len() == 1 ==> k@ == config@[0].0) && (
                config@.len() > 1 ==> (supplied_key matches Some(s) && k@ == s@
                    && catalog_has_key(config@, s@))),
                None => config@.len() > 1 && supplied_key is None,
            },
            Err(e) => {
                &&& e == Error::NotFound
                &&& config@.len() == 0 || (config@.len() > 1 && (supplied_key matches Some(s)
                    && !catalog_has_key(config@, s@)))
            },
        },
{
    if config.is_empty() {
        return Err(Error::NotFound);
    }
    if config.len() == 1 {
        match config.first() {
            Some(entry) => {
                return Ok(Some(entry.0.clone()));
            },
            None => {
                return Err(Error::NotFound);
            },
        }
    }
    match supplied_key {
        Some(key) => {
            if config.has_profile_key(key.as_str()) {
                Ok(Some(key.clone()))
            } else {
                Err(Error::NotFound)
            }
        },
        None => Ok(None),
    }
}

/// Replaces the profile under an existing key, keeping its position; a
/// missing key is `NotFound`.
pub fn update_profile(config: &mut Config, profile_key: &str, profile: Profile) -> (r: Result<
    (),
    Error,
>)
    requires
        old(config).wf(),
    ensures
        final(config).wf(),
        match r {
            Ok(()) => catalog_has_key(old(config)@, profile_key@) && final(config)@ =~= old(
                config,
            )@.update(catalog_key_at(old(config)@, profile_key@), (profile_key@, profile@)),
            Err(e) => !catalog_has_key(old(config)@, profile_key@) && e == Error::NotFound
                && final(config)@ =~= old(config)@,
        },
{
    if !config.has_profile_key(profile_key) {
        return Err(Error::NotFound);
    }
    config.upsert_profile(profile_key, profile);
    Ok(())
}

/// One line of the `list` output for each entry, in insertion order: the
/// key, marked with a star when it is the current one.
pub fn list_lines(config: &Config, current_key: &Option<String>) -> (r: Vec<String>)
    ensures
        r@.len() == config@.len(),
        forall|i: int|
            0 <= i < r@.len() ==> r@[i]@ == (if (current_key matches Some(c) && c@
                == config@[i].0) {
                "* "@ + config@[i].0
            } else {
                "  "@ + config@[i].0
            }),
{
    let n = config.len();
    let mut out: Vec<String> = Vec::new();
    let mut i: usize = 0;
    while i < n
        invariant
            0 <= i <= n,
            n == config@.len(),
            out@.len() == i,
            forall|j: int|
                0 <= j < i ==> out@[j]@ == (if (current_key matches Some(c) && c@
                    == config@[j].0) {
                    "* "@ + config@[j].0
                } else {
                    "  "@ + config@[j].0
                }),
        decreases n - i,
    {
        let entry = config.entry_at(i);
        let is_current = match current_key {
            Some(c) => crate::text::str_eq(c.as_str(), entry.0.as_str()),
            None => false,
        };
        let mut line = if is_current {
            "* ".to_owned()
        } else {
            "  ".to_owned()
        };
        line.append(entry.0.as_str());
        out.push(line);
        i += 1;
    }
    out
}

/// After a successful rename the old key is gone, the new key is present,
/// and it carries the old key's profile: the shape of the catalog that
/// `rename_op` leaves behind.
pub proof fn lemma_rename_effect(s: CatalogView, old_key: Seq<char>, new_key: Seq<char>)
    requires
        catalog_wf(s),
        catalog_has_key(s, old_key),
        !catalog_has_key(s, new_key),
    ensures
        ({
            let t = s.remove(catalog_key_at(s, old_key)).push(
                (new_key, catalog_value_of(s, old_key)),
            );
            &&& catalog_wf(t)
            &&& !catalog_has_key(t, old_key)
            &&& catalog_has_key(t, new_key)
            &&& catalog_value_of(t, new_key) == catalog_value_of(s, old_key)
        }),
{
    let i = catalog_key_at(s, old_key);
    assert(0 <= i < s.len() && s[i].0 == old_key);
    let mid = s.remove(i);
    let t = mid.push((new_key, catalog_value_of(s, old_key)));
    assert forall|a: int| 0 <= a < mid.len() implies mid[a].0 != old_key && mid[a].0
        != new_key by {
        if a < i {
            assert(mid[a] == s[a]);
        } else {
            assert(mid[a] == s[a + 1]);
        }
        if mid[a].0 == new_key {
            assert(catalog_has_key(s, new_key));
        }
    }
    assert(catalog_wf(t)) by {
        assert forall|a: int, b: int| 0 <= a < b < t.len() implies t[a].0 != t[b].0 by {
            if b < t.len() - 1 {
                assert(catalog_wf(mid));
            }
        }
    }
    assert(!catalog_has_key(t, old_key)) by {
        if catalog_has_key(t, old_key) {
            let w = choose|w: int| 0 <= w < t.len() && t[w].0 == old_key;
            if w < t.len() - 1 {
                assert(mid[w].0 == old_key);
            } else {
                assert(t[w].0 == new_key);
                assert(catalog_has_key(s, new_key));
            }
        }
    }
    assert(t[t.len() - 1].0 == new_key);
    assert(catalog_has_key(t, new_key));
    let w = catalog_key_at(t, new_key);
    assert(0 <= w < t.len() && t[w].0 == new_key);
    if w < t.len() - 1 {
        assert(mid[w].0 == new_key);
    }
    assert(catalog_value_of(t, new_key) == catalog_value_of(s, old_key));
}

} // verus!
