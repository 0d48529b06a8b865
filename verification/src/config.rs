use vstd::prelude::*;

use crate::errors::Error;
use crate::text::str_eq;

verus! {

/// File name of the backing document inside the per-user config directory.
pub const DEFAULT_FILE_NAME: &'static str = "gitprofile.toml";

/// A saved identity: display name, email, and an optional signing key.
///
/// Equality is structural: two profiles are the same identity exactly when
/// all three fields agree, including both signing keys being absent.
#[derive(Debug, Clone, PartialEq, Eq)]
pub struct Profile {
    pub name: String,
    pub email: String,
    pub signingkey: Option<String>,
}

/// The mathematical content of a `Profile`.
pub struct ProfileView {
    pub name: Seq<char>,
    pub email: Seq<char>,
    pub signingkey: Option<Seq<char>>,
}

impl View for Profile {
    type V = ProfileView;

    open spec fn view(&self) -> ProfileView {
        ProfileView {
            name: self.name@,
            email: self.email@,
            signingkey: match self.signingkey {
                Some(k) => Some(k@),
                None => None,
            },
        }
    }
}

impl Profile {
    /// Structural equality over all three fields, as the catalog uses it.
    pub fn same_as(&self, other: &Profile) -> (r: bool)
        ensures
            r == (self@ == other@),
    {
        let names_eq = str_eq(self.name.as_str(), other.name.as_str());
        let emails_eq = str_eq(self.email.as_str(), other.email.as_str());
        let keys_eq = match (&self.signingkey, &other.signingkey) {
            (Some(a), Some(b)) => str_eq(a.as_str(), b.as_str()),
            (None, None) => true,
            _ => false,
        };
        names_eq && emails_eq && keys_eq
    }
}

/// The mathematical content of a catalog: its entries, in insertion order.
pub type CatalogView = Seq<(Seq<char>, ProfileView)>;

/// No two entries share a key.
pub open spec fn catalog_wf(s: CatalogView) -> bool {
    forall|i: int, j: int| 0 <= i < j < s.len() ==> s[i].0 != s[j].0
}

/// Some entry carries the key `k`.
pub open spec fn catalog_has_key(s: CatalogView, k: Seq<char>) -> bool {
    exists|i: int| 0 <= i < s.len() && s[i].0 == k
}

/// The position of the entry keyed `k` (unique when the catalog is well formed).
pub open spec fn catalog_key_at(s: CatalogView, k: Seq<char>) -> int {
    choose|i: int| 0 <= i < s.len() && s[i].0 == k
}

/// The profile stored under the key `k`.
pub open spec fn catalog_value_of(s: CatalogView, k: Seq<char>) -> ProfileView {
    s[catalog_key_at(s, k)].1
}

/// Loading and saving the catalog at its backing file. The one production
/// implementation reads and writes the filesystem, which lives with the
/// program shell; the document text itself is produced and parsed here in
/// the library.
pub trait Persist {
    fn load(&self) -> Result<Config, Error>;

    fn save(&self, config: &Config) -> Result<(), Error>;
}

/// The client of the backing file: it knows where the catalog lives.
#[derive(Debug)]
pub struct AppConfigClient {
    path: String,
}

impl View for AppConfigClient {
    type V = Seq<char>;

    closed spec fn view(&self) -> Seq<char> {
        self.path@
    }
}

impl AppConfigClient {
    pub fn new(path: String) -> (r: AppConfigClient)
        ensures
            r@ == path@,
    {
        AppConfigClient { path }
    }

    /// The path of the backing file.
    pub fn path(&self) -> (r: &str)
        ensures
            r@ == self@,
    {
        self.path.as_str()
    }
}

/// The ordered keyed collection of saved profiles.
///
/// Insertion order is preserved; keys are unique. Replacing a value keeps
/// the entry's position, removing an entry shifts the later ones up, and a
/// rename moves the entry to the end.
#[derive(Debug)]
pub struct Config {
    profile: Vec<(String, Profile)>,
}

impl View for Config {
    type V = CatalogView;

    closed spec fn view(&self) -> CatalogView {
        Seq::new(self.profile@.len(), |i: int| (self.profile@[i].0@, self.profile@[i].1@))
    }
}

impl Config {
    /// Keys are unique.
    pub open spec fn wf(&self) -> bool {
        catalog_wf(self@)
    }

    /// The empty catalog.
    pub fn new() -> (r: Config)
        ensures
            r@ =~= Seq::<(Seq<char>, ProfileView)>::empty(),
            r.wf(),
    {
        Config { profile: Vec::new() }
    }

    /// How many profiles are saved.
    pub fn len(&self) -> (r: usize)
        ensures
            r == self@.len(),
    {
        self.profile.len()
    }

    /// Whether no profile is saved.
    pub fn is_empty(&self) -> (r: bool)
        ensures
            r == (self@.len() == 0),
    {
        self.profile.is_empty()
    }

    /// Finds the position of the entry keyed `key`, if any.
    fn position_of(&self, key: &str) -> (r: Option<usize>)
        ensures
            match r {
                Some(i) => i < self@.len() && self@[i as int].0 == key@ && forall|j: int|
                    0 <= j < i ==> self@[j].0 != key@,
                None => !catalog_has_key(self@, key@),
            },
    {
        let n = self.profile.len();
        let mut i: usize = 0;
        while i < n
            invariant
                0 <= i <= n,
                n == self@.len(),
                forall|j: int| 0 <= j < i ==> self@[j].0 != key@,
            decreases n - i,
        {
            if str_eq(self.profile[i].0.as_str(), key) {
                return Some(i);
            }
            i += 1;
        }
        None
    }

    /// Whether an entry with the given key exists.
    pub fn has_profile_key(&self, key: &str) -> (r: bool)
        ensures
            r == catalog_has_key(self@, key@),
    {
        match self.position_of(key) {
            Some(_) => true,
            None => false,
        }
    }

    /// The profile stored under `key`, if any.
    pub fn get(&self, key: &str) -> (r: Option<&Profile>)
        requires
            self.wf(),
        ensures
            match r {
                Some(p) => catalog_has_key(self@, key@) && p@ == catalog_value_of(self@, key@),
                None => !catalog_has_key(self@, key@),
            },
    {
        match self.position_of(key) {
            Some(i) => {
                proof {
                    assert(catalog_has_key(self@, key@));
                    let w = catalog_key_at(self@, key@);
                    assert(0 <= w < self@.len() && self@[w].0 == key@);
                    assert(w == i as int);
                }
                Some(&self.profile[i].1)
            },
            None => None,
        }
    }

    /// The first entry in insertion order, if any.
    pub fn first(&self) -> (r: Option<(&String, &Profile)>)
        ensures
            match r {
                Some(kp) => self@.len() > 0 && kp.0@ == self@[0].0 && kp.1@ == self@[0].1,
                None => self@.len() == 0,
            },
    {
        if self.profile.len() == 0 {
            None
        } else {
            let entry = &self.profile[0];
            Some((&entry.0, &entry.1))
        }
    }

    /// The entry at position `i` in insertion order.
    pub fn entry_at(&self, i: usize) -> (r: (&String, &Profile))
        requires
            i < self@.len(),
        ensures
            r.0@ == self@[i as int].0,
            r.1@ == self@[i as int].1,
    {
        let entry = &self.profile[i];
        (&entry.0, &entry.1)
    }

    /// All keys, in insertion order.
    pub fn keys(&self) -> (r: Vec<String>)
        ensures
            r@.len() == self@.len(),
            forall|i: int| 0 <= i < r@.len() ==> r@[i]@ == self@[i].0,
    {
        let n = self.profile.len();
        let mut out: Vec<String> = Vec::new();
        let mut i: usize = 0;
        while i < n
            invariant
                0 <= i <= n,
                n == self@.len(),
                out@.len() == i,
                forall|j: int| 0 <= j < i ==> out@[j]@ == self@[j].0,
            decreases n - i,
        {
            out.push(self.profile[i].0.clone());
            i += 1;
        }
        out
    }

    /// Stores `value` under `key`: an existing entry keeps its position and
    /// hands back its old profile; a new key goes to the end.
    pub fn upsert_profile(&mut self, key: &str, value: Profile) -> (r: Option<Profile>)
        requires
            old(self).wf(),
        ensures
            final(self).wf(),
            catalog_has_key(old(self)@, key@) ==> {
                &&& final(self)@ =~= old(self)@.update(
                    catalog_key_at(old(self)@, key@),
                    (key@, value@),
                )
                &&& r matches Some(p) && p@ == catalog_value_of(old(self)@, key@)
            },
            !catalog_has_key(old(self)@, key@) ==> {
                &&& final(self)@ =~= old(self)@.push((key@, value@))
                &&& r is None
            },
    {
        match self.position_of(key) {
            Some(i) => {
                proof {
                    assert(catalog_has_key(self@, key@));
                    let w = catalog_key_at(self@, key@);
                    assert(0 <= w < self@.len() && self@[w].0 == key@);
                    assert(w == i as int);
                }
                let old_entry = self.profile.remove(i);
                self.profile.insert(i, (key.to_owned(), value));
                proof {
                    assert(self@ =~= old(self)@.update(i as int, (key@, value@)));
                }
                Some(old_entry.1)
            },
            None => {
                self.profile.push((key.to_owned(), value));
                proof {
                    assert(self@ =~= old(self)@.push((key@, value@)));
                }
                None
            },
        }
    }

    /// Removes the entry keyed `key`, shifting later entries up one place.
    pub fn remove_profile(&mut self, key: &str) -> (r: Option<Profile>)
        requires
            old(self).wf(),
        ensures
            final(self).wf(),
            catalog_has_key(old(self)@, key@) ==> {
                &&& final(self)@ =~= old(self)@.remove(catalog_key_at(old(self)@, key@))
                &&& r matches Some(p) && p@ == catalog_value_of(old(self)@, key@)
            },
            !catalog_has_key(old(self)@, key@) ==> {
                &&& final(self)@ =~= old(self)@
                &&& r is None
            },
    {
        match self.position_of(key) {
            Some(i) => {
                proof {
                    assert(catalog_has_key(self@, key@));
                    let w = catalog_key_at(self@, key@);
                    assert(0 <= w < self@.len() && self@[w].0 == key@);
                    assert(w == i as int);
                }
                let entry = self.profile.remove(i);
                proof {
                    assert(self@ =~= old(self)@.remove(i as int));
                }
                Some(entry.1)
            },
            None => None,
        }
    }

    /// Moves the profile under `old_key` to `new_key`: the old entry is
    /// removed and the profile is stored again under the new key, which
    /// places it at the end (or overwrites an entry already keyed `new_key`).
    /// Nothing changes when `old_key` is absent.
    pub fn rename_profile(&mut self, old_key: &str, new_key: &str) -> (r: Option<Profile>)
        requires
            old(self).wf(),
        ensures
            final(self).wf(),
            !catalog_has_key(old(self)@, old_key@) ==> {
                &&& final(self)@ =~= old(self)@
                &&& r is None
            },
            catalog_has_key(old(self)@, old_key@) ==> {
                let removed = old(self)@.remove(catalog_key_at(old(self)@, old_key@));
                let moved = catalog_value_of(old(self)@, old_key@);
                &&& catalog_has_key(removed, new_key@) ==> {
                    &&& final(self)@ =~= removed.update(
                        catalog_key_at(removed, new_key@),
                        (new_key@, moved),
                    )
                    &&& r matches Some(p) && p@ == catalog_value_of(removed, new_key@)
                }
                &&& !catalog_has_key(removed, new_key@) ==> {
                    &&& final(self)@ =~= removed.push((new_key@, moved))
                    &&& r is None
                }
            },
    {
        match self.remove_profile(old_key) {
            Some(old_profile) => self.upsert_profile(new_key, old_profile),
            None => None,
        }
    }
}

} // verus!
