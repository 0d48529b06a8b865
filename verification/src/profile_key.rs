use vstd::prelude::*;

use crate::config::{catalog_has_key, Config};
use crate::errors::Error;

verus! {

/// Accepts a candidate profile key exactly when the catalog does not
/// already hold an entry under it; the rejection is a `ValidationError`.
pub fn no_duplicates(input: &str, profile_catalog: &Config) -> (r: Result<(), Error>)
    ensures
        match r {
            Ok(()) => !catalog_has_key(profile_catalog@, input@),
            Err(e) => catalog_has_key(profile_catalog@, input@) && e == Error::ValidationError,
        },
{
    if profile_catalog.has_profile_key(input) {
        Err(Error::ValidationError)
    } else {
        Ok(())
    }
}

} // verus!
