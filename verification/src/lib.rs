use vstd::prelude::*;

pub mod cli;
pub mod commands;
pub mod config;
pub mod email;
mod errors;
pub mod format;
pub mod git;
pub mod profile_key;
mod text;

pub use errors::Error;

verus! {

} // verus!
