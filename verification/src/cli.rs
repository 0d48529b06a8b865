use vstd::prelude::*;

use vstd::string::StringExecFns;

use crate::config::DEFAULT_FILE_NAME;
use crate::git::Level;

verus! {

/// The command surface: which operation runs, with its arguments and scope
/// selection. The scope flags are mutually exclusive; the argument parser
/// that enforces this lives with the program shell.
#[derive(Debug)]
pub enum Commands {
    Current {
        name: bool,
        email: bool,
        signingkey: bool,
        profile: bool,
        profile_key: bool,
        system: bool,
        global: bool,
        local: bool,
        worktree: bool,
        file: Option<String>,
    },
    List { system: bool, global: bool, local: bool, worktree: bool, file: Option<String> },
    Show { profile_key: String },
    New,
    Edit { profile_key: Option<String> },
    Remove { profile_key: String },
    Rename { old: String, new: String },
    Apply {
        profile_key: String,
        system: bool,
        global: bool,
        local: bool,
        worktree: bool,
        file: Option<String>,
    },
    Import { system: bool, global: bool, local: bool, worktree: bool, file: Option<String> },
    ConfigDump,
    ConfigPath,
}

/// The parsed invocation: an optional explicit path to the backing file,
/// and the command to run.
#[derive(Debug)]
pub struct CliArgs {
    pub config_path: Option<String>,
    pub command: Commands,
}

/// The level selected by the five mutually exclusive scope flags, in the
/// fixed precedence order; no flag means the tool's default resolution.
pub open spec fn spec_get_level(
    system: bool,
    global: bool,
    local: bool,
    worktree: bool,
    file: Option<String>,
) -> Option<Level> {
    if system {
        Some(Level::System)
    } else if global {
        Some(Level::Global)
    } else if local {
        Some(Level::Local)
    } else if worktree {
        Some(Level::WorkTree)
    } else {
        match file {
            Some(file_path) => Some(Level::File(file_path)),
            None => None,
        }
    }
}

/// Turns the scope flags into a `Level` selector.
pub fn get_level(
    system: bool,
    global: bool,
    local: bool,
    worktree: bool,
    file: Option<String>,
) -> (r: Option<Level>)
    ensures
        r == spec_get_level(system, global, local, worktree, file),
{
    if system {
        Some(Level::System)
    } else if global {
        Some(Level::Global)
    } else if local {
        Some(Level::Local)
    } else if worktree {
        Some(Level::WorkTree)
    } else {
        match file {
            Some(file_path) => Some(Level::File(file_path)),
            None => None,
        }
    }
}

/// Relies on directories::ProjectDirs::from and ProjectDirs::config_dir:
/// the per-user configuration directory for this tool. The result depends
/// on the platform and the environment, so nothing is promised of it.
#[verifier::external_body]
fn default_profile_dir() -> (r: Option<String>) {
    match directories::ProjectDirs::from("org", "git-profile", "git-profile") {
        Some(dirs) => dirs.config_dir().to_str().map(|s| s.to_string()),
        None => None,
    }
}

/// The backing file inside a configuration directory: the directory joined
/// with the default file name; no directory, no file.
pub fn join_default_path(dir: Option<String>) -> (r: Option<String>)
    ensures
        match dir {
            Some(d) => r matches Some(q) && q@ == d@ + "/"@ + DEFAULT_FILE_NAME@,
            None => r is None,
        },
{
    match dir {
        Some(dir) => {
            let mut path = dir;
            path.append("/");
            path.append(DEFAULT_FILE_NAME);
            Some(path)
        },
        None => None,
    }
}

/// The path of the backing file: the explicitly supplied one, or the
/// per-user configuration directory joined with the default file name.
/// `None` only when no path was supplied and the platform offers no such
/// directory; the join itself is `join_default_path`, verified, so only the
/// directory's value rests on the environment.
pub fn get_config_path(args: &CliArgs) -> (r: Option<String>)
    ensures
        match args.config_path {
            Some(p) => r matches Some(q) && q@ == p@,
            None => r matches Some(q) ==> exists|d: Seq<char>|
                q@ == d + "/"@ + DEFAULT_FILE_NAME@,
        },
{
    match &args.config_path {
        Some(config_path) => Some(config_path.clone()),
        None => join_default_path(default_profile_dir()),
    }
}

} // verus!
