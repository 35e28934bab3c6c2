//! The settings that outlast a run: where the user's notes are.

use std::path::PathBuf;
use vstd::prelude::*;

verus! {

/// `toml::ser::Error`, why settings could not be written down as TOML.
/// Carried through unchanged.
#[verifier::external_type_specification]
#[verifier::external_body]
pub struct ExTomlSerError(toml::ser::Error);

/// The path that a text names: what `PathBuf::from` makes of it.
pub uninterp spec fn path_of(text: Seq<char>) -> PathBuf;

/// `PathBuf::from`: the path that a string names.
#[verifier::external_body]
fn path_from_text(text: &str) -> (path: PathBuf)
    ensures
        path == path_of(text@),
{
    PathBuf::from(text)
}

/// The settings.
#[derive(Debug)]
pub struct Config {
    /// The directory that holds the user's notes, where one was chosen.
    pub notes_root: Option<String>,
}

impl Default for Config {
    fn default() -> (config: Self)
        ensures
            config.notes_root is None,
    {
        Config { notes_root: None }
    }
}

/// Why the settings could not be changed or kept.
#[derive(Debug)]
pub enum ConfigError {
    /// No place for the application's data could be found.
    NoDataDir,
    /// The settings could not be written down.
    Serialize(toml::ser::Error),
    /// The settings file could not be written.
    Write(std::io::Error),
    /// The path could not be resolved.
    Canonicalize(std::io::Error),
    /// The path does not lead to a directory.
    NotADirectory(PathBuf),
}

/// The notes root that the settings name: none where nothing is set, and
/// none where an empty text is set.
pub fn get_notes_root(config: &Config) -> (root: Option<PathBuf>)
    ensures
        root == match config.notes_root {
            Some(text) if text@.len() > 0 => Some(path_of(text@)),
            _ => None,
        },
{
    match &config.notes_root {
        Some(text) => {
            if text.as_str().is_empty() {
                None
            } else {
                Some(path_from_text(text.as_str()))
            }
        },
        None => None,
    }
}

/// Decides whether a path can be the notes root, from what resolving it
/// gave and from whether the resolved path leads to a directory.
pub fn resolve_notes_root(resolved: Result<PathBuf, std::io::Error>, is_dir: bool) -> (root:
    Result<PathBuf, ConfigError>)
    ensures
        root == match resolved {
            Err(error) => Err::<PathBuf, ConfigError>(ConfigError::Canonicalize(error)),
            Ok(path) => if is_dir {
                Ok::<PathBuf, ConfigError>(path)
            } else {
                Err::<PathBuf, ConfigError>(ConfigError::NotADirectory(path))
            },
        },
{
    match resolved {
        Err(error) => Err(ConfigError::Canonicalize(error)),
        Ok(path) => if is_dir {
            Ok(path)
        } else {
            Err(ConfigError::NotADirectory(path))
        },
    }
}

/// Sets the notes root to the directory that `root` names.
pub fn set_notes_root(config: &mut Config, root: &str)
    ensures
        final(config).notes_root matches Some(text) && text@ == root@,
{
    config.notes_root = Some(root.to_owned());
}

} // verus!
