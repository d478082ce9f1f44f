//! The configuration path as the earlier loader chose it: the given file, or
//! the one in the home directory.

use vstd::prelude::*;

use crate::config::{ChoiceView, ConfigError, ConfigErrorView, ConfigPathChoice, ProbedPath};

verus! {

/// Chooses the configuration file: the given one, which must exist; else the
/// one in the home directory, created with the default configuration when it
/// does not exist yet.
pub fn resolve_config_path(config: Option<ProbedPath>, home_default: ProbedPath) -> (res: Result<
    ConfigPathChoice,
    ConfigError,
>)
    ensures
        match config {
            Some(p) => if p.exists {
                res matches Ok(c) && c@ == ChoiceView::Use(p.path@)
            } else {
                res matches Err(e) && e@ == ConfigErrorView::NotFound(p.path@)
            },
            None => if home_default.exists {
                res matches Ok(c) && c@ == ChoiceView::Use(home_default.path@)
            } else {
                res matches Ok(c) && c@ == ChoiceView::CreateDefault(home_default.path@)
            },
        },
{
    match config {
        Some(path) => {
            if !path.exists {
                return Err(ConfigError::NotFound(path.path));
            }
            Ok(ConfigPathChoice::Use(path.path))
        },
        None => {
            if home_default.exists {
                Ok(ConfigPathChoice::Use(home_default.path))
            } else {
                Ok(ConfigPathChoice::CreateDefault(home_default.path))
            }
        },
    }
}

} // verus!
