use vstd::prelude::*;

use crate::tally::ScanError;

verus! {

/// What happens to a duplicate.
#[derive(PartialEq, Eq, Structural, Clone, Copy)]
pub enum Mode {
    /// Report it and leave it in place.
    DryRun,
    /// Delete it.
    Delete,
    /// Delete it and put a symbolic link to its canonical file in its place.
    Link,
}

/// The step taken for one duplicate.
pub enum Action {
    Report { path: String },
    Delete { path: String },
    DeleteAndLink { path: String, target: String },
}

impl Action {
    /// Whether carrying out the step changes the file tree.
    pub fn mutates(&self) -> (r: bool)
        ensures
            r == !(self is Report),
    {
        match self {
            Action::Report { .. } => false,
            _ => true,
        }
    }
}

/// The mode that the command-line flags ask for. A dry run wins over links; links
/// asked for where the platform cannot make them are an error, not a silent deletion.
pub fn mode_from_flags(dry: bool, symlink: bool, links_supported: bool) -> (r: Result<
    Mode,
    ScanError,
>)
    ensures
        dry ==> r == Ok::<Mode, ScanError>(Mode::DryRun),
        !dry && !symlink ==> r == Ok::<Mode, ScanError>(Mode::Delete),
        !dry && symlink && links_supported ==> r == Ok::<Mode, ScanError>(Mode::Link),
        !dry && symlink && !links_supported ==> r == Err::<Mode, ScanError>(
            ScanError::LinksUnsupported,
        ),
{
    if dry {
        Ok(Mode::DryRun)
    } else if !symlink {
        Ok(Mode::Delete)
    } else if links_supported {
        Ok(Mode::Link)
    } else {
        Err(ScanError::LinksUnsupported)
    }
}

/// The step taken under `mode` for the duplicate at `duplicate`, whose canonical file
/// is at `canonical`.
pub fn action_for(mode: Mode, duplicate: String, canonical: String) -> (r: Action)
    ensures
        mode == Mode::DryRun ==> r == (Action::Report { path: duplicate }),
        mode == Mode::Delete ==> r == (Action::Delete { path: duplicate }),
        mode == Mode::Link ==> r == (Action::DeleteAndLink { path: duplicate, target: canonical }),
{
    match mode {
        Mode::DryRun => Action::Report { path: duplicate },
        Mode::Delete => Action::Delete { path: duplicate },
        Mode::Link => Action::DeleteAndLink { path: duplicate, target: canonical },
    }
}

} // verus!
