//! The command line as a value, and the rules on its flags.

use vstd::prelude::*;
use vstd::string::*;

verus! {

/// The flags and arguments of one invocation.
#[derive(Debug)]
pub struct Cli {
    /// Stow packages (the default action).
    pub stow: bool,
    /// Unstow (delete) packages.
    pub delete: bool,
    /// Restow packages (unstow, then stow).
    pub restow: bool,
    /// The stow directory, where given.
    pub stow_dir: Option<String>,
    /// The target directory, where given.
    pub target_dir: Option<String>,
    /// Verbose output.
    pub verbose: bool,
    /// Dry run: no changes are made.
    pub dry_run: bool,
    /// Move conflicting files into the package.
    pub adopt: bool,
    /// Remove conflicting files.
    pub override_conflicts: bool,
    /// Patterns of entries to skip.
    pub ignore: Vec<String>,
    /// Patterns of entries to skip where the target has them already.
    pub defer: Vec<String>,
    /// The names of the packages to operate on.
    pub packages: Vec<String>,
}

/// The action that the flags ask for.
#[derive(Debug, Clone, Copy, PartialEq, Eq, Structural)]
pub enum Action {
    Stow,
    Delete,
    Restow,
}

/// How many of the three action flags are set.
pub open spec fn action_count(stow: bool, delete: bool, restow: bool) -> nat {
    (if stow { 1nat } else { 0nat }) + (if delete { 1nat } else { 0nat }) + (if restow { 1nat } else { 0nat })
}

impl Cli {
    /// The action that the flags ask for: the one whose flag is set, `Stow`
    /// where none is set, nothing where more than one is.
    pub open spec fn action_spec(&self) -> Option<Action> {
        if action_count(self.stow, self.delete, self.restow) > 1 {
            None
        } else if self.delete {
            Some(Action::Delete)
        } else if self.restow {
            Some(Action::Restow)
        } else {
            Some(Action::Stow)
        }
    }

    /// Whether the flags go together: one action at most, and with `Delete`
    /// neither adopt nor override, nor patterns.
    pub open spec fn flags_error(&self) -> Option<Seq<char>> {
        match self.action_spec() {
            None => Some(
                "Multiple actions specified. Use only one of: -S/--stow, -D/--delete, -R/--restow"@,
            ),
            Some(action) => if action == Action::Delete && (self.adopt || self.override_conflicts) {
                Some("--adopt and --override cannot be used with -D/--delete"@)
            } else if action == Action::Delete && (self.ignore@.len() > 0 || self.defer@.len() > 0) {
                Some("--ignore and --defer cannot be used with -D/--delete"@)
            } else {
                None
            },
        }
    }

    /// Determines the action from the flags. More than one action flag is an
    /// error; none means `Stow`.
    pub fn action(&self) -> (r: Result<Action, String>)
        ensures
            match self.action_spec() {
                Some(a) => r == Ok::<Action, String>(a),
                None => r matches Err(m) && m@
                    == "Multiple actions specified. Use only one of: -S/--stow, -D/--delete, -R/--restow"@,
            },
    {
        let mut count: u8 = 0;
        if self.stow {
            count = count + 1;
        }
        if self.delete {
            count = count + 1;
        }
        if self.restow {
            count = count + 1;
        }
        if count > 1 {
            Err(
                String::from_str(
                    "Multiple actions specified. Use only one of: -S/--stow, -D/--delete, -R/--restow",
                ),
            )
        } else if self.delete {
            Ok(Action::Delete)
        } else if self.restow {
            Ok(Action::Restow)
        } else {
            Ok(Action::Stow)
        }
    }

    /// Checks that the flags go together.
    pub fn validate_flags(&self) -> (r: Result<(), String>)
        ensures
            match self.flags_error() {
                None => r is Ok,
                Some(m) => r matches Err(e) && e@ == m,
            },
    {
        let action = match self.action() {
            Ok(a) => a,
            Err(m) => {
                return Err(m);
            },
        };
        if action == Action::Delete && (self.adopt || self.override_conflicts) {
            return Err(String::from_str("--adopt and --override cannot be used with -D/--delete"));
        }
        if action == Action::Delete && (self.ignore.len() > 0 || self.defer.len() > 0) {
            return Err(String::from_str("--ignore and --defer cannot be used with -D/--delete"));
        }
        Ok(())
    }
}

} // verus!
