//! The settings of the configuration file, their merge with the command
//! line, and the context of one invocation that results.

use vstd::prelude::*;
use vstd::string::*;
use crate::error::StowError;
use crate::fs_model::FsView;
use crate::fs_ops::FileSystem;
use crate::ignore::{bad_pattern_error, first_bad, texts_of, PatternSet, PatternSetView};
use crate::path_utils::{parse_spec, PathView, StowPath};
use crate::stow::ConflictStrategy;

verus! {

/// The settings that a configuration file can hold.
#[derive(Debug)]
pub struct Config {
    /// Default stow directory.
    pub default_dir: Option<String>,
    /// Default target directory.
    pub default_target: Option<String>,
    /// Default ignore patterns.
    pub ignore: Vec<String>,
    /// Default defer patterns.
    pub defer: Vec<String>,
    /// Default verbose mode.
    pub verbose: bool,
}

impl Default for Config {
    fn default() -> (c: Self)
        ensures
            c.default_dir is None,
            c.default_target is None,
            c.ignore@.len() == 0,
            c.defer@.len() == 0,
            !c.verbose,
    {
        Config {
            default_dir: None,
            default_target: None,
            ignore: Vec::new(),
            defer: Vec::new(),
            verbose: false,
        }
    }
}

/// The mathematical value of a [`StowContext`].
pub struct ContextView {
    pub stow_dir: PathView,
    pub target_dir: PathView,
    pub ignore: Seq<Seq<char>>,
    pub defer: Seq<Seq<char>>,
    pub dry_run: bool,
    pub conflict_strategy: ConflictStrategy,
}

/// The canonical form of a directory where it leads to something, else the
/// path as it is.
pub open spec fn resolved_dir(fs: FsView, dir: PathView) -> PathView {
    match fs.canonical(dir) {
        Ok(p) => p,
        Err(_) => dir,
    }
}

/// The strategy that the flags select: adopt before override, and failing
/// without either.
pub open spec fn strategy_for(adopt: bool, override_conflicts: bool) -> ConflictStrategy {
    if adopt {
        ConflictStrategy::Adopt
    } else if override_conflicts {
        ConflictStrategy::Override
    } else {
        ConflictStrategy::Fail
    }
}

/// The first of the choices that is there: the one of the command line, the
/// one of the configuration file, or the fallback.
pub open spec fn chosen_dir(cli: Option<PathView>, file: Option<Seq<char>>, fallback: PathView) -> PathView {
    match cli {
        Some(p) => p,
        None => match file {
            Some(text) => parse_spec(text),
            None => fallback,
        },
    }
}

/// The list of the command line where it has entries, else the list of the
/// configuration file.
pub open spec fn chosen_list(cli: Seq<Seq<char>>, file: Seq<Seq<char>>) -> Seq<Seq<char>> {
    if cli.len() == 0 {
        file
    } else {
        cli
    }
}

/// The context of one invocation: the directories, rules and modes that the
/// stow operations work with.
#[derive(Debug)]
pub struct StowContext {
    stow_dir: StowPath,
    target_dir: StowPath,
    ignore: Vec<String>,
    defer: Vec<String>,
    dry_run: bool,
    conflict_strategy: ConflictStrategy,
}

impl View for StowContext {
    type V = ContextView;

    closed spec fn view(&self) -> ContextView {
        ContextView {
            stow_dir: self.stow_dir@,
            target_dir: self.target_dir@,
            ignore: texts_of(self.ignore@),
            defer: texts_of(self.defer@),
            dry_run: self.dry_run,
            conflict_strategy: self.conflict_strategy,
        }
    }
}

/// The view of a string that may be there.
pub open spec fn text_of(s: Option<String>) -> Option<Seq<char>> {
    match s {
        Some(t) => Some(t@),
        None => None,
    }
}

/// The view of a path that may be there.
pub open spec fn path_of(p: Option<StowPath>) -> Option<PathView> {
    match p {
        Some(t) => Some(t@),
        None => None,
    }
}

impl Config {
    /// Merges the settings with the command line, whose values take
    /// precedence one by one. Where neither names a stow directory, it is
    /// `current_dir`; where neither names a target directory, it is
    /// `home_dir`, or `current_dir` where no home directory is known.
    pub fn merge_with_cli(
        &self,
        fs: &FileSystem,
        cli_dir: Option<StowPath>,
        cli_target: Option<StowPath>,
        cli_ignore: Vec<String>,
        cli_defer: Vec<String>,
        cli_verbose: bool,
        cli_dry_run: bool,
        cli_adopt: bool,
        cli_override_conflicts: bool,
        current_dir: StowPath,
        home_dir: Option<StowPath>,
    ) -> (r: Result<StowContext, StowError>)
        requires
            fs@.wf(),
        ensures
            r matches Ok(c) && c@ == (ContextView {
                stow_dir: resolved_dir(
                    fs@,
                    chosen_dir(path_of(cli_dir), text_of(self.default_dir), current_dir@),
                ),
                target_dir: resolved_dir(
                    fs@,
                    chosen_dir(
                        path_of(cli_target),
                        text_of(self.default_target),
                        match home_dir {
                            Some(h) => h@,
                            None => current_dir@,
                        },
                    ),
                ),
                ignore: chosen_list(texts_of(cli_ignore@), texts_of(self.ignore@)),
                defer: chosen_list(texts_of(cli_defer@), texts_of(self.defer@)),
                dry_run: cli_dry_run,
                conflict_strategy: strategy_for(cli_adopt, cli_override_conflicts),
            }),
    {
        let stow_dir = match cli_dir {
            Some(p) => p,
            None => match &self.default_dir {
                Some(text) => StowPath::parse(text.as_str()),
                None => current_dir.clone(),
            },
        };
        let target_dir = match cli_target {
            Some(p) => p,
            None => match &self.default_target {
                Some(text) => StowPath::parse(text.as_str()),
                None => match home_dir {
                    Some(h) => h,
                    None => current_dir,
                },
            },
        };
        let ignore = if cli_ignore.len() == 0 {
            copy_texts(&self.ignore)
        } else {
            cli_ignore
        };
        let defer = if cli_defer.len() == 0 {
            copy_texts(&self.defer)
        } else {
            cli_defer
        };
        let verbose = cli_verbose || self.verbose;
        StowContext::new(
            fs,
            stow_dir,
            target_dir,
            ignore,
            defer,
            verbose,
            cli_dry_run,
            cli_adopt,
            cli_override_conflicts,
        )
    }
}

/// A copy of a list of strings.
pub fn copy_texts(list: &Vec<String>) -> (r: Vec<String>)
    ensures
        texts_of(r@) == texts_of(list@),
{
    let mut r: Vec<String> = Vec::new();
    let mut i: usize = 0;
    while i < list.len()
        invariant
            i <= list.len(),
            texts_of(r@) == texts_of(list@).take(i as int),
        decreases list.len() - i,
    {
        let ghost before = texts_of(r@);
        r.push(list[i].clone());
        assert(texts_of(r@) =~= before.push(list[i as int]@));
        assert(texts_of(list@).take(i + 1) =~= texts_of(list@).take(i as int).push(list[i as int]@));
        i += 1;
    }
    assert(texts_of(list@).take(list.len() as int) =~= texts_of(list@));
    r
}

impl StowContext {
    /// The context for the given directories and modes. Each directory is
    /// made canonical where it leads to something, and left as it is
    /// otherwise. Adoption takes precedence over overriding.
    pub fn new(
        fs: &FileSystem,
        stow_dir: StowPath,
        target_dir: StowPath,
        ignore: Vec<String>,
        defer: Vec<String>,
        _verbose: bool,
        dry_run: bool,
        adopt: bool,
        override_conflicts: bool,
    ) -> (r: Result<Self, StowError>)
        requires
            fs@.wf(),
        ensures
            r matches Ok(c) && c@ == (ContextView {
                stow_dir: resolved_dir(fs@, stow_dir@),
                target_dir: resolved_dir(fs@, target_dir@),
                ignore: texts_of(ignore@),
                defer: texts_of(defer@),
                dry_run,
                conflict_strategy: strategy_for(adopt, override_conflicts),
            }),
    {
        let stow_dir = match fs.canonicalize(&stow_dir) {
            Ok(p) => p,
            Err(_) => stow_dir,
        };
        let target_dir = match fs.canonicalize(&target_dir) {
            Ok(p) => p,
            Err(_) => target_dir,
        };
        let conflict_strategy = if adopt {
            ConflictStrategy::Adopt
        } else if override_conflicts {
            ConflictStrategy::Override
        } else {
            ConflictStrategy::Fail
        };
        Ok(StowContext { stow_dir, target_dir, ignore, defer, dry_run, conflict_strategy })
    }

    /// The stow directory.
    pub fn stow_dir(&self) -> (r: &StowPath)
        ensures
            r@ == self@.stow_dir,
    {
        &self.stow_dir
    }

    /// The target directory.
    pub fn target_dir(&self) -> (r: &StowPath)
        ensures
            r@ == self@.target_dir,
    {
        &self.target_dir
    }

    /// Whether nothing is to be changed.
    pub fn is_dry_run(&self) -> (r: bool)
        ensures
            r == self@.dry_run,
    {
        self.dry_run
    }

    /// How conflicts are resolved.
    pub fn conflict_strategy(&self) -> (r: ConflictStrategy)
        ensures
            r == self@.conflict_strategy,
    {
        self.conflict_strategy
    }

    /// Compiles the ignore and defer patterns of the context.
    pub fn build_pattern_set(&self) -> (r: Result<PatternSet, StowError>)
        ensures
            match (first_bad(self@.ignore), first_bad(self@.defer)) {
                (Some(i), _) => r matches Err(e) && e@ == bad_pattern_error(self@.ignore[i]),
                (None, Some(j)) => r matches Err(e) && e@ == bad_pattern_error(self@.defer[j]),
                (None, None) => r matches Ok(s) && s@ == (PatternSetView {
                    ignore: self@.ignore,
                    defer: self@.defer,
                }),
            },
    {
        PatternSet::new(self.ignore.as_slice(), self.defer.as_slice())
    }
}

} // verus!
