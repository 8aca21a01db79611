//! The execution context: the state that the reader, the rule database and
//! the updater share.

use vstd::prelude::*;
use crate::dep::{FileId, GoalDepNode};
use crate::file::FileNode;
use crate::rule::Rule;

verus! {

/// The `if`/`else`/`endif` nesting state of one makefile-reading scope.
#[derive(Debug)]
pub struct ConditionalsFrame {
    /// For each open conditional, whether its text is being ignored.
    pub ignoring: Vec<u8>,
    /// For each open conditional, whether its `else` has been seen.
    pub seen_else: Vec<u8>,
}

impl Default for ConditionalsFrame {
    /// A frame with no open conditional.
    fn default() -> (r: ConditionalsFrame)
        ensures
            is_empty_frame(r),
    {
        ConditionalsFrame { ignoring: Vec::new(), seen_else: Vec::new() }
    }
}

/// A frame with no open conditional.
pub open spec fn is_empty_frame(f: ConditionalsFrame) -> bool {
    f.ignoring@.len() == 0 && f.seen_else@.len() == 0
}

/// A build failure that travels out to the caller instead of ending the
/// process.
#[derive(Debug, Clone, Copy, PartialEq, Eq, Structural)]
pub enum BuildError {
    /// The build failed; the diagnostic has been given.
    Failure,
}

/// A location in a makefile (the file is unknown when `None`).
#[derive(Debug, PartialEq, Eq)]
pub struct Floc {
    pub filenm: Option<Vec<u8>>,
    pub lineno: u64,
    pub offset: u64,
}

/// A warning given while reading or converting the makefiles.
#[derive(Debug, PartialEq, Eq)]
pub struct Diagnostic {
    pub floc: Floc,
    pub message: Vec<u8>,
}

/// What make does about one kind of warning.
#[derive(Debug, Clone, Copy, PartialEq, Eq, Structural)]
pub enum WarningAction {
    /// Say nothing.
    Ignore,
    /// Give a warning.
    Warn,
    /// Treat it as an error.
    Error,
}

/// The shared state of one make run.
pub struct ExecContext {
    /// The pattern-rule database, in installation order.
    pub rules: Vec<Rule>,
    /// The file table, indexed by file id.
    pub files: Vec<FileNode>,
    /// The current updater pass.
    pub considered: u32,
    /// The number of recipes started (or files touched).
    pub commands_started: u32,
    /// The `-d` debug level bits.
    pub db_level: i32,
    /// `-t`: touch files instead of running recipes.
    pub opt_touch: bool,
    /// `-q`: only ask whether targets are up to date.
    pub opt_question: bool,
    /// `-n`: print recipes without running them.
    pub opt_just_print: bool,
    /// `-k`: keep going after errors.
    pub opt_keep_going: bool,
    /// The makefiles themselves are being remade.
    pub opt_rebuilding_makefiles: bool,
    /// `.POSIX` is in effect.
    pub posix_pedantic: bool,
    /// The conditionals frame of the makefile being read.
    pub conditionals: ConditionalsFrame,
    /// The jobserver style in use (a `JsType` code).
    pub js_type: u8,
    /// The private read end of the jobserver pipe, negative when none.
    pub job_rfd: i32,
    /// The output-sync lock handle, negative when none.
    pub osync_handle: i32,
    /// Warnings given so far, in order.
    pub diagnostics: Vec<Diagnostic>,
    /// `-s`: run silently.
    pub opt_run_silent: bool,
    /// The goal being updated: its file and its flags.
    pub goal_dep: Option<(Option<FileId>, u32)>,
    /// The goals of the makefile-remaking pass.
    pub goal_list: Vec<GoalDepNode>,
    /// Settings of the run that the makefiles and the command line made.
    pub run: RunFlags,
    /// Figures of the pattern-rule database, taken once the makefiles are read.
    pub pattern_stats: PatternStats,
}

/// Figures of the pattern-rule database: how many rules, and the most
/// targets, prerequisites and prerequisite-name bytes any rule has.
#[derive(Debug, Clone, Copy, PartialEq, Eq, Structural)]
pub struct PatternStats {
    pub num_rules: u32,
    pub max_targets: u32,
    pub max_deps: u32,
    pub max_dep_length: usize,
}

/// Settings of one make run that the makefiles and the command line make,
/// and the warnings given only once.
#[derive(Debug, Clone, Copy, PartialEq, Eq, Structural)]
pub struct RunFlags {
    /// `-B`: make every target, up to date or not.
    pub always_make: bool,
    /// `.NOTINTERMEDIATE` without prerequisites: no file is intermediate.
    pub no_intermediates: bool,
    /// `.SECONDEXPANSION` is in effect.
    pub second_expansion: bool,
    /// `.ONESHELL` is in effect.
    pub one_shell: bool,
    /// What a circular dependency gives.
    pub circular_dep: WarningAction,
    /// The warning that `.WAIT` has prerequisites was given.
    pub wait_prereqs_warned: bool,
    /// The warning that `.WAIT` has a recipe was given.
    pub wait_recipe_warned: bool,
}

impl Default for ExecContext {
    /// A context before any makefile was read: no rules, no files, every
    /// option off, no jobserver and no private read end.
    fn default() -> (r: ExecContext)
        ensures
            r.rules@.len() == 0,
            r.files@.len() == 0,
            r.considered == 0,
            r.commands_started == 0,
            r.db_level == 0,
            !r.opt_touch,
            !r.opt_question,
            !r.opt_just_print,
            !r.opt_keep_going,
            !r.opt_rebuilding_makefiles,
            !r.posix_pedantic,
            is_empty_frame(r.conditionals),
            r.js_type == 0,
            r.job_rfd == -1,
            r.osync_handle == -1,
            r.diagnostics@.len() == 0,
            !r.opt_run_silent,
            r.goal_dep is None,
            r.goal_list@.len() == 0,
            !r.run.always_make,
            !r.run.no_intermediates,
            !r.run.second_expansion,
            !r.run.one_shell,
            r.run.circular_dep == WarningAction::Warn,
            !r.run.wait_prereqs_warned,
            !r.run.wait_recipe_warned,
            r.pattern_stats == (PatternStats { num_rules: 0, max_targets: 0, max_deps: 0, max_dep_length: 0 }),
    {
        ExecContext {
            rules: Vec::new(),
            files: Vec::new(),
            considered: 0,
            commands_started: 0,
            db_level: 0,
            opt_touch: false,
            opt_question: false,
            opt_just_print: false,
            opt_keep_going: false,
            opt_rebuilding_makefiles: false,
            posix_pedantic: false,
            conditionals: ConditionalsFrame::default(),
            js_type: 0,
            job_rfd: -1,
            osync_handle: -1,
            diagnostics: Vec::new(),
            opt_run_silent: false,
            goal_dep: None,
            goal_list: Vec::new(),
            run: RunFlags {
                always_make: false,
                no_intermediates: false,
                second_expansion: false,
                one_shell: false,
                circular_dep: WarningAction::Warn,
                wait_prereqs_warned: false,
                wait_recipe_warned: false,
            },
            pattern_stats: PatternStats { num_rules: 0, max_targets: 0, max_deps: 0, max_dep_length: 0 },
        }
    }
}

} // verus!
