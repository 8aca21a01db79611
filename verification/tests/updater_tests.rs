use lib::dep::{DepNode, GoalDepNode, RM_DONTCARE, RM_INCLUDED};
use lib::execctx::{BuildError, ExecContext, WarningAction};
use lib::remake::consider::{
    check_dep, low_resolution_adjust, remake_decision, update_file_1, RemakeReason,
};
use lib::file::{FileMarks, CommandState, FileNode, UpdateStatus, UNKNOWN_MTIME};
use lib::recipe::{Recipe, RecipeLine, RecipeLineFlags, RECIPE_RECURSE};
use lib::remake::{
    check_also_make, cname, complain, goal_chain_begin, goal_chain_end, dep_chain_running, show_goal_error, update_goals_pass, GoalOptions, follow_renamed, new_mtime, node_name, notice_finished_file,
    ordinary_mtime_max, remake_file, remake_no_recipe, set_command_state_id, trace_name,
    update_file, update_file_pruned, UpdaterWork,
};
use lib::rule::dep_with_name;

fn node(name: &str) -> FileNode {
    FileNode {
        name: name.as_bytes().to_vec(),
        deps: Vec::new(),
        also_make: Vec::new(),
        recipe: None,
        renamed: None,
        double_colon: Vec::new(),
        is_double_colon: false,
        considered: 0,
        command_state: CommandState::NotStarted,
        update_status: UpdateStatus::Success,
        updated: false,
        phony: false,
        is_target: false,
        dontcare: false,
        no_diag: false,
        tried_implicit: false,
        suffix: false,
        cmd_target: false,
        last_mtime: 0,
        mtime_before_update: 0,
        marks: FileMarks {
            updating: false,
            low_resolution_time: false,
            intermediate: false,
            secondary: false,
            notintermediate: false,
            ignore_vpath: false,
            is_explicit: false,
            parent: None,
        },
        hname: name.as_bytes().to_vec(),
    }
}

fn peer(id: usize) -> DepNode {
    let mut d = dep_with_name(Vec::new());
    d.file = Some(id);
    d
}

/// Records the outside work asked for and answers with fixed results.
#[derive(Default)]
struct Work {
    touched: Vec<usize>,
    mtimes_read: Vec<usize>,
    names_timed: Vec<Vec<u8>>,
    messages: Vec<Vec<u8>>,
    traces: Vec<Vec<u8>>,
    complaints: Vec<usize>,
    complain_fails: bool,
    executed: Vec<(usize, usize)>,
    implicit_searched: Vec<usize>,
    expanded: Vec<usize>,
}

impl UpdaterWork for Work {
    fn touch_file(&mut self, _ctx: &ExecContext, file: usize) -> Result<UpdateStatus, BuildError> {
        self.touched.push(file);
        Ok(UpdateStatus::Success)
    }
    fn f_mtime(&mut self, _ctx: &mut ExecContext, file: usize, _search: bool) -> Result<u64, BuildError> {
        self.mtimes_read.push(file);
        Ok(100)
    }
    fn name_mtime(&mut self, _ctx: &ExecContext, name: &[u8]) -> u64 {
        self.names_timed.push(name.to_vec());
        500
    }
    fn message(&mut self, _ctx: &ExecContext, text: &[u8]) {
        self.messages.push(text.to_vec());
    }
    fn trace(&mut self, _ctx: &ExecContext, _depth: u32, text: &[u8]) {
        self.traces.push(text.to_vec());
    }
    fn strerror(&mut self, errnum: i32) -> Vec<u8> {
        format!("error {}", errnum).into_bytes()
    }
    fn complain(&mut self, _ctx: &mut ExecContext, file: usize) -> Result<(), BuildError> {
        self.complaints.push(file);
        if self.complain_fails {
            Err(BuildError::Failure)
        } else {
            Ok(())
        }
    }
    fn chop_commands(&mut self, _ctx: &ExecContext, _recipe: &mut Recipe) {}
    fn execute_file_commands(&mut self, _ctx: &mut ExecContext, file: usize, entry: usize) -> Result<(), BuildError> {
        self.executed.push((file, entry));
        Ok(())
    }
    fn try_implicit_rule(&mut self, _ctx: &mut ExecContext, file: usize, _depth: u32) -> Result<(), BuildError> {
        self.implicit_searched.push(file);
        Ok(())
    }
    fn expand_deps(&mut self, _ctx: &mut ExecContext, file: usize) -> Result<(), BuildError> {
        self.expanded.push(file);
        Ok(())
    }
}

#[test]
fn sentinels_have_their_values() {
    assert_eq!(ordinary_mtime_max(), 0xffff_ffff_fb9a_ca02);
    assert_eq!(new_mtime(), u64::MAX);
}

#[test]
fn names_and_traces() {
    assert_eq!(cname(b"foo"), b"foo\0".to_vec());
    assert_eq!(trace_name(b"Pruning file '", b"foo\0", b"'.\n"), b"Pruning file 'foo'.\n".to_vec());
    let mut ctx = ExecContext::default();
    ctx.files.push(node("a.o"));
    assert_eq!(node_name(&ctx, 0), b"a.o".to_vec());
    assert!(node_name(&ctx, 5).is_empty());
}

#[test]
fn renames_are_followed_to_the_live_node() {
    let mut ctx = ExecContext::default();
    let mut a = node("a");
    a.renamed = Some(1);
    let mut b = node("b");
    b.renamed = Some(2);
    ctx.files.push(a);
    ctx.files.push(b);
    ctx.files.push(node("c"));
    assert_eq!(follow_renamed(&ctx, 0), 2);
    assert_eq!(follow_renamed(&ctx, 2), 2);
    assert_eq!(follow_renamed(&ctx, 9), 9);
}

#[test]
fn command_state_raises_peers_but_never_lowers() {
    let mut ctx = ExecContext::default();
    let mut head = node("head");
    head.also_make = vec![peer(1), peer(2), peer(7)];
    ctx.files.push(head);
    ctx.files.push(node("p1"));
    let mut p2 = node("p2");
    p2.command_state = CommandState::Finished;
    ctx.files.push(p2);
    set_command_state_id(&mut ctx, 0, CommandState::Running);
    assert_eq!(ctx.files[0].command_state, CommandState::Running);
    assert_eq!(ctx.files[1].command_state, CommandState::Running);
    assert_eq!(ctx.files[2].command_state, CommandState::Finished);
}

#[test]
fn double_colon_entries_count_as_running() {
    let mut ctx = ExecContext::default();
    let mut head = node("t");
    head.is_double_colon = true;
    let mut e = node("t");
    e.command_state = CommandState::DepsRunning;
    head.double_colon.push(e);
    ctx.files.push(head);
    assert!(dep_chain_running(&ctx, 0));
    ctx.files[0].double_colon[0].command_state = CommandState::Finished;
    assert!(!dep_chain_running(&ctx, 0));
    assert!(!dep_chain_running(&ctx, 3));
}

#[test]
fn pruned_target_answers_at_once() {
    let mut ctx = ExecContext::default();
    ctx.considered = 4;
    let mut n = node("t");
    n.considered = 4;
    n.command_state = CommandState::Finished;
    n.update_status = UpdateStatus::Failed;
    ctx.files.push(n);
    assert_eq!(update_file_pruned(&ctx, 0), Some(UpdateStatus::Failed));
    let mut work = Work::default();
    assert_eq!(update_file(&mut ctx, 0, 0, &mut work), Ok(UpdateStatus::Failed));
    assert_eq!(update_file(&mut ctx, 3, 0, &mut work), Ok(UpdateStatus::Success));
}

/// A `t` entry whose recipe already finished with `status`.
fn finished_entry(status: UpdateStatus) -> FileNode {
    let mut n = node("t");
    n.command_state = CommandState::Finished;
    n.update_status = status;
    n
}

#[test]
fn double_colon_entries_are_updated_in_turn() {
    let mut ctx = ExecContext::default();
    ctx.considered = 1;
    ctx.opt_keep_going = true;
    let mut head = finished_entry(UpdateStatus::Success);
    head.is_double_colon = true;
    head.double_colon.push(finished_entry(UpdateStatus::Question));
    head.double_colon.push(finished_entry(UpdateStatus::Success));
    ctx.files.push(head);
    let mut work = Work::default();
    assert_eq!(update_file(&mut ctx, 0, 0, &mut work), Ok(UpdateStatus::Question));
    assert_eq!(ctx.files[0].considered, 1);
}

#[test]
fn a_failed_entry_stops_the_walk_without_keep_going() {
    let mut ctx = ExecContext::default();
    ctx.considered = 1;
    let mut head = finished_entry(UpdateStatus::Failed);
    head.is_double_colon = true;
    head.double_colon.push(node("t"));
    ctx.files.push(head);
    let mut work = Work::default();
    assert_eq!(update_file(&mut ctx, 0, 0, &mut work), Ok(UpdateStatus::Failed));
    assert_eq!(ctx.files[0].double_colon[0].command_state, CommandState::NotStarted);
    assert!(work.mtimes_read.is_empty());
}

#[test]
fn finishing_a_run_marks_fresh_and_finishes_peers() {
    let mut ctx = ExecContext::default();
    let mut t = node("t");
    t.command_state = CommandState::Running;
    t.is_target = true;
    t.tried_implicit = true;
    t.also_make = vec![peer(1)];
    t.last_mtime = 50;
    ctx.files.push(t);
    ctx.files.push(node("u"));
    ctx.opt_just_print = true;
    let mut work = Work::default();
    assert_eq!(notice_finished_file(&mut ctx, 0, 0, &mut work), Ok(()));
    let t = &ctx.files[0];
    assert_eq!(t.command_state, CommandState::Finished);
    assert!(t.updated);
    assert_eq!(t.mtime_before_update, 50);
    // -n with a target that has no recipe: the time is marked fresh.
    assert_eq!(t.last_mtime, u64::MAX);
    assert_eq!(ctx.files[1].command_state, CommandState::Finished);
    assert!(ctx.files[1].updated);
    assert_eq!(work.mtimes_read, vec![1]);
    assert_eq!(ctx.files[1].last_mtime, u64::MAX);
    // The fresh time is no ordinary one: no peer is reported missing.
    assert!(ctx.diagnostics.is_empty());
}

#[test]
fn touching_counts_as_a_command_unless_all_lines_recurse() {
    let mut ctx = ExecContext::default();
    ctx.opt_touch = true;
    let mut t = node("t");
    let mut rc = Recipe::default();
    rc.any_recurse = true;
    rc.lines = vec![
        RecipeLine { text: b"$(MAKE)".to_vec(), flags: RecipeLineFlags::from_bits_truncate(RECIPE_RECURSE) },
        RecipeLine { text: b"touch x".to_vec(), flags: RecipeLineFlags::empty() },
    ];
    t.recipe = Some(rc);
    ctx.files.push(t);
    let mut work = Work::default();
    assert_eq!(notice_finished_file(&mut ctx, 0, 0, &mut work), Ok(()));
    assert_eq!(work.touched, vec![0]);
    assert_eq!(ctx.commands_started, 1);
    // Touched: the time is fresh because one line does not recurse.
    assert_eq!(ctx.files[0].last_mtime, u64::MAX);

    let mut ctx2 = ExecContext::default();
    ctx2.opt_touch = true;
    let mut t2 = node("t2");
    let mut rc2 = Recipe::default();
    rc2.any_recurse = true;
    rc2.lines = vec![RecipeLine { text: b"$(MAKE)".to_vec(), flags: RecipeLineFlags::from_bits_truncate(RECIPE_RECURSE) }];
    t2.recipe = Some(rc2);
    ctx2.files.push(t2);
    let mut work2 = Work::default();
    assert_eq!(notice_finished_file(&mut ctx2, 0, 0, &mut work2), Ok(()));
    assert!(work2.touched.is_empty());
    assert_eq!(ctx2.commands_started, 0);
}

#[test]
fn double_colon_times_are_propagated_when_all_updated() {
    let mut ctx = ExecContext::default();
    let mut head = node("t");
    head.is_double_colon = true;
    head.last_mtime = 10;
    head.mtime_before_update = 10;
    let mut e1 = node("t");
    e1.updated = true;
    e1.last_mtime = 30;
    let mut e2 = node("t");
    e2.updated = true;
    e2.last_mtime = 20;
    head.double_colon = vec![e1, e2];
    ctx.files.push(head);
    let mut work = Work::default();
    assert_eq!(notice_finished_file(&mut ctx, 0, 0, &mut work), Ok(()));
    assert_eq!(ctx.files[0].last_mtime, 30);
    assert_eq!(ctx.files[0].double_colon[0].last_mtime, 30);
    assert_eq!(ctx.files[0].double_colon[1].last_mtime, 30);
}

#[test]
fn unknown_head_time_stays_unknown_across_the_chain() {
    let mut ctx = ExecContext::default();
    let mut head = node("t");
    head.is_double_colon = true;
    head.last_mtime = UNKNOWN_MTIME;
    head.mtime_before_update = 7;
    let mut e1 = node("t");
    e1.updated = true;
    e1.last_mtime = 30;
    head.double_colon = vec![e1];
    ctx.files.push(head);
    let mut work = Work::default();
    assert_eq!(notice_finished_file(&mut ctx, 0, 0, &mut work), Ok(()));
    assert_eq!(ctx.files[0].last_mtime, UNKNOWN_MTIME);
    assert_eq!(ctx.files[0].double_colon[0].last_mtime, UNKNOWN_MTIME);
}

#[test]
fn no_status_without_a_run_becomes_success() {
    let mut ctx = ExecContext::default();
    let mut t = node("t");
    t.update_status = UpdateStatus::NoStatus;
    ctx.files.push(t);
    let mut work = Work::default();
    assert_eq!(notice_finished_file(&mut ctx, 0, 0, &mut work), Ok(()));
    assert_eq!(ctx.files[0].update_status, UpdateStatus::Success);
}

#[test]
fn target_without_recipe_succeeds_or_fails() {
    let mut ctx = ExecContext::default();
    ctx.files.push(node("t"));
    let mut work = Work::default();
    assert_eq!(remake_no_recipe(&mut ctx, 0, 0, false, true, false, &mut work), Ok(()));
    assert_eq!(ctx.files[0].update_status, UpdateStatus::Success);
    assert!(work.complaints.is_empty());
    assert_eq!(remake_no_recipe(&mut ctx, 0, 0, false, false, false, &mut work), Ok(()));
    assert_eq!(ctx.files[0].update_status, UpdateStatus::Failed);
    assert_eq!(work.complaints, vec![0]);
}

#[test]
fn a_failed_complaint_ends_the_build() {
    let mut ctx = ExecContext::default();
    ctx.files.push(node("t"));
    let mut work = Work::default();
    work.complain_fails = true;
    assert_eq!(remake_no_recipe(&mut ctx, 0, 0, false, false, false, &mut work), Err(BuildError::Failure));
    assert_eq!(ctx.files[0].update_status, UpdateStatus::Success);
}

#[test]
fn remaking_the_makefiles_does_not_complain_about_dontcare_files() {
    let mut ctx = ExecContext::default();
    ctx.opt_rebuilding_makefiles = true;
    ctx.files.push(node("t"));
    let mut work = Work::default();
    assert_eq!(remake_no_recipe(&mut ctx, 0, 0, false, false, true, &mut work), Ok(()));
    assert!(work.complaints.is_empty());
    assert_eq!(ctx.files[0].update_status, UpdateStatus::Failed);
}

#[test]
fn remake_file_runs_the_recipe() {
    let mut ctx = ExecContext::default();
    let mut t = node("t");
    t.recipe = Some(Recipe::default());
    ctx.files.push(t);
    let mut work = Work::default();
    assert_eq!(remake_file(&mut ctx, 0, 0, &mut work), Ok(()));
    assert_eq!(work.executed, vec![(0, 0)]);
    assert!(ctx.files[0].recipe.is_some());
}

fn named_peer(id: usize, name: &str) -> DepNode {
    let mut d = dep_with_name(name.as_bytes().to_vec());
    d.file = Some(id);
    d
}

#[test]
fn missing_peers_of_an_updated_target_are_warned_about() {
    let mut ctx = ExecContext::default();
    let mut t = node("t");
    t.last_mtime = 1000;
    t.mtime_before_update = 10;
    let mut rc = Recipe::default();
    rc.defined_lineno = 7;
    t.recipe = Some(rc);
    t.also_make = vec![named_peer(1, "p1"), named_peer(2, "p2")];
    ctx.files.push(t);
    let mut p1 = node("p1");
    p1.last_mtime = 1;
    ctx.files.push(p1);
    let mut p2 = node("p2");
    p2.last_mtime = 900;
    ctx.files.push(p2);
    let mut work = Work::default();
    check_also_make(&mut ctx, 0, &mut work);
    assert_eq!(ctx.diagnostics.len(), 1);
    assert_eq!(ctx.diagnostics[0].message, b"warning: pattern recipe did not update peer target 'p1'".to_vec());
    assert_eq!(ctx.diagnostics[0].floc.lineno, 7);
    assert!(work.names_timed.is_empty());
}

#[test]
fn an_unknown_time_is_read_by_name_before_warning() {
    let mut ctx = ExecContext::default();
    let mut t = node("t");
    t.last_mtime = UNKNOWN_MTIME;
    t.mtime_before_update = 600;
    t.also_make = vec![named_peer(1, "p1")];
    ctx.files.push(t);
    let mut p1 = node("p1");
    p1.last_mtime = 1;
    ctx.files.push(p1);
    let mut work = Work::default();
    check_also_make(&mut ctx, 0, &mut work);
    assert_eq!(work.names_timed, vec![b"t\0".to_vec()]);
    // The time read (500) is not later than before the update: no warning.
    assert!(ctx.diagnostics.is_empty());
    check_also_make(&mut ctx, 9, &mut work);
    assert!(ctx.diagnostics.is_empty());
}

fn goal(file: usize, flags: u32) -> GoalDepNode {
    let mut d = dep_with_name(Vec::new());
    d.file = Some(file);
    d.flags = flags;
    GoalDepNode { dep: d, error: 0, defined_in: None, lineno: 0, offset: 0 }
}

#[test]
fn an_up_to_date_goal_is_announced_and_dropped() {
    let mut ctx = ExecContext::default();
    ctx.considered = 1;
    let mut t = node("all");
    t.phony = true;
    t.command_state = CommandState::Finished;
    t.updated = true;
    t.considered = 1;
    ctx.files.push(t);
    let mut goals = vec![goal(0, 0)];
    let mut work = Work::default();
    let opts = GoalOptions { touch: false, question: false, just_print: false };
    assert_eq!(update_goals_pass(&mut ctx, &mut goals, UpdateStatus::NoStatus, opts, 0, &mut work), Ok(UpdateStatus::Success));
    assert!(goals.is_empty());
    assert_eq!(work.messages, vec![b"Nothing to be done for 'all'.".to_vec()]);
    assert_eq!(ctx.considered, 2);
}

#[test]
fn a_failed_status_is_kept_by_a_pass() {
    let mut ctx = ExecContext::default();
    ctx.files.push(node("t"));
    let mut goals = vec![goal(0, 0)];
    let mut work = Work::default();
    let opts = GoalOptions { touch: false, question: false, just_print: false };
    let r = update_goals_pass(&mut ctx, &mut goals, UpdateStatus::Failed, opts, 0, &mut work);
    assert_eq!(r, Ok(UpdateStatus::Failed));
}

#[test]
fn the_error_of_an_included_goal_is_shown_once() {
    let mut ctx = ExecContext::default();
    ctx.files.push(node("inc.mk"));
    let mut g = goal(0, RM_INCLUDED);
    g.error = 2;
    g.defined_in = Some(b"Makefile".to_vec());
    g.lineno = 3;
    ctx.goal_list.push(g);
    ctx.goal_dep = Some((Some(0), RM_INCLUDED));
    let mut work = Work::default();
    show_goal_error(&mut ctx, &mut work);
    assert_eq!(ctx.diagnostics.len(), 1);
    assert_eq!(ctx.diagnostics[0].message, b"inc.mk: error 2".to_vec());
    assert_eq!(ctx.diagnostics[0].floc.filenm, Some(b"Makefile".to_vec()));
    assert_eq!(ctx.diagnostics[0].floc.lineno, 3);
    assert_eq!(ctx.goal_list[0].error, 0);
    show_goal_error(&mut ctx, &mut work);
    assert_eq!(ctx.diagnostics.len(), 1);
}

#[test]
fn a_dontcare_goal_error_is_not_shown() {
    let mut ctx = ExecContext::default();
    ctx.files.push(node("inc.mk"));
    let mut g = goal(0, RM_INCLUDED | RM_DONTCARE);
    g.error = 2;
    ctx.goal_list.push(g);
    ctx.goal_dep = Some((Some(0), RM_INCLUDED | RM_DONTCARE));
    let mut work = Work::default();
    show_goal_error(&mut ctx, &mut work);
    assert!(ctx.diagnostics.is_empty());
    assert_eq!(ctx.goal_list[0].error, 2);
}

fn target_with_dep(dep_mtime: u64) -> ExecContext {
    let mut ctx = ExecContext::default();
    let mut t = node("t");
    t.last_mtime = 100;
    t.recipe = Some(Recipe::default());
    t.deps = vec![named_peer(1, "d")];
    ctx.files.push(t);
    let mut d = node("d");
    d.last_mtime = dep_mtime;
    ctx.files.push(d);
    ctx
}

#[test]
fn a_newer_prerequisite_remakes_the_target() {
    let mut ctx = target_with_dep(200);
    let mut work = Work::default();
    assert_eq!(update_file_1(&mut ctx, 0, 0, 0, &mut work), Ok(UpdateStatus::Success));
    assert_eq!(work.executed, vec![(0, 0)]);
    assert!(!ctx.files[0].marks.updating);
    assert_eq!(ctx.files[1].marks.parent, Some(0));
    assert!(ctx.files[0].deps[0].changed);
    assert!(!ctx.files[0].updated);
}

#[test]
fn an_older_prerequisite_leaves_the_target_alone() {
    let mut ctx = target_with_dep(50);
    let mut work = Work::default();
    assert_eq!(update_file_1(&mut ctx, 0, 0, 0, &mut work), Ok(UpdateStatus::Success));
    assert!(work.executed.is_empty());
    assert!(ctx.files[0].updated);
    assert_eq!(ctx.files[0].command_state, CommandState::Finished);
    assert!(ctx.files[0].marks.secondary);
    assert!(!ctx.files[0].deps[0].changed);
}

#[test]
fn settled_entries_are_answered_at_once() {
    let mut ctx = target_with_dep(200);
    ctx.files[0].updated = true;
    ctx.files[0].update_status = UpdateStatus::Failed;
    let mut work = Work::default();
    assert_eq!(update_file_1(&mut ctx, 0, 0, 0, &mut work), Ok(UpdateStatus::Failed));
    ctx.files[0].updated = false;
    ctx.files[0].command_state = CommandState::Running;
    assert_eq!(update_file_1(&mut ctx, 0, 0, 0, &mut work), Ok(UpdateStatus::Success));
    assert!(work.executed.is_empty() && work.mtimes_read.is_empty());
}

#[test]
fn a_circular_prerequisite_is_dropped() {
    let mut ctx = target_with_dep(200);
    ctx.files[1].marks.updating = true;
    let mut work = Work::default();
    assert_eq!(update_file_1(&mut ctx, 0, 0, 0, &mut work), Ok(UpdateStatus::Success));
    assert_eq!(ctx.diagnostics[0].message, b"circular t <- d dependency dropped".to_vec());
    assert!(ctx.files[0].deps.is_empty());
}

#[test]
fn a_circular_prerequisite_can_be_an_error() {
    let mut ctx = target_with_dep(200);
    ctx.files[1].marks.updating = true;
    ctx.run.circular_dep = WarningAction::Error;
    let mut work = Work::default();
    assert_eq!(update_file_1(&mut ctx, 0, 0, 0, &mut work), Err(BuildError::Failure));
    assert_eq!(ctx.diagnostics[0].message, b"circular t <- d dependency detected".to_vec());
}

#[test]
fn a_target_without_recipe_searches_the_implicit_rules() {
    let mut ctx = target_with_dep(50);
    ctx.files[0].recipe = None;
    let mut work = Work::default();
    assert_eq!(update_file_1(&mut ctx, 0, 0, 0, &mut work), Ok(UpdateStatus::Success));
    assert_eq!(work.implicit_searched, vec![0]);
    assert!(ctx.files[0].tried_implicit);
}

#[test]
fn a_missing_prerequisite_must_be_made() {
    let mut ctx = target_with_dep(1);
    let mut work = Work::default();
    let mut must = false;
    assert_eq!(check_dep(&mut ctx, 1, 0, 100, &mut must, &mut work), Ok(UpdateStatus::Success));
    assert!(must);
    assert!(!ctx.files[1].marks.updating);
    let mut must = false;
    ctx.files[1].last_mtime = 90;
    assert_eq!(check_dep(&mut ctx, 1, 0, 100, &mut must, &mut work), Ok(UpdateStatus::Success));
    assert!(!must);
}

#[test]
fn low_resolution_times_move_to_the_end_of_their_second() {
    assert_eq!(low_resolution_adjust(3), (3 + 999_999_999, false));
    assert_eq!(low_resolution_adjust(8), (8 + 999_999_994, true));
}

#[test]
fn the_remake_decision() {
    assert_eq!(remake_decision(true, true, false, true, false, false, false, false), (true, RemakeReason::DoubleColonNoDeps));
    assert_eq!(remake_decision(false, false, false, true, false, false, false, true), (false, RemakeReason::NothingChanged));
    assert_eq!(remake_decision(false, false, false, true, false, true, true, false), (true, RemakeReason::AlwaysMake));
    assert_eq!(remake_decision(false, false, true, true, false, true, false, true), (true, RemakeReason::Prerequisites));
}

#[test]
fn a_goal_chain_run_starts_a_pass_and_restores_the_options() {
    let mut ctx = ExecContext::default();
    ctx.opt_rebuilding_makefiles = true;
    ctx.opt_touch = true;
    ctx.considered = 7;
    let goals = vec![goal(0, RM_INCLUDED)];
    let (work_goals, opts, depth) = goal_chain_begin(&mut ctx, &goals);
    assert_eq!(work_goals.len(), 1);
    assert_eq!(ctx.goal_list.len(), 1);
    assert_eq!(depth, 1);
    assert_eq!(ctx.considered, 8);
    assert!(opts.touch && !opts.question && !opts.just_print);
    ctx.opt_touch = false;
    ctx.opt_question = true;
    goal_chain_end(&mut ctx, opts);
    assert!(ctx.opt_touch && !ctx.opt_question);

    let mut plain = ExecContext::default();
    let (_, _, depth) = goal_chain_begin(&mut plain, &goals);
    assert_eq!(depth, 0);
    assert!(plain.goal_list.is_empty());
}

#[test]
fn no_rule_ends_the_run_unless_keep_going() {
    let mut ctx = ExecContext::default();
    let mut t = node("foo.o");
    t.marks.parent = Some(1);
    t.no_diag = true;
    ctx.files.push(t);
    ctx.files.push(node("prog"));
    let mut work = Work::default();
    assert_eq!(complain(&mut ctx, 0, &mut work), Err(BuildError::Failure));
    assert_eq!(ctx.diagnostics[0].message, b"No rule to make target 'foo.o', needed by 'prog'".to_vec());
    assert!(ctx.files[0].no_diag);
    ctx.opt_keep_going = true;
    ctx.files[0].marks.parent = None;
    assert_eq!(complain(&mut ctx, 0, &mut work), Ok(()));
    assert_eq!(ctx.diagnostics[1].message, b"*** No rule to make target 'foo.o'.".to_vec());
    assert!(!ctx.files[0].no_diag);
    assert_eq!(complain(&mut ctx, 7, &mut work), Ok(()));
    assert_eq!(ctx.diagnostics.len(), 2);
}

#[test]
fn the_blame_goes_to_a_failed_prerequisite() {
    let mut ctx = ExecContext::default();
    let mut t = node("all");
    t.no_diag = true;
    t.deps = vec![named_peer(1, "ok"), named_peer(2, "bad")];
    ctx.files.push(t);
    let mut ok = node("ok");
    ok.updated = true;
    ctx.files.push(ok);
    let mut bad = node("bad");
    bad.updated = true;
    bad.update_status = UpdateStatus::Failed;
    ctx.files.push(bad);
    let mut work = Work::default();
    assert_eq!(complain(&mut ctx, 0, &mut work), Ok(()));
    assert_eq!(work.complaints, vec![2]);
    assert!(ctx.diagnostics.is_empty());
}

#[test]
fn a_later_entry_completing_the_chain_spreads_the_newest_time() {
    let mut ctx = ExecContext::default();
    let mut head = node("t");
    head.is_double_colon = true;
    head.updated = true;
    head.command_state = CommandState::Finished;
    head.last_mtime = 50;
    let mut e = node("t");
    e.last_mtime = 70;
    head.double_colon.push(e);
    ctx.files.push(head);
    let mut work = Work::default();
    assert_eq!(notice_finished_file(&mut ctx, 0, 1, &mut work), Ok(()));
    assert_eq!(ctx.files[0].last_mtime, 70);
    assert_eq!(ctx.files[0].double_colon[0].last_mtime, 70);
    assert!(ctx.files[0].double_colon[0].updated);
}
