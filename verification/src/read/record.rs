//! Recording a rule in the file table: its targets become target nodes
//! (entries of a double-colon chain for `::`), its prerequisites are
//! entered and attached, and its recipe stored.

use vstd::prelude::*;
use crate::dep::{DepNode, FileId};
use crate::execctx::{BuildError, ExecContext, Floc};
use crate::file::{entry_of, find_file, lemma_find_file, CommandState, FileMarks, FileNode, UpdateStatus, UNKNOWN_MTIME};
use crate::read::{check_special_file, is_default_file, is_suffix_file, report, suffixes_name, ParsedName};
use crate::recipe::{copy_bytes, Recipe};
use crate::rule::{create_pattern_rule, push_slice};
use crate::parser::index_of_byte;
use vstd::string::StringSliceAdditionalSpecFns;

verus! {

/// The prerequisites' names, in order.
pub open spec fn dep_names(s: Seq<DepNode>) -> Seq<Seq<u8>> {
    s.map_values(|d: DepNode| d.name@)
}

/// A node just entered under `name`: named so, with no prerequisites, no
/// recipe and no entries, not yet a target.
pub open spec fn fresh_node(n: FileNode, name: Seq<u8>) -> bool {
    &&& n.name@ == name
    &&& n.deps@.len() == 0
    &&& n.also_make@.len() == 0
    &&& n.recipe is None
    &&& n.renamed is None
    &&& n.double_colon@.len() == 0
    &&& !n.is_double_colon
    &&& !n.is_target
    &&& !n.marks.is_explicit
}

/// `b` is `a` with nodes appended and, on the nodes of `a`, at most their
/// marks changed.
pub open spec fn table_grows(a: Seq<FileNode>, b: Seq<FileNode>) -> bool {
    &&& a.len() <= b.len()
    &&& forall|j: int| 0 <= j < a.len() ==> #[trigger] b[j] == (FileNode { marks: b[j].marks, ..a[j] })
    &&& forall|j: int| a.len() <= j < b.len() ==> (#[trigger] b[j]).deps@.len() == 0 && !b[j].is_target && !b[j].is_double_colon
}

/// A table that grew keeps what a target name finds: its prerequisites
/// and whether recording it mixes `:` and `::` entries.
proof fn lemma_grows_keeps(a: Seq<FileNode>, b: Seq<FileNode>, name: Seq<u8>, two_colon: bool)
    requires
        table_grows(a, b),
        b.len() <= usize::MAX,
    ensures
        old_deps(b, name) == old_deps(a, name),
        mixes_colons(b, name, two_colon) == mixes_colons(a, name, two_colon),
{
    lemma_find_file_grows(a, b, name, 0);
    lemma_find_file(b, name, a.len() as int);
    lemma_find_file(a, name, 0);
    if find_file(a, name, 0) is Some {
        let id = find_file(a, name, 0)->0;
        assert(b[id as int] == (FileNode { marks: b[id as int].marks, ..a[id as int] }));
    } else {
        if find_file(b, name, 0) is Some {
            let j = find_file(b, name, 0)->0;
            assert(b[j as int].deps@.len() == 0);
            assert(dep_names(b[j as int].deps@) =~= Seq::<Seq<u8>>::empty());
        }
    }
}

/// `name` is recorded in `new` as a target of the rule: a target named
/// explicitly, with (for `:`) the prerequisites [`recorded_deps`] gives
/// from those it had in `old` and the recipe text `cmds`, or (for `::`) a
/// double-colon target.
pub open spec fn target_recorded(
    old: Seq<FileNode>,
    new: Seq<FileNode>,
    name: Seq<u8>,
    new_deps: Seq<Seq<u8>>,
    cmds: Option<Seq<u8>>,
    two_colon: bool,
) -> bool {
    match find_file(new, name, 0) {
        Some(id) => {
            let n = new[id as int];
            &&& n.is_target
            &&& n.marks.is_explicit
            &&& (!two_colon ==> dep_names(n.deps@) == recorded_deps(name, old_deps(old, name), new_deps, cmds is Some))
            &&& (!two_colon ==> (cmds matches Some(c) ==> (n.recipe matches Some(nr) && nr.text@ == c)))
            &&& (two_colon ==> n.is_double_colon)
        },
        None => false,
    }
}

/// The prerequisites a target ends with: the special target `.SUFFIXES`
/// given none loses them all; otherwise the new ones are added, in front
/// when the rule has a recipe, behind when it has none.
pub open spec fn recorded_deps(name: Seq<u8>, old: Seq<Seq<u8>>, new: Seq<Seq<u8>>, cmds: bool) -> Seq<Seq<u8>> {
    if name == suffixes_name() && new.len() == 0 {
        Seq::empty()
    } else {
        merged_deps(old, new, cmds)
    }
}

/// The new prerequisites `new` added to `old`: in front when the rule has a
/// recipe, behind when it has none.
pub open spec fn merged_deps(old: Seq<Seq<u8>>, new: Seq<Seq<u8>>, cmds: bool) -> Seq<Seq<u8>> {
    if new.len() == 0 {
        old
    } else if old.len() == 0 {
        new
    } else if cmds {
        new + old
    } else {
        old + new
    }
}

/// The node `name` names in `files` is a double-colon target.
pub open spec fn was_double_colon(files: Seq<FileNode>, name: Seq<u8>) -> bool {
    find_file(files, name, 0) matches Some(i) && files[i as int].is_double_colon
}

/// The prerequisites' names of the node `name` names in `files`, none when
/// there is none.
pub open spec fn old_deps(files: Seq<FileNode>, name: Seq<u8>) -> Seq<Seq<u8>> {
    match find_file(files, name, 0) {
        Some(id) => dep_names(files[id as int].deps@),
        None => Seq::empty(),
    }
}

/// Recording `name` as a target of a `:` rule (`two_colon` false) or a
/// `::` rule is refused: the node mixes `:` and `::` entries.
pub open spec fn mixes_colons(files: Seq<FileNode>, name: Seq<u8>, two_colon: bool) -> bool {
    match find_file(files, name, 0) {
        Some(id) => if two_colon {
            files[id as int].is_target && !files[id as int].is_double_colon
        } else {
            files[id as int].is_double_colon
        },
        None => false,
    }
}

/// The first node named `name` at or after `k` is the same in a table that
/// grew from `a`, when `a` has one; else any in the grown table lies past
/// `a`.
proof fn lemma_find_file_grows(a: Seq<FileNode>, b: Seq<FileNode>, name: Seq<u8>, k: int)
    requires
        table_grows(a, b),
        0 <= k <= a.len(),
    ensures
        find_file(a, name, k) is Some ==> find_file(b, name, k) == find_file(a, name, k),
        find_file(a, name, k) is None ==> find_file(b, name, k) == find_file(b, name, a.len() as int),
    decreases a.len() - k,
{
    if k < a.len() {
        assert(b[k].name == a[k].name);
        lemma_find_file_grows(a, b, name, k + 1);
    }
}

/// A node appended under a name the table lacks is the first of that name.
proof fn lemma_find_file_push(a: Seq<FileNode>, x: FileNode, name: Seq<u8>, k: int)
    requires
        find_file(a, name, k) is None,
        x.name@ == name,
        0 <= k <= a.len(),
    ensures
        find_file(a.push(x), name, k) == Some(a.len() as FileId),
    decreases a.len() - k,
{
    if k < a.len() {
        assert(a.push(x)[k] == a[k]);
        lemma_find_file_push(a, x, name, k + 1);
    } else {
        assert(a.push(x)[k] == x);
    }
}

/// A new node named `name`.
fn new_file_node(name: &[u8]) -> (r: FileNode)
    ensures
        fresh_node(r, name@),
{
    let mut n: Vec<u8> = Vec::new();
    push_slice(&mut n, name);
    let mut h: Vec<u8> = Vec::new();
    push_slice(&mut h, name);
    FileNode {
        name: n,
        deps: Vec::new(),
        also_make: Vec::new(),
        recipe: None,
        renamed: None,
        double_colon: Vec::new(),
        is_double_colon: false,
        considered: 0,
        command_state: CommandState::NotStarted,
        update_status: UpdateStatus::NoStatus,
        updated: false,
        phony: false,
        is_target: false,
        dontcare: false,
        no_diag: false,
        tried_implicit: false,
        suffix: false,
        cmd_target: false,
        last_mtime: UNKNOWN_MTIME,
        mtime_before_update: UNKNOWN_MTIME,
        marks: FileMarks {
            updating: false,
            low_resolution_time: false,
            intermediate: false,
            secondary: false,
            notintermediate: false,
            ignore_vpath: false,
            is_explicit: false,
            parent: None,
        },
        hname: h,
    }
}

/// The node named `name`, entered as a new one when the table has none.
pub fn enter_file(ctx: &mut ExecContext, name: &[u8]) -> (r: FileId)
    ensures
        find_file(final(ctx).files@, name@, 0) == Some(r),
        r < final(ctx).files@.len(),
        find_file(old(ctx).files@, name@, 0) is Some ==> Some(r) == find_file(old(ctx).files@, name@, 0)
            && *final(ctx) == *old(ctx),
        find_file(old(ctx).files@, name@, 0) is None ==> {
            &&& r == old(ctx).files@.len()
            &&& final(ctx).files@ == old(ctx).files@.push(final(ctx).files@[r as int])
            &&& fresh_node(final(ctx).files@[r as int], name@)
        },
        *final(ctx) == (ExecContext { files: final(ctx).files, ..*old(ctx) }),
{
    match crate::file::lookup_file(ctx, name) {
        Some(id) => id,
        None => {
            let ghost f0 = ctx.files@;
            let n = new_file_node(name);
            let id = ctx.files.len();
            ctx.files.push(n);
            proof {
                lemma_find_file_push(f0, ctx.files@[id as int], name@, 0);
            }
            id
        },
    }
}

/// Enter the node of each prerequisite that needs no second expansion and
/// point the prerequisite at it (no longer a static-pattern one); with
/// `explicit`, the node is marked named explicitly.
fn enter_dep_files(ctx: &mut ExecContext, deps: Vec<DepNode>, explicit: bool) -> (r: Vec<DepNode>)
    ensures
        dep_names(r@) == dep_names(deps@),
        table_grows(old(ctx).files@, final(ctx).files@),
        *final(ctx) == (ExecContext { files: final(ctx).files, ..*old(ctx) }),
{
    let mut out: Vec<DepNode> = Vec::new();
    let mut k: usize = 0;
    while k < deps.len()
        invariant
            k <= deps@.len(),
            out@.len() == k,
            forall|i: int| 0 <= i < k ==> (#[trigger] out@[i]).name@ == deps@[i].name@,
            table_grows(old(ctx).files@, ctx.files@),
            *ctx == (ExecContext { files: ctx.files, ..*old(ctx) }),
        decreases deps@.len() - k,
    {
        let mut d = deps[k].clone();
        if !d.needs_second_expansion {
            let ghost f0 = ctx.files@;
            let id = enter_file(ctx, d.name.as_slice());
            if explicit {
                ctx.files[id].marks.is_explicit = true;
            }
            proof {
                assert forall|j: int| 0 <= j < old(ctx).files@.len() implies #[trigger] ctx.files@[j] == (FileNode {
                    marks: ctx.files@[j].marks,
                    ..old(ctx).files@[j]
                }) by {
                    assert(f0[j] == (FileNode { marks: f0[j].marks, ..old(ctx).files@[j] }));
                }
            }
            d.file = Some(id);
            d.static_pattern = false;
        }
        out.push(d);
        k += 1;
    }
    proof {
        assert(dep_names(out@) =~= dep_names(deps@));
    }
    out
}

/// The prerequisites of `a` followed by those of `b`.
fn concat_deps(a: Vec<DepNode>, b: Vec<DepNode>) -> (r: Vec<DepNode>)
    ensures
        dep_names(r@) == dep_names(a@) + dep_names(b@),
{
    let mut out = a;
    let ghost a0 = out@;
    let mut k: usize = 0;
    while k < b.len()
        invariant
            k <= b@.len(),
            out@.len() == a0.len() + k,
            forall|i: int| 0 <= i < a0.len() ==> (#[trigger] out@[i]).name@ == a0[i].name@,
            forall|i: int| 0 <= i < k ==> (#[trigger] out@[a0.len() + i]).name@ == b@[i].name@,
        decreases b@.len() - k,
    {
        out.push(b[k].clone());
        k += 1;
    }
    proof {
        assert(dep_names(out@) =~= dep_names(a0) + dep_names(b@)) by {
            assert forall|i: int| 0 <= i < out@.len() implies dep_names(out@)[i] == (dep_names(a0) + dep_names(b@))[i] by {
                if i >= a0.len() {
                    assert(out@[a0.len() + (i - a0.len())].name@ == b@[i - a0.len()].name@);
                }
            }
        }
    }
    out
}

/// The prerequisite list `slot` takes the new prerequisites `this`, as
/// [`recorded_deps`] says (the `.SUFFIXES` case aside).
fn merge_deps(slot: Vec<DepNode>, this: Vec<DepNode>, have_cmds: bool) -> (r: Vec<DepNode>)
    ensures
        this@.len() == 0 ==> dep_names(r@) == dep_names(slot@),
        this@.len() > 0 ==> dep_names(r@) == if slot@.len() == 0 {
            dep_names(this@)
        } else if have_cmds {
            dep_names(this@) + dep_names(slot@)
        } else {
            dep_names(slot@) + dep_names(this@)
        },
{
    if this.len() == 0 {
        slot
    } else if slot.len() == 0 {
        this
    } else if have_cmds {
        concat_deps(this, slot)
    } else {
        concat_deps(slot, this)
    }
}

/// `<before><name><after>`.
fn named_message(before: &str, name: &[u8], after: &str) -> Vec<u8> {
    let mut m: Vec<u8> = Vec::new();
    push_slice(&mut m, before.as_bytes());
    push_slice(&mut m, name);
    push_slice(&mut m, after.as_bytes());
    m
}

/// The `:` rule's part of [`record_target`] on node `id`.
fn fill_single_colon(ctx: &mut ExecContext, id: FileId, name: &[u8], this: Vec<DepNode>, recipe: &Option<Recipe>, floc: &Floc)
    requires
        id < old(ctx).files@.len(),
        old(ctx).files@[id as int].name@ == name@,
    ensures
        final(ctx).files@.len() == old(ctx).files@.len(),
        forall|j: int| 0 <= j < old(ctx).files@.len() && j != id ==> #[trigger] final(ctx).files@[j] == old(ctx).files@[j],
        final(ctx).files@[id as int].name == old(ctx).files@[id as int].name,
        final(ctx).files@[id as int].is_target,
        final(ctx).files@[id as int].marks.is_explicit,
        dep_names(final(ctx).files@[id as int].deps@) == recorded_deps(
            name@,
            dep_names(old(ctx).files@[id as int].deps@),
            dep_names(this@),
            recipe is Some,
        ),
        recipe matches Some(rc) ==> (final(ctx).files@[id as int].recipe matches Some(nr) && nr.text@ == rc.text@),
{
    let warn = recipe.is_some() && ctx.files[id].recipe.is_some() && ctx.files[id].is_target;
        if warn {
            report(&mut ctx.diagnostics, floc, named_message("warning: overriding recipe for target '", name, "'"));
            report(&mut ctx.diagnostics, floc, named_message("warning: ignoring old recipe for target '", name, "'"));
        }
        let suffixes = is_suffix_file(name);
        let default = is_default_file(name);
        let empty_this = this.len() == 0;
        let mut slot: Vec<DepNode> = Vec::new();
        std::mem::swap(&mut slot, &mut ctx.files[id].deps);
        if suffixes && empty_this {
            slot = Vec::new();
        }
        let merged = merge_deps(slot, this, recipe.is_some());
        ctx.files[id].deps = merged;
        match recipe {
            Some(rc) => {
                ctx.files[id].recipe = Some(rc.clone());
            },
            None => {
                if default && empty_this {
                    ctx.files[id].recipe = None;
                }
            },
        }
        ctx.files[id].is_target = true;
        ctx.files[id].marks.is_explicit = true;
        proof {
            assert(dep_names(Seq::<DepNode>::empty()) =~= Seq::<Seq<u8>>::empty());
        }
}

/// The `::` rule's part of [`record_target`] on node `id` (`was_dc`: the
/// node already is a double-colon target, and the rule makes a further
/// entry).
fn fill_double_colon(ctx: &mut ExecContext, id: FileId, name: &[u8], this: Vec<DepNode>, recipe: &Option<Recipe>, was_dc: bool)
    requires
        id < old(ctx).files@.len(),
    ensures
        final(ctx).files@.len() == old(ctx).files@.len(),
        forall|j: int| 0 <= j < old(ctx).files@.len() && j != id ==> #[trigger] final(ctx).files@[j] == old(ctx).files@[j],
        final(ctx).files@[id as int].name == old(ctx).files@[id as int].name,
        final(ctx).files@[id as int].is_target,
        final(ctx).files@[id as int].marks.is_explicit,
        final(ctx).files@[id as int].is_double_colon,
{
        if was_dc {
            let mut e = new_file_node(name);
            e.deps = this;
            match recipe {
                Some(rc) => {
                    e.recipe = Some(rc.clone());
                },
                None => {},
            }
            e.is_target = true;
            e.marks.is_explicit = true;
            ctx.files[id].double_colon.push(e);
        } else {
            ctx.files[id].is_double_colon = true;
            let mut slot: Vec<DepNode> = Vec::new();
            std::mem::swap(&mut slot, &mut ctx.files[id].deps);
            let merged = merge_deps(slot, this, recipe.is_some());
            ctx.files[id].deps = merged;
            match recipe {
                Some(rc) => {
                    ctx.files[id].recipe = Some(rc.clone());
                },
                None => {},
            }
        }
    ctx.files[id].is_double_colon = true;
    ctx.files[id].is_target = true;
    ctx.files[id].marks.is_explicit = true;
}

/// Record `name` as a target of the rule, with the prerequisites `this` and
/// the recipe `recipe`: a `:` rule merges into the node's prerequisites
/// (see [`recorded_deps`]) and replaces its recipe, warning when it had one
/// from another rule; a `::` rule makes the node's first entry, or appends
/// a further entry to its chain. The node is marked a target named
/// explicitly. A node with both kinds of entry is refused.
#[verifier::rlimit(100)]
#[verifier::spinoff_prover]
pub fn record_target(
    ctx: &mut ExecContext,
    name: &[u8],
    this: Vec<DepNode>,
    recipe: &Option<Recipe>,
    two_colon: bool,
    floc: &Floc,
) -> (r: Result<FileId, BuildError>)
    ensures
        mixes_colons(old(ctx).files@, name@, two_colon) ==> r is Err,
        !mixes_colons(old(ctx).files@, name@, two_colon) ==> (r matches Ok(id) && {
            let n = final(ctx).files@[id as int];
            &&& id < final(ctx).files@.len()
            &&& find_file(final(ctx).files@, name@, 0) == Some(id)
            &&& n.is_target
            &&& n.marks.is_explicit
            &&& final(ctx).files@.len() >= old(ctx).files@.len()
            &&& forall|j: int| 0 <= j < old(ctx).files@.len() && j != id ==> #[trigger] final(ctx).files@[j]
                == old(ctx).files@[j]
            &&& !two_colon ==> {
                &&& dep_names(n.deps@) == recorded_deps(
                    name@,
                    old_deps(old(ctx).files@, name@),
                    dep_names(this@),
                    recipe is Some,
                )
                &&& (recipe matches Some(rc) ==> n.recipe matches Some(nr) && nr.text@ == rc.text@)
            }
            &&& two_colon ==> n.is_double_colon
        }),
{
    let ghost f0 = ctx.files@;
    let n0: usize = ctx.files.len();
    assert(f0.len() == n0);
    let existing = crate::file::lookup_file(ctx, name);
    let was_dc = match existing {
        Some(i) => ctx.files[i].is_double_colon,
        None => false,
    };
    let was_target = match existing {
        Some(i) => ctx.files[i].is_target,
        None => false,
    };
    if !two_colon && was_dc {
        report(&mut ctx.diagnostics, floc, named_message("target file '", name, "' has both : and :: entries"));
        return Err(BuildError::Failure);
    }
    if two_colon && was_target && !was_dc {
        report(&mut ctx.diagnostics, floc, named_message("target file '", name, "' has both : and :: entries"));
        return Err(BuildError::Failure);
    }
    let id = enter_file(ctx, name);
    let ghost f1 = ctx.files@;
    proof {
        lemma_find_file(f0, name@, 0);
        assert(old_deps(f0, name@) == dep_names(f1[id as int].deps@));
    }
    if !two_colon {
        fill_single_colon(ctx, id, name, this, recipe, floc);
    } else {
        fill_double_colon(ctx, id, name, this, recipe, was_dc);
    }
    proof {
        let n = ctx.files@[id as int];
        assert(n.name == f1[id as int].name);
        assert forall|j: int| 0 <= j < ctx.files@.len() implies #[trigger] ctx.files@[j].name == f1[j].name by {
            if j == id {
                assert(n.name == f1[id as int].name);
            }
        }
        lemma_find_file_same_names(f1, ctx.files@, name@, 0);
    }
    Ok(id)
}

/// Changing nodes but not their names keeps the first node of a name.
proof fn lemma_find_file_same_names(a: Seq<FileNode>, b: Seq<FileNode>, name: Seq<u8>, k: int)
    requires
        a.len() == b.len(),
        forall|j: int| 0 <= j < a.len() ==> #[trigger] b[j].name == a[j].name,
        0 <= k,
    ensures
        find_file(b, name, k) == find_file(a, name, k),
    decreases a.len() - k,
{
    if k < a.len() {
        assert(b[k].name == a[k].name);
        lemma_find_file_same_names(a, b, name, k + 1);
    }
}

/// The index of the first `%` in `s`, if any.
fn percent_index(s: &[u8]) -> (r: Option<usize>)
    ensures
        r matches Some(i) ==> i < s@.len() && s@[i as int] == '%' as u8 && i == index_of_byte(s@, '%' as u8, 0),
        r is None ==> !s@.contains('%' as u8) && index_of_byte(s@, '%' as u8, 0) == s@.len(),
{
    let mut k: usize = 0;
    while k < s.len()
        invariant
            k <= s@.len(),
            forall|i: int| 0 <= i < k ==> s@[i] != '%' as u8,
            index_of_byte(s@, '%' as u8, k as int) == index_of_byte(s@, '%' as u8, 0),
        decreases s@.len() - k,
    {
        if s[k] == '%' as u8 {
            return Some(k);
        }
        k += 1;
    }
    None
}

/// The stem the name `name` matches the static pattern `pattern` with:
/// with `pre` the pattern's text before its first `%` and `suf` the text
/// after it, `name` must start with `pre` and end with `suf` (without
/// overlap), and the stem is what lies between. A pattern without `%`
/// matches only itself, with an empty stem.
pub open spec fn static_stem(pattern: Seq<u8>, name: Seq<u8>) -> Option<Seq<u8>> {
    let p = index_of_byte(pattern, '%' as u8, 0);
    if p >= pattern.len() {
        if pattern == name {
            Some(Seq::empty())
        } else {
            None
        }
    } else {
        let pre = pattern.subrange(0, p);
        let suf = pattern.subrange(p + 1, pattern.len() as int);
        if pre.len() + suf.len() <= name.len() && name.subrange(0, pre.len() as int) == pre && name.subrange(
            name.len() - suf.len(),
            name.len() as int,
        ) == suf {
            Some(name.subrange(pre.len() as int, name.len() - suf.len()))
        } else {
            None
        }
    }
}

/// The stem of a static pattern is exactly what the pattern's `%` stands
/// for: putting it back between the pattern's text before and after its
/// first `%` gives the target name again, and it is the only such text.
pub proof fn law_static_stem_rebuilds_the_name(pattern: Seq<u8>, name: Seq<u8>, stem: Seq<u8>)
    requires
        pattern.contains('%' as u8),
    ensures
        ({
            let p = index_of_byte(pattern, '%' as u8, 0);
            let pre = pattern.subrange(0, p);
            let suf = pattern.subrange(p + 1, pattern.len() as int);
            &&& static_stem(pattern, name) == Some(stem) ==> pre + stem + suf == name
            &&& pre + stem + suf == name ==> static_stem(pattern, name) == Some(stem)
        }),
{
    crate::parser::lemma_index_of_byte(pattern, '%' as u8, 0);
    let p = index_of_byte(pattern, '%' as u8, 0);
    if p >= pattern.len() {
        let j = choose|j: int| 0 <= j < pattern.len() && pattern[j] == '%' as u8;
        assert(pattern[j] != '%' as u8);
    }
    let pre = pattern.subrange(0, p);
    let suf = pattern.subrange(p + 1, pattern.len() as int);
    if static_stem(pattern, name) == Some(stem) {
        assert(pre + stem + suf =~= name);
    }
    if pre + stem + suf == name {
        let n = pre + stem + suf;
        assert(n.subrange(0, pre.len() as int) =~= pre);
        assert(n.subrange(n.len() - suf.len(), n.len() as int) =~= suf);
        assert(n.subrange(pre.len() as int, n.len() - suf.len()) =~= stem);
    }
}

/// `n` with its first `%` replaced by `stem` (as it is without a `%`).
pub open spec fn subst_percent(n: Seq<u8>, stem: Seq<u8>) -> Seq<u8> {
    let p = index_of_byte(n, '%' as u8, 0);
    if p < n.len() {
        n.subrange(0, p) + stem + n.subrange(p + 1, n.len() as int)
    } else {
        n
    }
}

/// The names of the prerequisites `deps` with their first `%` replaced by
/// `stem`.
pub open spec fn stem_dep_names(deps: Seq<DepNode>, stem: Seq<u8>) -> Seq<Seq<u8>> {
    deps.map_values(|d: DepNode| subst_percent(d.name@, stem))
}

/// The prerequisite names a rule gives its target `name`: those written,
/// or, for a static pattern, those written with the stem the target
/// matches the pattern with put in for `%` (none when it does not match).
pub open spec fn rule_dep_names(pattern: Option<Seq<u8>>, name: Seq<u8>, deps: Seq<DepNode>) -> Seq<Seq<u8>> {
    match pattern {
        None => dep_names(deps),
        Some(pt) => match static_stem(pt, name) {
            Some(stem) => stem_dep_names(deps, stem),
            None => Seq::empty(),
        },
    }
}

/// The stem `name` matches the static pattern `pattern` with, if it
/// matches ([`static_stem`]).
fn pattern_stem(pattern: &[u8], name: &[u8]) -> (r: Option<Vec<u8>>)
    ensures
        r matches Some(v) ==> static_stem(pattern@, name@) == Some(v@),
        r is None ==> static_stem(pattern@, name@) is None,
{
    let p = match percent_index(pattern) {
        Some(p) => p,
        None => {
            if crate::parser::bytes_eq(pattern, name) {
                let e: Vec<u8> = Vec::new();
                assert(e@ =~= Seq::<u8>::empty());
                return Some(e);
            }
            return None;
        },
    };
    let plen = pattern.len();
    let nlen = name.len();
    let suffix_len = plen - p - 1;
    let ghost pre = pattern@.subrange(0, p as int);
    let ghost suf = pattern@.subrange(p + 1, plen as int);
    if nlen < p || nlen - p < suffix_len {
        return None;
    }
    let mut k: usize = 0;
    while k < p
        invariant
            k <= p,
            p < plen == pattern@.len(),
            nlen == name@.len(),
            p + suffix_len <= nlen,
            pre == pattern@.subrange(0, p as int),
            p == index_of_byte(pattern@, '%' as u8, 0),
            forall|i: int| 0 <= i < k ==> pattern@[i] == name@[i],
        decreases p - k,
    {
        if pattern[k] != name[k] {
            proof {
                assert(name@.subrange(0, p as int)[k as int] != pre[k as int]);
            }
            return None;
        }
        k += 1;
    }
    proof {
        assert(name@.subrange(0, pre.len() as int) =~= pre);
    }
    let mut j: usize = 0;
    while j < suffix_len
        invariant
            j <= suffix_len,
            plen == pattern@.len(),
            nlen == name@.len(),
            suffix_len < plen,
            suffix_len <= nlen,
            suffix_len == plen - p - 1,
            suf == pattern@.subrange(p + 1, plen as int),
            p == index_of_byte(pattern@, '%' as u8, 0),
            forall|i: int| 0 <= i < j ==> #[trigger] pattern@[plen - suffix_len + i] == name@[nlen - suffix_len + i],
        decreases suffix_len - j,
    {
        if pattern[plen - suffix_len + j] != name[nlen - suffix_len + j] {
            proof {
                assert(name@.subrange(nlen - suffix_len, nlen as int)[j as int] != suf[j as int]);
            }
            return None;
        }
        j += 1;
    }
    proof {
        assert forall|i: int| 0 <= i < suf.len() implies #[trigger] name@.subrange(name@.len() - suf.len(), name@.len() as int)[i] == suf[i] by {
            assert(pattern@[plen - suffix_len + i] == name@[nlen - suffix_len + i]);
        }
        assert(name@.subrange(name@.len() - suf.len(), name@.len() as int) =~= suf);
    }
    let mut stem: Vec<u8> = Vec::new();
    let mut i: usize = p;
    while i < nlen - suffix_len
        invariant
            nlen == name@.len(),
            suffix_len <= nlen,
            p <= i <= nlen - suffix_len,
            stem@ == name@.subrange(p as int, i as int),
        decreases nlen - suffix_len - i,
    {
        stem.push(name[i]);
        i += 1;
        proof {
            assert(stem@ =~= name@.subrange(p as int, i as int));
        }
    }
    Some(stem)
}

/// The prerequisites with the first `%` of each name replaced by `stem`.
fn subst_stem(deps: &Vec<DepNode>, stem: &[u8]) -> (r: Vec<DepNode>)
    ensures
        r@.len() == deps@.len(),
        forall|k: int| 0 <= k < deps@.len() ==> (#[trigger] r@[k]).name@ == subst_percent(deps@[k].name@, stem@),
{
    let mut out: Vec<DepNode> = Vec::new();
    let mut k: usize = 0;
    while k < deps.len()
        invariant
            k <= deps@.len(),
            out@.len() == k,
            forall|q: int| 0 <= q < k ==> (#[trigger] out@[q]).name@ == subst_percent(deps@[q].name@, stem@),
        decreases deps@.len() - k,
    {
        let mut d = deps[k].clone();
        let ghost n0 = d.name@;
        assert(n0 == deps@[k as int].name@);
        match percent_index(d.name.as_slice()) {
            Some(p) => {
                let mut n: Vec<u8> = Vec::new();
                let mut i: usize = 0;
                while i < p
                    invariant
                        i <= p,
                        p < d.name@.len(),
                        n0 == d.name@,
                        n@ == n0.subrange(0, i as int),
                    decreases p - i,
                {
                    n.push(d.name[i]);
                    i += 1;
                    proof {
                        assert(n@ =~= n0.subrange(0, i as int));
                    }
                }
                push_slice(&mut n, stem);
                let len = d.name.len();
                assert(p < len);
                let mut j: usize = p + 1;
                let ghost base = n@;
                while j < d.name.len()
                    invariant
                        p + 1 <= j <= d.name@.len(),
                        n0 == d.name@,
                        n@ == base + n0.subrange(p + 1, j as int),
                    decreases d.name@.len() - j,
                {
                    n.push(d.name[j]);
                    j += 1;
                    proof {
                        assert(n@ =~= base + n0.subrange(p + 1, j as int));
                    }
                }
                d.name = n;
            },
            None => {},
        }
        out.push(d);
        k += 1;
    }
    out
}

/// Record a rule in the file table: the targets `filenames` with the
/// prerequisites `deps` and the recipe text `commands` (`two_colon` for a
/// `::` rule; `also_make` for grouped targets, which then name each other;
/// `pattern` for a static pattern rule). Targets with a `%` (and no static
/// pattern) make an implicit rule instead. Refused: grouped targets without
/// a recipe, a static pattern with implicit targets, implicit and normal
/// targets mixed, and a target with both `:` and `::` entries.
pub fn record_files(
    ctx: &mut ExecContext,
    filenames: Vec<ParsedName>,
    pattern: Option<&[u8]>,
    deps: Vec<DepNode>,
    commands: &[u8],
    two_colon: bool,
    also_make: bool,
    floc: &Floc,
) -> (r: Result<(), BuildError>)
    requires
        crate::rule::rules_wf(old(ctx).rules@),
    ensures
        also_make && commands@.len() == 0 && filenames@.len() > 0 ==> r is Err,
        ({
            &&& filenames@.len() == 1
            &&& !filenames@[0].name@.contains('%' as u8)
            &&& !(also_make && commands@.len() == 0)
        }) ==> {
            let name = filenames@[0].name@;
            &&& mixes_colons(old(ctx).files@, name, two_colon) ==> r is Err
            &&& !mixes_colons(old(ctx).files@, name, two_colon) ==> r is Ok && target_recorded(
                old(ctx).files@,
                final(ctx).files@,
                name,
                rule_dep_names(crate::rule::opt_view(pattern), name, deps@),
                if commands@.len() > 0 {
                    Some(commands@)
                } else {
                    None
                },
                two_colon,
            )
        },
{
    if filenames.len() == 0 {
        return Ok(());
    }
    let recipe: Option<Recipe> = if commands.len() > 0 {
        let defined_in = match &floc.filenm {
            Some(f) => Some(copy_bytes(f)),
            None => None,
        };
        let mut text: Vec<u8> = Vec::new();
        push_slice(&mut text, commands);
        Some(Recipe { defined_in, defined_lineno: floc.lineno, text, lines: Vec::new(), recipe_prefix: 9u8, any_recurse: false })
    } else if also_make {
        report(&mut ctx.diagnostics, floc, named_message("grouped targets must provide a recipe", &[], ""));
        return Err(BuildError::Failure);
    } else {
        None
    };
    let first_pct = percent_index(filenames[0].name.as_slice());
    if first_pct.is_some() && pattern.is_none() {
        let mut targets: Vec<Vec<u8>> = Vec::new();
        let mut percents: Vec<usize> = Vec::new();
        let mut k: usize = 0;
        while k < filenames.len()
            invariant
                k <= filenames@.len(),
                targets@.len() == percents@.len(),
                targets@.len() <= k,
                forall|i: int| 0 <= i < targets@.len() ==> #[trigger] targets@[i]@.contains('%' as u8),
                forall|i: int| 0 <= i < percents@.len() ==> #[trigger] percents@[i] < usize::MAX,
                crate::rule::rules_wf(ctx.rules@),
                filenames@[0].name@.contains('%' as u8),
            decreases filenames@.len() - k,
        {
            match percent_index(filenames[k].name.as_slice()) {
                Some(p) => {
                    let t = copy_bytes(&filenames[k].name);
                    if p == usize::MAX {
                        return Err(BuildError::Failure);
                    }
                    assert(t@[p as int] == '%' as u8);
                    assert(t@.contains('%' as u8));
                    targets.push(t);
                    percents.push(p);
                },
                None => {
                    report(&mut ctx.diagnostics, floc, named_message("mixed implicit and normal rules", &[], ""));
                    return Err(BuildError::Failure);
                },
            }
            k += 1;
        }
        let n = (targets.len() % 65536) as u16;
        create_pattern_rule(ctx, targets, percents, n, two_colon, deps, recipe, true);
        return Ok(());
    }
    if first_pct.is_some() {
        report(&mut ctx.diagnostics, floc, named_message("mixed implicit and static pattern rules", &[], ""));
        return Err(BuildError::Failure);
    }
    let base = match pattern {
        None => enter_dep_files(ctx, deps, true),
        Some(_) => deps,
    };
    let ghost f1 = ctx.files@;
    let ghost single = filenames@.len() == 1 && !(also_make && commands@.len() == 0);
    let ghost nd = rule_dep_names(crate::rule::opt_view(pattern), filenames@[0].name@, deps@);
    let nf: usize = ctx.files.len();
    proof {
        if single {
            assert(f1.len() == nf);
            assert(table_grows(old(ctx).files@, old(ctx).files@));
            lemma_grows_keeps(old(ctx).files@, f1, filenames@[0].name@, two_colon);
        }
    }
    let ghost cmds: Option<Seq<u8>> = if commands@.len() > 0 {
        Some(commands@)
    } else {
        None
    };
    let mut also_ids: Vec<FileId> = Vec::new();
    let mut idx: usize = 0;
    while idx < filenames.len()
        invariant
            idx <= filenames@.len(),
            single == (filenames@.len() == 1 && !(also_make && commands@.len() == 0)),
            nd == rule_dep_names(crate::rule::opt_view(pattern), filenames@[0].name@, deps@),
            pattern is None ==> dep_names(base@) == dep_names(deps@),
            pattern is Some ==> base@ == deps@,
            single ==> old_deps(f1, filenames@[0].name@) == old_deps(old(ctx).files@, filenames@[0].name@),
            single ==> mixes_colons(f1, filenames@[0].name@, two_colon) == mixes_colons(
                old(ctx).files@,
                filenames@[0].name@,
                two_colon,
            ),
            single && idx == 0 ==> ctx.files@ == f1,
            single && idx == 1 ==> !mixes_colons(f1, filenames@[0].name@, two_colon),
            single && idx == 1 ==> target_recorded(f1, ctx.files@, filenames@[0].name@, nd, cmds, two_colon),
            cmds == (if commands@.len() > 0 {
                Some(commands@)
            } else {
                None
            }),
            recipe is Some <==> commands@.len() > 0,
            recipe matches Some(rc) ==> rc.text@ == commands@,
            also_ids@.len() <= idx,
        decreases filenames@.len() - idx,
    {
        let name = &filenames[idx].name;
        let this: Vec<DepNode> = match pattern {
            None => {
                let mut c: Vec<DepNode> = Vec::new();
                let mut k: usize = 0;
                while k < base.len()
                    invariant
                        k <= base@.len(),
                        c@.len() == k,
                        forall|i: int| 0 <= i < k ==> (#[trigger] c@[i]).name@ == base@[i].name@,
                    decreases base@.len() - k,
                {
                    c.push(base[k].clone());
                    k += 1;
                }
                proof {
                    assert(dep_names(c@) =~= dep_names(base@));
                }
                c
            },
            Some(p) => match pattern_stem(p, name.as_slice()) {
                Some(stem) => {
                    let sub = subst_stem(&base, stem.as_slice());
                    let entered = enter_dep_files(ctx, sub, false);
                    proof {
                        assert(dep_names(sub@) =~= stem_dep_names(base@, stem@));
                    }
                    entered
                },
                None => {
                    report(&mut ctx.diagnostics, floc, named_message("target '", name.as_slice(), "' doesn't match the target pattern"));
                    let none: Vec<DepNode> = Vec::new();
                    proof {
                        assert(dep_names(none@) =~= Seq::<Seq<u8>>::empty());
                    }
                    none
                },
            },
        };
        let ghost fa = ctx.files@;
        let na: usize = ctx.files.len();
        proof {
            if single {
                assert(idx == 0);
                assert(name@ == filenames@[0].name@);
                assert(fa.len() == na);
                if pattern is None || fa == f1 {
                    assert(table_grows(f1, f1));
                }
                lemma_grows_keeps(f1, fa, name@, two_colon);
                match pattern {
                    None => {
                        assert(dep_names(this@) == nd);
                    },
                    Some(pt) => {
                        match static_stem(pt@, name@) {
                            Some(stem) => {
                                assert(dep_names(this@) =~= nd);
                            },
                            None => {
                                assert(dep_names(this@) =~= nd);
                            },
                        }
                    },
                }
            }
        }
        let id = match record_target(ctx, name.as_slice(), this, &recipe, two_colon, floc) {
            Ok(id) => id,
            Err(e) => {
                return Err(e);
            },
        };
        let ghost ca = *ctx;
        check_special_file(ctx, id, floc);
        proof {
            reveal(crate::read::only_warnings_changed);
            assert(ctx.files == ca.files);
        }
        if also_make {
            also_ids.push(id);
        }
        idx += 1;
        if idx < filenames.len() && percent_index(filenames[idx].name.as_slice()).is_some() {
            report(&mut ctx.diagnostics, floc, named_message("*** mixed implicit and normal rules: deprecated syntax", &[], ""));
        }
    }
    let ghost fz = ctx.files@;
    set_also_make(ctx, &also_ids);
    proof {
        if single {
            assert(idx == 1);
            assert(ctx.files@ == fz);
            assert(!mixes_colons(old(ctx).files@, filenames@[0].name@, two_colon));
            assert(target_recorded(f1, ctx.files@, filenames@[0].name@, nd, cmds, two_colon));
            assert(target_recorded(old(ctx).files@, ctx.files@, filenames@[0].name@, nd, cmds, two_colon));
        }
    }
    Ok(())
}

/// Give each of the grouped targets `ids` the others as its grouped peers.
fn set_also_make(ctx: &mut ExecContext, ids: &Vec<FileId>)
    ensures
        ids@.len() <= 1 ==> *final(ctx) == *old(ctx),
{
    if ids.len() <= 1 {
        return;
    }
    let mut k: usize = 0;
    while k < ids.len()
        invariant
            k <= ids@.len(),
        decreases ids@.len() - k,
    {
        let fid = ids[k];
        if fid < ctx.files.len() {
            let mut sibs: Vec<DepNode> = Vec::new();
            let mut j: usize = 0;
            while j < ids.len()
                invariant
                    j <= ids@.len(),
                decreases ids@.len() - j,
            {
                let o = ids[j];
                if o != fid && o < ctx.files.len() {
                    let name = copy_bytes(&ctx.files[o].name);
                    sibs.push(DepNode {
                        name,
                        file: Some(o),
                        flags: 0,
                        changed: false,
                        ignore_mtime: false,
                        static_pattern: false,
                        needs_second_expansion: false,
                        ignore_automatic_vars: false,
                        is_explicit: false,
                        wait_here: false,
                    });
                }
                j += 1;
            }
            ctx.files[fid].also_make = sibs;
        }
        k += 1;
    }
}

} // verus!
