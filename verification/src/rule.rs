//! The pattern (implicit) rule database: owned pattern rules, their printable
//! definitions, duplicate detection and installation, and the conversion of
//! old-style suffix rules into pattern rules.

use vstd::prelude::*;
use crate::dep::DepNode;
use crate::execctx::{Diagnostic, ExecContext, Floc, PatternStats};
use crate::file::{lookup_file, FileNode};
use vstd::string::StringSliceAdditionalSpecFns;
use crate::parser::{bytes_eq, index_of_byte, lemma_index_of_byte};
use crate::recipe::{copy_bytes, Recipe};
use crate::execctx::BuildError;
use crate::read::file_seq::{fresh_prereq, names_view, parse_file_seq, prereq_view, prereqs_from_names, prereqs_of, seq_names, FileSeqEnv, PARSEFS_NONE};
use crate::read::ParsedName;
use crate::stopchar::MAP_NUL;

verus! {

/// The default recipe-line introducer, a TAB.
pub const RECIPEPREFIX_DEFAULT: u8 = 9;

/// An owned pattern rule.
#[derive(Debug)]
pub struct Rule {
    /// Target patterns (raw bytes), one per `num`.
    pub targets: Vec<Vec<u8>>,
    /// For each target, the byte index just past its `%`.
    pub suffixes: Vec<usize>,
    /// Length of each target pattern.
    pub lens: Vec<usize>,
    /// Prerequisites of the rule.
    pub deps: Vec<DepNode>,
    /// The rule's recipe, if any.
    pub cmds: Option<Recipe>,
    /// Cached printable definition (e.g. `%.o: %.c`).
    pub defn: Option<Vec<u8>>,
    /// Number of targets.
    pub num: u16,
    pub terminal: bool,
    pub in_use: bool,
}

// ─── Printable definition ────────────────────────────────────────────────

/// `" .WAIT"` as bytes.
pub open spec fn sp_wait() -> Seq<u8> {
    seq![' ' as u8, '.' as u8, 'W' as u8, 'A' as u8, 'I' as u8, 'T' as u8]
}

/// `".WAIT "` as bytes.
pub open spec fn wait_sp() -> Seq<u8> {
    seq!['.' as u8, 'W' as u8, 'A' as u8, 'I' as u8, 'T' as u8, ' ' as u8]
}

/// The first `k` targets, separated by single spaces.
pub open spec fn targets_text(ts: Seq<Vec<u8>>, k: int) -> Seq<u8>
    decreases k,
{
    if k <= 0 {
        Seq::empty()
    } else if k == 1 {
        ts[0]@
    } else {
        targets_text(ts, k - 1) + seq![' ' as u8] + ts[k - 1]@
    }
}

/// The normal prerequisites among the first `k`, each as ` name` (with
/// ` .WAIT` before it when a `.WAIT` precedes it).
pub open spec fn normal_deps_text(deps: Seq<DepNode>, k: int) -> Seq<u8>
    decreases k,
{
    if k <= 0 {
        Seq::empty()
    } else {
        let d = deps[k - 1];
        normal_deps_text(deps, k - 1) + if d.ignore_mtime {
            Seq::empty()
        } else {
            (if d.wait_here {
                sp_wait()
            } else {
                Seq::empty()
            }) + seq![' ' as u8] + d.name@
        }
    }
}

/// Whether an order-only prerequisite lies among the first `k`.
pub open spec fn any_order_only(deps: Seq<DepNode>, k: int) -> bool
    decreases k,
{
    if k <= 0 {
        false
    } else {
        any_order_only(deps, k - 1) || deps[k - 1].ignore_mtime
    }
}

/// The order-only prerequisites among the first `k`: the first after ` | `,
/// the others after a space, each with `.WAIT ` before it when a `.WAIT`
/// precedes it.
pub open spec fn order_only_text(deps: Seq<DepNode>, k: int) -> Seq<u8>
    decreases k,
{
    if k <= 0 {
        Seq::empty()
    } else {
        let d = deps[k - 1];
        order_only_text(deps, k - 1) + if d.ignore_mtime {
            (if any_order_only(deps, k - 1) {
                seq![' ' as u8]
            } else {
                seq![' ' as u8, '|' as u8, ' ' as u8]
            }) + (if d.wait_here {
                wait_sp()
            } else {
                Seq::empty()
            }) + d.name@
        } else {
            Seq::empty()
        }
    }
}

/// The printable definition of a rule: its targets, `:` (`::` when
/// terminal), the normal prerequisites, then the order-only ones after `|`.
pub open spec fn defn_text(r: Rule) -> Seq<u8> {
    targets_text(r.targets@, r.num as int) + seq![':' as u8] + (if r.terminal {
        seq![':' as u8]
    } else {
        Seq::empty()
    }) + normal_deps_text(r.deps@, r.deps@.len() as int) + order_only_text(
        r.deps@,
        r.deps@.len() as int,
    )
}

/// The rule can be read: it has at least `num` targets.
pub open spec fn rule_wf(r: Rule) -> bool {
    r.num <= r.targets@.len()
}

/// Append `s` to `out`.
pub fn push_slice(out: &mut Vec<u8>, s: &[u8])
    ensures
        final(out)@ == old(out)@ + s@,
{
    let mut k: usize = 0;
    while k < s.len()
        invariant
            k <= s@.len(),
            out@ == old(out)@ + s@.subrange(0, k as int),
        decreases s@.len() - k,
    {
        out.push(s[k]);
        k += 1;
        assert(out@ =~= old(out)@ + s@.subrange(0, k as int));
    }
    assert(s@.subrange(0, s@.len() as int) =~= s@);
}

fn push_wait_bytes(out: &mut Vec<u8>)
    ensures
        final(out)@ == old(out)@ + seq!['.' as u8, 'W' as u8, 'A' as u8, 'I' as u8, 'T' as u8],
{
    out.push('.' as u8);
    out.push('W' as u8);
    out.push('A' as u8);
    out.push('I' as u8);
    out.push('T' as u8);
    assert(out@ =~= old(out)@ + seq!['.' as u8, 'W' as u8, 'A' as u8, 'I' as u8, 'T' as u8]);
}

/// Compute the printable definition of `r` (ignoring the cache).
fn build_defn(r: &Rule) -> (out: Vec<u8>)
    requires
        rule_wf(*r),
    ensures
        out@ == defn_text(*r),
{
    let mut buf: Vec<u8> = Vec::new();
    let n = r.num as usize;
    let mut k: usize = 0;
    while k < n
        invariant
            n == r.num,
            n <= r.targets@.len(),
            k <= n,
            buf@ == targets_text(r.targets@, k as int),
        decreases n - k,
    {
        let ghost before = buf@;
        if k > 0 {
            buf.push(' ' as u8);
        }
        push_slice(&mut buf, r.targets[k].as_slice());
        k += 1;
        assert(buf@ =~= targets_text(r.targets@, k as int)) by {
            if k > 1 {
                assert(buf@ =~= before + seq![' ' as u8] + r.targets@[k - 1]@);
            } else {
                assert(buf@ =~= r.targets@[0]@);
            }
        }
    }
    buf.push(':' as u8);
    if r.terminal {
        buf.push(':' as u8);
    }
    let ghost head = buf@;
    assert(head =~= targets_text(r.targets@, r.num as int) + seq![':' as u8] + (if r.terminal {
        seq![':' as u8]
    } else {
        Seq::empty()
    }));
    let mut k: usize = 0;
    while k < r.deps.len()
        invariant
            k <= r.deps@.len(),
            buf@ == head + normal_deps_text(r.deps@, k as int),
        decreases r.deps@.len() - k,
    {
        let ghost before = buf@;
        let d = &r.deps[k];
        if !d.ignore_mtime {
            if d.wait_here {
                buf.push(' ' as u8);
                push_wait_bytes(&mut buf);
            }
            buf.push(' ' as u8);
            push_slice(&mut buf, d.name.as_slice());
        }
        k += 1;
        assert(buf@ =~= head + normal_deps_text(r.deps@, k as int)) by {
            assert(sp_wait() =~= seq![' ' as u8] + seq!['.' as u8, 'W' as u8, 'A' as u8, 'I' as u8, 'T' as u8]);
        }
    }
    let ghost mid = buf@;
    let mut seen = false;
    let mut k: usize = 0;
    while k < r.deps.len()
        invariant
            k <= r.deps@.len(),
            seen == any_order_only(r.deps@, k as int),
            buf@ == mid + order_only_text(r.deps@, k as int),
        decreases r.deps@.len() - k,
    {
        let d = &r.deps[k];
        if d.ignore_mtime {
            if seen {
                buf.push(' ' as u8);
            } else {
                buf.push(' ' as u8);
                buf.push('|' as u8);
                buf.push(' ' as u8);
            }
            if d.wait_here {
                push_wait_bytes(&mut buf);
                buf.push(' ' as u8);
            }
            push_slice(&mut buf, d.name.as_slice());
            seen = true;
        }
        k += 1;
        assert(buf@ =~= mid + order_only_text(r.deps@, k as int));
    }
    buf
}

impl Rule {
    /// A rule with no targets, no prerequisites and no recipe.
    pub fn new() -> (r: Rule)
        ensures
            r.targets@.len() == 0,
            r.suffixes@.len() == 0,
            r.lens@.len() == 0,
            r.deps@.len() == 0,
            r.cmds is None,
            r.defn is None,
            r.num == 0,
            !r.terminal,
            !r.in_use,
    {
        Rule {
            targets: Vec::new(),
            suffixes: Vec::new(),
            lens: Vec::new(),
            deps: Vec::new(),
            cmds: None,
            defn: None,
            num: 0,
            terminal: false,
            in_use: false,
        }
    }

    /// The name a prerequisite goes by inside a rule's printed definition.
    pub fn dep_name(d: &DepNode) -> (r: &[u8])
        ensures
            r@ == d.name@,
    {
        d.name.as_slice()
    }

    /// The printable definition of this rule, e.g. `%.o: %.c`, computed on
    /// the first call and cached in `defn`.
    pub fn rule_defn(&mut self) -> (r: &[u8])
        requires
            old(self).defn is None ==> rule_wf(*old(self)),
        ensures
            old(self).defn matches Some(d) ==> r@ == d@,
            old(self).defn is None ==> r@ == defn_text(*old(self)),
            final(self).defn matches Some(d) && d@ == r@,
            *final(self) == (Rule { defn: final(self).defn, ..*old(self) }),
    {
        if self.defn.is_none() {
            let buf = build_defn(self);
            self.defn = Some(buf);
        }
        match &self.defn {
            Some(d) => d.as_slice(),
            None => &[],
        }
    }
}

// ─── Small helpers ───────────────────────────────────────────────────────

/// Byte-for-byte equality of two names.
pub fn streq(a: &[u8], b: &[u8]) -> (r: bool)
    ensures
        r == (a@ == b@),
{
    bytes_eq(a, b)
}

/// `s` with a `%` in front (`.c` becomes `%.c`).
pub fn percent_prefixed(s: &[u8]) -> (r: Vec<u8>)
    ensures
        r@ == seq!['%' as u8] + s@,
{
    let mut buf: Vec<u8> = Vec::new();
    buf.push('%' as u8);
    push_slice(&mut buf, s);
    buf
}

/// `(%.o)`, the archive-member target pattern.
pub open spec fn archive_member_pattern() -> Seq<u8> {
    seq!['(' as u8, '%' as u8, '.' as u8, 'o' as u8, ')' as u8]
}

/// The pattern target and `%` index of a suffix rule: `(%.o)` (with `%` at 1)
/// when the target suffix is absent, else the `%`-prefixed suffix (with `%`
/// at 0).
pub fn suffix_rule_target(target: Option<&[u8]>) -> (r: (Vec<u8>, usize))
    ensures
        target is None ==> r.0@ == archive_member_pattern() && r.1 == 1,
        target matches Some(t) ==> r.0@ == seq!['%' as u8] + t@ && r.1 == 0,
{
    match target {
        None => {
            let mut v: Vec<u8> = Vec::new();
            v.push('(' as u8);
            v.push('%' as u8);
            v.push('.' as u8);
            v.push('o' as u8);
            v.push(')' as u8);
            assert(v@ =~= archive_member_pattern());
            (v, 1)
        },
        Some(t) => (percent_prefixed(t), 0),
    }
}

/// A prerequisite carrying just a name, every flag clear.
pub open spec fn is_plain_dep(d: DepNode, name: Seq<u8>) -> bool {
    &&& d.name@ == name
    &&& d.file is None
    &&& d.flags == 0
    &&& !d.changed
    &&& !d.ignore_mtime
    &&& !d.static_pattern
    &&& !d.needs_second_expansion
    &&& !d.ignore_automatic_vars
    &&& !d.is_explicit
    &&& !d.wait_here
}

/// A fresh prerequisite carrying just `name`.
pub fn dep_with_name(name: Vec<u8>) -> (r: DepNode)
    ensures
        is_plain_dep(r, name@),
{
    DepNode {
        name,
        file: None,
        flags: 0,
        changed: false,
        ignore_mtime: false,
        static_pattern: false,
        needs_second_expansion: false,
        ignore_automatic_vars: false,
        is_explicit: false,
        wait_here: false,
    }
}

/// The prerequisites of a suffix rule: none when the source suffix is
/// absent, else the one `%`-prefixed source.
pub fn suffix_rule_source_deps(source: Option<&[u8]>) -> (r: Vec<DepNode>)
    ensures
        source is None ==> r@.len() == 0,
        source matches Some(s) ==> r@.len() == 1 && is_plain_dep(r@[0], seq!['%' as u8] + s@),
{
    match source {
        None => Vec::new(),
        Some(s) => {
            let mut v: Vec<DepNode> = Vec::new();
            v.push(dep_with_name(percent_prefixed(s)));
            v
        },
    }
}

/// The index of the `%` in a pattern target.
pub fn percent_index(target: &[u8]) -> (r: usize)
    requires
        target@.contains('%' as u8),
    ensures
        r == index_of_byte(target@, '%' as u8, 0),
        r < target@.len(),
        target@[r as int] == '%' as u8,
        forall|k: int| 0 <= k < r ==> target@[k] != '%' as u8,
{
    proof {
        lemma_index_of_byte(target@, '%' as u8, 0);
        let w = choose|w: int| 0 <= w < target@.len() && target@[w] == '%' as u8;
        assert(index_of_byte(target@, '%' as u8, 0) <= w);
    }
    let mut p: usize = 0;
    while p < target.len() && target[p] != '%' as u8
        invariant
            p <= target@.len(),
            index_of_byte(target@, '%' as u8, p as int) == index_of_byte(target@, '%' as u8, 0),
        decreases target@.len() - p,
    {
        p += 1;
    }
    p
}

// ─── Duplicate detection ─────────────────────────────────────────────────

/// Every target of `rr` is `t`.
pub open spec fn all_targets_are(rr: Rule, t: Seq<u8>) -> bool {
    forall|j: int| 0 <= j < rr.num ==> #[trigger] rr.targets@[j]@ == t
}

/// Two prerequisite lists name the same prerequisites in the same order.
pub open spec fn same_dep_names(a: Seq<DepNode>, b: Seq<DepNode>) -> bool {
    &&& a.len() == b.len()
    &&& forall|k: int| 0 <= k < a.len() ==> #[trigger] a[k].name@ == b[k].name@
}

/// `rule` duplicates the installed `rr`: for one of `rule`'s targets, every
/// target of `rr` is that target, and the prerequisite names agree.
pub open spec fn duplicates(rule: Rule, rr: Rule) -> bool {
    &&& exists|i: int| 0 <= i < rule.num && #[trigger] all_targets_are(rr, rule.targets@[i]@)
    &&& same_dep_names(rule.deps@, rr.deps@)
}

/// The first installed rule at or after `idx` that `rule` duplicates.
pub open spec fn first_dup_from(rules: Seq<Rule>, rule: Rule, idx: int) -> Option<int>
    decreases rules.len() - idx,
{
    if idx < 0 || idx >= rules.len() {
        None
    } else if duplicates(rule, rules[idx]) {
        Some(idx)
    } else {
        first_dup_from(rules, rule, idx + 1)
    }
}

/// The first installed rule that `rule` duplicates.
pub open spec fn first_dup(rules: Seq<Rule>, rule: Rule) -> Option<int> {
    first_dup_from(rules, rule, 0)
}

pub proof fn lemma_first_dup_from(rules: Seq<Rule>, rule: Rule, idx: int)
    requires
        0 <= idx <= rules.len(),
    ensures
        first_dup_from(rules, rule, idx) matches Some(k) ==> idx <= k < rules.len() && duplicates(
            rule,
            rules[k],
        ),
        first_dup_from(rules, rule, idx) is None ==> forall|k: int|
            idx <= k < rules.len() ==> !duplicates(rule, #[trigger] rules[k]),
    decreases rules.len() - idx,
{
    if idx < rules.len() && !duplicates(rule, rules[idx]) {
        lemma_first_dup_from(rules, rule, idx + 1);
    }
}

/// Every installed rule can be read.
pub open spec fn rules_wf(rules: Seq<Rule>) -> bool {
    forall|k: int| 0 <= k < rules.len() ==> #[trigger] rule_wf(rules[k])
}

fn all_targets_match(rr: &Rule, t: &[u8]) -> (r: bool)
    requires
        rule_wf(*rr),
    ensures
        r == all_targets_are(*rr, t@),
{
    let n = rr.num as usize;
    let mut j: usize = 0;
    while j < n
        invariant
            n == rr.num,
            n <= rr.targets@.len(),
            j <= n,
            forall|jj: int| 0 <= jj < j ==> #[trigger] rr.targets@[jj]@ == t@,
        decreases n - j,
    {
        if !streq(t, rr.targets[j].as_slice()) {
            return false;
        }
        j += 1;
    }
    true
}

fn dep_names_match(a: &Vec<DepNode>, b: &Vec<DepNode>) -> (r: bool)
    ensures
        r == same_dep_names(a@, b@),
{
    if a.len() != b.len() {
        return false;
    }
    let mut k: usize = 0;
    while k < a.len()
        invariant
            a@.len() == b@.len(),
            k <= a@.len(),
            forall|kk: int| 0 <= kk < k ==> #[trigger] a@[kk].name@ == b@[kk].name@,
        decreases a@.len() - k,
    {
        if !streq(Rule::dep_name(&a[k]), Rule::dep_name(&b[k])) {
            return false;
        }
        k += 1;
    }
    true
}

fn is_duplicate(rule: &Rule, rr: &Rule) -> (r: bool)
    requires
        rule_wf(*rule),
        rule_wf(*rr),
    ensures
        r == duplicates(*rule, *rr),
{
    let n = rule.num as usize;
    let mut i: usize = 0;
    while i < n
        invariant
            n == rule.num,
            n <= rule.targets@.len(),
            i <= n,
            rule_wf(*rr),
            forall|ii: int|
                0 <= ii < i ==> !#[trigger] all_targets_are(*rr, rule.targets@[ii]@)
                    || !same_dep_names(rule.deps@, rr.deps@),
        decreases n - i,
    {
        if all_targets_match(rr, rule.targets[i].as_slice()) {
            if dep_names_match(&rule.deps, &rr.deps) {
                assert(all_targets_are(*rr, rule.targets@[i as int]@));
                return true;
            }
        }
        i += 1;
    }
    false
}

/// The index of the first installed rule that `rule` duplicates.
fn find_duplicate(rules: &Vec<Rule>, rule: &Rule) -> (r: Option<usize>)
    requires
        rules_wf(rules@),
        rule_wf(*rule),
    ensures
        r matches Some(k) ==> first_dup(rules@, *rule) == Some(k as int),
        r is None ==> first_dup(rules@, *rule) is None,
{
    let mut idx: usize = 0;
    while idx < rules.len()
        invariant
            idx <= rules@.len(),
            rules_wf(rules@),
            rule_wf(*rule),
            first_dup_from(rules@, *rule, idx as int) == first_dup(rules@, *rule),
        decreases rules@.len() - idx,
    {
        assert(rule_wf(rules@[idx as int]));
        if is_duplicate(rule, &rules[idx]) {
            return Some(idx);
        }
        idx += 1;
    }
    None
}

// ─── The database ────────────────────────────────────────────────────────

/// The rules after installing `rule`: a duplicate is replaced (the new rule
/// goes last) when `override_0` is set and the rule is discarded otherwise;
/// a rule with no duplicate is appended. The flag says whether it went in.
pub open spec fn install_effect(rules: Seq<Rule>, rule: Rule, override_0: bool) -> (Seq<Rule>, bool) {
    match first_dup(rules, rule) {
        Some(k) => if override_0 {
            (rules.remove(k).push(rule), true)
        } else {
            (rules, false)
        },
        None => (rules.push(rule), true),
    }
}

/// Run `f` on the pattern-rule database.
pub fn with_pattern_rules<R, F: FnOnce(&[Rule]) -> R>(ctx: &ExecContext, f: F) -> (r: R)
    requires
        forall|s: &[Rule]| s@ == ctx.rules@ ==> f.requires((s,)),
    ensures
        exists|s: &[Rule]| s@ == ctx.rules@ && f.ensures((s,), r),
{
    let s = ctx.rules.as_slice();
    let r = f(s);
    r
}

/// Run `f` on the pattern-rule database, which it may change.
pub fn with_pattern_rules_mut<R, F: FnOnce(&mut Vec<Rule>) -> R>(ctx: &mut ExecContext, f: F) -> (r: R)
    requires
        forall|v: &mut Vec<Rule>| *v == old(ctx).rules ==> f.requires((v,)),
    ensures
        exists|v: &mut Vec<Rule>|
            *v == old(ctx).rules && *final(v) == final(ctx).rules && f.ensures((v,), r),
        *final(ctx) == (ExecContext { rules: final(ctx).rules, ..*old(ctx) }),
{
    let r = f(&mut ctx.rules);
    r
}

/// The number of pattern rules currently installed.
pub fn num_rules(ctx: &ExecContext) -> (r: usize)
    ensures
        r == ctx.rules@.len(),
{
    ctx.rules.len()
}

/// Install `rule` (with its `in_use` and `terminal` flags cleared) into the
/// database, replacing the first rule it duplicates when `override_0` is set.
/// Returns `true` if the rule was installed, `false` if it was discarded as a
/// non-overriding duplicate.
pub fn new_pattern_rule(ctx: &mut ExecContext, rule: Rule, override_0: bool) -> (r: bool)
    requires
        rules_wf(old(ctx).rules@),
        rule_wf(rule),
    ensures
        (final(ctx).rules@, r) == install_effect(
            old(ctx).rules@,
            Rule { in_use: false, terminal: false, ..rule },
            override_0,
        ),
        rules_wf(final(ctx).rules@),
        *final(ctx) == (ExecContext { rules: final(ctx).rules, ..*old(ctx) }),
{
    let mut rule = rule;
    rule.in_use = false;
    rule.terminal = false;
    let dup = find_duplicate(&ctx.rules, &rule);
    proof {
        lemma_first_dup_from(ctx.rules@, rule, 0);
    }
    match dup {
        Some(idx) => {
            if override_0 {
                ctx.rules.remove(idx);
                ctx.rules.push(rule);
                proof {
                    assert forall|k: int| 0 <= k < ctx.rules@.len() implies #[trigger] rule_wf(
                        ctx.rules@[k],
                    ) by {
                        if k < idx {
                            assert(ctx.rules@[k] == old(ctx).rules@[k]);
                        } else if k < ctx.rules@.len() - 1 {
                            assert(ctx.rules@[k] == old(ctx).rules@[k + 1]);
                        }
                    }
                }
                true
            } else {
                false
            }
        },
        None => {
            ctx.rules.push(rule);
            proof {
                assert forall|k: int| 0 <= k < ctx.rules@.len() implies #[trigger] rule_wf(
                    ctx.rules@[k],
                ) by {
                    if k < old(ctx).rules@.len() {
                        assert(ctx.rules@[k] == old(ctx).rules@[k]);
                    }
                }
            }
            true
        },
    }
}

/// Some installed rule has every target equal to `t` and the prerequisite
/// names of `deps`.
pub open spec fn has_dup_of(rules: Seq<Rule>, t: Seq<u8>, deps: Seq<DepNode>) -> bool {
    exists|k: int|
        0 <= k < rules.len() && #[trigger] all_targets_are(rules[k], t) && same_dep_names(
            deps,
            rules[k].deps@,
        )
}

/// The recipe of a built-in pattern rule: just its text.
pub open spec fn is_builtin_recipe(c: Recipe, text: Seq<u8>) -> bool {
    &&& c.defined_in is None
    &&& c.defined_lineno == 0
    &&& c.text@ == text
    &&& c.lines@.len() == 0
    &&& c.recipe_prefix == RECIPEPREFIX_DEFAULT
    &&& !c.any_recurse
}

// ─── Snapping the database ───────────────────────────────────────────────

/// Whether a directory exists and holds a file, as the file system says.
pub trait DirCheck {
    /// Whether directory `dir` exists and holds `file` (the empty name: the
    /// directory itself).
    fn dir_file_exists(&mut self, dir: &[u8], file: &[u8]) -> Result<bool, BuildError>;
}

/// One more, wrapping to zero past the largest `u32`.
pub open spec fn wrap_inc(x: u32) -> u32 {
    if x == u32::MAX {
        0
    } else {
        (x + 1) as u32
    }
}

/// A count of `n`, wrapping past the largest `u32`.
pub open spec fn wrap_count(n: nat) -> u32
    decreases n,
{
    if n == 0 {
        0
    } else {
        wrap_inc(wrap_count((n - 1) as nat))
    }
}

/// The larger of a figure and the first `j` prerequisite-name lengths.
pub open spec fn dep_len_max(deps: Seq<DepNode>, j: int, m: usize) -> usize
    decreases j,
{
    if j <= 0 {
        m
    } else {
        let m2 = dep_len_max(deps, j - 1, m);
        if deps[j - 1].name@.len() > m2 {
            deps[j - 1].name@.len() as usize
        } else {
            m2
        }
    }
}

/// The figures of the first `k` rules.
pub open spec fn stats_of(rules: Seq<Rule>, k: int) -> PatternStats
    decreases k,
{
    if k <= 0 {
        PatternStats { num_rules: 0, max_targets: 0, max_deps: 0, max_dep_length: 0 }
    } else {
        let p = stats_of(rules, k - 1);
        let r = rules[k - 1];
        let nd = wrap_count(r.deps@.len());
        PatternStats {
            num_rules: wrap_inc(p.num_rules),
            max_targets: if r.num as u32 > p.max_targets {
                r.num as u32
            } else {
                p.max_targets
            },
            max_deps: if nd > p.max_deps {
                nd
            } else {
                p.max_deps
            },
            max_dep_length: dep_len_max(r.deps@, r.deps@.len() as int, p.max_dep_length),
        }
    }
}

/// The index of the last `/` among the first `k` bytes of `name`, or -1.
pub open spec fn last_slash(name: Seq<u8>, k: int) -> int
    decreases k,
{
    if k <= 0 || k > name.len() {
        -1
    } else if name[k - 1] == '/' as u8 {
        k - 1
    } else {
        last_slash(name, k - 1)
    }
}

/// The prerequisite name has a `%` at or after its last `/`: whether its
/// directory exists is asked.
pub open spec fn pct_after_slash(name: Seq<u8>) -> bool {
    let s = last_slash(name, name.len() as int);
    s >= 0 && name.subrange(s, name.len() as int).contains('%' as u8)
}

/// The directory asked about: the name before its last `/` (`/` itself for
/// a name in the root).
pub open spec fn dep_dir(name: Seq<u8>) -> Seq<u8> {
    let s = last_slash(name, name.len() as int);
    name.subrange(0, if s == 0 { 1 } else { s })
}

/// `new` is `old` but for the `changed` mark of its prerequisites; a
/// prerequisite whose directory is not asked about is not changed.
pub open spec fn deps_marked(old: Seq<DepNode>, new: Seq<DepNode>) -> bool {
    &&& new.len() == old.len()
    &&& forall|j: int| 0 <= j < old.len() ==> #[trigger] new[j] == (DepNode { changed: new[j].changed, ..old[j] })
    &&& forall|j: int| 0 <= j < old.len() && !pct_after_slash(old[j].name@) ==> !(#[trigger] new[j]).changed
}

/// No prerequisite of any rule has its directory asked about.
pub open spec fn no_dir_checks(rules: Seq<Rule>) -> bool {
    forall|k: int, j: int|
        0 <= k < rules.len() && 0 <= j < rules[k].deps@.len() ==> !pct_after_slash(#[trigger] rules[k].deps@[j].name@)
}

/// One more, wrapping past the largest `u32`.
fn inc_wrapping(x: u32) -> (r: u32)
    ensures
        r == wrap_inc(x),
{
    x.wrapping_add(1)
}

/// The index of the last `/` in `name`, if any.
fn find_last_slash(name: &[u8]) -> (r: Option<usize>)
    ensures
        match r {
            Some(s) => s == last_slash(name@, name@.len() as int) && s < name@.len(),
            None => last_slash(name@, name@.len() as int) == -1,
        },
{
    let mut k = name.len();
    while k > 0
        invariant
            k <= name@.len(),
            last_slash(name@, name@.len() as int) == last_slash(name@, k as int),
        decreases k,
    {
        if name[k - 1] == '/' as u8 {
            return Some(k - 1);
        }
        k -= 1;
    }
    None
}

/// Whether `s` holds a `%` from `from` on.
fn has_percent_from(s: &[u8], from: usize) -> (r: bool)
    requires
        from <= s@.len(),
    ensures
        r == s@.subrange(from as int, s@.len() as int).contains('%' as u8),
{
    let mut k = from;
    while k < s.len()
        invariant
            from <= k <= s@.len(),
            forall|i: int| from <= i < k ==> s@[i] != '%' as u8,
        decreases s@.len() - k,
    {
        if s[k] == '%' as u8 {
            assert(s@.subrange(from as int, s@.len() as int)[k - from] == '%' as u8);
            return true;
        }
        k += 1;
    }
    assert forall|i: int| 0 <= i < s@.subrange(from as int, s@.len() as int).len() implies s@.subrange(
        from as int,
        s@.len() as int,
    )[i] != '%' as u8 by {
        assert(s@.subrange(from as int, s@.len() as int)[i] == s@[from + i]);
    }
    false
}

/// Mark the prerequisites `deps` of one rule: one whose name has a `%` at
/// or after its last `/` is changed when its directory does not exist; the
/// others are not.
fn mark_rule_deps<D: DirCheck>(deps: &mut Vec<DepNode>, dirs: &mut D) -> (r: Result<(), BuildError>)
    ensures
        (forall|j: int| 0 <= j < old(deps)@.len() ==> !pct_after_slash(#[trigger] old(deps)@[j].name@)) ==> r is Ok,
        deps_marked(old(deps)@, final(deps)@) || r is Err,
        final(deps)@.len() == old(deps)@.len(),
        forall|j: int| 0 <= j < old(deps)@.len() ==> #[trigger] final(deps)@[j] == (DepNode { changed: final(deps)@[j].changed, ..old(deps)@[j] }),
{
    let ghost d0 = deps@;
    let mut j: usize = 0;
    while j < deps.len()
        invariant
            d0 == old(deps)@,
            j <= deps@.len(),
            deps@.len() == d0.len(),
            forall|i: int| 0 <= i < d0.len() ==> #[trigger] deps@[i] == (DepNode { changed: deps@[i].changed, ..d0[i] }),
            forall|i: int| 0 <= i < j && !pct_after_slash(d0[i].name@) ==> !(#[trigger] deps@[i]).changed,
        decreases deps@.len() - j,
    {
        let changed = match find_last_slash(deps[j].name.as_slice()) {
            Some(s) => {
                if has_percent_from(deps[j].name.as_slice(), s) {
                    let p = if s == 0 { 1 } else { s };
                    let dir = vstd::slice::slice_subrange(deps[j].name.as_slice(), 0, p);
                    match dirs.dir_file_exists(dir, "".as_bytes()) {
                        Ok(e) => !e,
                        Err(e) => {
                            return Err(e);
                        },
                    }
                } else {
                    false
                }
            },
            None => false,
        };
        deps[j].changed = changed;
        j += 1;
    }
    Ok(())
}

/// Snap the pattern-rule database once the makefiles are read: take its
/// figures ([`stats_of`]) and mark each prerequisite whose directory part
/// holds a `%` and does not exist as changed (see [`deps_marked`]). A
/// refused directory lookup stops the walk.
pub fn snap_implicit_rules<D: DirCheck>(ctx: &mut ExecContext, dirs: &mut D) -> (r: Result<(), BuildError>)
    ensures
        final(ctx).rules@.len() == old(ctx).rules@.len(),
        forall|k: int| 0 <= k < old(ctx).rules@.len() ==> #[trigger] final(ctx).rules@[k] == (Rule {
            deps: final(ctx).rules@[k].deps,
            ..old(ctx).rules@[k]
        }),
        r is Ok ==> forall|k: int| 0 <= k < old(ctx).rules@.len() ==> deps_marked(
            old(ctx).rules@[k].deps@,
            #[trigger] final(ctx).rules@[k].deps@,
        ),
        r is Ok ==> final(ctx).pattern_stats == stats_of(old(ctx).rules@, old(ctx).rules@.len() as int),
        no_dir_checks(old(ctx).rules@) ==> r is Ok,
        *final(ctx) == (ExecContext { rules: final(ctx).rules, pattern_stats: final(ctx).pattern_stats, ..*old(ctx) }),
{
    let ghost r0 = ctx.rules@;
    ctx.pattern_stats = PatternStats { num_rules: 0, max_targets: 0, max_deps: 0, max_dep_length: 0 };
    let mut k: usize = 0;
    while k < ctx.rules.len()
        invariant
            r0 == old(ctx).rules@,
            *ctx == (ExecContext { rules: ctx.rules, pattern_stats: ctx.pattern_stats, ..*old(ctx) }),
            k <= ctx.rules@.len(),
            ctx.rules@.len() == r0.len(),
            forall|i: int| 0 <= i < r0.len() ==> #[trigger] ctx.rules@[i] == (Rule { deps: ctx.rules@[i].deps, ..r0[i] }),
            forall|i: int| 0 <= i < k ==> deps_marked(r0[i].deps@, #[trigger] ctx.rules@[i].deps@),
            forall|i: int| k <= i < r0.len() ==> #[trigger] ctx.rules@[i].deps == r0[i].deps,
            ctx.pattern_stats == stats_of(r0, k as int),
        decreases r0.len() - k,
    {
        let ghost before = ctx.rules@;
        let mut st = ctx.pattern_stats;
        st.num_rules = inc_wrapping(st.num_rules);
        let num = ctx.rules[k].num as u32;
        if num > st.max_targets {
            st.max_targets = num;
        }
        let mut ndeps: u32 = 0;
        let mut j: usize = 0;
        let nd = ctx.rules[k].deps.len();
        let ghost prev = stats_of(r0, k as int);
        while j < nd
            invariant
                prev == stats_of(r0, k as int),
                st.num_rules == wrap_inc(prev.num_rules),
                st.max_targets == (if r0[k as int].num as u32 > prev.max_targets {
                    r0[k as int].num as u32
                } else {
                    prev.max_targets
                }),
                st.max_deps == prev.max_deps,
                ctx.rules@[k as int].deps == r0[k as int].deps,
                k < ctx.rules@.len(),
                nd == ctx.rules@[k as int].deps@.len(),
                j <= nd,
                ndeps == wrap_count(j as nat),
                st.max_dep_length == dep_len_max(ctx.rules@[k as int].deps@, j as int, stats_of(r0, k as int).max_dep_length),
            decreases nd - j,
        {
            ndeps = inc_wrapping(ndeps);
            let len = ctx.rules[k].deps[j].name.len();
            if len > st.max_dep_length {
                st.max_dep_length = len;
            }
            j += 1;
        }
        if ndeps > st.max_deps {
            st.max_deps = ndeps;
        }
        let mut deps: Vec<DepNode> = Vec::new();
        std::mem::swap(&mut deps, &mut ctx.rules[k].deps);
        let res = mark_rule_deps(&mut deps, dirs);
        std::mem::swap(&mut deps, &mut ctx.rules[k].deps);
        proof {
            assert(ctx.rules@[k as int] == (Rule { deps: ctx.rules@[k as int].deps, ..r0[k as int] }));
        }
        match res {
            Ok(()) => {},
            Err(e) => {
                return Err(e);
            },
        }
        ctx.pattern_stats = st;
        k += 1;
    }
    Ok(())
}

/// `s` as a C string: as it is when it ends in a NUL, else with one added.
pub open spec fn c_buffer(s: Seq<u8>) -> Seq<u8> {
    if s.len() > 0 && s.last() == 0 {
        s
    } else {
        s.push(0)
    }
}

/// Parse the prerequisite string `dep` of a built-in rule into
/// prerequisites, `.WAIT` markers noted (see [`parse_file_seq`]); nothing
/// for an empty string.
pub fn parse_dep_names<E: FileSeqEnv>(dep: &[u8], env: &mut E) -> (r: Result<Vec<DepNode>, BuildError>)
    ensures
        dep@.len() == 0 ==> (r matches Ok(v) && v@.len() == 0),
        dep@.len() > 0 ==> (seq_names(c_buffer(dep@), None, false, MAP_NUL, PARSEFS_NONE, Seq::empty()) matches Some(res)
            ==> r matches Ok(v) && v@.map_values(|d: DepNode| prereq_view(d)) == prereqs_of(res.0, Seq::empty())),
        r matches Ok(v) ==> forall|i: int| 0 <= i < v@.len() ==> fresh_prereq(#[trigger] v@[i]) && !v@[i].ignore_mtime,
{
    if dep.len() == 0 {
        return Ok(Vec::new());
    }
    let mut buf: Vec<u8> = Vec::new();
    push_slice(&mut buf, dep);
    if buf[buf.len() - 1] != 0 {
        buf.push(0);
    }
    proof {
        assert(buf@[buf@.len() - 1] == 0);
        assert(buf@ =~= c_buffer(dep@));
    }
    let names = match parse_file_seq(buf.as_slice(), MAP_NUL, None, PARSEFS_NONE, env) {
        Ok((names, _)) => names,
        Err(e) => {
            return Err(e);
        },
    };
    let empty: Vec<ParsedName> = Vec::new();
    proof {
        assert(names_view(empty@) =~= Seq::<(Seq<u8>, bool)>::empty());
    }
    let deps = prereqs_from_names(names, empty);
    proof {
        assert forall|i: int| 0 <= i < deps@.len() implies !deps@[i].ignore_mtime by {
            assert(deps@.map_values(|d: DepNode| prereq_view(d))[i] == prereq_view(deps@[i]));
        }
    }
    Ok(deps)
}

/// The prerequisite names a built-in rule's prerequisite text `dep` parses
/// into, when none of them needs the file system.
pub open spec fn builtin_dep_names(dep: Seq<u8>) -> Option<Seq<Seq<u8>>> {
    if dep.len() == 0 {
        Some(Seq::empty())
    } else {
        match seq_names(c_buffer(dep), None, false, MAP_NUL, PARSEFS_NONE, Seq::empty()) {
            Some(res) => Some(res.0.map_values(|n: (Seq<u8>, bool)| n.0)),
            None => None,
        }
    }
}

/// Some rule of `rules` has only the target `t` and the prerequisite
/// names `names`.
pub open spec fn has_dup_named(rules: Seq<Rule>, t: Seq<u8>, names: Seq<Seq<u8>>) -> bool {
    exists|k: int|
        0 <= k < rules.len() && #[trigger] all_targets_are(rules[k], t) && rules[k].deps@.len() == names.len() && forall|m: int|
            0 <= m < names.len() ==> #[trigger] rules[k].deps@[m].name@ == names[m]
}

proof fn lemma_dup_named(rules: Seq<Rule>, t: Seq<u8>, deps: Seq<DepNode>)
    ensures
        has_dup_of(rules, t, deps) == has_dup_named(rules, t, crate::read::record::dep_names(deps)),
{
    let names = crate::read::record::dep_names(deps);
    if has_dup_of(rules, t, deps) {
        let k = choose|k: int| 0 <= k < rules.len() && #[trigger] all_targets_are(rules[k], t) && same_dep_names(deps, rules[k].deps@);
        assert forall|m: int| 0 <= m < names.len() implies #[trigger] rules[k].deps@[m].name@ == names[m] by {
            assert(deps[m].name@ == rules[k].deps@[m].name@);
        }
    }
    if has_dup_named(rules, t, names) {
        let k = choose|k: int|
            0 <= k < rules.len() && #[trigger] all_targets_are(rules[k], t) && rules[k].deps@.len() == names.len() && forall|m: int|
                0 <= m < names.len() ==> #[trigger] rules[k].deps@[m].name@ == names[m];
        assert forall|m: int| 0 <= m < deps.len() implies #[trigger] deps[m].name@ == rules[k].deps@[m].name@ by {
            assert(rules[k].deps@[m].name@ == names[m]);
        }
        assert(same_dep_names(deps, rules[k].deps@));
    }
}

/// Install a built-in pattern rule: one target, the prerequisites parsed
/// from `dep` ([`parse_dep_names`]), the recipe text `commands`; see
/// [`install_parsed_pattern_rule`]. A refused parse installs nothing.
pub fn install_pattern_rule<E: FileSeqEnv>(
    ctx: &mut ExecContext,
    target: &[u8],
    dep: &[u8],
    commands: &[u8],
    terminal: bool,
    env: &mut E,
) -> (r: Result<(), BuildError>)
    requires
        rules_wf(old(ctx).rules@),
        target@.contains('%' as u8),
    ensures
        r is Err ==> *final(ctx) == *old(ctx),
        r is Ok ==> {
            &&& rules_wf(final(ctx).rules@)
            &&& *final(ctx) == (ExecContext { rules: final(ctx).rules, ..*old(ctx) })
            &&& final(ctx).rules@ == old(ctx).rules@ || ({
                &&& final(ctx).rules@.len() == old(ctx).rules@.len() + 1
                &&& final(ctx).rules@.drop_last() == old(ctx).rules@
                &&& final(ctx).rules@.last().targets@.len() == 1
                &&& final(ctx).rules@.last().targets@[0]@ == target@
                &&& final(ctx).rules@.last().terminal == terminal
                &&& final(ctx).rules@.last().cmds matches Some(c) && is_builtin_recipe(c, commands@)
            })
        },
        dep@.len() == 0 ==> {
            &&& r is Ok
            &&& has_dup_of(old(ctx).rules@, target@, Seq::<DepNode>::empty()) ==> final(ctx).rules@ == old(ctx).rules@
            &&& !has_dup_of(old(ctx).rules@, target@, Seq::<DepNode>::empty()) ==> {
                &&& final(ctx).rules@.len() == old(ctx).rules@.len() + 1
                &&& final(ctx).rules@.drop_last() == old(ctx).rules@
                &&& final(ctx).rules@.last().targets@.len() == 1
                &&& final(ctx).rules@.last().targets@[0]@ == target@
                &&& final(ctx).rules@.last().deps@.len() == 0
                &&& final(ctx).rules@.last().terminal == terminal
                &&& final(ctx).rules@.last().cmds matches Some(c) && is_builtin_recipe(c, commands@)
            }
        },
        builtin_dep_names(dep@) matches Some(names) ==> {
            &&& r is Ok
            &&& has_dup_named(old(ctx).rules@, target@, names) ==> final(ctx).rules@ == old(ctx).rules@
            &&& !has_dup_named(old(ctx).rules@, target@, names) ==> {
                let nr = final(ctx).rules@.last();
                &&& final(ctx).rules@.len() == old(ctx).rules@.len() + 1
                &&& final(ctx).rules@.drop_last() == old(ctx).rules@
                &&& nr.num == 1
                &&& nr.targets@.len() == 1
                &&& nr.targets@[0]@ == target@
                &&& nr.suffixes@ == seq![(index_of_byte(target@, '%' as u8, 0) + 1) as usize]
                &&& nr.lens@ == seq![target@.len() as usize]
                &&& crate::read::record::dep_names(nr.deps@) == names
                &&& nr.cmds matches Some(c) && is_builtin_recipe(c, commands@)
                &&& nr.terminal == terminal
                &&& !nr.in_use
                &&& nr.defn is None
            }
        },
{
    match parse_dep_names(dep, env) {
        Ok(deps) => {
            proof {
                if dep@.len() == 0 {
                    assert(deps@ =~= Seq::<DepNode>::empty());
                }
                lemma_dup_named(ctx.rules@, target@, deps@);
                if builtin_dep_names(dep@) is Some && dep@.len() > 0 {
                    let res = seq_names(c_buffer(dep@), None, false, MAP_NUL, PARSEFS_NONE, Seq::empty())->0;
                    let pv = deps@.map_values(|d: DepNode| prereq_view(d));
                    assert forall|i: int| 0 <= i < deps@.len() implies crate::read::record::dep_names(deps@)[i]
                        == builtin_dep_names(dep@)->0[i] by {
                        assert(pv[i] == prereq_view(deps@[i]));
                        assert(prereqs_of(res.0, Seq::empty())[i] == (res.0[i].0, res.0[i].1, false));
                    }
                    assert(crate::read::record::dep_names(deps@) =~= builtin_dep_names(dep@)->0);
                }
                if dep@.len() == 0 {
                    assert(crate::read::record::dep_names(deps@) =~= Seq::<Seq<u8>>::empty());
                }
            }
            install_parsed_pattern_rule(ctx, target, deps, commands, terminal);
            Ok(())
        },
        Err(e) => Err(e),
    }
}

/// Install a built-in pattern rule whose prerequisites are already parsed:
/// one target, the prerequisites `deps`, the recipe text `commands`. It is
/// discarded when an installed rule duplicates it.
pub fn install_parsed_pattern_rule(
    ctx: &mut ExecContext,
    target: &[u8],
    deps: Vec<DepNode>,
    commands: &[u8],
    terminal: bool,
)
    requires
        rules_wf(old(ctx).rules@),
        target@.contains('%' as u8),
    ensures
        rules_wf(final(ctx).rules@),
        *final(ctx) == (ExecContext { rules: final(ctx).rules, ..*old(ctx) }),
        has_dup_of(old(ctx).rules@, target@, deps@) ==> final(ctx).rules@ == old(ctx).rules@,
        !has_dup_of(old(ctx).rules@, target@, deps@) ==> {
            &&& final(ctx).rules@.len() == old(ctx).rules@.len() + 1
            &&& final(ctx).rules@.drop_last() == old(ctx).rules@
            &&& ({
                let nr = final(ctx).rules@.last();
                &&& nr.num == 1
                &&& nr.targets@.len() == 1
                &&& nr.targets@[0]@ == target@
                &&& nr.suffixes@ == seq![(index_of_byte(target@, '%' as u8, 0) + 1) as usize]
                &&& nr.lens@ == seq![target@.len() as usize]
                &&& nr.deps == deps
                &&& nr.cmds matches Some(c) && is_builtin_recipe(c, commands@)
                &&& nr.defn is None
                &&& nr.terminal == terminal
                &&& !nr.in_use
            })
        },
{
    let mut rule = Rule::new();
    rule.num = 1;
    let target_v = copy_slice(target);
    let percent = percent_index(target_v.as_slice());
    rule.lens.push(target_v.len());
    rule.suffixes.push(percent + 1);
    rule.targets.push(target_v);
    rule.deps = deps;
    let dup = find_duplicate(&ctx.rules, &rule);
    proof {
        lemma_first_dup_from(ctx.rules@, rule, 0);
        assert(rule.targets@[0]@ == target@);
        if has_dup_of(ctx.rules@, target@, deps@) {
            let k = choose|k: int|
                0 <= k < ctx.rules@.len() && #[trigger] all_targets_are(ctx.rules@[k], target@)
                    && same_dep_names(deps@, ctx.rules@[k].deps@);
            assert(all_targets_are(ctx.rules@[k], rule.targets@[0]@));
            assert(duplicates(rule, ctx.rules@[k]));
        }
        if dup is Some {
            let k = dup->0 as int;
            assert(duplicates(rule, ctx.rules@[k]));
            let i = choose|i: int| 0 <= i < rule.num && #[trigger] all_targets_are(ctx.rules@[k], rule.targets@[i]@);
            assert(i == 0);
            assert(all_targets_are(ctx.rules@[k], target@));
        }
    }
    if dup.is_none() {
        rule.terminal = terminal;
        rule.cmds = Some(
            Recipe {
                defined_in: None,
                defined_lineno: 0,
                text: copy_slice(commands),
                lines: Vec::new(),
                recipe_prefix: RECIPEPREFIX_DEFAULT,
                any_recurse: false,
            },
        );
        ctx.rules.push(rule);
        proof {
            assert(ctx.rules@.drop_last() =~= old(ctx).rules@);
            assert forall|k: int| 0 <= k < ctx.rules@.len() implies #[trigger] rule_wf(
                ctx.rules@[k],
            ) by {
                if k < old(ctx).rules@.len() {
                    assert(ctx.rules@[k] == old(ctx).rules@[k]);
                }
            }
        }
    }
}

/// A fresh vector holding the bytes of `s`.
pub fn copy_slice(s: &[u8]) -> (r: Vec<u8>)
    ensures
        r@ == s@,
{
    let mut v: Vec<u8> = Vec::new();
    push_slice(&mut v, s);
    v
}

/// `percents` shifted one past each `%`.
fn after_percents(percents: &Vec<usize>) -> (r: Vec<usize>)
    requires
        forall|i: int| 0 <= i < percents@.len() ==> #[trigger] percents@[i] < usize::MAX,
    ensures
        r@.len() == percents@.len(),
        forall|i: int| 0 <= i < percents@.len() ==> #[trigger] r@[i] == percents@[i] + 1,
{
    let mut out: Vec<usize> = Vec::new();
    let mut i: usize = 0;
    while i < percents.len()
        invariant
            i <= percents@.len(),
            out@.len() == i,
            forall|k: int| 0 <= k < percents@.len() ==> #[trigger] percents@[k] < usize::MAX,
            forall|k: int| 0 <= k < i ==> #[trigger] out@[k] == percents@[k] + 1,
        decreases percents@.len() - i,
    {
        out.push(percents[i] + 1);
        i += 1;
    }
    out
}

/// The length of each target.
fn target_lens(targets: &Vec<Vec<u8>>) -> (r: Vec<usize>)
    ensures
        r@.len() == targets@.len(),
        forall|i: int| 0 <= i < targets@.len() ==> #[trigger] r@[i] == targets@[i]@.len(),
{
    let mut out: Vec<usize> = Vec::new();
    let mut i: usize = 0;
    while i < targets.len()
        invariant
            i <= targets@.len(),
            out@.len() == i,
            forall|k: int| 0 <= k < i ==> #[trigger] out@[k] == targets@[k]@.len(),
        decreases targets@.len() - i,
    {
        out.push(targets[i].len());
        i += 1;
    }
    out
}

/// The rule that [`create_pattern_rule`] builds, as far as duplicate
/// detection sees it (its targets, their number and its prerequisites).
pub open spec fn pattern_rule_probe(
    targets: Vec<Vec<u8>>,
    percents: Vec<usize>,
    n: u16,
    deps: Vec<DepNode>,
    commands: Option<Recipe>,
) -> Rule {
    Rule {
        targets,
        suffixes: percents,
        lens: percents,
        deps,
        cmds: commands,
        defn: None,
        num: n,
        terminal: false,
        in_use: false,
    }
}

/// Create a pattern rule with `n` targets (`percents[i]` is the index of the
/// `%` in `targets[i]`) and install it as [`new_pattern_rule`] does; an
/// installed rule keeps the `terminal` flag given here.
#[verifier::rlimit(30)]
pub fn create_pattern_rule(
    ctx: &mut ExecContext,
    targets: Vec<Vec<u8>>,
    percents: Vec<usize>,
    n: u16,
    terminal: bool,
    deps: Vec<DepNode>,
    commands: Option<Recipe>,
    override_0: bool,
)
    requires
        rules_wf(old(ctx).rules@),
        n <= targets@.len(),
        forall|i: int| 0 <= i < targets@.len() ==> #[trigger] targets@[i]@.contains('%' as u8),
        forall|i: int| 0 <= i < percents@.len() ==> #[trigger] percents@[i] < usize::MAX,
    ensures
        rules_wf(final(ctx).rules@),
        *final(ctx) == (ExecContext { rules: final(ctx).rules, ..*old(ctx) }),
        ({
            let probe = pattern_rule_probe(targets, percents, n, deps, commands);
            match first_dup(old(ctx).rules@, probe) {
                Some(k) if !override_0 => final(ctx).rules@ == old(ctx).rules@,
                _ => {
                    let kept = match first_dup(old(ctx).rules@, probe) {
                        Some(k) => old(ctx).rules@.remove(k),
                        None => old(ctx).rules@,
                    };
                    let nr = final(ctx).rules@.last();
                    &&& final(ctx).rules@.len() == kept.len() + 1
                    &&& final(ctx).rules@.drop_last() == kept
                    &&& nr.targets == targets
                    &&& nr.deps == deps
                    &&& nr.cmds == commands
                    &&& nr.num == n
                    &&& nr.terminal == terminal
                    &&& !nr.in_use
                    &&& nr.defn is None
                    &&& nr.suffixes@.len() == percents@.len()
                    &&& (forall|i: int| 0 <= i < percents@.len() ==> #[trigger] nr.suffixes@[i] == percents@[i] + 1)
                    &&& nr.lens@.len() == targets@.len()
                    &&& (forall|i: int| 0 <= i < targets@.len() ==> #[trigger] nr.lens@[i] == targets@[i]@.len())
                },
            }
        }),
{
    let ghost probe = pattern_rule_probe(targets, percents, n, deps, commands);
    let lens = target_lens(&targets);
    let suffixes = after_percents(&percents);
    let rule = Rule {
        targets,
        suffixes,
        lens,
        deps,
        cmds: commands,
        defn: None,
        num: n,
        terminal: false,
        in_use: false,
    };
    proof {
        assert(rule.targets == probe.targets && rule.deps == probe.deps && rule.num == probe.num);
        assert forall|i: int| 0 <= i < ctx.rules@.len() implies duplicates(rule, #[trigger] ctx.rules@[i])
            == duplicates(probe, ctx.rules@[i]) by {
            let rr = ctx.rules@[i];
            if duplicates(rule, rr) {
                let w = choose|w: int| 0 <= w < rule.num && #[trigger] all_targets_are(rr, rule.targets@[w]@);
                assert(all_targets_are(rr, probe.targets@[w]@));
            }
            if duplicates(probe, rr) {
                let w = choose|w: int| 0 <= w < probe.num && #[trigger] all_targets_are(rr, probe.targets@[w]@);
                assert(all_targets_are(rr, rule.targets@[w]@));
            }
        }
        lemma_first_dup_same(ctx.rules@, rule, probe, 0);
    }
    let installed = new_pattern_rule(ctx, rule, override_0);
    let ghost mid = ctx.rules@;
    if installed {
        let last = ctx.rules.len() - 1;
        let mut r = ctx.rules.remove(last);
        r.terminal = terminal;
        ctx.rules.push(r);
        proof {
            assert(ctx.rules@.drop_last() =~= mid.drop_last());
            assert forall|k: int| 0 <= k < ctx.rules@.len() implies #[trigger] rule_wf(
                ctx.rules@[k],
            ) by {
                if k < last {
                    assert(ctx.rules@[k] == mid[k]);
                }
            }
            match first_dup(old(ctx).rules@, probe) {
                Some(k) => {
                    assert(mid.drop_last() =~= old(ctx).rules@.remove(k));
                },
                None => {
                    assert(mid.drop_last() =~= old(ctx).rules@);
                },
            }
        }
    }
}

/// Two rules that duplicate the same installed rules have the same first
/// duplicate.
proof fn lemma_first_dup_same(rules: Seq<Rule>, a: Rule, b: Rule, idx: int)
    requires
        0 <= idx <= rules.len(),
        forall|i: int| 0 <= i < rules.len() ==> duplicates(a, #[trigger] rules[i]) == duplicates(b, rules[i]),
    ensures
        first_dup_from(rules, a, idx) == first_dup_from(rules, b, idx),
    decreases rules.len() - idx,
{
    if idx < rules.len() {
        assert(duplicates(a, rules[idx]) == duplicates(b, rules[idx]));
        lemma_first_dup_same(rules, a, b, idx + 1);
    }
}

// ─── Printing ────────────────────────────────────────────────────────────

/// The first `k` bytes of a recipe text, each `\n` followed by a TAB.
pub open spec fn tabbed(text: Seq<u8>, k: int) -> Seq<u8>
    decreases k,
{
    if k <= 0 {
        Seq::empty()
    } else {
        tabbed(text, k - 1) + if text[k - 1] == '\n' as u8 {
            seq!['\n' as u8, '\t' as u8]
        } else {
            seq![text[k - 1]]
        }
    }
}

/// The printed form of a recipe text: each of its lines after a TAB and
/// before a newline.
pub open spec fn recipe_text_printed(text: Seq<u8>) -> Seq<u8> {
    seq!['\t' as u8] + tabbed(text, text.len() as int) + seq!['\n' as u8]
}

/// Append rule `r`'s definition and, below it, each line of its recipe
/// indented by a TAB.
pub fn print_rule(buf: &mut Vec<u8>, r: &mut Rule)
    requires
        old(r).defn is None ==> rule_wf(*old(r)),
    ensures
        final(buf)@ == old(buf)@ + (match old(r).defn {
            Some(d) => d@,
            None => defn_text(*old(r)),
        }) + seq!['\n' as u8] + (match old(r).cmds {
            Some(c) => recipe_text_printed(c.text@),
            None => Seq::empty(),
        }),
        *final(r) == (Rule { defn: final(r).defn, ..*old(r) }),
        final(r).defn is Some,
{
    let d = r.rule_defn();
    push_slice(buf, d);
    buf.push('\n' as u8);
    let ghost head = buf@;
    match &r.cmds {
        Some(cmds) => {
            buf.push('\t' as u8);
            let text = &cmds.text;
            let mut k: usize = 0;
            while k < text.len()
                invariant
                    k <= text@.len(),
                    buf@ == head + seq!['\t' as u8] + tabbed(text@, k as int),
                decreases text@.len() - k,
            {
                if text[k] == '\n' as u8 {
                    buf.push('\n' as u8);
                    buf.push('\t' as u8);
                } else {
                    buf.push(text[k]);
                }
                k += 1;
                assert(buf@ =~= head + seq!['\t' as u8] + tabbed(text@, k as int));
            }
            buf.push('\n' as u8);
            assert(buf@ =~= head + recipe_text_printed(text@));
        },
        None => {
            assert(buf@ =~= head + Seq::<u8>::empty());
        },
    }
}

// ─── Suffix rules ────────────────────────────────────────────────────────

/// A location with no file and no line.
pub fn null_floc() -> (r: Floc)
    ensures
        r.filenm is None,
        r.lineno == 0,
        r.offset == 0,
{
    Floc { filenm: None, lineno: 0, offset: 0 }
}

/// The location a warning about node `n` carries: the line its recipe was
/// defined on, with no file.
pub fn finfo_of(n: &FileNode) -> (r: Floc)
    ensures
        r.filenm is None,
        r.offset == 0,
        r.lineno == match n.recipe {
            Some(rc) => rc.defined_lineno,
            None => 0,
        },
{
    match &n.recipe {
        Some(rc) => Floc { filenm: None, lineno: rc.defined_lineno, offset: 0 },
        None => null_floc(),
    }
}

/// The warning given for prerequisites on a suffix rule definition.
pub open spec fn suffix_prereq_warning() -> Seq<u8> {
    "warning: ignoring prerequisites on suffix rule definition".spec_bytes()
}

/// `ctx` with only its warnings changed, by at most one more.
pub open spec fn warned_or_not(old: ExecContext, new: ExecContext, warn: bool, floc: Floc) -> bool {
    &&& new == (ExecContext { diagnostics: new.diagnostics, ..old })
    &&& warn ==> new.diagnostics@.len() == old.diagnostics@.len() + 1 && new.diagnostics@.drop_last()
        == old.diagnostics@ && new.diagnostics@.last().floc == floc
        && new.diagnostics@.last().message@ == suffix_prereq_warning()
    &&& !warn ==> new.diagnostics@ == old.diagnostics@
}

/// Whether a suffix-rule file with a recipe counts as a suffix rule: always
/// without prerequisites; with them, not under `.POSIX`, and otherwise with
/// a warning located at `fileinfo`.
pub fn suffix_rule_applies(ctx: &mut ExecContext, fileinfo: Floc, has_prereqs: bool) -> (r: bool)
    ensures
        r == (!has_prereqs || !old(ctx).posix_pedantic),
        warned_or_not(*old(ctx), *final(ctx), has_prereqs && !old(ctx).posix_pedantic, fileinfo),
{
    if !has_prereqs {
        return true;
    }
    if ctx.posix_pedantic {
        return false;
    }
    let msg = copy_slice("warning: ignoring prerequisites on suffix rule definition".as_bytes());
    ctx.diagnostics.push(Diagnostic { floc: fileinfo, message: msg });
    assert(ctx.diagnostics@.drop_last() =~= old(ctx).diagnostics@);
    true
}

/// The file table after some files were marked as suffix rules: nothing
/// else about any file changes, and no mark is taken away.
pub open spec fn only_suffix_marks(old: Seq<FileNode>, new: Seq<FileNode>) -> bool {
    &&& new.len() == old.len()
    &&& forall|j: int|
        0 <= j < old.len() ==> #[trigger] new[j] == (FileNode { suffix: new[j].suffix, ..old[j] }) && (
        old[j].suffix ==> new[j].suffix)
}

/// Mark the single-suffix file `name` as a suffix rule when it has a recipe
/// and [`suffix_rule_applies`] says so.
pub fn apply_suffix_mark(ctx: &mut ExecContext, name: &[u8])
    ensures
        only_suffix_marks(old(ctx).files@, final(ctx).files@),
        match crate::file::find_file(old(ctx).files@, name@, 0) {
            None => *final(ctx) == *old(ctx),
            Some(i) => {
                let n = old(ctx).files@[i as int];
                let applies = n.recipe is Some && (n.deps@.len() == 0 || !old(ctx).posix_pedantic);
                &&& final(ctx).files@ == (if applies {
                    old(ctx).files@.update(i as int, FileNode { suffix: true, ..n })
                } else {
                    old(ctx).files@
                })
                &&& final(ctx).diagnostics@.len() == old(ctx).diagnostics@.len() + (if n.recipe is Some && n.deps@.len() > 0
                    && !old(ctx).posix_pedantic {
                    1int
                } else {
                    0int
                })
            },
        },
        *final(ctx) == (ExecContext { files: final(ctx).files, diagnostics: final(ctx).diagnostics, ..*old(ctx) }),
        old(ctx).diagnostics@.is_prefix_of(final(ctx).diagnostics@),
{
    let id = match lookup_file(ctx, name) {
        Some(id) => id,
        None => {
            return;
        },
    };
    if ctx.files[id].recipe.is_none() {
        return;
    }
    let has_prereqs = ctx.files[id].deps.len() > 0;
    let finfo = finfo_of(&ctx.files[id]);
    let ghost before = *ctx;
    if suffix_rule_applies(ctx, finfo, has_prereqs) {
        ctx.files[id].suffix = true;
    }
    assert(old(ctx).diagnostics@.is_prefix_of(ctx.diagnostics@));
}

/// Mark the file `name` (if there is one) as a suffix rule.
pub fn mark_suffix(ctx: &mut ExecContext, name: &[u8])
    ensures
        only_suffix_marks(old(ctx).files@, final(ctx).files@),
        *final(ctx) == (ExecContext { files: final(ctx).files, ..*old(ctx) }),
        ({
            let id = crate::file::find_file(old(ctx).files@, name@, 0);
            &&& id is None ==> final(ctx).files@ == old(ctx).files@
            &&& id matches Some(i) ==> final(ctx).files@[i as int].suffix
        }),
{
    match lookup_file(ctx, name) {
        Some(id) => {
            ctx.files[id].suffix = true;
        },
        None => {},
    }
}

/// The pattern rule a suffix rule converts to is installed: it is
/// discarded when an installed rule already has its one target `t` and the
/// prerequisite names `dep_names`; otherwise it goes last, with that target
/// (its `%` at `pct`), those prerequisites and the recipe `cmds`.
pub open spec fn suffix_rule_installed(
    old: Seq<Rule>,
    new: Seq<Rule>,
    t: Seq<u8>,
    pct: int,
    dep_names: Seq<Seq<u8>>,
    cmds: Option<Recipe>,
) -> bool {
    let dup = exists|k: int|
        0 <= k < old.len() && #[trigger] all_targets_are(old[k], t) && old[k].deps@.len()
            == dep_names.len() && forall|m: int|
            0 <= m < dep_names.len() ==> #[trigger] old[k].deps@[m].name@ == dep_names[m];
    if dup {
        new == old
    } else {
        let nr = new.last();
        &&& new.len() == old.len() + 1
        &&& new.drop_last() == old
        &&& nr.num == 1
        &&& nr.targets@.len() == 1
        &&& nr.targets@[0]@ == t
        &&& nr.suffixes@ == seq![(pct + 1) as usize]
        &&& nr.lens@ == seq![t.len() as usize]
        &&& nr.deps@.len() == dep_names.len()
        &&& (forall|m: int| 0 <= m < dep_names.len() ==> #[trigger] is_plain_dep(nr.deps@[m], dep_names[m]))
        &&& nr.cmds == cmds
        &&& !nr.terminal
        &&& !nr.in_use
        &&& nr.defn is None
    }
}

/// The pattern target of a suffix rule.
pub open spec fn suffix_target_text(target: Option<Seq<u8>>) -> Seq<u8> {
    match target {
        None => archive_member_pattern(),
        Some(t) => seq!['%' as u8] + t,
    }
}

/// The prerequisite names of a suffix rule.
pub open spec fn suffix_dep_names(source: Option<Seq<u8>>) -> Seq<Seq<u8>> {
    match source {
        None => Seq::empty(),
        Some(s) => seq![seq!['%' as u8] + s],
    }
}

/// The view of an optional byte slice.
pub open spec fn opt_view(o: Option<&[u8]>) -> Option<Seq<u8>> {
    match o {
        Some(s) => Some(s@),
        None => None,
    }
}

/// Convert one old-style suffix rule into a pattern rule: `target` and
/// `source` are the suffixes (a missing target builds the archive-member
/// pattern `(%.o)`), `cmds` its recipe.
pub fn convert_suffix_rule(ctx: &mut ExecContext, target: Option<&[u8]>, source: Option<&[u8]>, cmds: Option<Recipe>)
    requires
        rules_wf(old(ctx).rules@),
    ensures
        rules_wf(final(ctx).rules@),
        *final(ctx) == (ExecContext { rules: final(ctx).rules, ..*old(ctx) }),
        suffix_rule_installed(
            old(ctx).rules@,
            final(ctx).rules@,
            suffix_target_text(opt_view(target)),
            if target is None { 1 } else { 0 },
            suffix_dep_names(opt_view(source)),
            cmds,
        ),
{
    let (name, percent) = suffix_rule_target(target);
    let deps = suffix_rule_source_deps(source);
    let ghost t = name@;
    let ghost dn = suffix_dep_names(opt_view(source));
    let ghost deps_v = deps;
    let mut targets: Vec<Vec<u8>> = Vec::new();
    targets.push(name);
    let mut percents: Vec<usize> = Vec::new();
    percents.push(percent);
    proof {
        assert(targets@[0]@ == t);
        assert(t[percent as int] == '%' as u8);
        assert(targets@[0]@.contains('%' as u8));
    }
    let ghost probe = pattern_rule_probe(targets, percents, 1, deps, cmds);
    proof {
        lemma_first_dup_from(ctx.rules@, probe, 0);
        assert forall|k: int| 0 <= k < ctx.rules@.len() implies duplicates(probe, #[trigger] ctx.rules@[k]) == (
        all_targets_are(ctx.rules@[k], t) && ctx.rules@[k].deps@.len() == dn.len() && forall|m: int|
            0 <= m < dn.len() ==> #[trigger] ctx.rules@[k].deps@[m].name@ == dn[m]) by {
            let rr = ctx.rules@[k];
            if duplicates(probe, rr) {
                let i = choose|i: int| 0 <= i < probe.num && #[trigger] all_targets_are(rr, probe.targets@[i]@);
                assert(i == 0);
                assert forall|m: int| 0 <= m < dn.len() implies #[trigger] rr.deps@[m].name@ == dn[m] by {
                    assert(probe.deps@[m].name@ == rr.deps@[m].name@);
                }
            }
            if all_targets_are(rr, t) && rr.deps@.len() == dn.len() && forall|m: int|
                0 <= m < dn.len() ==> #[trigger] rr.deps@[m].name@ == dn[m] {
                assert(all_targets_are(rr, probe.targets@[0]@));
                assert(same_dep_names(probe.deps@, rr.deps@));
            }
        }
    }
    create_pattern_rule(ctx, targets, percents, 1, false, deps, cmds, false);
    proof {
        let dup = exists|k: int|
            0 <= k < old(ctx).rules@.len() && #[trigger] all_targets_are(old(ctx).rules@[k], t) && old(ctx).rules@[k].deps@.len()
                == dn.len() && forall|m: int|
                0 <= m < dn.len() ==> #[trigger] old(ctx).rules@[k].deps@[m].name@ == dn[m];
        if dup {
            let k = choose|k: int|
                0 <= k < old(ctx).rules@.len() && #[trigger] all_targets_are(old(ctx).rules@[k], t) && old(ctx).rules@[k].deps@.len()
                    == dn.len() && forall|m: int|
                    0 <= m < dn.len() ==> #[trigger] old(ctx).rules@[k].deps@[m].name@ == dn[m];
            assert(duplicates(probe, old(ctx).rules@[k]));
        } else {
            if first_dup(old(ctx).rules@, probe) is Some {
                let k = first_dup(old(ctx).rules@, probe)->0;
                assert(duplicates(probe, old(ctx).rules@[k]));
            }
            let nr = ctx.rules@.last();
            assert(nr.targets@[0]@ == t);
            assert(nr.suffixes@ =~= seq![(percent + 1) as usize]);
            assert(nr.lens@ =~= seq![t.len() as usize]);
            assert forall|m: int| 0 <= m < dn.len() implies #[trigger] is_plain_dep(nr.deps@[m], dn[m]) by {
                assert(m == 0);
            }
        }
    }
}

/// `new` grew from `old` by converting suffix rules: rules were only
/// appended, files only gained suffix marks, warnings were only added, and
/// nothing else changed.
pub open spec fn grows(old: ExecContext, new: ExecContext) -> bool {
    &&& rules_wf(new.rules@)
    &&& old.rules@.is_prefix_of(new.rules@)
    &&& only_suffix_marks(old.files@, new.files@)
    &&& old.diagnostics@.is_prefix_of(new.diagnostics@)
    &&& new == (ExecContext { rules: new.rules, files: new.files, diagnostics: new.diagnostics, ..old })
}

proof fn lemma_grows_trans(a: ExecContext, b: ExecContext, c: ExecContext)
    requires
        grows(a, b),
        grows(b, c),
    ensures
        grows(a, c),
{
    assert forall|j: int| 0 <= j < a.files@.len() implies #[trigger] c.files@[j] == (FileNode {
        suffix: c.files@[j].suffix,
        ..a.files@[j]
    }) && (a.files@[j].suffix ==> c.files@[j].suffix) by {
        assert(b.files@[j] == (FileNode { suffix: b.files@[j].suffix, ..a.files@[j] }));
        assert(c.files@[j] == (FileNode { suffix: c.files@[j].suffix, ..b.files@[j] }));
    }
    assert(a.rules@.is_prefix_of(c.rules@)) by {
        assert forall|k: int| 0 <= k < a.rules@.len() implies a.rules@[k] == c.rules@[k] by {
            assert(a.rules@[k] == b.rules@[k]);
        }
    }
    assert(a.diagnostics@.is_prefix_of(c.diagnostics@)) by {
        assert forall|k: int| 0 <= k < a.diagnostics@.len() implies a.diagnostics@[k] == c.diagnostics@[k] by {
            assert(a.diagnostics@[k] == b.diagnostics@[k]);
        }
    }
}

proof fn lemma_grows_refl(a: ExecContext)
    requires
        rules_wf(a.rules@),
    ensures
        grows(a, a),
{
    assert(a.rules@.is_prefix_of(a.rules@));
    assert(a.diagnostics@.is_prefix_of(a.diagnostics@));
}

proof fn lemma_installed_grows(a: ExecContext, b: ExecContext, t: Seq<u8>, pct: int, dn: Seq<Seq<u8>>, cmds: Option<Recipe>)
    requires
        rules_wf(b.rules@),
        b == (ExecContext { rules: b.rules, ..a }),
        suffix_rule_installed(a.rules@, b.rules@, t, pct, dn, cmds),
    ensures
        grows(a, b),
{
    assert(a.rules@.is_prefix_of(b.rules@)) by {
        if b.rules@ != a.rules@ {
            assert forall|k: int| 0 <= k < a.rules@.len() implies a.rules@[k] == b.rules@[k] by {
                assert(b.rules@.drop_last()[k] == b.rules@[k]);
            }
        }
    }
    assert(a.diagnostics@.is_prefix_of(b.diagnostics@));
}

/// Some rule has the one target `t` and the prerequisite names `dn`.
pub open spec fn has_rule_for(rules: Seq<Rule>, t: Seq<u8>, dn: Seq<Seq<u8>>) -> bool {
    exists|k: int|
        0 <= k < rules.len() && #[trigger] all_targets_are(rules[k], t) && rules[k].deps@.len() == dn.len() && forall|m: int|
            0 <= m < dn.len() ==> #[trigger] rules[k].deps@[m].name@ == dn[m]
}

proof fn lemma_installed_has(old: Seq<Rule>, new: Seq<Rule>, t: Seq<u8>, pct: int, dn: Seq<Seq<u8>>, cmds: Option<Recipe>)
    requires
        suffix_rule_installed(old, new, t, pct, dn, cmds),
    ensures
        has_rule_for(new, t, dn),
{
    let dup = exists|k: int|
        0 <= k < old.len() && #[trigger] all_targets_are(old[k], t) && old[k].deps@.len() == dn.len() && forall|m: int|
            0 <= m < dn.len() ==> #[trigger] old[k].deps@[m].name@ == dn[m];
    if !dup {
        let k = new.len() - 1;
        assert(new[k] == new.last());
        assert forall|m: int| 0 <= m < dn.len() implies #[trigger] new[k].deps@[m].name@ == dn[m] by {
            assert(is_plain_dep(new[k].deps@[m], dn[m]));
        }
        assert(all_targets_are(new[k], t));
    }
}

proof fn lemma_has_rule_grows(a: Seq<Rule>, b: Seq<Rule>, t: Seq<u8>, dn: Seq<Seq<u8>>)
    requires
        a.is_prefix_of(b),
        has_rule_for(a, t, dn),
    ensures
        has_rule_for(b, t, dn),
{
    let k = choose|k: int|
        0 <= k < a.len() && #[trigger] all_targets_are(a[k], t) && a[k].deps@.len() == dn.len() && forall|m: int|
            0 <= m < dn.len() ==> #[trigger] a[k].deps@[m].name@ == dn[m];
    assert(b[k] == a[k]);
}

/// A growing database keeps the one-suffix rules of the first `n` suffixes.
proof fn lemma_keeps_rules_for(a: ExecContext, b: ExecContext, sdeps: Seq<DepNode>, n: int)
    requires
        grows(a, b),
        forall|k: int| 0 <= k < n ==> has_rule_for(a.rules@, suffix_target_text(Some(#[trigger] sdeps[k].name@)), suffix_dep_names(None)),
    ensures
        forall|k: int| 0 <= k < n ==> has_rule_for(b.rules@, suffix_target_text(Some(#[trigger] sdeps[k].name@)), suffix_dep_names(None)),
{
    assert forall|k: int| 0 <= k < n implies has_rule_for(b.rules@, suffix_target_text(Some(#[trigger] sdeps[k].name@)), suffix_dep_names(None)) by {
        lemma_has_rule_grows(a.rules@, b.rules@, suffix_target_text(Some(sdeps[k].name@)), suffix_dep_names(None));
    }
}

/// The file named `name` has a recipe.
pub open spec fn file_has_recipe(files: Seq<crate::file::FileNode>, name: Seq<u8>) -> bool {
    crate::file::find_file(files, name, 0) matches Some(id) && files[id as int].recipe is Some
}

/// The rule `%` from `%<suffix>` that a suffix's own recipe makes.
pub open spec fn has_null_suffix_rule(rules: Seq<Rule>, suffix: Seq<u8>) -> bool {
    has_rule_for(rules, seq!['%' as u8], suffix_dep_names(Some(suffix)))
}

/// The rules `%` from `%<suffix>` made so far stay as the database grows.
proof fn lemma_keeps_null_rules(a: ExecContext, b: ExecContext, snaps: Seq<SuffixSnap>, sdeps: Seq<DepNode>, n: int)
    requires
        grows(a, b),
        forall|k: int| 0 <= k < n && (#[trigger] snaps[k]).cmds is Some ==> has_null_suffix_rule(a.rules@, sdeps[k].name@),
    ensures
        forall|k: int| 0 <= k < n && (#[trigger] snaps[k]).cmds is Some ==> has_null_suffix_rule(b.rules@, sdeps[k].name@),
{
    assert forall|k: int| 0 <= k < n && (#[trigger] snaps[k]).cmds is Some implies has_null_suffix_rule(b.rules@, sdeps[k].name@) by {
        lemma_has_rule_grows(a.rules@, b.rules@, seq!['%' as u8], suffix_dep_names(Some(sdeps[k].name@)));
    }
}

/// A `.SUFFIXES` prerequisite: the suffix and the recipe of its own file.
struct SuffixSnap {
    name: Vec<u8>,
    cmds: Option<Recipe>,
}

/// The suffixes listed as prerequisites of `.SUFFIXES`, each with the recipe
/// of the file of that name.
fn snapshot_suffixes(ctx: &ExecContext, sid: usize) -> (r: Vec<SuffixSnap>)
    requires
        sid < ctx.files@.len(),
    ensures
        r@.len() == ctx.files@[sid as int].deps@.len(),
        forall|k: int| 0 <= k < r@.len() ==> #[trigger] r@[k].name@ == ctx.files@[sid as int].deps@[k].name@,
        forall|k: int| 0 <= k < r@.len() ==> ((#[trigger] r@[k]).cmds is Some <==> file_has_recipe(ctx.files@, r@[k].name@)),
{
    let deps = &ctx.files[sid].deps;
    let mut out: Vec<SuffixSnap> = Vec::new();
    let mut k: usize = 0;
    while k < deps.len()
        invariant
            k <= deps@.len(),
            deps == &ctx.files@[sid as int].deps,
            out@.len() == k,
            forall|j: int| 0 <= j < k ==> #[trigger] out@[j].name@ == deps@[j].name@,
            forall|j: int| 0 <= j < k ==> ((#[trigger] out@[j]).cmds is Some <==> file_has_recipe(ctx.files@, out@[j].name@)),
        decreases deps@.len() - k,
    {
        let name = copy_bytes(&deps[k].name);
        let cmds = match lookup_file(ctx, name.as_slice()) {
            Some(id) => match &ctx.files[id].recipe {
                Some(rc) => Some(rc.clone()),
                None => None,
            },
            None => None,
        };
        out.push(SuffixSnap { name, cmds });
        k += 1;
    }
    out
}

/// Convert the suffix-rule pair `d` `d2` (the file `.xy` for suffixes `.x`
/// and `.y`), when that file has a recipe.
fn convert_suffix_pair(ctx: &mut ExecContext, d: &SuffixSnap, d2: &SuffixSnap)
    requires
        rules_wf(old(ctx).rules@),
    ensures
        grows(*old(ctx), *final(ctx)),
        d.name@ == d2.name@ ==> *final(ctx) == *old(ctx),
        d.name@ != d2.name@ ==> match crate::file::find_file(old(ctx).files@, d.name@ + d2.name@, 0) {
            None => *final(ctx) == *old(ctx),
            Some(i) => {
                let n = old(ctx).files@[i as int];
                &&& n.recipe is None ==> *final(ctx) == *old(ctx)
                &&& n.recipe is Some && (n.deps@.len() == 0 || !old(ctx).posix_pedantic) ==> {
                    &&& final(ctx).files@[i as int].suffix
                    &&& has_rule_for(final(ctx).rules@, suffix_target_text(Some(d2.name@)), suffix_dep_names(Some(d.name@)))
                    &&& d2.name@ == seq!['.' as u8, 'a' as u8] ==> has_rule_for(
                        final(ctx).rules@,
                        suffix_target_text(None),
                        suffix_dep_names(Some(d.name@)),
                    )
                }
            },
        },
{
    let ghost c_in = *ctx;
    proof {
        lemma_grows_refl(*ctx);
    }
    if !streq(d.name.as_slice(), d2.name.as_slice()) {
        let mut rulename = copy_bytes(&d.name);
        push_slice(&mut rulename, d2.name.as_slice());
        let (has_prereqs, recipe, finfo) = match lookup_file(ctx, rulename.as_slice()) {
            Some(id) => {
                let n = &ctx.files[id];
                let rec = match &n.recipe {
                    Some(rc) => Some(rc.clone()),
                    None => None,
                };
                (n.deps.len() > 0, rec, finfo_of(n))
            },
            None => (false, None, null_floc()),
        };
        match recipe {
            Some(rec) => {
                let ghost c3 = *ctx;
                let applies = suffix_rule_applies(ctx, finfo, has_prereqs);
                proof {
                    assert(c3.diagnostics@.is_prefix_of(ctx.diagnostics@));
                    assert(only_suffix_marks(c3.files@, ctx.files@));
                    lemma_grows_trans(c_in, c3, *ctx);
                }
                if applies {
                    let ghost c4 = *ctx;
                    mark_suffix(ctx, rulename.as_slice());
                    proof {
                        assert(c4.diagnostics@.is_prefix_of(ctx.diagnostics@));
                        assert(c4.rules@.is_prefix_of(ctx.rules@));
                        lemma_grows_trans(c_in, c4, *ctx);
                    }
                    let a: [u8; 2] = ['.' as u8, 'a' as u8];
                    if bytes_eq(d2.name.as_slice(), &a) {
                        let ghost c5 = *ctx;
                        let rc2 = rec.clone();
                        let ghost rv = rc2;
                        convert_suffix_rule(ctx, None, Some(d.name.as_slice()), Some(rc2));
                        proof {
                            lemma_installed_grows(c5, *ctx, suffix_target_text(None), 1, suffix_dep_names(Some(d.name@)), Some(rv));
                            lemma_installed_has(c5.rules@, ctx.rules@, suffix_target_text(None), 1, suffix_dep_names(Some(d.name@)), Some(rv));
                            lemma_grows_trans(c_in, c5, *ctx);
                        }
                    }
                    let ghost c6 = *ctx;
                    let ghost rv2 = rec;
                    convert_suffix_rule(ctx, Some(d2.name.as_slice()), Some(d.name.as_slice()), Some(rec));
                    proof {
                        lemma_installed_grows(c6, *ctx, suffix_target_text(Some(d2.name@)), 0, suffix_dep_names(Some(d.name@)), Some(rv2));
                        lemma_installed_has(c6.rules@, ctx.rules@, suffix_target_text(Some(d2.name@)), 0, suffix_dep_names(Some(d.name@)), Some(rv2));
                        if d2.name@ == seq!['.' as u8, 'a' as u8] {
                            lemma_has_rule_grows(c6.rules@, ctx.rules@, suffix_target_text(None), suffix_dep_names(Some(d.name@)));
                        }
                        lemma_grows_trans(c_in, c6, *ctx);
                    }
                }
            },
            None => {},
        }
    }
}

/// Convert the old-style suffix rules (the prerequisites of `.SUFFIXES`)
/// into pattern rules: each suffix `.x` gives `% : %.x`-style rules, and
/// each pair `.x.y` that is a file with a recipe gives `%.y : %.x` (and, for
/// `.a`, the archive-member rule), marking the files it uses as suffix
/// rules.
pub fn convert_to_pattern(ctx: &mut ExecContext)
    requires
        rules_wf(old(ctx).rules@),
    ensures
        grows(*old(ctx), *final(ctx)),
        crate::file::find_file(old(ctx).files@, crate::read::suffixes_name(), 0) is None ==> *final(ctx)
            == *old(ctx),
        crate::file::find_file(old(ctx).files@, crate::read::suffixes_name(), 0) matches Some(sid) ==> forall|k: int|
            0 <= k < old(ctx).files@[sid as int].deps@.len() ==> has_rule_for(
                final(ctx).rules@,
                suffix_target_text(Some(#[trigger] old(ctx).files@[sid as int].deps@[k].name@)),
                suffix_dep_names(None),
            ),
        crate::file::find_file(old(ctx).files@, crate::read::suffixes_name(), 0) matches Some(sid) ==> forall|k: int|
            0 <= k < old(ctx).files@[sid as int].deps@.len() && file_has_recipe(
                old(ctx).files@,
                #[trigger] old(ctx).files@[sid as int].deps@[k].name@,
            ) ==> has_null_suffix_rule(final(ctx).rules@, old(ctx).files@[sid as int].deps@[k].name@),
{
    let sfx: [u8; 9] = ['.' as u8, 'S' as u8, 'U' as u8, 'F' as u8, 'F' as u8, 'I' as u8, 'X' as u8, 'E' as u8, 'S' as u8];
    assert(sfx@ =~= crate::read::suffixes_name());
    let sid = match lookup_file(ctx, &sfx) {
        Some(id) => id,
        None => {
            return;
        },
    };
    let suffixes = snapshot_suffixes(ctx, sid);
    let ghost sdeps = old(ctx).files@[sid as int].deps@;
    proof {
        lemma_grows_refl(*ctx);
    }
    let mut i: usize = 0;
    while i < suffixes.len()
        invariant
            i <= suffixes@.len(),
            grows(*old(ctx), *ctx),
            suffixes@.len() == sdeps.len(),
            forall|k: int| 0 <= k < suffixes@.len() ==> #[trigger] suffixes@[k].name@ == sdeps[k].name@,
            forall|k: int| 0 <= k < i ==> has_rule_for(ctx.rules@, suffix_target_text(Some(#[trigger] sdeps[k].name@)), suffix_dep_names(None)),
            forall|k: int| 0 <= k < suffixes@.len() ==> ((#[trigger] suffixes@[k]).cmds is Some <==> file_has_recipe(old(ctx).files@, sdeps[k].name@)),
            forall|k: int| 0 <= k < i && (#[trigger] suffixes@[k]).cmds is Some ==> has_null_suffix_rule(ctx.rules@, sdeps[k].name@),
        decreases suffixes@.len() - i,
    {
        let d = &suffixes[i];
        let ghost c0 = *ctx;
        convert_suffix_rule(ctx, Some(d.name.as_slice()), None, None);
        proof {
            lemma_installed_grows(c0, *ctx, suffix_target_text(Some(d.name@)), 0, suffix_dep_names(None), None);
            lemma_installed_has(c0.rules@, ctx.rules@, suffix_target_text(Some(d.name@)), 0, suffix_dep_names(None), None);
            assert forall|k: int| 0 <= k < i + 1 implies has_rule_for(ctx.rules@, suffix_target_text(Some(#[trigger] sdeps[k].name@)), suffix_dep_names(None)) by {
                if k < i {
                    lemma_has_rule_grows(c0.rules@, ctx.rules@, suffix_target_text(Some(sdeps[k].name@)), suffix_dep_names(None));
                }
            }
            lemma_grows_trans(*old(ctx), c0, *ctx);
            lemma_keeps_null_rules(c0, *ctx, suffixes@, sdeps, i as int);
        }
        match &d.cmds {
            Some(cmds) => {
                let ghost c1 = *ctx;
                let c = cmds.clone();
                let ghost cv = c;
                let no_suffix: Vec<u8> = Vec::new();
                let ns = no_suffix.as_slice();
                convert_suffix_rule(ctx, Some(ns), Some(d.name.as_slice()), Some(c));
                proof {
                    assert(ns@.len() == 0);
                    assert(suffix_target_text(opt_view(Some(ns))) =~= seq!['%' as u8]);
                    lemma_installed_grows(c1, *ctx, seq!['%' as u8], 0, suffix_dep_names(Some(d.name@)), Some(cv));
                    lemma_installed_has(c1.rules@, ctx.rules@, seq!['%' as u8], 0, suffix_dep_names(Some(d.name@)), Some(cv));
                    lemma_grows_trans(*old(ctx), c1, *ctx);
                    lemma_keeps_rules_for(c1, *ctx, sdeps, i as int + 1);
                    lemma_keeps_null_rules(c1, *ctx, suffixes@, sdeps, i as int);
                    assert(sdeps[i as int].name@ == d.name@);
                }
            },
            None => {},
        }
        let ghost c2 = *ctx;
        apply_suffix_mark(ctx, d.name.as_slice());
        proof {
            lemma_grows_trans(*old(ctx), c2, *ctx);
            lemma_keeps_rules_for(c2, *ctx, sdeps, i as int + 1);
            lemma_keeps_null_rules(c2, *ctx, suffixes@, sdeps, i as int + 1);
        }
        let mut j: usize = 0;
        while j < suffixes.len()
            invariant
                i < suffixes@.len(),
                j <= suffixes@.len(),
                d == &suffixes@[i as int],
                grows(*old(ctx), *ctx),
                forall|k: int| 0 <= k < i + 1 ==> has_rule_for(ctx.rules@, suffix_target_text(Some(#[trigger] sdeps[k].name@)), suffix_dep_names(None)),
                forall|k: int| 0 <= k < i + 1 && (#[trigger] suffixes@[k]).cmds is Some ==> has_null_suffix_rule(ctx.rules@, sdeps[k].name@),
            decreases suffixes@.len() - j,
        {
            let ghost c7 = *ctx;
            convert_suffix_pair(ctx, d, &suffixes[j]);
            proof {
                lemma_grows_trans(*old(ctx), c7, *ctx);
                lemma_keeps_rules_for(c7, *ctx, sdeps, i as int + 1);
                lemma_keeps_null_rules(c7, *ctx, suffixes@, sdeps, i as int + 1);
            }
            j += 1;
        }
        i += 1;
    }
    proof {
        assert forall|k: int| 0 <= k < sdeps.len() && file_has_recipe(old(ctx).files@, #[trigger] sdeps[k].name@) implies has_null_suffix_rule(
            ctx.rules@,
            sdeps[k].name@,
        ) by {
            assert(suffixes@[k].cmds is Some);
        }
    }
}

// ─── Laws ────────────────────────────────────────────────────────────────

/// The printed definition of a rule does not depend on its cache: filling
/// the cache (as [`Rule::rule_defn`] does) leaves the text it prints the same.
pub proof fn law_defn_independent_of_cache(r: Rule, cache: Option<Vec<u8>>)
    ensures
        defn_text(Rule { defn: cache, ..r }) == defn_text(r),
{
}

/// Installing a rule never breaks the database: every rule stays readable,
/// the rules before the replaced duplicate keep their places, and the rule
/// that went in is the last one.
pub proof fn law_install_keeps_order(rules: Seq<Rule>, rule: Rule, override_0: bool)
    requires
        rules_wf(rules),
        rule_wf(rule),
    ensures
        ({
            let (after, installed) = install_effect(rules, rule, override_0);
            &&& rules_wf(after)
            &&& installed ==> after.last() == rule
            &&& !installed ==> after == rules
            &&& installed && first_dup(rules, rule) is None ==> after.len() == rules.len() + 1
                && rules.is_prefix_of(after)
            &&& installed && first_dup(rules, rule) is Some ==> after.len() == rules.len()
            &&& (first_dup(rules, rule) matches Some(k) ==> after.subrange(0, k) == rules.subrange(0, k))
        }),
{
    lemma_first_dup_from(rules, rule, 0);
    let (after, installed) = install_effect(rules, rule, override_0);
    match first_dup(rules, rule) {
        Some(k) => {
            if override_0 {
                assert(after.subrange(0, k) =~= rules.subrange(0, k));
                assert forall|j: int| 0 <= j < after.len() implies #[trigger] rule_wf(after[j]) by {
                    if j < k {
                        assert(after[j] == rules[j]);
                    } else if j < after.len() - 1 {
                        assert(after[j] == rules[j + 1]);
                    }
                }
            } else {
                assert(after.subrange(0, k) =~= rules.subrange(0, k));
            }
        },
        None => {
            assert forall|j: int| 0 <= j < after.len() implies #[trigger] rule_wf(after[j]) by {
                if j < rules.len() {
                    assert(after[j] == rules[j]);
                }
            }
            assert(rules.is_prefix_of(after));
        },
    }
}

/// Installing the same built-in pattern rule twice is the same as
/// installing it once: the second install finds the first as a duplicate
/// and leaves the database as it was.
pub proof fn law_builtin_install_idempotent(
    rules: Seq<Rule>,
    after: Seq<Rule>,
    target: Seq<u8>,
    deps: Seq<DepNode>,
)
    requires
        !has_dup_of(rules, target, deps),
        after.len() == rules.len() + 1,
        after.drop_last() == rules,
        after.last().num == 1,
        after.last().targets@.len() == 1,
        after.last().targets@[0]@ == target,
        after.last().deps@ == deps,
    ensures
        has_dup_of(after, target, deps),
{
    let k = after.len() - 1;
    assert(all_targets_are(after[k], target));
    assert(same_dep_names(deps, after[k].deps@));
}

} // verus!
