//! Analyzer plugins: the configuration of plugin instances (which plugins,
//! their settings, their capabilities), their resource budgets, the paths
//! of their declared outputs, and the check on the provider ids they
//! publish.
//!
//! Configuration text is UTF-8; separators are ASCII, so splitting at a
//! separator byte splits at a character boundary, and trimming removes
//! Unicode white space as `str::trim` does.

pub mod host;
pub mod nodeset;
pub mod order;

use vstd::prelude::*;
use vstd::string::StringSliceAdditionalSpecFns;
use crate::parser::bytes_eq;
use crate::plugin::host::{
    caps_named, Caps, OutputSlot, EXPAND_VARIABLES, FAIL_BUILD, READ_ENVIRONMENT, READ_RECIPES, READ_VARIABLES,
    WALL_CLOCK, WRITE_OUTPUTS,
};
use crate::recipe::copy_bytes;
use crate::rule::{copy_slice, push_slice};

verus! {

/// Default fuel budget for one plugin instance.
pub const DEFAULT_FUEL: u64 = 20_000_000_000;

/// Default linear-memory ceiling for one plugin instance.
pub const DEFAULT_MEMORY_BYTES: usize = 536_870_912;

// ─── White space and splitting ───────────────────────────────────────────

/// The length of the white-space character at `i` that ends by `end`
/// (`0` when there is none): the ASCII ones, U+0085, U+00A0, U+1680,
/// U+2000 to U+200A, U+2028, U+2029, U+202F, U+205F and U+3000.
pub open spec fn ws_len_at(s: Seq<u8>, i: int, end: int) -> int {
    if !(0 <= i < end && end <= s.len()) {
        0
    } else if s[i] == 9 || s[i] == 10 || s[i] == 11 || s[i] == 12 || s[i] == 13 || s[i] == 32 {
        1
    } else if i + 2 <= end && s[i] == 0xc2 && (s[i + 1] == 0x85 || s[i + 1] == 0xa0) {
        2
    } else if i + 3 <= end && is_ws3(s[i], s[i + 1], s[i + 2]) {
        3
    } else {
        0
    }
}

/// The three-byte encodings of white space.
pub open spec fn is_ws3(a: u8, b: u8, c: u8) -> bool {
    ||| a == 0xe1 && b == 0x9a && c == 0x80
    ||| a == 0xe2 && b == 0x80 && (0x80 <= c <= 0x8a || c == 0xa8 || c == 0xa9 || c == 0xaf)
    ||| a == 0xe2 && b == 0x81 && c == 0x9f
    ||| a == 0xe3 && b == 0x80 && c == 0x80
}

/// The length of the white-space character that ends at `j` and starts at
/// or after `start` (`0` when there is none).
pub open spec fn ws_len_before(s: Seq<u8>, start: int, j: int) -> int {
    if !(0 <= start < j && j <= s.len()) {
        0
    } else if s[j - 1] == 9 || s[j - 1] == 10 || s[j - 1] == 11 || s[j - 1] == 12 || s[j - 1] == 13
        || s[j - 1] == 32 {
        1
    } else if start <= j - 2 && s[j - 2] == 0xc2 && (s[j - 1] == 0x85 || s[j - 1] == 0xa0) {
        2
    } else if start <= j - 3 && is_ws3(s[j - 3], s[j - 2], s[j - 1]) {
        3
    } else {
        0
    }
}

/// Where the text in `[i, end)` starts once its leading white space is
/// skipped.
pub open spec fn lead(s: Seq<u8>, i: int, end: int) -> int
    decreases end - i,
{
    if ws_len_at(s, i, end) > 0 {
        lead(s, i + ws_len_at(s, i, end), end)
    } else {
        i
    }
}

/// Where the text in `[start, j)` ends once its trailing white space is
/// dropped.
pub open spec fn trail(s: Seq<u8>, start: int, j: int) -> int
    decreases j - start,
{
    if ws_len_before(s, start, j) > 0 {
        trail(s, start, j - ws_len_before(s, start, j))
    } else {
        j
    }
}

/// The bounds of `[a, b)` trimmed of white space at both ends.
pub open spec fn trim_bounds(s: Seq<u8>, a: int, b: int) -> (int, int) {
    let a2 = lead(s, a, b);
    (a2, trail(s, a2, b))
}

/// The text of `[a, b)` trimmed of white space.
pub open spec fn trimmed(s: Seq<u8>, a: int, b: int) -> Seq<u8> {
    s.subrange(trim_bounds(s, a, b).0, trim_bounds(s, a, b).1)
}

/// The first index in `[i, end)` holding `b`, else `end`.
pub open spec fn find_in(s: Seq<u8>, b: u8, i: int, end: int) -> int
    decreases end - i,
{
    if i < end && s[i] != b {
        find_in(s, b, i + 1, end)
    } else {
        i
    }
}

pub proof fn lemma_lead(s: Seq<u8>, i: int, end: int)
    requires
        0 <= i <= end <= s.len(),
    ensures
        i <= lead(s, i, end) <= end,
    decreases end - i,
{
    if ws_len_at(s, i, end) > 0 {
        lemma_lead(s, i + ws_len_at(s, i, end), end);
    }
}

pub proof fn lemma_trail(s: Seq<u8>, start: int, j: int)
    requires
        0 <= start <= j <= s.len(),
    ensures
        start <= trail(s, start, j) <= j,
    decreases j - start,
{
    if ws_len_before(s, start, j) > 0 {
        lemma_trail(s, start, j - ws_len_before(s, start, j));
    }
}

pub proof fn lemma_find_in(s: Seq<u8>, b: u8, i: int, end: int)
    requires
        0 <= i <= end <= s.len(),
    ensures
        i <= find_in(s, b, i, end) <= end,
        find_in(s, b, i, end) < end ==> s[find_in(s, b, i, end)] == b,
    decreases end - i,
{
    if i < end && s[i] != b {
        lemma_find_in(s, b, i + 1, end);
    }
}

fn ws_len_at_exec(s: &[u8], i: usize, end: usize) -> (r: usize)
    requires
        end <= s@.len(),
    ensures
        r == ws_len_at(s@, i as int, end as int),
{
    if !(i < end) {
        return 0;
    }
    let c = s[i];
    if c == 9 || c == 10 || c == 11 || c == 12 || c == 13 || c == 32 {
        1
    } else if end - i >= 2 && c == 0xc2 && (s[i + 1] == 0x85 || s[i + 1] == 0xa0) {
        2
    } else if end - i >= 3 && is_ws3_exec(c, s[i + 1], s[i + 2]) {
        3
    } else {
        0
    }
}

fn is_ws3_exec(a: u8, b: u8, c: u8) -> (r: bool)
    ensures
        r == is_ws3(a, b, c),
{
    (a == 0xe1 && b == 0x9a && c == 0x80) || (a == 0xe2 && b == 0x80 && ((0x80 <= c && c <= 0x8a)
        || c == 0xa8 || c == 0xa9 || c == 0xaf)) || (a == 0xe2 && b == 0x81 && c == 0x9f) || (a
        == 0xe3 && b == 0x80 && c == 0x80)
}

fn ws_len_before_exec(s: &[u8], start: usize, j: usize) -> (r: usize)
    requires
        j <= s@.len(),
    ensures
        r == ws_len_before(s@, start as int, j as int),
{
    if !(start < j) {
        return 0;
    }
    let c = s[j - 1];
    if c == 9 || c == 10 || c == 11 || c == 12 || c == 13 || c == 32 {
        1
    } else if j - start >= 2 && s[j - 2] == 0xc2 && (c == 0x85 || c == 0xa0) {
        2
    } else if j - start >= 3 && is_ws3_exec(s[j - 3], s[j - 2], c) {
        3
    } else {
        0
    }
}

/// The bounds of `[a, b)` trimmed of white space.
fn trim_range(s: &[u8], a: usize, b: usize) -> (r: (usize, usize))
    requires
        a <= b <= s@.len(),
    ensures
        r.0 == trim_bounds(s@, a as int, b as int).0,
        r.1 == trim_bounds(s@, a as int, b as int).1,
        a <= r.0 <= r.1 <= b,
{
    let mut i = a;
    while ws_len_at_exec(s, i, b) > 0
        invariant
            a <= i <= b <= s@.len(),
            lead(s@, i as int, b as int) == lead(s@, a as int, b as int),
        decreases b - i,
    {
        i = i + ws_len_at_exec(s, i, b);
    }
    let mut j = b;
    while ws_len_before_exec(s, i, j) > 0
        invariant
            a <= i <= j <= b <= s@.len(),
            i == lead(s@, a as int, b as int),
            trail(s@, i as int, j as int) == trail(s@, i as int, b as int),
        decreases j - i,
    {
        j = j - ws_len_before_exec(s, i, j);
    }
    (i, j)
}

/// The first index in `[i, end)` holding `b`, else `end`.
fn find_byte_in(s: &[u8], b: u8, i: usize, end: usize) -> (r: usize)
    requires
        i <= end <= s@.len(),
    ensures
        r == find_in(s@, b, i as int, end as int),
        i <= r <= end,
{
    proof {
        lemma_find_in(s@, b, i as int, end as int);
    }
    let mut k = i;
    while k < end && s[k] != b
        invariant
            i <= k <= end <= s@.len(),
            find_in(s@, b, k as int, end as int) == find_in(s@, b, i as int, end as int),
        decreases end - k,
    {
        k += 1;
    }
    k
}

/// The pieces of `[start, end)` between the separators `sep`, as bounds
/// (an empty range is one empty piece).
pub open spec fn piece_bounds(s: Seq<u8>, sep: u8, start: int, end: int) -> Seq<(int, int)>
    decreases end - start,
{
    if !(0 <= start <= end && end <= s.len()) {
        Seq::empty()
    } else {
        let k = find_in(s, sep, start, end);
        if k >= end {
            seq![(start, end)]
        } else {
            proof {
                lemma_find_in(s, sep, start, end);
            }
            seq![(start, k)] + piece_bounds(s, sep, k + 1, end)
        }
    }
}

// ─── Settings ────────────────────────────────────────────────────────────

/// The settings of a plugin instance: keys with their values, each key once.
#[derive(Debug)]
pub struct Settings {
    pub entries: Vec<(Vec<u8>, Vec<u8>)>,
}

/// The settings as values.
pub open spec fn settings_view(e: Seq<(Vec<u8>, Vec<u8>)>) -> Seq<(Seq<u8>, Seq<u8>)> {
    e.map_values(|p: (Vec<u8>, Vec<u8>)| (p.0@, p.1@))
}

/// The value of `key` among the first `k` settings, the first one wins.
pub open spec fn setting_in(e: Seq<(Seq<u8>, Seq<u8>)>, key: Seq<u8>, k: int) -> Option<Seq<u8>>
    decreases e.len() - k,
{
    if !(0 <= k < e.len()) {
        None
    } else if e[k].0 == key {
        Some(e[k].1)
    } else {
        setting_in(e, key, k + 1)
    }
}

/// The value of `key`.
pub open spec fn setting(e: Seq<(Seq<u8>, Seq<u8>)>, key: Seq<u8>) -> Option<Seq<u8>> {
    setting_in(e, key, 0)
}

/// The settings after `key` is set to `value`: a present key keeps its
/// place and takes the value, a new key goes last.
pub open spec fn settings_insert(e: Seq<(Seq<u8>, Seq<u8>)>, key: Seq<u8>, value: Seq<u8>) -> Seq<(Seq<u8>, Seq<u8>)> {
    match index_of_key(e, key, 0) {
        Some(k) => e.update(k, (key, value)),
        None => e.push((key, value)),
    }
}

/// The index of the first setting of `key` at or after `k`.
pub open spec fn index_of_key(e: Seq<(Seq<u8>, Seq<u8>)>, key: Seq<u8>, k: int) -> Option<int>
    decreases e.len() - k,
{
    if !(0 <= k < e.len()) {
        None
    } else if e[k].0 == key {
        Some(k)
    } else {
        index_of_key(e, key, k + 1)
    }
}

pub proof fn lemma_index_of_key(e: Seq<(Seq<u8>, Seq<u8>)>, key: Seq<u8>, k: int)
    requires
        0 <= k <= e.len(),
    ensures
        index_of_key(e, key, k) matches Some(i) ==> k <= i < e.len() && e[i].0 == key,
        index_of_key(e, key, k) is None ==> forall|i: int| k <= i < e.len() ==> e[i].0 != key,
    decreases e.len() - k,
{
    if k < e.len() && e[k].0 != key {
        lemma_index_of_key(e, key, k + 1);
    }
}

impl Settings {
    /// No settings.
    pub fn new() -> (r: Settings)
        ensures
            r.entries@.len() == 0,
    {
        Settings { entries: Vec::new() }
    }

    /// The value of `key`, if set.
    pub fn get(&self, key: &[u8]) -> (r: Option<&Vec<u8>>)
        ensures
            r matches Some(v) ==> setting(settings_view(self.entries@), key@) == Some(v@),
            r is None ==> setting(settings_view(self.entries@), key@) is None,
    {
        let ghost e = settings_view(self.entries@);
        let mut k: usize = 0;
        while k < self.entries.len()
            invariant
                k <= self.entries@.len(),
                e == settings_view(self.entries@),
                setting_in(e, key@, k as int) == setting(e, key@),
            decreases self.entries@.len() - k,
        {
            if bytes_eq(self.entries[k].0.as_slice(), key) {
                return Some(&self.entries[k].1);
            }
            k += 1;
        }
        None
    }

    /// Set `key` to `value`, replacing an earlier value.
    pub fn insert(&mut self, key: Vec<u8>, value: Vec<u8>)
        ensures
            settings_view(final(self).entries@) == settings_insert(settings_view(old(self).entries@), key@, value@),
    {
        let ghost e = settings_view(self.entries@);
        let mut k: usize = 0;
        while k < self.entries.len()
            invariant
                k <= self.entries@.len(),
                e == settings_view(self.entries@),
                self.entries@ == old(self).entries@,
                index_of_key(e, key@, k as int) == index_of_key(e, key@, 0),
            decreases self.entries@.len() - k,
        {
            if bytes_eq(self.entries[k].0.as_slice(), key.as_slice()) {
                self.entries.set(k, (key, value));
                assert(settings_view(self.entries@) =~= e.update(k as int, (key@, value@)));
                return;
            }
            k += 1;
        }
        self.entries.push((key, value));
        assert(settings_view(self.entries@) =~= e.push((key@, value@)));
    }
}

// ─── Instances ───────────────────────────────────────────────────────────

/// The stem of a path's file name (`Path::file_stem`), as bytes.
pub uninterp spec fn path_file_stem(path: Seq<u8>) -> Option<Seq<u8>>;

/// The file stem of `path` through `std::path::Path::file_stem`: the file
/// name without its extension (`foo` for `/lib/foo.wasm`), `None` when the
/// path has no file name. The contract only names the result: it is a
/// function of the path alone.
#[verifier::external_body]
fn file_stem(path: &[u8]) -> (r: Option<Vec<u8>>)
    ensures
        r matches Some(v) ==> path_file_stem(path@) == Some(v@),
        r is None ==> path_file_stem(path@) is None,
{
    let p = String::from_utf8_lossy(path);
    match std::path::Path::new(p.as_ref()).file_stem() {
        Some(s) => Some(s.to_string_lossy().into_owned().into_bytes()),
        None => None,
    }
}

/// One configured plugin instance.
#[derive(Debug)]
pub struct InstanceSpec {
    /// The name it was configured under, e.g. `compdb`.
    pub name: Vec<u8>,
    pub path: Vec<u8>,
    pub settings: Settings,
    pub allowed: Caps,
}

/// An instance as values: name, path, settings, allowed capability bits.
pub type InstanceView = (Seq<u8>, Seq<u8>, Seq<(Seq<u8>, Seq<u8>)>, u16);

/// The instance as values.
pub open spec fn instance_view(i: InstanceSpec) -> InstanceView {
    (i.name@, i.path@, settings_view(i.settings.entries@), i.allowed.bits)
}

/// The instances as values.
pub open spec fn instances_view(v: Seq<InstanceSpec>) -> Seq<InstanceView> {
    v.map_values(|i: InstanceSpec| instance_view(i))
}

/// The capabilities every instance starts with.
pub open spec fn default_grant_bits() -> u16 {
    READ_RECIPES | READ_VARIABLES | WRITE_OUTPUTS
}

/// The instance one `MAKERS_PLUGINS` entry `[a, b)` of `s` configures:
/// `name=path` (both trimmed), or a bare path named after its file stem
/// (`plugin` when it has none); an entry that is blank configures none.
pub open spec fn plugin_entry(s: Seq<u8>, a: int, b: int) -> Option<InstanceView> {
    let (ta, tb) = trim_bounds(s, a, b);
    if ta >= tb {
        None
    } else {
        let k = find_in(s, '=' as u8, ta, tb);
        if k < tb {
            Some((trimmed(s, ta, k), trimmed(s, k + 1, tb), Seq::empty(), default_grant_bits()))
        } else {
            let path = s.subrange(ta, tb);
            let name = match path_file_stem(path) {
                Some(st) => st,
                None => "plugin".spec_bytes(),
            };
            Some((name, path, Seq::empty(), default_grant_bits()))
        }
    }
}

/// The instances the first `k` entries configure.
pub open spec fn plugin_entries(s: Seq<u8>, pieces: Seq<(int, int)>, k: int) -> Seq<InstanceView>
    decreases k,
{
    if k <= 0 {
        Seq::empty()
    } else {
        let before = plugin_entries(s, pieces, k - 1);
        match plugin_entry(s, pieces[k - 1].0, pieces[k - 1].1) {
            Some(v) => before.push(v),
            None => before,
        }
    }
}

/// The instances `MAKERS_PLUGINS` (`s`, comma-separated) configures.
pub open spec fn plugins_configured(s: Seq<u8>) -> Seq<InstanceView> {
    let pieces = piece_bounds(s, ',' as u8, 0, s.len() as int);
    plugin_entries(s, pieces, pieces.len() as int)
}

/// The view of an optional text, empty when absent.
pub open spec fn text_or_empty(o: Option<&str>) -> Seq<u8> {
    match o {
        Some(t) => t.spec_bytes(),
        None => Seq::empty(),
    }
}

pub proof fn lemma_piece_bounds(s: Seq<u8>, sep: u8, start: int, end: int)
    requires
        0 <= start <= end <= s.len(),
    ensures
        piece_bounds(s, sep, start, end).len() >= 1,
        forall|k: int|
            0 <= k < piece_bounds(s, sep, start, end).len() ==> start <= #[trigger] piece_bounds(
                s,
                sep,
                start,
                end,
            )[k].0 <= piece_bounds(s, sep, start, end)[k].1 <= end,
    decreases end - start,
{
    lemma_find_in(s, sep, start, end);
    let k = find_in(s, sep, start, end);
    if k < end {
        lemma_piece_bounds(s, sep, k + 1, end);
    }
}

/// Walk the pieces of `[start, end)` separated by `sep`: each call gives the
/// next piece's end and whether it is the last.
fn next_piece(s: &[u8], sep: u8, start: usize, end: usize) -> (r: usize)
    requires
        start <= end <= s@.len(),
    ensures
        r == find_in(s@, sep, start as int, end as int),
        start <= r <= end,
        piece_bounds(s@, sep, start as int, end as int) == if r >= end {
            seq![(start as int, end as int)]
        } else {
            seq![(start as int, r as int)] + piece_bounds(s@, sep, r + 1, end as int)
        },
{
    find_byte_in(s, sep, start, end)
}

/// The instance one `MAKERS_PLUGINS` entry configures, if any.
fn plugin_entry_exec(s: &[u8], a: usize, b: usize) -> (r: Option<InstanceSpec>)
    requires
        a <= b <= s@.len(),
    ensures
        r is None ==> plugin_entry(s@, a as int, b as int) is None,
        r matches Some(i) ==> plugin_entry(s@, a as int, b as int) == Some(instance_view(i)),
{
    let (ta, tb) = trim_range(s, a, b);
    if ta >= tb {
        return None;
    }
    let k = find_byte_in(s, '=' as u8, ta, tb);
    let mut settings = Settings::new();
    assert(settings_view(settings.entries@) =~= Seq::empty());
    if k < tb {
        let (na, nb) = trim_range(s, ta, k);
        let (pa, pb) = trim_range(s, k + 1, tb);
        let mut name: Vec<u8> = Vec::new();
        push_slice(&mut name, &s[na..nb]);
        let mut path: Vec<u8> = Vec::new();
        push_slice(&mut path, &s[pa..pb]);
        Some(InstanceSpec { name, path, settings, allowed: Caps::default_grant() })
    } else {
        let mut path: Vec<u8> = Vec::new();
        push_slice(&mut path, &s[ta..tb]);
        let name = match file_stem(path.as_slice()) {
            Some(st) => st,
            None => {
                let mut v: Vec<u8> = Vec::new();
                push_slice(&mut v, "plugin".as_bytes());
                v
            },
        };
        Some(InstanceSpec { name, path, settings, allowed: Caps::default_grant() })
    }
}

/// The instances `MAKERS_PLUGINS` configures.
fn configured_from_plugins(text: &[u8]) -> (r: Vec<InstanceSpec>)
    ensures
        instances_view(r@) == plugins_configured(text@),
{
    let mut specs: Vec<InstanceSpec> = Vec::new();
    let ghost pieces = piece_bounds(text@, ',' as u8, 0, text@.len() as int);
    let ghost mut done: int = 0;
    let mut start: usize = 0;
    proof {
        lemma_piece_bounds(text@, ',' as u8, 0, text@.len() as int);
    }
    loop
        invariant
            start <= text@.len(),
            0 <= done < pieces.len(),
            pieces == piece_bounds(text@, ',' as u8, 0, text@.len() as int),
            pieces.subrange(done, pieces.len() as int) == piece_bounds(text@, ',' as u8, start as int, text@.len() as int),
            instances_view(specs@) == plugin_entries(text@, pieces, done),
        decreases text@.len() - start,
    {
        let k = next_piece(text, ',' as u8, start, text.len());
        proof {
            assert(pieces[done] == pieces.subrange(done, pieces.len() as int)[0]);
        }
        let entry = plugin_entry_exec(text, start, k);
        let ghost before = specs@;
        match entry {
            Some(i) => {
                specs.push(i);
                assert(instances_view(specs@) =~= instances_view(before).push(instance_view(specs@.last())));
            },
            None => {},
        }
        proof {
            done = done + 1;
        }
        if k >= text.len() {
            assert(pieces.subrange(done - 1, pieces.len() as int).len() == 1);
            return specs;
        }
        proof {
            assert(pieces.subrange(done, pieces.len() as int) =~= pieces.subrange(done - 1, pieces.len() as int).drop_first());
            lemma_piece_bounds(text@, ',' as u8, k + 1, text@.len() as int);
        }
        start = k + 1;
    }
}

/// The instances after one `MAKERS_PLUGIN_ARGS` entry `[a, b)` of `s`,
/// `instance.key=value`: every instance of that name gets `key` set to the
/// trimmed value. An entry without `=` or without `.` before it changes
/// nothing.
pub open spec fn arg_entry(specs: Seq<InstanceView>, s: Seq<u8>, a: int, b: int) -> Seq<InstanceView> {
    let (ta, tb) = trim_bounds(s, a, b);
    let k = find_in(s, '=' as u8, ta, tb);
    if k >= tb {
        specs
    } else {
        let (la, lb) = trim_bounds(s, ta, k);
        let m = find_in(s, '.' as u8, la, lb);
        if m >= lb {
            specs
        } else {
            let inst = s.subrange(la, m);
            let key = s.subrange(m + 1, lb);
            let value = trimmed(s, k + 1, tb);
            specs.map_values(
                |v: InstanceView|
                    if v.0 == inst {
                        (v.0, v.1, settings_insert(v.2, key, value), v.3)
                    } else {
                        v
                    },
            )
        }
    }
}

/// The instances after the first `k` argument entries.
pub open spec fn arg_entries(specs: Seq<InstanceView>, s: Seq<u8>, pieces: Seq<(int, int)>, k: int) -> Seq<InstanceView>
    decreases k,
{
    if k <= 0 {
        specs
    } else {
        arg_entry(arg_entries(specs, s, pieces, k - 1), s, pieces[k - 1].0, pieces[k - 1].1)
    }
}

/// Apply one argument entry to the instances.
fn apply_arg_entry(specs: &mut Vec<InstanceSpec>, s: &[u8], a: usize, b: usize)
    requires
        a <= b <= s@.len(),
    ensures
        instances_view(final(specs)@) == arg_entry(instances_view(old(specs)@), s@, a as int, b as int),
{
    let ghost v0 = instances_view(specs@);
    let (ta, tb) = trim_range(s, a, b);
    let k = find_byte_in(s, '=' as u8, ta, tb);
    if k >= tb {
        return;
    }
    let (la, lb) = trim_range(s, ta, k);
    let m = find_byte_in(s, '.' as u8, la, lb);
    if m >= lb {
        return;
    }
    let (va, vb) = trim_range(s, k + 1, tb);
    let inst = &s[la..m];
    let ghost key = s@.subrange(m + 1, lb as int);
    let ghost value = s@.subrange(va as int, vb as int);
    let mut i: usize = 0;
    while i < specs.len()
        invariant
            i <= specs@.len(),
            specs@.len() == old(specs)@.len(),
            v0 == instances_view(old(specs)@),
            la <= m,
            inst@ == s@.subrange(la as int, m as int),
            m + 1 <= lb <= s@.len(),
            va <= vb <= s@.len(),
            key == s@.subrange(m + 1, lb as int),
            value == s@.subrange(va as int, vb as int),
            forall|j: int|
                0 <= j < i ==> #[trigger] instance_view(specs@[j]) == (if v0[j].0 == inst@ {
                    (v0[j].0, v0[j].1, settings_insert(v0[j].2, key, value), v0[j].3)
                } else {
                    v0[j]
                }),
            forall|j: int| i <= j < specs@.len() ==> #[trigger] specs@[j] == old(specs)@[j],
        decreases specs@.len() - i,
    {
        if bytes_eq(specs[i].name.as_slice(), inst) {
            let mut key_v: Vec<u8> = Vec::new();
            push_slice(&mut key_v, &s[m + 1..lb]);
            let mut value_v: Vec<u8> = Vec::new();
            push_slice(&mut value_v, &s[va..vb]);
            let ghost before = specs@[i as int];
            specs[i].settings.insert(key_v, value_v);
            assert(instance_view(specs@[i as int]) == (before.name@, before.path@, settings_insert(
                settings_view(before.settings.entries@),
                key,
                value,
            ), before.allowed.bits));
        }
        i += 1;
    }
    assert(instances_view(specs@) =~= arg_entry(v0, s@, a as int, b as int));
}

/// The warning for an unknown capability name in the list `var`.
pub open spec fn unknown_cap_warning(var: Seq<u8>, name: Seq<u8>) -> Seq<u8> {
    "make: ".spec_bytes() + var + ": unknown capability `".spec_bytes() + name + "`".spec_bytes()
}

/// The capability bits named by the first `k` comma-separated names, and a
/// warning for each unknown one (blank names are skipped).
pub open spec fn caps_fold(s: Seq<u8>, pieces: Seq<(int, int)>, k: int, var: Seq<u8>) -> (u16, Seq<Seq<u8>>)
    decreases k,
{
    if k <= 0 {
        (0u16, Seq::empty())
    } else {
        let (m, w) = caps_fold(s, pieces, k - 1, var);
        let name = trimmed(s, pieces[k - 1].0, pieces[k - 1].1);
        if name.len() == 0 {
            (m, w)
        } else {
            match caps_named(name) {
                Some(c) => (m | c, w),
                None => (m, w.push(unknown_cap_warning(var, name))),
            }
        }
    }
}

/// The instances and warnings after one policy entry `[a, b)` of `s`,
/// `target:cap,cap` (a bare cap list, or the target `*`, addresses every
/// instance): the named capabilities are added (`grant`) to or removed from
/// each addressed instance.
pub open spec fn policy_entry(
    specs: Seq<InstanceView>,
    warns: Seq<Seq<u8>>,
    s: Seq<u8>,
    a: int,
    b: int,
    var: Seq<u8>,
    grant: bool,
) -> (Seq<InstanceView>, Seq<Seq<u8>>) {
    let (ta, tb) = trim_bounds(s, a, b);
    if ta >= tb {
        (specs, warns)
    } else {
        let k = find_in(s, ':' as u8, ta, tb);
        let all = k >= tb || trimmed(s, ta, k) == "*".spec_bytes();
        let target = if k < tb {
            trimmed(s, ta, k)
        } else {
            Seq::empty()
        };
        let ca = if k < tb {
            k + 1
        } else {
            ta
        };
        let cps = piece_bounds(s, ',' as u8, ca, tb);
        let (mask, w) = caps_fold(s, cps, cps.len() as int, var);
        (
            specs.map_values(
                |v: InstanceView|
                    if all || v.0 == target {
                        (v.0, v.1, v.2, if grant {
                            v.3 | mask
                        } else {
                            v.3 & !mask
                        })
                    } else {
                        v
                    },
            ),
            warns + w,
        )
    }
}

/// The instances and warnings after the first `k` policy entries.
pub open spec fn policy_entries(
    specs: Seq<InstanceView>,
    warns: Seq<Seq<u8>>,
    s: Seq<u8>,
    pieces: Seq<(int, int)>,
    k: int,
    var: Seq<u8>,
    grant: bool,
) -> (Seq<InstanceView>, Seq<Seq<u8>>)
    decreases k,
{
    if k <= 0 {
        (specs, warns)
    } else {
        let (sp, w) = policy_entries(specs, warns, s, pieces, k - 1, var, grant);
        policy_entry(sp, w, s, pieces[k - 1].0, pieces[k - 1].1, var, grant)
    }
}

/// The warnings as values.
pub open spec fn warnings_view(w: Seq<Vec<u8>>) -> Seq<Seq<u8>> {
    w.map_values(|x: Vec<u8>| x@)
}

/// The capability mask of the names in `[ca, cb)`, pushing a warning for
/// each unknown one.
fn caps_mask(s: &[u8], ca: usize, cb: usize, var: &[u8], warnings: &mut Vec<Vec<u8>>) -> (r: u16)
    requires
        ca <= cb <= s@.len(),
    ensures
        ({
            let cps = piece_bounds(s@, ',' as u8, ca as int, cb as int);
            let (mask, w) = caps_fold(s@, cps, cps.len() as int, var@);
            &&& r == mask
            &&& warnings_view(final(warnings)@) == warnings_view(old(warnings)@) + w
        }),
{
    let ghost cps = piece_bounds(s@, ',' as u8, ca as int, cb as int);
    let ghost mut done: int = 0;
    let mut mask: u16 = 0;
    let mut start = ca;
    proof {
        lemma_piece_bounds(s@, ',' as u8, ca as int, cb as int);
        assert(warnings_view(warnings@) =~= warnings_view(old(warnings)@) + caps_fold(s@, cps, 0, var@).1);
    }
    loop
        invariant
            ca <= start <= cb <= s@.len(),
            0 <= done < cps.len(),
            cps == piece_bounds(s@, ',' as u8, ca as int, cb as int),
            cps.subrange(done, cps.len() as int) == piece_bounds(s@, ',' as u8, start as int, cb as int),
            mask == caps_fold(s@, cps, done, var@).0,
            warnings_view(warnings@) == warnings_view(old(warnings)@) + caps_fold(s@, cps, done, var@).1,
        decreases cb - start,
    {
        let k = next_piece(s, ',' as u8, start, cb);
        proof {
            assert(cps[done] == cps.subrange(done, cps.len() as int)[0]);
        }
        let (na, nb) = trim_range(s, start, k);
        if na < nb {
            match parse_cap_slice(&s[na..nb]) {
                Some(c) => {
                    mask = mask | c;
                },
                None => {
                    let ghost before = warnings@;
                    let mut msg: Vec<u8> = Vec::new();
                    push_slice(&mut msg, "make: ".as_bytes());
                    push_slice(&mut msg, var);
                    push_slice(&mut msg, ": unknown capability `".as_bytes());
                    push_slice(&mut msg, &s[na..nb]);
                    push_slice(&mut msg, "`".as_bytes());
                    warnings.push(msg);
                    assert(warnings_view(warnings@) =~= warnings_view(before).push(
                        unknown_cap_warning(var@, s@.subrange(na as int, nb as int)),
                    ));
                },
            }
        }
        proof {
            done = done + 1;
            assert(warnings_view(warnings@) =~= warnings_view(old(warnings)@) + caps_fold(s@, cps, done, var@).1);
        }
        if k >= cb {
            assert(cps.subrange(done - 1, cps.len() as int).len() == 1);
            return mask;
        }
        proof {
            assert(cps.subrange(done, cps.len() as int) =~= cps.subrange(done - 1, cps.len() as int).drop_first());
            lemma_piece_bounds(s@, ',' as u8, k + 1, cb as int);
        }
        start = k + 1;
    }
}

/// The capability bits a name stands for.
fn parse_cap_slice(name: &[u8]) -> (r: Option<u16>)
    ensures
        r == caps_named(name@),
{
    crate::plugin::host::parse_cap_bytes(name)
}

/// Apply one policy entry to the instances.
fn apply_policy_entry(
    specs: &mut Vec<InstanceSpec>,
    warnings: &mut Vec<Vec<u8>>,
    s: &[u8],
    a: usize,
    b: usize,
    var: &[u8],
    grant: bool,
)
    requires
        a <= b <= s@.len(),
    ensures
        (instances_view(final(specs)@), warnings_view(final(warnings)@)) == policy_entry(
            instances_view(old(specs)@),
            warnings_view(old(warnings)@),
            s@,
            a as int,
            b as int,
            var@,
            grant,
        ),
{
    let ghost v0 = instances_view(specs@);
    let (ta, tb) = trim_range(s, a, b);
    if ta >= tb {
        return;
    }
    let k = find_byte_in(s, ':' as u8, ta, tb);
    let (all, target_a, target_b, ca) = if k < tb {
        let (x, y) = trim_range(s, ta, k);
        let is_star = bytes_eq(&s[x..y], "*".as_bytes());
        (is_star, x, y, k + 1)
    } else {
        (true, ta, ta, ta)
    };
    let mask = caps_mask(s, ca, tb, var, warnings);
    let ghost target = if k < tb {
        trimmed(s@, ta as int, k as int)
    } else {
        Seq::<u8>::empty()
    };
    assert(s@.subrange(target_a as int, target_b as int) == target);
    let mut i: usize = 0;
    while i < specs.len()
        invariant
            i <= specs@.len(),
            specs@.len() == old(specs)@.len(),
            v0 == instances_view(old(specs)@),
            target_a <= target_b <= s@.len(),
            s@.subrange(target_a as int, target_b as int) == target,
            forall|j: int|
                0 <= j < i ==> #[trigger] instance_view(specs@[j]) == (if all || v0[j].0 == target {
                    (v0[j].0, v0[j].1, v0[j].2, if grant {
                        v0[j].3 | mask
                    } else {
                        v0[j].3 & !mask
                    })
                } else {
                    v0[j]
                }),
            forall|j: int| i <= j < specs@.len() ==> #[trigger] specs@[j] == old(specs)@[j],
        decreases specs@.len() - i,
    {
        if all || bytes_eq(specs[i].name.as_slice(), &s[target_a..target_b]) {
            let cur = specs[i].allowed;
            let m = Caps { bits: mask };
            specs[i].allowed = if grant {
                cur.union(m)
            } else {
                cur.difference(m)
            };
        }
        i += 1;
    }
    assert(instances_view(specs@) =~= policy_entry(v0, warnings_view(old(warnings)@), s@, a as int, b as int, var@, grant).0);
}

/// Apply one `instance:cap,cap;instance:cap` policy list (absent means
/// empty), adding to (`grant`) or taking from each instance's allowed
/// capabilities; each unknown capability name gives a warning naming the
/// list `var`.
pub fn apply_capability_policy(
    specs: &mut Vec<InstanceSpec>,
    var: &str,
    policy: Option<&str>,
    grant: bool,
    warnings: &mut Vec<Vec<u8>>,
)
    ensures
        ({
            let p = text_or_empty(policy);
            let pieces = piece_bounds(p, ';' as u8, 0, p.len() as int);
            (instances_view(final(specs)@), warnings_view(final(warnings)@)) == policy_entries(
                instances_view(old(specs)@),
                warnings_view(old(warnings)@),
                p,
                pieces,
                pieces.len() as int,
                var.spec_bytes(),
                grant,
            )
        }),
{
    let text: &[u8] = match policy {
        Some(t) => t.as_bytes(),
        None => &[],
    };
    let vb = var.as_bytes();
    let ghost pieces = piece_bounds(text@, ';' as u8, 0, text@.len() as int);
    let ghost mut done: int = 0;
    let mut start: usize = 0;
    proof {
        lemma_piece_bounds(text@, ';' as u8, 0, text@.len() as int);
    }
    loop
        invariant
            start <= text@.len(),
            0 <= done < pieces.len(),
            text@ == text_or_empty(policy),
            vb@ == var.spec_bytes(),
            pieces == piece_bounds(text@, ';' as u8, 0, text@.len() as int),
            pieces.subrange(done, pieces.len() as int) == piece_bounds(text@, ';' as u8, start as int, text@.len() as int),
            (instances_view(specs@), warnings_view(warnings@)) == policy_entries(
                instances_view(old(specs)@),
                warnings_view(old(warnings)@),
                text@,
                pieces,
                done,
                vb@,
                grant,
            ),
        decreases text@.len() - start,
    {
        let k = next_piece(text, ';' as u8, start, text.len());
        proof {
            assert(pieces[done] == pieces.subrange(done, pieces.len() as int)[0]);
        }
        apply_policy_entry(specs, warnings, text, start, k, vb, grant);
        proof {
            done = done + 1;
        }
        if k >= text.len() {
            assert(pieces.subrange(done - 1, pieces.len() as int).len() == 1);
            return;
        }
        proof {
            assert(pieces.subrange(done, pieces.len() as int) =~= pieces.subrange(done - 1, pieces.len() as int).drop_first());
            lemma_piece_bounds(text@, ';' as u8, k + 1, text@.len() as int);
        }
        start = k + 1;
    }
}

/// Apply every `;`-separated argument entry of `text` to the instances.
fn apply_arg_entries(specs: &mut Vec<InstanceSpec>, text: &[u8])
    ensures
        ({
            let pieces = piece_bounds(text@, ';' as u8, 0, text@.len() as int);
            instances_view(final(specs)@) == arg_entries(instances_view(old(specs)@), text@, pieces, pieces.len() as int)
        }),
{
    let ghost pieces = piece_bounds(text@, ';' as u8, 0, text@.len() as int);
    let ghost mut done: int = 0;
    let mut start: usize = 0;
    proof {
        lemma_piece_bounds(text@, ';' as u8, 0, text@.len() as int);
    }
    loop
        invariant
            start <= text@.len(),
            0 <= done < pieces.len(),
            pieces == piece_bounds(text@, ';' as u8, 0, text@.len() as int),
            pieces.subrange(done, pieces.len() as int) == piece_bounds(text@, ';' as u8, start as int, text@.len() as int),
            instances_view(specs@) == arg_entries(instances_view(old(specs)@), text@, pieces, done),
        decreases text@.len() - start,
    {
        let k = next_piece(text, ';' as u8, start, text.len());
        proof {
            assert(pieces[done] == pieces.subrange(done, pieces.len() as int)[0]);
        }
        apply_arg_entry(specs, text, start, k);
        proof {
            done = done + 1;
        }
        if k >= text.len() {
            assert(pieces.subrange(done - 1, pieces.len() as int).len() == 1);
            return;
        }
        proof {
            assert(pieces.subrange(done, pieces.len() as int) =~= pieces.subrange(done - 1, pieces.len() as int).drop_first());
            lemma_piece_bounds(text@, ';' as u8, k + 1, text@.len() as int);
        }
        start = k + 1;
    }
}

/// The instances, and the warnings, the five configuration variables give:
/// the `MAKERS_PLUGINS` entries, then the legacy single extension as the
/// instance `default`, then the arguments, then the allow and deny lists.
pub open spec fn instances_configured(
    plugins: Option<&str>,
    legacy_extension: Option<&str>,
    args: Option<&str>,
    allow: Option<&str>,
    deny: Option<&str>,
    warns: Seq<Seq<u8>>,
) -> (Seq<InstanceView>, Seq<Seq<u8>>) {
    let s1 = plugins_configured(text_or_empty(plugins));
    let s2 = match legacy_extension {
        Some(l) => if l.spec_bytes().len() > 0 {
            s1.push(("default".spec_bytes(), l.spec_bytes(), Seq::empty(), default_grant_bits()))
        } else {
            s1
        },
        None => s1,
    };
    let a = text_or_empty(args);
    let ap = piece_bounds(a, ';' as u8, 0, a.len() as int);
    let s3 = arg_entries(s2, a, ap, ap.len() as int);
    let al = text_or_empty(allow);
    let alp = piece_bounds(al, ';' as u8, 0, al.len() as int);
    let (s4, w1) = policy_entries(s3, warns, al, alp, alp.len() as int, "MAKERS_PLUGIN_ALLOW".spec_bytes(), true);
    let de = text_or_empty(deny);
    let dep = piece_bounds(de, ';' as u8, 0, de.len() as int);
    policy_entries(s4, w1, de, dep, dep.len() as int, "MAKERS_PLUGIN_DENY".spec_bytes(), false)
}

/// Parse the plugin configuration: `plugins` (`name=path` or bare paths,
/// comma-separated), the legacy single extension, the arguments
/// (`instance.key=value`, semicolon-separated) and the allow and deny
/// capability lists. Unknown capability names give warnings.
pub fn parse_instances(
    plugins: Option<&str>,
    legacy_extension: Option<&str>,
    args: Option<&str>,
    allow: Option<&str>,
    deny: Option<&str>,
    warnings: &mut Vec<Vec<u8>>,
) -> (r: Vec<InstanceSpec>)
    ensures
        (instances_view(r@), warnings_view(final(warnings)@)) == instances_configured(
            plugins,
            legacy_extension,
            args,
            allow,
            deny,
            warnings_view(old(warnings)@),
        ),
{
    let ptext: &[u8] = match plugins {
        Some(t) => t.as_bytes(),
        None => &[],
    };
    assert(ptext@ == text_or_empty(plugins));
    let mut specs = configured_from_plugins(ptext);
    match legacy_extension {
        Some(l) => {
            if l.as_bytes().len() > 0 {
                let ghost before = instances_view(specs@);
                let mut name: Vec<u8> = Vec::new();
                push_slice(&mut name, "default".as_bytes());
                let mut path: Vec<u8> = Vec::new();
                push_slice(&mut path, l.as_bytes());
                let settings = Settings::new();
                assert(settings_view(settings.entries@) =~= Seq::empty());
                specs.push(InstanceSpec { name, path, settings, allowed: Caps::default_grant() });
                assert(instances_view(specs@) =~= before.push(instance_view(specs@.last())));
            }
        },
        None => {},
    }
    let atext: &[u8] = match args {
        Some(t) => t.as_bytes(),
        None => &[],
    };
    assert(atext@ == text_or_empty(args));
    apply_arg_entries(&mut specs, atext);
    apply_capability_policy(&mut specs, "MAKERS_PLUGIN_ALLOW", allow, true, warnings);
    apply_capability_policy(&mut specs, "MAKERS_PLUGIN_DENY", deny, false, warnings);
    specs
}

// ─── Budgets and outputs ─────────────────────────────────────────────────

/// The decimal number `s` spells (`str::parse` for an unsigned integer: an
/// optional `+`, then at least one digit), if it fits below `max + 1`.
pub open spec fn decimal_value(s: Seq<u8>, max: int) -> Option<int> {
    let d = unsigned_digits(s);
    if d.len() == 0 || !all_digits(d) {
        None
    } else if digits_value(d, d.len() as int) > max {
        None
    } else {
        Some(digits_value(d, d.len() as int))
    }
}

/// `s` without a leading `+`.
pub open spec fn unsigned_digits(s: Seq<u8>) -> Seq<u8> {
    if s.len() > 0 && s[0] == '+' as u8 {
        s.subrange(1, s.len() as int)
    } else {
        s
    }
}

/// Every byte of `d` is a decimal digit.
pub open spec fn all_digits(d: Seq<u8>) -> bool {
    forall|i: int| 0 <= i < d.len() ==> '0' as u8 <= #[trigger] d[i] <= '9' as u8
}

/// The value of the first `k` decimal digits of `d`.
pub open spec fn digits_value(d: Seq<u8>, k: int) -> int
    decreases k,
{
    if k <= 0 {
        0
    } else {
        digits_value(d, k - 1) * 10 + (d[k - 1] - '0' as u8)
    }
}

pub proof fn lemma_digits_value_mono(d: Seq<u8>, k: int)
    requires
        0 <= k <= d.len(),
        forall|i: int| 0 <= i < d.len() ==> '0' as u8 <= #[trigger] d[i] <= '9' as u8,
    ensures
        digits_value(d, k) >= 0,
        forall|j: int| k <= j <= d.len() ==> #[trigger] digits_value(d, j) >= digits_value(d, k),
    decreases d.len() - k,
{
    if k < d.len() {
        lemma_digits_value_mono(d, k + 1);
    }
    lemma_digits_nonneg(d, k);
}

proof fn lemma_digits_nonneg(d: Seq<u8>, k: int)
    requires
        0 <= k <= d.len(),
        forall|i: int| 0 <= i < d.len() ==> '0' as u8 <= #[trigger] d[i] <= '9' as u8,
    ensures
        digits_value(d, k) >= 0,
    decreases k,
{
    if k > 0 {
        lemma_digits_nonneg(d, k - 1);
    }
}

/// Parse an unsigned decimal number no larger than `max`.
pub fn parse_decimal(s: &[u8], max: u64) -> (r: Option<u64>)
    ensures
        r matches Some(v) ==> decimal_value(s@, max as int) == Some(v as int),
        r is None ==> decimal_value(s@, max as int) is None,
{
    let start: usize = if s.len() > 0 && s[0] == '+' as u8 {
        1
    } else {
        0
    };
    let ghost d = unsigned_digits(s@);
    assert(d =~= s@.subrange(start as int, s@.len() as int));
    if start >= s.len() {
        return None;
    }
    let mut i = start;
    while i < s.len()
        invariant
            start <= i <= s@.len(),
            d == s@.subrange(start as int, s@.len() as int),
            d == unsigned_digits(s@),
            forall|j: int| 0 <= j < i - start ==> '0' as u8 <= #[trigger] d[j] <= '9' as u8,
        decreases s@.len() - i,
    {
        if !('0' as u8 <= s[i] && s[i] <= '9' as u8) {
            assert(s@[i as int] == d[i - start]);
            assert(!('0' as u8 <= d[i - start] <= '9' as u8));
            assert(!all_digits(d));
            return None;
        }
        i += 1;
    }
    let mut v: u64 = 0;
    let mut k = start;
    proof {
        lemma_digits_value_mono(d, 0);
    }
    while k < s.len()
        invariant
            start <= k <= s@.len(),
            start < s@.len(),
            d == s@.subrange(start as int, s@.len() as int),
            d == unsigned_digits(s@),
            forall|j: int| 0 <= j < d.len() ==> '0' as u8 <= #[trigger] d[j] <= '9' as u8,
            v == digits_value(d, k - start),
            v <= max,
        decreases s@.len() - k,
    {
        assert(s@[k as int] == d[k - start]);
        assert('0' as u8 <= d[k - start] <= '9' as u8);
        let digit = (s[k] - '0' as u8) as u64;
        if digit > max || v > (max - digit) / 10 {
            proof {
                assert(digits_value(d, k - start + 1) == v * 10 + digit);
                if digit <= max {
                    assert(v * 10 + digit > max) by (nonlinear_arith)
                        requires
                            v > (max - digit) / 10,
                            digit <= max,
                    ;
                }
                lemma_digits_value_mono(d, k - start + 1);
                assert(digits_value(d, d.len() as int) >= digits_value(d, k - start + 1));
            }
            return None;
        }
        proof {
            assert(v * 10 + digit <= max) by (nonlinear_arith)
                requires
                    v <= (max - digit) / 10,
                    digit <= max,
            ;
        }
        v = v * 10 + digit;
        k += 1;
    }
    Some(v)
}

/// The number setting `key` holds, else `default`.
pub open spec fn setting_number(e: Seq<(Seq<u8>, Seq<u8>)>, key: Seq<u8>, max: int, default: int) -> int {
    match setting(e, key) {
        Some(v) => match decimal_value(v, max) {
            Some(n) => n,
            None => default,
        },
        None => default,
    }
}

/// The fuel budget of an instance: its `fuel` setting when that is a
/// number, else the default.
pub fn fuel_budget(settings: &Settings) -> (r: u64)
    ensures
        r == setting_number(settings_view(settings.entries@), "fuel".spec_bytes(), u64::MAX as int, DEFAULT_FUEL as int),
{
    match settings.get("fuel".as_bytes()) {
        Some(v) => match parse_decimal(v.as_slice(), u64::MAX) {
            Some(n) => n,
            None => DEFAULT_FUEL,
        },
        None => DEFAULT_FUEL,
    }
}

/// The linear-memory ceiling of an instance: its `memory-bytes` setting when
/// that is a number, else the default.
pub fn memory_limit(settings: &Settings) -> (r: usize)
    ensures
        r == setting_number(
            settings_view(settings.entries@),
            "memory-bytes".spec_bytes(),
            usize::MAX as int,
            DEFAULT_MEMORY_BYTES as int,
        ),
{
    match settings.get("memory-bytes".as_bytes()) {
        Some(v) => match parse_decimal(v.as_slice(), usize::MAX as u64) {
            Some(n) => n as usize,
            None => DEFAULT_MEMORY_BYTES,
        },
        None => DEFAULT_MEMORY_BYTES,
    }
}

/// A provider id is namespaced: `<org>:<package>/<name>`, with a non-empty
/// org before the first `:` and a `/` after it.
pub open spec fn namespaced(s: Seq<u8>) -> bool {
    let k = find_in(s, ':' as u8, 0, s.len() as int);
    k < s.len() && k > 0 && find_in(s, '/' as u8, k + 1, s.len() as int) < s.len()
}

/// Check that a published provider id is namespaced.
pub fn valid_provider_id(id: &str) -> (r: Result<(), &'static str>)
    ensures
        r is Ok <==> namespaced(id.spec_bytes()),
        r matches Err(m) ==> m@ == "ids must be namespaced as `<org>:<package>/<name>`"@,
{
    let s = id.as_bytes();
    let k = find_byte_in(s, ':' as u8, 0, s.len());
    if k < s.len() && k > 0 {
        let j = find_byte_in(s, '/' as u8, k + 1, s.len());
        if j < s.len() {
            return Ok(());
        }
    }
    Err("ids must be namespaced as `<org>:<package>/<name>`")
}

/// A declared output of a plugin.
#[derive(Debug)]
pub struct OutputDecl {
    pub logical_name: Vec<u8>,
    pub default_path: Vec<u8>,
}

/// What a plugin declares about itself: its name, whether its failure
/// policy is `fatal`, whether it promises to be deterministic, and its
/// outputs.
#[derive(Debug)]
pub struct PluginInfo {
    pub name: Vec<u8>,
    pub fatal: bool,
    pub deterministic: bool,
    pub outputs: Vec<OutputDecl>,
}

/// `path` resolved against the directory `cwd` (`Path::join` on a POSIX
/// system): an absolute path stands as it is, a relative one follows `cwd`
/// and a separator unless `cwd` is empty or already ends in one.
pub open spec fn joined(cwd: Seq<u8>, path: Seq<u8>) -> Seq<u8> {
    if path.len() > 0 && path[0] == '/' as u8 {
        path
    } else if cwd.len() == 0 || cwd.last() == '/' as u8 {
        cwd + path
    } else {
        cwd + seq!['/' as u8] + path
    }
}

/// The path an output is written to: the instance's `out.<logical>`
/// setting, else the declared default, resolved against `cwd`.
pub open spec fn output_path(e: Seq<(Seq<u8>, Seq<u8>)>, d: OutputDecl, cwd: Seq<u8>) -> Seq<u8> {
    let raw = match setting(e, "out.".spec_bytes() + d.logical_name@) {
        Some(v) => v,
        None => d.default_path@,
    };
    joined(cwd, raw)
}

fn join_path(cwd: &[u8], path: &[u8]) -> (r: Vec<u8>)
    ensures
        r@ == joined(cwd@, path@),
{
    let mut out: Vec<u8> = Vec::new();
    if path.len() > 0 && path[0] == '/' as u8 {
        push_slice(&mut out, path);
        return out;
    }
    push_slice(&mut out, cwd);
    if cwd.len() > 0 && cwd[cwd.len() - 1] != '/' as u8 {
        out.push('/' as u8);
    }
    push_slice(&mut out, path);
    out
}

/// Turn the declared outputs into output slots at their resolved paths.
pub fn resolve_outputs(info: &PluginInfo, spec: &InstanceSpec, cwd: &[u8]) -> (r: Vec<OutputSlot>)
    ensures
        r@.len() == info.outputs@.len(),
        forall|i: int|
            0 <= i < r@.len() ==> {
                &&& (#[trigger] r@[i]).logical@ == info.outputs@[i].logical_name@
                &&& r@[i].path@ == output_path(settings_view(spec.settings.entries@), info.outputs@[i], cwd@)
                &&& r@[i].buf@.len() == 0
                &&& !r@[i].open
                &&& !r@[i].published
            },
{
    let mut out: Vec<OutputSlot> = Vec::new();
    let mut i: usize = 0;
    while i < info.outputs.len()
        invariant
            i <= info.outputs@.len(),
            out@.len() == i,
            forall|j: int|
                0 <= j < i ==> {
                    &&& (#[trigger] out@[j]).logical@ == info.outputs@[j].logical_name@
                    &&& out@[j].path@ == output_path(settings_view(spec.settings.entries@), info.outputs@[j], cwd@)
                    &&& out@[j].buf@.len() == 0
                    &&& !out@[j].open
                    &&& !out@[j].published
                },
        decreases info.outputs@.len() - i,
    {
        let decl = &info.outputs[i];
        let mut key: Vec<u8> = Vec::new();
        push_slice(&mut key, "out.".as_bytes());
        push_slice(&mut key, decl.logical_name.as_slice());
        let path = match spec.settings.get(key.as_slice()) {
            Some(v) => join_path(cwd, v.as_slice()),
            None => join_path(cwd, decl.default_path.as_slice()),
        };
        out.push(OutputSlot {
            logical: copy_bytes(&decl.logical_name),
            path,
            buf: Vec::new(),
            open: false,
            published: false,
        });
        i += 1;
    }
    out
}

// ─── Laws ────────────────────────────────────────────────────────────────

proof fn lemma_setting_found(e: Seq<(Seq<u8>, Seq<u8>)>, key: Seq<u8>, value: Seq<u8>, j: int)
    requires
        0 <= j <= e.len(),
        index_of_key(e, key, j) is Some || index_of_key(e, key, 0) is None,
        index_of_key(e, key, 0) is Some ==> index_of_key(e, key, j) == index_of_key(e, key, 0),
    ensures
        setting_in(settings_insert(e, key, value), key, j) == Some(value),
    decreases e.len() - j,
{
    lemma_index_of_key(e, key, j);
    lemma_index_of_key(e, key, 0);
    let e2 = settings_insert(e, key, value);
    match index_of_key(e, key, 0) {
        Some(i) => {
            if j < i {
                assert(e2[j] == e[j]);
                lemma_setting_found(e, key, value, j + 1);
            }
        },
        None => {
            if j < e.len() {
                assert(e2[j] == e[j]);
                lemma_setting_found(e, key, value, j + 1);
            }
        },
    }
}

proof fn lemma_setting_kept(e: Seq<(Seq<u8>, Seq<u8>)>, key: Seq<u8>, value: Seq<u8>, other: Seq<u8>, j: int)
    requires
        0 <= j <= e.len(),
        other != key,
    ensures
        setting_in(settings_insert(e, key, value), other, j) == setting_in(e, other, j),
    decreases e.len() - j,
{
    lemma_index_of_key(e, key, 0);
    let e2 = settings_insert(e, key, value);
    if j < e.len() {
        lemma_setting_kept(e, key, value, other, j + 1);
        match index_of_key(e, key, 0) {
            Some(i) => {
                if j == i {
                    assert(e2[j].0 == key);
                } else {
                    assert(e2[j] == e[j]);
                }
            },
            None => {
                assert(e2[j] == e[j]);
            },
        }
    } else {
        match index_of_key(e, key, 0) {
            Some(i) => {},
            None => {
                assert(e2[j].0 == key);
                assert(setting_in(e2, other, j + 1) == None::<Seq<u8>>);
            },
        }
    }
}

/// What a setting reads back is what was last written for its key, and
/// writing a key leaves every other key's value as it was.
pub proof fn law_setting_reads_back_the_write(
    e: Seq<(Seq<u8>, Seq<u8>)>,
    key: Seq<u8>,
    value: Seq<u8>,
    other: Seq<u8>,
)
    ensures
        setting(settings_insert(e, key, value), key) == Some(value),
        other != key ==> setting(settings_insert(e, key, value), other) == setting(e, other),
{
    lemma_setting_found(e, key, value, 0);
    if other != key {
        lemma_setting_kept(e, key, value, other, 0);
    }
}

// ─── Coherence of a manifest ─────────────────────────────────────────────

/// The capabilities by which a plugin depends on state the input digest
/// does not cover: the expander (it can run `$(shell ...)`), the
/// environment and the clock.
pub const NONDETERMINISTIC: u16 = 44;

/// The names, in order, of the capabilities among `bits` that break
/// determinism.
pub open spec fn nondeterministic_names(bits: u16) -> Seq<Seq<u8>> {
    (if bits & EXPAND_VARIABLES != 0 {
        seq!["expand-variables".spec_bytes()]
    } else {
        Seq::empty()
    }) + (if bits & READ_ENVIRONMENT != 0 {
        seq!["read-environment".spec_bytes()]
    } else {
        Seq::empty()
    }) + (if bits & WALL_CLOCK != 0 {
        seq!["wall-clock".spec_bytes()]
    } else {
        Seq::empty()
    })
}

/// Names joined with ` and `.
pub open spec fn joined_with_and(names: Seq<Seq<u8>>) -> Seq<u8>
    decreases names.len(),
{
    if names.len() == 0 {
        Seq::empty()
    } else if names.len() == 1 {
        names[0]
    } else {
        joined_with_and(names.drop_last()) + " and ".spec_bytes() + names.last()
    }
}

/// The UTF-8 bytes of an em dash.
pub open spec fn em_dash() -> Seq<u8> {
    seq![0xe2u8, 0x80u8, 0x94u8]
}

/// The first complaint about the outputs from position `k` on: one with an
/// empty (blank) logical name, or one whose logical name an earlier output
/// declared already.
pub open spec fn output_complaint(outputs: Seq<OutputDecl>, k: int) -> Option<Seq<u8>>
    decreases outputs.len() - k,
{
    if k < 0 || k >= outputs.len() {
        None
    } else {
        let n = outputs[k].logical_name@;
        if trimmed(n, 0, n.len() as int).len() == 0 {
            Some("declares an output with an empty logical name".spec_bytes())
        } else if exists|j: int| 0 <= j < k && outputs[j].logical_name@ == n {
            Some("declares output `".spec_bytes() + n + "` twice".spec_bytes())
        } else {
            output_complaint(outputs, k + 1)
        }
    }
}

/// What is wrong with a manifest that claims contradicting things, given
/// the capabilities `requested` (`None` when nothing is): an empty name; a
/// `fatal` failure policy without `fail-build`; a promise of determinism
/// while requesting a way to depend on undigested state; a bad output; or
/// outputs without `write-outputs`.
pub open spec fn incoherence(info: PluginInfo, requested: u16) -> Option<Seq<u8>> {
    let name = info.name@;
    if trimmed(name, 0, name.len() as int).len() == 0 {
        Some("manifest has an empty name".spec_bytes())
    } else if info.fatal && requested & FAIL_BUILD != FAIL_BUILD {
        Some("declares failure-policy `fatal` without requesting the `fail-build` capability".spec_bytes())
    } else if info.deterministic && requested & NONDETERMINISTIC != 0 {
        Some(
            "declares `deterministic` while requesting ".spec_bytes() + joined_with_and(
                nondeterministic_names(requested & NONDETERMINISTIC),
            ) + " ".spec_bytes() + em_dash()
                + " each is a way to depend on state `session.input-digest` does not cover".spec_bytes(),
        )
    } else {
        match output_complaint(info.outputs@, 0) {
            Some(m) => Some(m),
            None => if info.outputs@.len() > 0 && requested & WRITE_OUTPUTS != WRITE_OUTPUTS {
                Some("declares outputs without requesting the `write-outputs` capability".spec_bytes())
            } else {
                None
            },
        }
    }
}

/// Whether the bytes are white space only (or empty).
fn blank(s: &[u8]) -> (r: bool)
    ensures
        r == (trimmed(s@, 0, s@.len() as int).len() == 0),
{
    let (a, b) = trim_range(s, 0, s.len());
    a == b
}

/// [`joined_with_and`] of the names of the non-deterministic capabilities
/// among `bits`.
fn nondeterministic_text(bits: u16) -> (r: Vec<u8>)
    ensures
        r@ == joined_with_and(nondeterministic_names(bits)),
{
    let mut out: Vec<u8> = Vec::new();
    let mut count: usize = 0;
    let ghost mut names: Seq<Seq<u8>> = Seq::empty();
    if bits & EXPAND_VARIABLES != 0 {
        push_slice(&mut out, "expand-variables".as_bytes());
        count = count + 1;
        proof {
            names = names.push("expand-variables".spec_bytes());
        }
    }
    assert(out@ == joined_with_and(names));
    if bits & READ_ENVIRONMENT != 0 {
        if count > 0 {
            push_slice(&mut out, " and ".as_bytes());
        }
        push_slice(&mut out, "read-environment".as_bytes());
        count = count + 1;
        proof {
            assert(names.push("read-environment".spec_bytes()).drop_last() =~= names);
            names = names.push("read-environment".spec_bytes());
        }
    }
    assert(out@ == joined_with_and(names));
    if bits & WALL_CLOCK != 0 {
        if count > 0 {
            push_slice(&mut out, " and ".as_bytes());
        }
        push_slice(&mut out, "wall-clock".as_bytes());
        proof {
            assert(names.push("wall-clock".spec_bytes()).drop_last() =~= names);
            names = names.push("wall-clock".spec_bytes());
        }
    }
    assert(names =~= nondeterministic_names(bits));
    out
}

/// Whether one of the first `k` outputs has the logical name `n`.
fn declared_before(outputs: &Vec<OutputDecl>, k: usize, n: &[u8]) -> (r: bool)
    requires
        k <= outputs@.len(),
    ensures
        r == exists|j: int| 0 <= j < k && outputs@[j].logical_name@ == n@,
{
    let mut j: usize = 0;
    while j < k
        invariant
            j <= k <= outputs@.len(),
            forall|i: int| 0 <= i < j ==> outputs@[i].logical_name@ != n@,
        decreases k - j,
    {
        if bytes_eq(outputs[j].logical_name.as_slice(), n) {
            return true;
        }
        j += 1;
    }
    false
}

/// Reject a manifest whose claims contradict each other or the capabilities
/// `requested`, with the reason ([`incoherence`]), before the plugin gets a
/// store with anything in it.
pub fn coherent(info: &PluginInfo, requested: Caps) -> (r: Result<(), Vec<u8>>)
    ensures
        match incoherence(*info, requested.bits) {
            None => r is Ok,
            Some(m) => r matches Err(e) && e@ == m,
        },
{
    if blank(info.name.as_slice()) {
        return Err(copy_slice("manifest has an empty name".as_bytes()));
    }
    if info.fatal && !requested.contains(Caps { bits: FAIL_BUILD }) {
        return Err(copy_slice("declares failure-policy `fatal` without requesting the `fail-build` capability".as_bytes()));
    }
    let nondet = requested.bits & NONDETERMINISTIC;
    if info.deterministic && nondet != 0 {
        let mut m: Vec<u8> = Vec::new();
        push_slice(&mut m, "declares `deterministic` while requesting ".as_bytes());
        let names = nondeterministic_text(nondet);
        push_slice(&mut m, names.as_slice());
        push_slice(&mut m, " ".as_bytes());
        let dash: [u8; 3] = [0xe2, 0x80, 0x94];
        assert(dash@ =~= em_dash());
        push_slice(&mut m, &dash);
        push_slice(&mut m, " each is a way to depend on state `session.input-digest` does not cover".as_bytes());
        return Err(m);
    }
    let mut k: usize = 0;
    while k < info.outputs.len()
        invariant
            k <= info.outputs@.len(),
            output_complaint(info.outputs@, k as int) == output_complaint(info.outputs@, 0),
            trimmed(info.name@, 0, info.name@.len() as int).len() != 0,
            !(info.fatal && requested.bits & FAIL_BUILD != FAIL_BUILD),
            !(info.deterministic && requested.bits & NONDETERMINISTIC != 0),
        decreases info.outputs@.len() - k,
    {
        let n = info.outputs[k].logical_name.as_slice();
        if blank(n) {
            return Err(copy_slice("declares an output with an empty logical name".as_bytes()));
        }
        if declared_before(&info.outputs, k, n) {
            let mut m: Vec<u8> = Vec::new();
            push_slice(&mut m, "declares output `".as_bytes());
            push_slice(&mut m, n);
            push_slice(&mut m, "` twice".as_bytes());
            return Err(m);
        }
        k += 1;
    }
    if info.outputs.len() > 0 && !requested.contains(Caps { bits: WRITE_OUTPUTS }) {
        return Err(copy_slice("declares outputs without requesting the `write-outputs` capability".as_bytes()));
    }
    Ok(())
}

} // verus!
