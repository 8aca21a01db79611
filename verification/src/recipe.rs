//! A target's recipe: the text as written, its chopped per-line view and the
//! per-line modifiers.

use vstd::prelude::*;
use crate::execctx::Floc;

verus! {

/// Bit of [`RecipeLineFlags`]: the line recurses into a sub-make (`+`, or it
/// mentions `$(MAKE)`).
pub const RECIPE_RECURSE: u8 = 1;
/// Bit of [`RecipeLineFlags`]: the line is silent (`@`).
pub const RECIPE_SILENT: u8 = 2;
/// Bit of [`RecipeLineFlags`]: errors on the line are ignored (`-`).
pub const RECIPE_NOERROR: u8 = 4;

/// Per-line recipe modifiers, a set of the `RECIPE_*` bits.
#[derive(Debug, Clone, Copy, PartialEq, Eq, Hash, Default)]
pub struct RecipeLineFlags {
    pub bits: u8,
}

impl RecipeLineFlags {
    /// The flags with exactly the bits `bits` (unknown bits dropped).
    pub fn from_bits_truncate(bits: u8) -> (r: RecipeLineFlags)
        ensures
            r.bits == bits & 7,
    {
        RecipeLineFlags { bits: bits & 7 }
    }

    /// The set with no modifier.
    pub fn empty() -> (r: RecipeLineFlags)
        ensures
            r.bits == 0,
    {
        RecipeLineFlags { bits: 0 }
    }

    /// The raw bits.
    pub fn bits(self) -> (r: u8)
        ensures
            r == self.bits,
    {
        self.bits
    }

    /// Whether every bit of `other` is set in `self`.
    pub fn contains(self, other: RecipeLineFlags) -> (r: bool)
        ensures
            r == (self.bits & other.bits == other.bits),
    {
        self.bits & other.bits == other.bits
    }

    /// Whether the `RECIPE_RECURSE` bit is set.
    pub fn is_recurse(self) -> (r: bool)
        ensures
            r == recurses(self),
    {
        self.bits & RECIPE_RECURSE == RECIPE_RECURSE
    }
}

/// Whether a line with these flags recurses into a sub-make.
pub open spec fn recurses(f: RecipeLineFlags) -> bool {
    f.bits & RECIPE_RECURSE == RECIPE_RECURSE
}

/// One logical recipe line: its unexpanded text and its modifiers.
#[derive(Debug, PartialEq, Eq)]
pub struct RecipeLine {
    pub text: Vec<u8>,
    pub flags: RecipeLineFlags,
}

/// A target's recipe.
#[derive(Debug, PartialEq, Eq)]
pub struct Recipe {
    /// Source file the recipe was defined in (`None` if synthetic).
    pub defined_in: Option<Vec<u8>>,
    /// 1-based line number of the recipe's definition.
    pub defined_lineno: u64,
    /// Recipe text as written: logical lines joined by `\n`, unexpanded.
    pub text: Vec<u8>,
    /// The chopped per-line view; empty until the recipe is chopped.
    pub lines: Vec<RecipeLine>,
    /// The recipe-line introducer in effect (`.RECIPEPREFIX`, default TAB).
    pub recipe_prefix: u8,
    /// Whether any line recurses into a sub-make.
    pub any_recurse: bool,
}

/// What a recipe line is, as values.
pub open spec fn line_view(l: RecipeLine) -> (Seq<u8>, u8) {
    (l.text@, l.flags.bits)
}

/// Two recipes hold the same values.
pub open spec fn same_recipe(a: Recipe, b: Recipe) -> bool {
    &&& (a.defined_in is None <==> b.defined_in is None)
    &&& (a.defined_in matches Some(x) ==> b.defined_in matches Some(y) && x@ == y@)
    &&& a.defined_lineno == b.defined_lineno
    &&& a.text@ == b.text@
    &&& a.lines@.len() == b.lines@.len()
    &&& forall|i: int| 0 <= i < a.lines@.len() ==> #[trigger] line_view(a.lines@[i]) == line_view(b.lines@[i])
    &&& a.recipe_prefix == b.recipe_prefix
    &&& a.any_recurse == b.any_recurse
}

/// A copy of `v`.
pub fn copy_bytes(v: &Vec<u8>) -> (r: Vec<u8>)
    ensures
        r@ == v@,
{
    let mut out: Vec<u8> = Vec::new();
    let mut k: usize = 0;
    while k < v.len()
        invariant
            k <= v@.len(),
            out@ == v@.subrange(0, k as int),
        decreases v@.len() - k,
    {
        out.push(v[k]);
        k += 1;
        assert(out@ =~= v@.subrange(0, k as int));
    }
    assert(out@ =~= v@);
    out
}

impl Clone for RecipeLine {
    fn clone(&self) -> (r: RecipeLine)
        ensures
            line_view(r) == line_view(*self),
    {
        RecipeLine { text: copy_bytes(&self.text), flags: self.flags }
    }
}

impl Clone for Recipe {
    fn clone(&self) -> (r: Recipe)
        ensures
            same_recipe(r, *self),
    {
        let defined_in = match &self.defined_in {
            Some(d) => Some(copy_bytes(d)),
            None => None,
        };
        let mut lines: Vec<RecipeLine> = Vec::new();
        let mut k: usize = 0;
        while k < self.lines.len()
            invariant
                k <= self.lines@.len(),
                lines@.len() == k,
                forall|i: int| 0 <= i < k ==> #[trigger] line_view(lines@[i]) == line_view(self.lines@[i]),
            decreases self.lines@.len() - k,
        {
            lines.push(self.lines[k].clone());
            k += 1;
        }
        Recipe {
            defined_in,
            defined_lineno: self.defined_lineno,
            text: copy_bytes(&self.text),
            lines,
            recipe_prefix: self.recipe_prefix,
            any_recurse: self.any_recurse,
        }
    }
}

impl Default for Recipe {
    /// An empty recipe introduced by a TAB.
    fn default() -> (r: Recipe)
        ensures
            r.defined_in is None,
            r.defined_lineno == 0,
            r.text@.len() == 0,
            r.lines@.len() == 0,
            r.recipe_prefix == '\t' as u8,
            !r.any_recurse,
    {
        Recipe {
            defined_in: None,
            defined_lineno: 0,
            text: Vec::new(),
            lines: Vec::new(),
            recipe_prefix: '\t' as u8,
            any_recurse: false,
        }
    }
}

/// A target's commands as an array of lines: the recipe text, its
/// lines, the flags of each line, the number of lines, the recipe prefix
/// character, and whether any line recurses.
#[derive(Debug)]
pub struct Commands {
    pub fileinfo: Floc,
    pub commands: Vec<u8>,
    pub command_lines: Vec<Vec<u8>>,
    pub lines_flags: Vec<u8>,
    pub ncommand_lines: u16,
    pub recipe_prefix: u8,
    pub any_recurse: u32,
}

} // verus!
