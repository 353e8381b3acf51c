//! The chip model: a named unit with a gate cost and a resolution state.
//!
//! A chip is either one of the fixed built-in blocks (pre-resolved, cost 0,
//! except the fundamental NAND primitive with cost 1) or a user-defined
//! composite whose cost is computed by the resolver.  The resolution state
//! carries three values rather than a resolved/unresolved flag so that a
//! re-entered in-progress chip can be reported as a cyclic definition
//! instead of recursing forever.

use vstd::prelude::*;

verus! {

/// Resolution state of a chip entry in a chip graph.
#[derive(Clone, Copy, PartialEq, Eq, Structural, Debug)]
pub enum ChipState {
    /// Referenced but not yet examined; `gate_count` is a placeholder 0.
    Unvisited,
    /// Resolution has started and has not committed; used to detect cycles.
    InProgress,
    /// `gate_count` is final and never changes again.
    Resolved,
}

/// One chip entry: its NAND cost and whether that cost is final.
#[derive(Clone, Copy, PartialEq, Eq, Structural, Debug)]
pub struct Chip {
    /// Number of primitive NAND gates this chip expands to.  Meaningful only
    /// when `state` is `Resolved`; sums saturate at `usize::MAX`.
    pub gate_count: usize,
    /// Resolution state of this entry.
    pub state: ChipState,
}

impl Chip {
    /// A fresh placeholder entry: zero cost, not yet visited.
    pub fn unvisited() -> (r: Chip)
        ensures
            r == (Chip { gate_count: 0, state: ChipState::Unvisited }),
    {
        Chip { gate_count: 0, state: ChipState::Unvisited }
    }
}

impl Default for Chip {
    /// The default chip is the unvisited placeholder.
    fn default() -> (r: Chip)
        ensures
            r == (Chip { gate_count: 0, state: ChipState::Unvisited }),
    {
        Chip::unvisited()
    }
}

/// Name of the fundamental primitive, the unit of the cost model.
pub open spec fn nand_name() -> Seq<char> {
    "NAND"@
}

/// Whether `name` is one of the built-in blocks other than NAND: the
/// merge/split units, displays, memory, clock/pulse/key sources, the
/// three-state buffer and the bus taps.  These are atomic hardware
/// abstractions that contribute no gates of their own.
pub open spec fn is_builtin(name: Seq<char>) -> bool {
    ||| name == "4-1BIT"@
    ||| name == "1-4BIT"@
    ||| name == "4-8BIT"@
    ||| name == "8-4BIT"@
    ||| name == "1-8BIT"@
    ||| name == "8-1BIT"@
    ||| name == "LED"@
    ||| name == "7-SEGMENT"@
    ||| name == "RGB DISPLAY"@
    ||| name == "DOT DISPLAY"@
    ||| name == "ROM 256x16"@
    ||| name == "CLOCK"@
    ||| name == "PULSE"@
    ||| name == "KEY"@
    ||| name == "3-STATE BUFFER"@
    ||| name == "BUS-1"@
    ||| name == "BUS-4"@
    ||| name == "BUS-8"@
}

/// Whether `name` belongs to the fixed catalog: a built-in block or NAND.
/// Catalog entries are seeded pre-resolved and never require a definition
/// lookup.
pub open spec fn is_catalog_name(name: Seq<char>) -> bool {
    is_builtin(name) || name == nand_name()
}

/// Decides `is_builtin` on an executable chip name.
pub fn is_builtin_chip(name: &String) -> (r: bool)
    ensures
        r == is_builtin(name@),
{
    *name == "4-1BIT".to_owned() || *name == "1-4BIT".to_owned()
        || *name == "4-8BIT".to_owned() || *name == "8-4BIT".to_owned()
        || *name == "1-8BIT".to_owned() || *name == "8-1BIT".to_owned()
        || *name == "LED".to_owned() || *name == "7-SEGMENT".to_owned()
        || *name == "RGB DISPLAY".to_owned() || *name == "DOT DISPLAY".to_owned()
        || *name == "ROM 256x16".to_owned() || *name == "CLOCK".to_owned()
        || *name == "PULSE".to_owned() || *name == "KEY".to_owned()
        || *name == "3-STATE BUFFER".to_owned() || *name == "BUS-1".to_owned()
        || *name == "BUS-4".to_owned() || *name == "BUS-8".to_owned()
}

/// Decides `is_catalog_name` on an executable chip name.
pub fn is_catalog_chip(name: &String) -> (r: bool)
    ensures
        r == is_catalog_name(name@),
{
    is_builtin_chip(name) || *name == "NAND".to_owned()
}

/// Addition on gate counts, saturating at `usize::MAX`.
pub open spec fn sat_add(a: int, b: int) -> int {
    if a + b > usize::MAX as int {
        usize::MAX as int
    } else {
        a + b
    }
}

/// Executable saturating addition on gate counts.
pub fn sat_add_counts(a: usize, b: usize) -> (r: usize)
    ensures
        r == sat_add(a as int, b as int),
{
    if b > usize::MAX - a {
        usize::MAX
    } else {
        a + b
    }
}

} // verus!
