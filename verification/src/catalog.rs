//! The primitive catalog: the fixed set of built-in chips that seed every
//! fresh chip graph.
//!
//! The catalog is closed and known at build time, never discovered from
//! storage.  NAND is seeded with cost 1 (it is the unit of the cost model);
//! every other built-in is seeded with cost 0, since it is treated as an
//! atomic hardware abstraction whose internal gates are not counted.  All
//! entries are seeded resolved, so resolution never asks storage for them.

use vstd::prelude::*;

use crate::chip::{is_builtin, is_catalog_name, nand_name, Chip, ChipState};
use crate::graph::ChipGraph;

verus! {

/// The catalog has been seeded into `g`: NAND is resolved with cost 1 and
/// every other built-in is resolved with cost 0.
pub open spec fn catalog_seeded(g: Map<Seq<char>, Chip>) -> bool {
    &&& g.contains_key(nand_name())
    &&& g[nand_name()] == (Chip { gate_count: 1, state: ChipState::Resolved })
    &&& forall|b: Seq<char>|
        is_builtin(b) ==> #[trigger] g.contains_key(b) && g[b] == (Chip {
            gate_count: 0,
            state: ChipState::Resolved,
        })
}

/// Seed `chip_map` with the primitive catalog.  Must run before any
/// resolution begins; entries outside the catalog are left untouched.
pub(crate) fn seed_catalog(chip_map: &mut ChipGraph)
    requires
        old(chip_map).wf(),
    ensures
        final(chip_map).wf(),
        catalog_seeded(final(chip_map)@),
        forall|k: Seq<char>| !is_catalog_name(k) ==> (#[trigger] final(chip_map)@.contains_key(k)
            <==> old(chip_map)@.contains_key(k)),
        forall|k: Seq<char>| !is_catalog_name(k) && old(chip_map)@.contains_key(k)
            ==> #[trigger] final(chip_map)@[k] == old(chip_map)@[k],
{
    proof {
        reveal_strlit("NAND");
        reveal_strlit("4-1BIT");
        reveal_strlit("1-4BIT");
        reveal_strlit("4-8BIT");
        reveal_strlit("8-4BIT");
        reveal_strlit("1-8BIT");
        reveal_strlit("8-1BIT");
        reveal_strlit("LED");
        reveal_strlit("7-SEGMENT");
        reveal_strlit("RGB DISPLAY");
        reveal_strlit("DOT DISPLAY");
        reveal_strlit("ROM 256x16");
        reveal_strlit("CLOCK");
        reveal_strlit("PULSE");
        reveal_strlit("KEY");
        reveal_strlit("3-STATE BUFFER");
        reveal_strlit("BUS-1");
        reveal_strlit("BUS-4");
        reveal_strlit("BUS-8");
    }
    let resolved_nand = Chip { gate_count: 1, state: ChipState::Resolved };
    let resolved_free = Chip { gate_count: 0, state: ChipState::Resolved };
    chip_map.put("NAND".to_owned(), resolved_nand);
    chip_map.put("4-1BIT".to_owned(), resolved_free);
    chip_map.put("1-4BIT".to_owned(), resolved_free);
    chip_map.put("4-8BIT".to_owned(), resolved_free);
    chip_map.put("8-4BIT".to_owned(), resolved_free);
    chip_map.put("1-8BIT".to_owned(), resolved_free);
    chip_map.put("8-1BIT".to_owned(), resolved_free);
    chip_map.put("LED".to_owned(), resolved_free);
    chip_map.put("7-SEGMENT".to_owned(), resolved_free);
    chip_map.put("RGB DISPLAY".to_owned(), resolved_free);
    chip_map.put("DOT DISPLAY".to_owned(), resolved_free);
    chip_map.put("ROM 256x16".to_owned(), resolved_free);
    chip_map.put("CLOCK".to_owned(), resolved_free);
    chip_map.put("PULSE".to_owned(), resolved_free);
    chip_map.put("KEY".to_owned(), resolved_free);
    chip_map.put("3-STATE BUFFER".to_owned(), resolved_free);
    chip_map.put("BUS-1".to_owned(), resolved_free);
    chip_map.put("BUS-4".to_owned(), resolved_free);
    chip_map.put("BUS-8".to_owned(), resolved_free);
    proof {
        assert(nand_name().len() == 4);
        assert(chip_map@.contains_key(nand_name()));
        assert(chip_map@[nand_name()] == (Chip { gate_count: 1, state: ChipState::Resolved }));
        assert forall|b: Seq<char>| is_builtin(b) implies #[trigger] chip_map@.contains_key(b)
            && chip_map@[b] == (Chip { gate_count: 0, state: ChipState::Resolved }) by {
            assert(chip_map@.contains_key(b));
            assert(chip_map@[b] == (Chip { gate_count: 0, state: ChipState::Resolved }));
        }
    }
}

} // verus!
