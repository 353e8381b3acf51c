//! Project-scan logic: deciding whether a project is analyzable, seeding
//! placeholders for its declared chips, and assembling the aggregate
//! result.
//!
//! The storage reads themselves (description file, chip files) are the
//! caller's: this module takes their contents as plain values and makes
//! every decision about them under contract.

use vstd::prelude::*;

use crate::chip::{is_catalog_name, sat_add, Chip, ChipState};
use crate::graph::ChipGraph;
use crate::ingest::{
    json_of, meta_chip_names, meta_version_text, parse_project_metadata, parse_semver,
    parsed_semver, MetadataOutcome,
};

verus! {

/// The project-scan coordinator.  It carries no state of its own: each
/// scan owns a fresh [`ChipGraph`], so scans of different projects never
/// share anything.
pub struct ProjectManager {}

impl ProjectManager {
    /// Seed `chip_map` with the primitive catalog: NAND resolved at cost
    /// 1, every other built-in resolved at cost 0.  Must run before any
    /// resolution begins; entries outside the catalog are left untouched.
    pub fn add_default_chips(&self, chip_map: &mut ChipGraph)
        requires
            old(chip_map).wf(),
        ensures
            final(chip_map).wf(),
            crate::catalog::catalog_seeded(final(chip_map)@),
            forall|k: Seq<char>| !is_catalog_name(k) ==> (
            #[trigger] final(chip_map)@.contains_key(k) <==> old(chip_map)@.contains_key(k)),
            forall|k: Seq<char>|
                !is_catalog_name(k) && old(chip_map)@.contains_key(k)
                    ==> #[trigger] final(chip_map)@[k] == old(chip_map)@[k],
    {
        crate::catalog::seed_catalog(chip_map);
    }
}

/// Why a project was skipped rather than scanned.  Skips are diagnostics,
/// not hard failures: scanning continues with the next project.
#[derive(Debug, Clone, Copy, PartialEq, Eq, Structural)]
pub enum SkipReason {
    /// The project description file is absent or unreadable.
    MissingMetadata,
    /// The description file is not valid structured data.
    InvalidMetadata,
    /// The declared earliest-compatible version is absent or unparseable.
    MissingVersion,
    /// The project declares a minimum-compatible version newer than the
    /// supported ceiling.
    IncompatibleVersion,
    /// The project declares no custom chips.
    NoCustomChips,
}

/// Whether a release triple declares a minimum-compatible version
/// strictly newer than the supported ceiling, 2.1.5.  Against a normal
/// (non-pre-release) ceiling, semantic-version precedence is decided by
/// the numeric triple alone, ordered by major, then minor, then patch.
pub open spec fn version_exceeds_ceiling(major: int, minor: int, patch: int) -> bool {
    ||| major > 2
    ||| (major == 2 && minor > 1)
    ||| (major == 2 && minor == 1 && patch > 5)
}

/// Decide the version gate: `true` when the declared earliest-compatible
/// release triple is at or below the supported ceiling.  The boundary is
/// inclusive: exactly 2.1.5 passes.
pub fn version_allowed(major: u64, minor: u64, patch: u64) -> (r: bool)
    ensures
        r == !version_exceeds_ceiling(major as int, minor as int, patch as int),
{
    !(major > 2 || (major == 2 && minor > 1) || (major == 2 && minor == 1 && patch > 5))
}

/// What a project's description file yielded, as plain values.
pub struct ProjectFacts {
    /// The description file existed and could be read.
    pub metadata_present: bool,
    /// Its contents parsed as structured data.
    pub metadata_valid: bool,
    /// The declared earliest-compatible release triple, when the field was
    /// present and parsed as a semantic version.
    pub version: Option<(u64, u64, u64)>,
    /// The declared custom chip names, in declaration order.
    pub chip_names: Vec<String>,
}

/// Check a project's facts against the skip conditions, in order: missing
/// metadata, invalid metadata, missing or unparseable version, version
/// beyond the ceiling, no custom chips.  An analyzable project yields its
/// declared chip names unchanged.
pub fn classify_project(facts: ProjectFacts) -> (r: Result<Vec<String>, SkipReason>)
    ensures
        !facts.metadata_present ==> r == Result::<Vec<String>, SkipReason>::Err(
            SkipReason::MissingMetadata,
        ),
        facts.metadata_present && !facts.metadata_valid ==> r == Result::<
            Vec<String>,
            SkipReason,
        >::Err(SkipReason::InvalidMetadata),
        facts.metadata_present && facts.metadata_valid && facts.version is None ==> r == Result::<
            Vec<String>,
            SkipReason,
        >::Err(SkipReason::MissingVersion),
        facts.metadata_present && facts.metadata_valid && (facts.version matches Some(v)
            && version_exceeds_ceiling(v.0 as int, v.1 as int, v.2 as int)) ==> r == Result::<
            Vec<String>,
            SkipReason,
        >::Err(SkipReason::IncompatibleVersion),
        facts.metadata_present && facts.metadata_valid && (facts.version matches Some(v)
            && !version_exceeds_ceiling(v.0 as int, v.1 as int, v.2 as int))
            && facts.chip_names@.len() == 0 ==> r == Result::<Vec<String>, SkipReason>::Err(
            SkipReason::NoCustomChips,
        ),
        facts.metadata_present && facts.metadata_valid && (facts.version matches Some(v)
            && !version_exceeds_ceiling(v.0 as int, v.1 as int, v.2 as int))
            && facts.chip_names@.len() > 0 ==> (r matches Ok(chips) && chips == facts.chip_names),
{
    if !facts.metadata_present {
        return Result::Err(SkipReason::MissingMetadata);
    }
    if !facts.metadata_valid {
        return Result::Err(SkipReason::InvalidMetadata);
    }
    let (major, minor, patch) = match facts.version {
        Option::Some(v) => v,
        Option::None => {
            return Result::Err(SkipReason::MissingVersion);
        }
    };
    if !version_allowed(major, minor, patch) {
        return Result::Err(SkipReason::IncompatibleVersion);
    }
    if facts.chip_names.len() == 0 {
        return Result::Err(SkipReason::NoCustomChips);
    }
    Result::Ok(facts.chip_names)
}

/// Read a project description's contents (`None` when the file is absent
/// or unreadable) into plain facts for [`classify_project`]: whether the
/// text parses, the version the parsed document declares, and the chip
/// names it declares.
pub fn evaluate_project_description(content: Option<String>) -> (facts: ProjectFacts)
    ensures
        facts.metadata_present == content is Some,
        facts.metadata_valid ==> facts.metadata_present,
        content is None ==> !facts.metadata_valid && facts.version is None
            && facts.chip_names@.len() == 0,
        content matches Some(text) ==> {
            &&& facts.metadata_valid == json_of(text@) is Some
            &&& (json_of(text@) matches Some(doc) ==> facts.version == (
            match meta_version_text(doc) {
                Option::Some(vt) => parsed_semver(vt),
                Option::None => Option::<(u64, u64, u64)>::None,
            }) && facts.chip_names.deep_view() == meta_chip_names(doc))
            &&& (json_of(text@) is None ==> facts.version is None && facts.chip_names@.len()
                == 0)
        },
{
    match content {
        Option::None => ProjectFacts {
            metadata_present: false,
            metadata_valid: false,
            version: Option::None,
            chip_names: Vec::new(),
        },
        Option::Some(text) => match parse_project_metadata(text.as_str()) {
            MetadataOutcome::Invalid => ProjectFacts {
                metadata_present: true,
                metadata_valid: false,
                version: Option::None,
                chip_names: Vec::new(),
            },
            MetadataOutcome::Data { version_text, chip_names } => {
                let version = match version_text {
                    Option::Some(vs) => parse_semver(vs.as_str()),
                    Option::None => Option::None,
                };
                ProjectFacts { metadata_present: true, metadata_valid: true, version, chip_names }
            }
        },
    }
}

/// Insert the declared custom chips as unresolved placeholders.  Existing
/// entries, the seeded catalog among them, are left untouched, and every
/// new entry starts unvisited with cost 0.
pub fn insert_placeholders(graph: &mut ChipGraph, names: &Vec<String>)
    requires
        old(graph).wf(),
    ensures
        final(graph).wf(),
        forall|k: Seq<char>|
            old(graph)@.contains_key(k) ==> #[trigger] final(graph)@.contains_key(k)
                && final(graph)@[k] == old(graph)@[k],
        forall|i: int|
            0 <= i < names@.len() ==> final(graph)@.contains_key((#[trigger] names@[i])@),
        forall|k: Seq<char>|
            #[trigger] final(graph)@.contains_key(k) && !old(graph)@.contains_key(k)
                ==> final(graph)@[k] == (Chip { gate_count: 0, state: ChipState::Unvisited }) && (
            exists|i: int| 0 <= i < names@.len() && (#[trigger] names@[i])@ == k),
{
    let n = names.len();
    let mut i: usize = 0;
    while i < n
        invariant
            graph.wf(),
            i <= n,
            n == names@.len(),
            forall|k: Seq<char>|
                old(graph)@.contains_key(k) ==> #[trigger] graph@.contains_key(k) && graph@[k]
                    == old(graph)@[k],
            forall|j: int| 0 <= j < i ==> graph@.contains_key((#[trigger] names@[j])@),
            forall|k: Seq<char>|
                #[trigger] graph@.contains_key(k) && !old(graph)@.contains_key(k) ==> graph@[k]
                    == (Chip { gate_count: 0, state: ChipState::Unvisited }) && (exists|j: int|
                    0 <= j < names@.len() && (#[trigger] names@[j])@ == k),
        decreases n - i,
    {
        let absent = match graph.get(&names[i]) {
            Option::Some(_) => false,
            Option::None => true,
        };
        if absent {
            let ghost pre = graph@;
            graph.put(names[i].clone(), Chip::unvisited());
            proof {
                let nv = names@[i as int]@;
                assert forall|k: Seq<char>| old(graph)@.contains_key(k) implies
                    #[trigger] graph@.contains_key(k) && graph@[k] == old(graph)@[k] by {
                    assert(pre.contains_key(k));
                    assert(k != nv);
                }
                assert forall|k: Seq<char>| #[trigger]
                    graph@.contains_key(k) && !old(graph)@.contains_key(k) implies graph@[k]
                    == (Chip { gate_count: 0, state: ChipState::Unvisited }) && (exists|j: int|
                    0 <= j < names@.len() && (#[trigger] names@[j])@ == k) by {
                    if k == nv {
                        assert((names@[i as int])@ == k);
                    } else {
                        assert(pre.contains_key(k));
                    }
                }
            }
        }
        i += 1;
    }
}

/// Sum of the costs of a sequence of graph entries, in storage order,
/// saturating at `usize::MAX`.
pub open spec fn entries_total(s: Seq<(Seq<char>, Chip)>) -> int
    decreases s.len(),
{
    if s.len() == 0 {
        0
    } else {
        sat_add(entries_total(s.drop_last()), s.last().1.gate_count as int)
    }
}

/// The aggregate gate count of a scanned graph: the sum of the cost of
/// every entry, built-ins included (each contributing its fixed 0, NAND
/// its fixed 1), saturating at `usize::MAX`.
pub fn total_gate_count(g: &ChipGraph) -> (r: usize)
    ensures
        r as int == entries_total(g.seq_view()),
{
    let n = g.num_entries();
    let mut total: usize = 0;
    let mut i: usize = 0;
    while i < n
        invariant
            i <= n,
            n == g.seq_view().len(),
            total as int == entries_total(g.seq_view().take(i as int)),
        decreases n - i,
    {
        let c = g.chip_at(i);
        total = crate::chip::sat_add_counts(total, c.gate_count);
        proof {
            assert(g.seq_view().take(i as int + 1).drop_last() =~= g.seq_view().take(i as int));
            assert(g.seq_view().take(i as int + 1).last() == g.seq_view()[i as int]);
        }
        i += 1;
    }
    proof {
        assert(g.seq_view().take(n as int) =~= g.seq_view());
    }
    total
}

/// The per-chip report lines: every entry of the graph outside the fixed
/// catalog, with its gate count, in storage order.  Built-ins and NAND
/// never appear here; sorting and percentages are presentation concerns
/// left to the caller.
#[verifier::rlimit(60)]
pub fn report_chips(g: &ChipGraph) -> (r: Vec<(String, usize)>)
    requires
        g.wf(),
    ensures
        forall|i: int|
            0 <= i < r@.len() ==> !is_catalog_name((#[trigger] r@[i].0)@) && g@.contains_key(
                r@[i].0@,
            ) && r@[i].1 == g@[r@[i].0@].gate_count,
        forall|j: int|
            0 <= j < g.seq_view().len() && !is_catalog_name((#[trigger] g.seq_view()[j]).0)
                ==> exists|i: int|
                0 <= i < r@.len() && (#[trigger] r@[i].0)@ == g.seq_view()[j].0 && r@[i].1
                    == g.seq_view()[j].1.gate_count,
        forall|a: int, b: int|
            0 <= a < b < r@.len() ==> (#[trigger] r@[a].0)@ != (#[trigger] r@[b].0)@,
{
    let n = g.num_entries();
    let mut rows: Vec<(String, usize)> = Vec::new();
    let mut i: usize = 0;
    while i < n
        invariant
            g.wf(),
            i <= n,
            n == g.seq_view().len(),
            forall|a: int|
                0 <= a < rows@.len() ==> !is_catalog_name((#[trigger] rows@[a].0)@)
                    && g@.contains_key(rows@[a].0@) && rows@[a].1 == g@[rows@[a].0@].gate_count,
            forall|j: int|
                0 <= j < i && !is_catalog_name((#[trigger] g.seq_view()[j]).0) ==> exists|a: int|
                    0 <= a < rows@.len() && (#[trigger] rows@[a].0)@ == g.seq_view()[j].0
                        && rows@[a].1 == g.seq_view()[j].1.gate_count,
            forall|a: int|
                0 <= a < rows@.len() ==> exists|j: int|
                    0 <= j < i && (#[trigger] rows@[a].0)@ == g.seq_view()[j].0,
            forall|a: int, b: int|
                0 <= a < b < rows@.len() ==> (#[trigger] rows@[a].0)@ != (#[trigger] rows@[b].0)@,
        decreases n - i,
    {
        let name = g.name_at(i);
        if !crate::chip::is_catalog_chip(name) {
            let c = g.chip_at(i);
            let owned = name.clone();
            proof {
                g.lemma_seq_view_agrees(i as int);
            }
            let ghost pre_rows = rows@;
            rows.push((owned, c.gate_count));
            proof {
                assert forall|j: int|
                    0 <= j < i + 1 && !is_catalog_name((#[trigger] g.seq_view()[j]).0) implies
                    exists|a: int|
                        0 <= a < rows@.len() && (#[trigger] rows@[a].0)@ == g.seq_view()[j].0
                            && rows@[a].1 == g.seq_view()[j].1.gate_count by {
                    if j < i {
                        let a = choose|a: int|
                            0 <= a < pre_rows.len() && (#[trigger] pre_rows[a].0)@
                                == g.seq_view()[j].0 && pre_rows[a].1
                                == g.seq_view()[j].1.gate_count;
                        assert(rows@[a] == pre_rows[a]);
                    } else {
                        let a = pre_rows.len() as int;
                        assert(rows@[a].0@ == g.seq_view()[j].0);
                        assert(rows@[a].1 == g.seq_view()[j].1.gate_count);
                    }
                }
                assert forall|a: int| 0 <= a < rows@.len() implies exists|j: int|
                    0 <= j < i + 1 && (#[trigger] rows@[a].0)@ == g.seq_view()[j].0 by {
                    if a < pre_rows.len() {
                        assert(rows@[a] == pre_rows[a]);
                        let j = choose|j: int|
                            0 <= j < i && (#[trigger] pre_rows[a].0)@ == g.seq_view()[j].0;
                        assert(rows@[a].0@ == g.seq_view()[j].0);
                    } else {
                        assert(rows@[a].0@ == g.seq_view()[i as int].0);
                    }
                }
                assert forall|a: int, b: int| 0 <= a < b < rows@.len() implies (
                #[trigger] rows@[a].0)@ != (#[trigger] rows@[b].0)@ by {
                    if b == pre_rows.len() as int {
                        assert(rows@[a] == pre_rows[a]);
                        let j = choose|j: int|
                            0 <= j < i && (#[trigger] pre_rows[a].0)@ == g.seq_view()[j].0;
                        g.lemma_wf_distinct(j, i as int);
                        assert(rows@[b].0@ == g.seq_view()[i as int].0);
                    } else {
                        assert(rows@[a] == pre_rows[a] && rows@[b] == pre_rows[b]);
                    }
                }
            }
        }
        i += 1;
    }
    rows
}

/// Aggregate output of one project scan: the project identity, the final
/// chip graph, and the total gate count over every entry of it.
pub struct ProjectScanResult {
    /// The scanned project's name.
    pub project_name: String,
    /// The final chip graph of the pass.
    pub chip_map: ChipGraph,
    /// Sum of the cost of every entry of `chip_map`.
    pub total_gate_count: usize,
}

/// Wrap a finished pass's graph into the scan result, computing the
/// aggregate total.
pub fn assemble_scan_result(project_name: String, chip_map: ChipGraph) -> (r: ProjectScanResult)
    ensures
        r.project_name == project_name,
        r.chip_map == chip_map,
        r.total_gate_count as int == entries_total(chip_map.seq_view()),
{
    let total = total_gate_count(&chip_map);
    ProjectScanResult { project_name, chip_map, total_gate_count: total }
}

} // verus!
