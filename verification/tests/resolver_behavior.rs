//! Behavior of the resolution machine driven against an in-memory chip
//! store, counting every definition read it requests.

use nand_scan::chip::{Chip, ChipState};
use nand_scan::graph::ChipGraph;
use nand_scan::ingest::parse_chip_definition;
use nand_scan::resolver::{DefLookup, ResolutionError, ResolveStep, Resolver};
use nand_scan::scan::{report_chips, total_gate_count, ProjectManager};

fn seeded_resolver() -> Resolver {
    let mut g = ChipGraph::new();
    ProjectManager {}.add_default_chips(&mut g);
    Resolver::new(g)
}

/// Run one resolution of `root`, answering definition requests from
/// `store` (chip name, JSON definition text) and recording each requested
/// name in `reads`.
fn drive(
    r: &mut Resolver,
    store: &[(&str, &str)],
    root: &str,
    reads: &mut Vec<String>,
) -> ResolveStep {
    let root_s = root.to_string();
    let mut step = r.start(&root_s);
    loop {
        match step {
            ResolveStep::NeedDefinition(name) => {
                reads.push(name.clone());
                let entry = store.iter().find(|(n, _)| *n == name.as_str());
                let def = match entry {
                    None => DefLookup::NotFound,
                    Some((_, json)) => match parse_chip_definition(json) {
                        Some(subs) => DefLookup::Found(subs),
                        None => DefLookup::Malformed,
                    },
                };
                step = r.provide(def);
            }
            other => return other,
        }
    }
}

fn chip_of(r: &Resolver, name: &str) -> Option<Chip> {
    r.chip_map().get(&name.to_string())
}

#[test]
fn nand_only_chip_costs_one_gate() {
    let mut r = seeded_resolver();
    let store = [("INVERTER", r#"{"SubChips":[{"Name":"NAND"}]}"#)];
    let mut reads = Vec::new();
    let step = drive(&mut r, &store, "INVERTER", &mut reads);
    assert!(matches!(step, ResolveStep::Done));
    let c = chip_of(&r, "INVERTER").unwrap();
    assert_eq!(c.gate_count, 1);
    assert_eq!(c.state, ChipState::Resolved);
}

#[test]
fn repeated_sub_chip_counts_twice() {
    let mut r = seeded_resolver();
    let store = [
        ("A", r#"{"SubChips":[{"Name":"NAND"},{"Name":"NAND"},{"Name":"NAND"}]}"#),
        ("PARENT", r#"{"SubChips":[{"Name":"A"},{"Name":"A"}]}"#),
    ];
    let mut reads = Vec::new();
    let step = drive(&mut r, &store, "PARENT", &mut reads);
    assert!(matches!(step, ResolveStep::Done));
    let a = chip_of(&r, "A").unwrap();
    let parent = chip_of(&r, "PARENT").unwrap();
    assert_eq!(a.gate_count, 3);
    assert_eq!(parent.gate_count, 2 * a.gate_count);
}

#[test]
fn diamond_resolves_shared_chip_once() {
    let mut r = seeded_resolver();
    let store = [
        ("A", r#"{"SubChips":[{"Name":"B"},{"Name":"C"}]}"#),
        ("B", r#"{"SubChips":[{"Name":"D"}]}"#),
        ("C", r#"{"SubChips":[{"Name":"D"}]}"#),
        ("D", r#"{"SubChips":[{"Name":"NAND"}]}"#),
    ];
    let mut reads = Vec::new();
    let step = drive(&mut r, &store, "A", &mut reads);
    assert!(matches!(step, ResolveStep::Done));
    let d_reads = reads.iter().filter(|n| n.as_str() == "D").count();
    assert_eq!(d_reads, 1);
    assert_eq!(chip_of(&r, "A").unwrap().gate_count, 2);
}

#[test]
fn re_resolving_is_a_no_op_with_zero_reads() {
    let mut r = seeded_resolver();
    let store = [("A", r#"{"SubChips":[{"Name":"NAND"}]}"#)];
    let mut reads = Vec::new();
    let step = drive(&mut r, &store, "A", &mut reads);
    assert!(matches!(step, ResolveStep::Done));
    let before = chip_of(&r, "A").unwrap();
    let reads_before = reads.len();

    let step2 = drive(&mut r, &store, "A", &mut reads);
    assert!(matches!(step2, ResolveStep::Done));
    assert_eq!(reads.len(), reads_before, "second resolve performed a storage read");
    let after = chip_of(&r, "A").unwrap();
    assert_eq!(after.gate_count, before.gate_count);
    assert_eq!(after.state, ChipState::Resolved);
}

#[test]
fn missing_sub_chip_list_is_malformed_and_stays_unresolved() {
    let mut r = seeded_resolver();
    let store = [("BROKEN", r#"{"Name":"BROKEN"}"#)];
    let mut reads = Vec::new();
    let step = drive(&mut r, &store, "BROKEN", &mut reads);
    match step {
        ResolveStep::Failed(e) => {
            assert_eq!(e, ResolutionError::MalformedDefinition("BROKEN".to_string()))
        }
        _ => panic!("expected a failure"),
    }
    let c = chip_of(&r, "BROKEN").unwrap();
    assert_ne!(c.state, ChipState::Resolved);
}

#[test]
fn entry_without_name_is_malformed() {
    let mut r = seeded_resolver();
    let store = [("BROKEN", r#"{"SubChips":[{"Label":"NAND"}]}"#)];
    let mut reads = Vec::new();
    let step = drive(&mut r, &store, "BROKEN", &mut reads);
    match step {
        ResolveStep::Failed(e) => {
            assert_eq!(e, ResolutionError::MalformedDefinition("BROKEN".to_string()))
        }
        _ => panic!("expected a failure"),
    }
}

#[test]
fn missing_definition_file_is_reported() {
    let mut r = seeded_resolver();
    let store = [("A", r#"{"SubChips":[{"Name":"GHOST"}]}"#)];
    let mut reads = Vec::new();
    let step = drive(&mut r, &store, "A", &mut reads);
    match step {
        ResolveStep::Failed(e) => {
            assert_eq!(e, ResolutionError::DefinitionNotFound("GHOST".to_string()))
        }
        _ => panic!("expected a failure"),
    }
    // The failed parent was never fully computed, so it is not resolved.
    let a = chip_of(&r, "A").unwrap();
    assert_ne!(a.state, ChipState::Resolved);
}

#[test]
fn self_referencing_chip_is_a_cyclic_definition() {
    let mut r = seeded_resolver();
    let store = [("LOOP", r#"{"SubChips":[{"Name":"LOOP"}]}"#)];
    let mut reads = Vec::new();
    let step = drive(&mut r, &store, "LOOP", &mut reads);
    match step {
        ResolveStep::Failed(e) => {
            assert_eq!(e, ResolutionError::CyclicDefinition("LOOP".to_string()))
        }
        _ => panic!("expected a failure"),
    }
}

#[test]
fn mutually_referencing_chips_are_a_cyclic_definition() {
    let mut r = seeded_resolver();
    let store = [
        ("PING", r#"{"SubChips":[{"Name":"PONG"}]}"#),
        ("PONG", r#"{"SubChips":[{"Name":"PING"}]}"#),
    ];
    let mut reads = Vec::new();
    let step = drive(&mut r, &store, "PING", &mut reads);
    match step {
        ResolveStep::Failed(e) => {
            assert!(matches!(e, ResolutionError::CyclicDefinition(_)))
        }
        _ => panic!("expected a failure"),
    }
    // The machine is reusable after the failure: an honest chip resolves.
    let store2 = [("OK", r#"{"SubChips":[{"Name":"NAND"}]}"#)];
    let step2 = drive(&mut r, &store2, "OK", &mut reads);
    assert!(matches!(step2, ResolveStep::Done));
    assert_eq!(chip_of(&r, "OK").unwrap().gate_count, 1);
}

#[test]
fn builtins_resolve_without_storage_reads() {
    let mut r = seeded_resolver();
    let store = [(
        "HUD",
        r#"{"SubChips":[{"Name":"LED"},{"Name":"CLOCK"},{"Name":"BUS-8"},{"Name":"NAND"}]}"#,
    )];
    let mut reads = Vec::new();
    let step = drive(&mut r, &store, "HUD", &mut reads);
    assert!(matches!(step, ResolveStep::Done));
    assert_eq!(reads, vec!["HUD".to_string()], "only the custom chip may be read");
    assert_eq!(chip_of(&r, "HUD").unwrap().gate_count, 1);
}

#[test]
fn totals_and_report_after_resolution() {
    let mut r = seeded_resolver();
    let store = [
        ("A", r#"{"SubChips":[{"Name":"NAND"},{"Name":"NAND"}]}"#),
        ("B", r#"{"SubChips":[{"Name":"A"},{"Name":"NAND"}]}"#),
    ];
    let mut reads = Vec::new();
    let step = drive(&mut r, &store, "B", &mut reads);
    assert!(matches!(step, ResolveStep::Done));
    let g = r.into_chip_map();
    // A = 2, B = 3, NAND = 1, every other built-in 0.
    assert_eq!(total_gate_count(&g), 6);
    let rows = report_chips(&g);
    let mut names: Vec<&str> = rows.iter().map(|(n, _)| n.as_str()).collect();
    names.sort();
    assert_eq!(names, vec!["A", "B"]);
    for (name, count) in &rows {
        match name.as_str() {
            "A" => assert_eq!(*count, 2),
            "B" => assert_eq!(*count, 3),
            _ => panic!("unexpected report row"),
        }
    }
}
