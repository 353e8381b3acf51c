//! Project-level classification, the version gate, the catalog seed and
//! the description parsers.

use nand_scan::chip::{is_builtin_chip, ChipState};
use nand_scan::graph::ChipGraph;
use nand_scan::ingest::{parse_chip_definition, parse_semver};
use nand_scan::scan::{
    classify_project, evaluate_project_description, insert_placeholders, report_chips,
    total_gate_count, version_allowed, ProjectManager, SkipReason,
};

fn metadata(version: &str, chips: &[&str]) -> String {
    let names = chips
        .iter()
        .map(|c| format!("\"{}\"", c))
        .collect::<Vec<_>>()
        .join(",");
    format!(
        "{{\"DLSVersion_EarliestCompatible\":\"{}\",\"AllCustomChipNames\":[{}]}}",
        version, names
    )
}

#[test]
fn version_at_ceiling_is_accepted() {
    let facts = evaluate_project_description(Some(metadata("2.1.5", &["A"])));
    let chips = classify_project(facts).expect("a project at the ceiling is analyzable");
    assert_eq!(chips, vec!["A".to_string()]);
}

#[test]
fn version_beyond_ceiling_is_skipped() {
    let facts = evaluate_project_description(Some(metadata("2.1.6", &["A"])));
    assert_eq!(classify_project(facts), Err(SkipReason::IncompatibleVersion));
    let facts = evaluate_project_description(Some(metadata("3.0.0", &["A"])));
    assert_eq!(classify_project(facts), Err(SkipReason::IncompatibleVersion));
    let facts = evaluate_project_description(Some(metadata("2.2.0", &["A"])));
    assert_eq!(classify_project(facts), Err(SkipReason::IncompatibleVersion));
}

#[test]
fn version_gate_boundaries() {
    assert!(version_allowed(2, 1, 5));
    assert!(version_allowed(2, 1, 4));
    assert!(version_allowed(1, 9, 9));
    assert!(version_allowed(0, 0, 0));
    assert!(!version_allowed(2, 1, 6));
    assert!(!version_allowed(2, 2, 0));
    assert!(!version_allowed(3, 0, 0));
}

#[test]
fn semver_parse_reads_the_release_triple() {
    assert_eq!(parse_semver("2.1.5"), Some((2, 1, 5)));
    assert_eq!(parse_semver("10.20.30"), Some((10, 20, 30)));
    assert_eq!(parse_semver("not a version"), None);
    assert_eq!(parse_semver(""), None);
}

#[test]
fn missing_metadata_is_skipped() {
    let facts = evaluate_project_description(None);
    assert_eq!(classify_project(facts), Err(SkipReason::MissingMetadata));
}

#[test]
fn unparseable_metadata_is_skipped() {
    let facts = evaluate_project_description(Some("not json at all".to_string()));
    assert_eq!(classify_project(facts), Err(SkipReason::InvalidMetadata));
}

#[test]
fn missing_or_invalid_version_is_skipped() {
    let facts =
        evaluate_project_description(Some("{\"AllCustomChipNames\":[\"A\"]}".to_string()));
    assert_eq!(classify_project(facts), Err(SkipReason::MissingVersion));
    let facts = evaluate_project_description(Some(metadata("newest", &["A"])));
    assert_eq!(classify_project(facts), Err(SkipReason::MissingVersion));
}

#[test]
fn project_without_custom_chips_is_skipped() {
    let facts = evaluate_project_description(Some(metadata("2.1.5", &[])));
    assert_eq!(classify_project(facts), Err(SkipReason::NoCustomChips));
}

#[test]
fn chip_definition_parsing_reads_names_in_order() {
    let parsed =
        parse_chip_definition(r#"{"SubChips":[{"Name":"X"},{"Name":"Y"},{"Name":"X"}]}"#);
    assert_eq!(
        parsed,
        Some(vec!["X".to_string(), "Y".to_string(), "X".to_string()])
    );
    assert_eq!(parse_chip_definition(r#"{"SubChips":[]}"#), Some(Vec::new()));
    assert_eq!(parse_chip_definition(r#"{"Other":1}"#), None);
    assert_eq!(parse_chip_definition(r#"{"SubChips":7}"#), None);
    assert_eq!(parse_chip_definition(r#"{"SubChips":[{"Name":3}]}"#), None);
    assert_eq!(parse_chip_definition("{"), None);
}

#[test]
fn catalog_seeds_nand_at_one_and_builtins_at_zero() {
    let mut g = ChipGraph::new();
    ProjectManager {}.add_default_chips(&mut g);
    let nand = g.get(&"NAND".to_string()).unwrap();
    assert_eq!(nand.gate_count, 1);
    assert_eq!(nand.state, ChipState::Resolved);
    for name in ["LED", "CLOCK", "BUS-8", "3-STATE BUFFER", "ROM 256x16"] {
        let c = g.get(&name.to_string()).unwrap();
        assert_eq!(c.gate_count, 0);
        assert_eq!(c.state, ChipState::Resolved);
    }
    // The whole seed totals exactly NAND's unit cost.
    assert_eq!(total_gate_count(&g), 1);
}

#[test]
fn builtins_never_appear_in_report_rows() {
    let mut g = ChipGraph::new();
    ProjectManager {}.add_default_chips(&mut g);
    let declared = vec!["A".to_string(), "B".to_string()];
    insert_placeholders(&mut g, &declared);
    let rows = report_chips(&g);
    let mut names: Vec<&str> = rows.iter().map(|(n, _)| n.as_str()).collect();
    names.sort();
    assert_eq!(names, vec!["A", "B"]);
    for (name, _) in &rows {
        assert!(!is_builtin_chip(name));
        assert_ne!(name.as_str(), "NAND");
    }
}

#[test]
fn placeholders_do_not_disturb_the_catalog() {
    let mut g = ChipGraph::new();
    ProjectManager {}.add_default_chips(&mut g);
    // A declared name colliding with a catalog entry keeps the seed.
    let declared = vec!["NAND".to_string(), "LED".to_string(), "A".to_string()];
    insert_placeholders(&mut g, &declared);
    assert_eq!(g.get(&"NAND".to_string()).unwrap().gate_count, 1);
    assert_eq!(
        g.get(&"LED".to_string()).unwrap().state,
        ChipState::Resolved
    );
    let a = g.get(&"A".to_string()).unwrap();
    assert_eq!(a.gate_count, 0);
    assert_eq!(a.state, ChipState::Unvisited);
}

#[test]
fn metadata_with_mixed_name_array_keeps_the_strings() {
    let facts = evaluate_project_description(Some(
        "{\"DLSVersion_EarliestCompatible\":\"1.0.0\",\"AllCustomChipNames\":[\"A\",7,\"B\"]}"
            .to_string(),
    ));
    let chips = classify_project(facts).expect("analyzable");
    assert_eq!(chips, vec!["A".to_string(), "B".to_string()]);
}
