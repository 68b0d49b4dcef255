use oci_settings::catalogue::MigrationCatalogue;
use oci_settings::document::{parse_path, SettingsDocument};
use oci_settings::engine::MigrationEngine;
use oci_settings::error::{CatalogueError, Direction, DocumentError, PathState, TreeError, ValueKind};
use oci_settings::migration::{oci_defaults_step, MigrationStep, OCI_DEFAULTS_VERSION};
use oci_settings::values::RawValue;

fn path(dotted: &str) -> Vec<String> {
    parse_path(dotted)
}

fn add_step(version: u32, prefixes: &[&str]) -> MigrationStep {
    MigrationStep::add_prefixes(
        version,
        format!("add {}", prefixes.join(", ")),
        prefixes.iter().map(|p| path(p)).collect(),
    )
}

fn catalogue(steps: Vec<MigrationStep>) -> MigrationCatalogue {
    let mut c = MigrationCatalogue::new();
    for s in steps {
        c.register(s).unwrap();
    }
    c
}

#[test]
fn set_and_read_values() {
    let mut doc = SettingsDocument::new();
    let p = path("settings.oci-defaults.capabilities.kill");
    doc.set(&p, ValueKind::Capability, &RawValue::Scalar("kill".to_string())).unwrap();
    assert!(doc.contains(&path("settings")));
    assert!(doc.is_container(&path("settings.oci-defaults")));
    assert!(doc.is_container(&path("settings.oci-defaults.capabilities")));
    assert!(!doc.is_container(&p));
    assert!(doc.value_at(&p).is_some());
    assert!(doc.value_at(&path("settings")).is_none());
    let e = doc.set(&p, ValueKind::Capability, &RawValue::Scalar("nope".to_string())).unwrap_err();
    assert!(matches!(e, DocumentError::Validation(_)));
    assert!(doc.value_at(&p).is_some());
}

#[test]
fn leaf_and_container_stay_apart() {
    let mut doc = SettingsDocument::new();
    let leaf = path("settings.limit");
    doc.set(&leaf, ValueKind::Integer { min: 0, max: 10 }, &RawValue::Scalar("3".to_string())).unwrap();
    let under = path("settings.limit.inner");
    let e = doc.set(&under, ValueKind::Integer { min: 0, max: 10 }, &RawValue::Scalar("3".to_string())).unwrap_err();
    assert!(matches!(e, DocumentError::Tree(TreeError::UnexpectedState { expected: PathState::Container, actual: PathState::Leaf, .. })));
    assert!(!doc.contains(&under));
    let e = doc.set(&path("settings"), ValueKind::Integer { min: 0, max: 10 }, &RawValue::Scalar("3".to_string())).unwrap_err();
    assert!(matches!(e, DocumentError::Tree(TreeError::UnexpectedState { expected: PathState::Leaf, actual: PathState::Container, .. })));
    assert!(doc.add_container(&leaf).is_err());
    assert!(doc.add_container(&under).is_err());
    assert!(matches!(doc.set_value(&vec![], oci_settings::values::ModeledValue::from_raw(ValueKind::Integer { min: 0, max: 10 }, &RawValue::Scalar("1".to_string())).unwrap()), Err(TreeError::RootPath)));
}

#[test]
fn remove_is_idempotent() {
    let mut doc = SettingsDocument::new();
    doc.add_container(&path("settings.oci-defaults.resource-limits")).unwrap();
    doc.add_container(&path("settings.other")).unwrap();
    doc.remove(&path("settings.oci-defaults"));
    assert!(!doc.contains(&path("settings.oci-defaults")));
    assert!(!doc.contains(&path("settings.oci-defaults.resource-limits")));
    assert!(doc.contains(&path("settings.other")));
    doc.remove(&path("settings.oci-defaults"));
    assert!(doc.contains(&path("settings.other")));
    doc.remove(&path("absent.path"));
    assert!(doc.contains(&path("settings")));
}

#[test]
fn forward_when_prefix_present_changes_nothing() {
    let step = add_step(1, &["settings.oci-defaults"]);
    let mut doc = SettingsDocument::new();
    let leaf = path("settings.oci-defaults.capabilities.chown");
    doc.set(&leaf, ValueKind::Capability, &RawValue::Scalar("chown".to_string())).unwrap();
    step.forward(&mut doc).unwrap();
    assert!(doc.is_container(&path("settings.oci-defaults")));
    assert!(doc.value_at(&leaf).is_some());
    step.forward(&mut doc).unwrap();
    assert!(doc.value_at(&leaf).is_some());
}

#[test]
fn oci_defaults_step_undoes_itself_on_empty_document() {
    let step = oci_defaults_step();
    assert_eq!(step.version(), OCI_DEFAULTS_VERSION);
    let mut doc = SettingsDocument::new();
    step.forward(&mut doc).unwrap();
    assert!(doc.is_container(&path("settings")));
    assert!(doc.is_container(&path("settings.oci-defaults")));
    step.backward(&mut doc).unwrap();
    assert!(!doc.contains(&path("settings")));
    assert!(!doc.contains(&path("settings.oci-defaults")));
    assert!(doc.paths().is_empty());
}

#[test]
fn forward_then_backward_on_empty_document() {
    let step = add_step(1, &["oci-defaults"]);
    let mut doc = SettingsDocument::new();
    step.forward(&mut doc).unwrap();
    assert!(doc.is_container(&path("oci-defaults")));
    step.backward(&mut doc).unwrap();
    assert!(!doc.contains(&path("oci-defaults")));
}

#[test]
fn backward_discards_values_beneath() {
    let step = add_step(1, &["settings.oci-defaults"]);
    let mut doc = SettingsDocument::new();
    let leaf = path("settings.oci-defaults.resource-limits.max-open-files");
    doc.set(&leaf, ValueKind::Integer { min: 0, max: 1_000_000 }, &RawValue::Scalar("1024".to_string())).unwrap();
    step.backward(&mut doc).unwrap();
    assert!(!doc.contains(&leaf));
    assert!(!doc.contains(&path("settings.oci-defaults")));
    assert!(!doc.contains(&path("settings")));
    assert!(doc.paths().is_empty());
}

#[test]
fn catalogue_range_selection() {
    let c = catalogue(vec![add_step(3, &["c"]), add_step(1, &["a"]), add_step(2, &["b"])]);
    let up: Vec<u32> = c.select(1, 3).iter().map(|s| s.version()).collect();
    assert_eq!(up, vec![2, 3]);
    let down: Vec<u32> = c.select(3, 1).iter().map(|s| s.version()).collect();
    assert_eq!(down, vec![3, 2]);
    assert!(c.select(2, 2).is_empty());
    let all: Vec<u32> = c.select(0, 9).iter().map(|s| s.version()).collect();
    assert_eq!(all, vec![1, 2, 3]);
}

#[test]
fn duplicate_version_is_refused() {
    let mut c = catalogue(vec![add_step(1, &["a"])]);
    assert_eq!(c.register(add_step(1, &["b"])), Err(CatalogueError::DuplicateVersion { version: 1 }));
    assert_eq!(c.len(), 1);
    assert_eq!(c.step(0).description(), "add a");
}

#[test]
fn engine_round_trip() {
    let engine = MigrationEngine::new(catalogue(vec![
        add_step(1, &["settings.oci-defaults"]),
        add_step(2, &["settings.kernel"]),
    ]));
    let doc = SettingsDocument::new();
    let up = engine.run(&doc, 0, 2).unwrap();
    assert!(up.is_container(&path("settings.oci-defaults")));
    assert!(up.is_container(&path("settings.kernel")));
    assert!(!doc.contains(&path("settings")));
    let down = engine.run(&up, 2, 1).unwrap();
    assert!(down.is_container(&path("settings.oci-defaults")));
    assert!(!down.contains(&path("settings.kernel")));
    let same = engine.run(&up, 2, 2).unwrap();
    assert!(same.contains(&path("settings.kernel")));
}

#[test]
fn engine_aborts_on_first_failure() {
    let engine = MigrationEngine::new(catalogue(vec![
        add_step(1, &["first"]),
        add_step(2, &["blocked.child"]),
        add_step(3, &["third"]),
    ]));
    let mut doc = SettingsDocument::new();
    doc.set(&path("blocked"), ValueKind::Address, &RawValue::Scalar("10.0.0.1".to_string())).unwrap();
    let e = engine.run(&doc, 0, 3).unwrap_err();
    assert_eq!(e.version, 2);
    assert_eq!(e.direction, Direction::Forward);
    match e.cause {
        DocumentError::Tree(TreeError::UnexpectedState { path: at, expected, actual }) => {
            assert_eq!(at, vec!["blocked".to_string()]);
            assert_eq!(expected, PathState::Container);
            assert_eq!(actual, PathState::Leaf);
        }
        other => panic!("unexpected cause {:?}", other),
    }
    let again = engine.run(&doc, 0, 3).unwrap_err();
    assert_eq!(again.version, 2);
    assert!(!doc.contains(&path("first")));
    assert!(!doc.contains(&path("third")));
    assert!(doc.value_at(&path("blocked")).is_some());
}

#[test]
fn rename_moves_subtree_with_values() {
    let mut doc = SettingsDocument::new();
    let leaf = path("settings.old.caps.kill");
    doc.set(&leaf, ValueKind::Capability, &RawValue::Scalar("kill".to_string())).unwrap();
    doc.rename(&path("settings.old"), &path("settings.new.inner")).unwrap();
    assert!(!doc.contains(&path("settings.old")));
    assert!(!doc.contains(&leaf));
    assert!(doc.is_container(&path("settings.new")));
    assert!(doc.is_container(&path("settings.new.inner.caps")));
    assert!(doc.value_at(&path("settings.new.inner.caps.kill")).is_some());
}

#[test]
fn rename_refusals() {
    let mut doc = SettingsDocument::new();
    doc.add_container(&path("a.b")).unwrap();
    doc.set(&path("leaf"), ValueKind::Address, &RawValue::Scalar("1.2.3.4".to_string())).unwrap();
    assert!(matches!(doc.rename(&path("missing"), &path("x")), Err(TreeError::Missing { .. })));
    assert!(matches!(doc.rename(&path("a"), &vec![]), Err(TreeError::RootPath)));
    assert!(matches!(
        doc.rename(&path("a.b"), &path("leaf")),
        Err(TreeError::UnexpectedState { expected: PathState::Absent, actual: PathState::Leaf, .. })
    ));
    assert!(matches!(doc.rename(&path("a"), &path("a.b.c")), Err(TreeError::IntoOwnSubtree { .. })));
    assert!(matches!(doc.rename(&path("a.b"), &path("leaf.x")), Err(TreeError::UnexpectedState { expected: PathState::Container, actual: PathState::Leaf, .. })));
    assert!(doc.contains(&path("a.b")));
}

#[test]
fn rename_step_goes_both_ways() {
    let step = MigrationStep::rename(4, "move".to_string(), path("settings.a"), path("settings.b"));
    let mut doc = SettingsDocument::new();
    doc.set(&path("settings.a.n"), ValueKind::Integer { min: 0, max: 9 }, &RawValue::Scalar("4".to_string())).unwrap();
    step.forward(&mut doc).unwrap();
    assert!(doc.value_at(&path("settings.b.n")).is_some());
    assert!(!doc.contains(&path("settings.a")));
    step.backward(&mut doc).unwrap();
    assert!(doc.value_at(&path("settings.a.n")).is_some());
    assert!(!doc.contains(&path("settings.b")));
    assert!(step.backward(&mut doc).is_err());
}

#[test]
fn listing_children_and_paths() {
    let mut doc = SettingsDocument::new();
    doc.add_container(&path("settings.x")).unwrap();
    doc.add_container(&path("settings.y.z")).unwrap();
    let mut kids = doc.children(&path("settings"));
    kids.sort();
    assert_eq!(kids, vec!["x".to_string(), "y".to_string()]);
    assert_eq!(doc.children(&vec![]), vec!["settings".to_string()]);
    assert!(doc.children(&path("settings.x")).is_empty());
    let mut all: Vec<String> = doc.paths().iter().map(|p| p.join(".")).collect();
    all.sort();
    assert_eq!(all, vec!["settings.x", "settings.y.z"]);
}

#[test]
fn dotted_paths_split_at_every_dot() {
    assert_eq!(parse_path("settings.oci-defaults.capabilities"), vec!["settings", "oci-defaults", "capabilities"]);
    assert_eq!(parse_path("settings"), vec!["settings"]);
    assert!(parse_path("").is_empty());
    assert_eq!(parse_path("a..b"), vec!["a", "", "b"]);
    assert_eq!(parse_path("."), vec!["", ""]);
}
