use olivaw::plan::CargoDep;
use olivaw::project::cargo::{add_missing_deps, CargoEditError, CargoEditOutcome};
use olivaw::registry::ComponentId;

fn edit(before: &str, deps: &[(&str, &str)]) -> (String, CargoEditOutcome) {
    let deps: Vec<CargoDep> = deps
        .iter()
        .map(|(n, r)| CargoDep {
            name: (*n).to_string(),
            req: (*r).to_string(),
            needed_by: ComponentId::parse("sensors/mpu6050").expect("valid id"),
        })
        .collect();
    let (outcome, new_text) = add_missing_deps(before, &deps).expect("edit succeeds");
    (new_text.unwrap_or_else(|| before.to_string()), outcome)
}

#[test]
fn appends_missing_deps_preserving_everything() {
    let before = "\
# my project
[package]
name = \"robot\"   # the name
version = \"0.1.0\"

[dependencies]
# pinned for a reason
serde = { version = \"1\", features = [\"derive\"] }
";
    let (text, outcome) = edit(before, &[("embedded-hal", "1.0"), ("libm", "0.2")]);
    assert_eq!(outcome.added.len(), 2);
    assert!(text.starts_with(before.trim_end_matches('\n')) || text.contains("# pinned for a reason"));
    assert!(text.contains("# my project"));
    assert!(text.contains("name = \"robot\"   # the name"));
    assert!(text.contains("serde = { version = \"1\", features = [\"derive\"] }"));
    assert!(text.contains("embedded-hal = \"1.0\""));
    assert!(text.contains("libm = \"0.2\""));
}

#[test]
fn never_touches_existing_deps() {
    let before = "\
[package]
name = \"robot\"
version = \"0.1.0\"

[dependencies]
embedded-hal = \"0.2\"
";
    let (text, outcome) = edit(before, &[("embedded-hal", "1.0")]);
    assert!(outcome.added.is_empty());
    assert_eq!(outcome.skipped.len(), 1);
    assert_eq!(outcome.skipped[0].1, "\"0.2\"");
    assert_eq!(text, before);
}

#[test]
fn respects_workspace_and_table_forms() {
    let before = "\
[package]
name = \"robot\"
version = \"0.1.0\"

[dependencies]
nalgebra = { workspace = true }

[dependencies.kiddo]
version = \"5\"
";
    let (text, outcome) = edit(before, &[("nalgebra", "0.34"), ("kiddo", "5")]);
    assert!(outcome.added.is_empty());
    assert_eq!(outcome.skipped.len(), 2);
    assert_eq!(text, before);
}

#[test]
fn creates_dependencies_table_when_absent() {
    let before = "[package]\nname = \"robot\"\nversion = \"0.1.0\"\n";
    let (text, outcome) = edit(before, &[("embedded-hal", "1.0")]);
    assert_eq!(outcome.added.len(), 1);
    assert!(text.contains("[dependencies]"));
    assert!(text.contains("embedded-hal = \"1.0\""));
    assert!(text.contains("name = \"robot\""));
}

#[test]
fn preserves_crlf_content_outside_edits() {
    let before = "[package]\r\nname = \"robot\"\r\nversion = \"0.1.0\"\r\n\r\n[dependencies]\r\nserde = \"1\"\r\n";
    let (text, _) = edit(before, &[("libm", "0.2")]);
    assert!(text.contains("name = \"robot\"\r\n"));
    assert!(text.contains("serde = \"1\"\r\n"));
    assert!(text.contains("libm = \"0.2\""));
}

#[test]
fn a_repeated_name_is_added_once_then_found() {
    let before = "[package]\nname = \"robot\"\n";
    let (text, outcome) = edit(before, &[("libm", "0.2"), ("libm", "0.2")]);
    assert_eq!(outcome.added.len(), 1);
    assert_eq!(outcome.skipped.len(), 1);
    assert_eq!(text.matches("libm = ").count(), 1);
}

#[test]
fn invalid_toml_is_refused() {
    let deps = vec![CargoDep {
        name: "libm".to_string(),
        req: "0.2".to_string(),
        needed_by: ComponentId::parse("sensors/mpu6050").expect("valid id"),
    }];
    match add_missing_deps("[package\nname = ", &deps) {
        Err(CargoEditError::NotToml) => {}
        _ => panic!("expected NotToml"),
    }
}

#[test]
fn dependencies_that_are_not_a_table_are_refused() {
    let deps = vec![CargoDep {
        name: "libm".to_string(),
        req: "0.2".to_string(),
        needed_by: ComponentId::parse("sensors/mpu6050").expect("valid id"),
    }];
    match add_missing_deps("dependencies = 5\n", &deps) {
        Err(CargoEditError::DependenciesNotATable) => {}
        _ => panic!("expected DependenciesNotATable"),
    }
}

#[test]
fn unchanged_file_hands_back_no_text() {
    let before = "[dependencies]\nlibm = \"0.2\"\n";
    let deps = vec![CargoDep {
        name: "libm".to_string(),
        req: "0.2".to_string(),
        needed_by: ComponentId::parse("sensors/mpu6050").expect("valid id"),
    }];
    let (_, new_text) = add_missing_deps(before, &deps).expect("edit succeeds");
    assert!(new_text.is_none());
}

#[test]
fn undeclared_deps_lists_the_missing_crates() {
    let deps = vec![
        ("libm".to_string(), "0.2".to_string()),
        ("serde".to_string(), "1".to_string()),
    ];
    let missing = olivaw::project::cargo::undeclared_deps("[dependencies]\nserde = \"1\"\n", &deps).expect("toml");
    assert_eq!(missing, vec![("libm".to_string(), "0.2".to_string())]);
    assert!(olivaw::project::cargo::undeclared_deps("[[[", &deps).is_none());
}

#[test]
fn editing_a_document_reports_what_it_did() {
    let mut doc: toml_edit::DocumentMut = "[dependencies]\nserde = \"1\"\n".parse().expect("toml");
    let deps: Vec<CargoDep> = ["serde", "libm"]
        .iter()
        .map(|n| CargoDep {
            name: n.to_string(),
            req: "0.2".to_string(),
            needed_by: ComponentId::parse("sensors/mpu6050").expect("valid id"),
        })
        .collect();
    let outcome = olivaw::project::cargo::edit_dependencies(&mut doc, &deps).expect("table");
    assert_eq!(outcome.added.len(), 1);
    assert_eq!(outcome.added[0].name, "libm");
    assert_eq!(outcome.skipped[0].1, "\"1\"");
    assert!(doc.to_string().contains("libm = \"0.2\""));
    let declared = olivaw::project::cargo::undeclared_in(&doc, &vec![("libm".to_string(), "0.2".to_string())]);
    assert!(declared.is_empty());
}

#[test]
fn an_inline_dependencies_table_refuses_only_additions() {
    let dep = |n: &str| CargoDep {
        name: n.to_string(),
        req: "1".to_string(),
        needed_by: ComponentId::parse("sensors/mpu6050").expect("valid id"),
    };
    let mut doc: toml_edit::DocumentMut = "dependencies = { serde = \"1\" }\n".parse().expect("toml");
    let outcome = olivaw::project::cargo::edit_dependencies(&mut doc, &[dep("serde")]).expect("nothing to add");
    assert!(outcome.added.is_empty());
    assert_eq!(outcome.skipped[0].1, "\"1\"");
    match olivaw::project::cargo::edit_dependencies(&mut doc, &[dep("serde"), dep("libm")]) {
        Err(CargoEditError::DependenciesNotATable) => {}
        _ => panic!("expected DependenciesNotATable"),
    }
    assert_eq!(doc.to_string(), "dependencies = { serde = \"1\" }\n");
}
