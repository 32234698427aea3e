use olivaw::install::{
    add_write_kinds, blocking_files, conflict_message, count_extras, extras_decision, extras_refusal_message,
    install_destinations, plan_component, try_it_example, ExtrasDecision, InstallError,
};
use olivaw::listing::{list_components, name_width};
use olivaw::plan::{Plan, WriteKind};
use olivaw::project::manifest::InstalledComponent;
use olivaw::project::RelPath;
use olivaw::registry::{
    component_file_path, component_manifest_path, Compatibility, Component, ComponentId, ComponentMeta, Dependencies,
    FileEntry, Hardware, IndexEntry, LoadedComponent, Registry, RegistryError, RegistryIndex, RegistryMeta,
    RegistrySource, Verification,
};
use olivaw::registry::{after_clone, staging_dir_name, CloneOutcome, RegistryOpts};
use olivaw::resolve::resolve;

fn comp(path: &str, files: &[(&str, &str)], cargo: &[(&str, &str)], deps: &[&str]) -> Component {
    let id = ComponentId::parse(path).expect("valid id");
    Component {
        component: ComponentMeta {
            name: id.name.clone(),
            category: id.category.clone(),
            version: "0.1.0".to_string(),
            description: format!("the {} component", id.name),
            license: "MIT OR Apache-2.0".to_string(),
        },
        hardware: None,
        compatibility: None,
        verification: Some(Verification { verified: false, reference: None }),
        files: files
            .iter()
            .map(|(src, dest)| FileEntry { src: src.to_string(), dest: dest.to_string(), optional: false })
            .collect(),
        dependencies: Dependencies {
            cargo: cargo.iter().map(|(n, r)| (n.to_string(), r.to_string())).collect(),
            components: deps.iter().map(|d| (d.to_string(), "0.1".to_string())).collect(),
        },
    }
}

fn registry_with(components: Vec<Component>) -> Registry {
    let mut index = Vec::new();
    let mut loaded = Vec::new();
    for c in components {
        let path = format!("{}/{}", c.component.category, c.component.name);
        index.push((
            path.clone(),
            IndexEntry { version: c.component.version.clone(), description: c.component.description.clone() },
        ));
        loaded.push(LoadedComponent { path, parsed: Ok(c) });
    }
    index.sort_by(|a, b| a.0.cmp(&b.0));
    Registry {
        source: RegistrySource::Embedded,
        index: RegistryIndex::new(RegistryMeta { version: "0.2.0".to_string() }, index),
        loaded,
    }
}

fn sample_registry() -> Registry {
    registry_with(vec![
        comp(
            "drivers/led",
            &[("src/led.rs", "src/drivers/led.rs"), ("example.rs", "examples/led_modes.rs")],
            &[("embedded-hal", "1.0")],
            &[],
        ),
        comp(
            "drivers/l298n",
            &[("src/l298n.rs", "src/drivers/l298n.rs"), ("example.rs", "examples/l298n_sweep.rs")],
            &[("embedded-hal", "1.0")],
            &[],
        ),
        comp(
            "sensors/mpu6050",
            &[("src/mpu6050.rs", "src/sensors/mpu6050.rs"), ("example.rs", "examples/mpu6050_read.rs")],
            &[("embedded-hal", "1.0")],
            &[],
        ),
        comp("slam/core-types", &[("src/pose.rs", "src/slam/pose.rs")], &[("nalgebra", "0.34")], &[]),
        comp(
            "slam/scan-matcher",
            &[("src/matcher/icp.rs", "src/slam/matcher/icp.rs")],
            &[("nalgebra", "0.34"), ("kiddo", "5")],
            &["slam/core-types"],
        ),
    ])
}

fn id(p: &str) -> ComponentId {
    ComponentId::parse(p).expect("valid id")
}

#[test]
fn component_lookup_and_did_you_mean() {
    let reg = sample_registry();
    let c = reg.component(&id("sensors/mpu6050")).expect("known");
    assert_eq!(c.component.name, "mpu6050");
    match reg.component(&id("sensors/mpu650")) {
        Err(RegistryError::UnknownComponent(m)) => {
            assert_eq!(
                m,
                "no component 'sensors/mpu650' — did you mean 'sensors/mpu6050'? Run 'olivaw list sensors' to see all"
            );
        }
        _ => panic!("expected an unknown component"),
    }
    match reg.component(&id("actuators/servo")) {
        Err(e) => assert_eq!(e.message(), "no component 'actuators/servo'. Run 'olivaw list' to see all components"),
        Ok(_) => panic!("expected an unknown component"),
    }
}

#[test]
fn inconsistent_and_unreadable_components_are_reported() {
    let mut reg = sample_registry();
    reg.loaded[0].parsed.as_mut().expect("parsed").component.name = "other".to_string();
    let first = reg.loaded[0].path.clone();
    match reg.component(&id(&first)) {
        Err(RegistryError::Inconsistent(m)) => assert!(m.contains("declares 'drivers/other'"), "{m}"),
        _ => panic!("expected an inconsistency"),
    }
    reg.loaded[1].parsed = Err("parsing drivers/l298n/component.toml".to_string());
    let second = reg.loaded[1].path.clone();
    match reg.component(&id(&second)) {
        Err(RegistryError::Load(m)) => assert_eq!(m, "parsing drivers/l298n/component.toml"),
        _ => panic!("expected a load error"),
    }
}

#[test]
fn categories_are_sorted_and_deduplicated() {
    let reg = sample_registry();
    assert_eq!(reg.categories(), vec!["drivers", "sensors", "slam"]);
    let ids: Vec<String> = reg.ids().iter().map(|i| i.to_string()).collect();
    assert_eq!(ids.len(), 5);
    assert_eq!(reg.version(), "0.2.0");
    assert_eq!(reg.source_label(), "embedded");
    assert!(reg.summary(&id("slam/core-types")).is_some());
    assert!(reg.summary(&id("slam/nothing")).is_none());
}

#[test]
fn registry_file_paths() {
    assert_eq!(component_file_path(&id("drivers/led"), "src/led.rs"), "drivers/led/src/led.rs");
    assert_eq!(component_manifest_path(&id("drivers/led")), "drivers/led/component.toml");
}

#[test]
fn resolve_puts_dependencies_first() {
    let reg = sample_registry();
    let order = resolve(&reg, &[id("slam/scan-matcher")], &Vec::new()).expect("resolves");
    let paths: Vec<String> = order.iter().map(|r| r.id.to_string()).collect();
    assert_eq!(paths, vec!["slam/core-types", "slam/scan-matcher"]);
    assert!(!order[0].requested);
    assert!(order[1].requested);
    assert_eq!(count_extras(&order), 1);
}

#[test]
fn resolve_skips_installed_components() {
    let reg = sample_registry();
    let installed = vec![(
        "drivers/led".to_string(),
        InstalledComponent {
            version: "0.1.0".to_string(),
            installed_at: "2026-01-01T00:00:00Z".to_string(),
            files: vec![],
            checksums: vec![],
        },
    )];
    let order = resolve(&reg, &[id("drivers/led")], &installed).expect("resolves");
    assert!(order.is_empty());
}

#[test]
fn resolve_names_a_cycle() {
    let reg = registry_with(vec![
        comp("loops/a", &[], &[], &["loops/b"]),
        comp("loops/b", &[], &[], &["loops/a"]),
    ]);
    match resolve(&reg, &[id("loops/a")], &Vec::new()) {
        Err(e @ RegistryError::Cycle(_)) => assert_eq!(
            e.message(),
            "dependency cycle in the registry: loops/a → loops/b → loops/a — this is a registry bug, please report it"
        ),
        _ => panic!("expected a cycle"),
    }
}

#[test]
fn resolve_rejects_an_invalid_dependency() {
    let reg = registry_with(vec![comp("bad/dep", &[], &[], &["Not A Path"])]);
    match resolve(&reg, &[id("bad/dep")], &Vec::new()) {
        Err(e @ RegistryError::InvalidDependency { .. }) => {
            assert_eq!(e.message(), "component bad/dep declares invalid dependency 'Not A Path'")
        }
        _ => panic!("expected an invalid dependency"),
    }
}

#[test]
fn destinations_land_under_the_prefix() {
    let reg = sample_registry();
    let led = reg.component(&id("drivers/led")).expect("known");
    let prefix = RelPath::new("vendor").expect("safe");
    let ds = install_destinations(&id("drivers/led"), led, Some(&prefix)).expect("safe");
    let shown: Vec<&str> = ds.iter().map(|d| d.as_str()).collect();
    assert_eq!(shown, vec!["vendor/src/drivers/led.rs", "vendor/examples/led_modes.rs"]);
    let plain = install_destinations(&id("drivers/led"), led, None).expect("safe");
    assert_eq!(plain[0].as_str(), "src/drivers/led.rs");
}

#[test]
fn an_unsafe_destination_is_a_registry_bug() {
    let evil = comp("bad/evil", &[("x.rs", "../outside.rs")], &[], &[]);
    match install_destinations(&id("bad/evil"), &evil, None) {
        Err(e @ InstallError::UnsafeDestination { .. }) => {
            assert!(e.message().starts_with(
                "component bad/evil declares an unsafe destination — registry bug, please report it: "
            ));
        }
        Ok(_) => panic!("expected a refusal"),
    }
}

#[test]
fn plan_records_files_checksums_and_crates() {
    let reg = sample_registry();
    let led = reg.component(&id("drivers/led")).expect("known");
    let dests = install_destinations(&id("drivers/led"), led, None).expect("safe");
    let contents = vec![b"pub struct Blinker;\n".to_vec(), b"fn main() {}\n".to_vec()];
    let exists = vec![true, false];
    let kinds = add_write_kinds(&exists);
    assert_eq!(kinds, vec![Some(WriteKind::Overwrite), Some(WriteKind::Create)]);
    let mut plan = Plan::new();
    plan_component(&mut plan, &id("drivers/led"), led, &dests, &contents, &kinds, "2026-07-20T21:30:00Z");
    assert_eq!(plan.file_writes.len(), 2);
    assert_eq!(plan.file_writes[0].dest.as_str(), "src/drivers/led.rs");
    assert_eq!(plan.file_writes[0].contents, b"pub struct Blinker;\n".to_vec());
    assert_eq!(plan.file_writes[0].kind, WriteKind::Overwrite);
    assert_eq!(plan.file_writes[1].kind, WriteKind::Create);
    assert_eq!(plan.cargo_deps.len(), 1);
    assert_eq!(plan.cargo_deps[0].name, "embedded-hal");
    assert_eq!(plan.cargo_deps[0].needed_by.to_string(), "drivers/led");
    let (rid, rec) = &plan.manifest_updates[0];
    assert_eq!(rid.to_string(), "drivers/led");
    assert_eq!(rec.version, "0.1.0");
    assert_eq!(rec.installed_at, "2026-07-20T21:30:00Z");
    assert_eq!(rec.files, vec!["src/drivers/led.rs", "examples/led_modes.rs"]);
    // Checksums are kept in file order, each file once.
    assert_eq!(rec.checksums[0].0, "examples/led_modes.rs");
    assert_eq!(rec.checksums[0].1, olivaw::checksum::sha256_hex(b"fn main() {}\n"));
    assert_eq!(rec.checksums[1].0, "src/drivers/led.rs");
    assert_eq!(rec.checksums[1].1, olivaw::checksum::sha256_hex(b"pub struct Blinker;\n"));
    let blocked = blocking_files(&dests, &exists, false);
    assert_eq!(blocked.len(), 1);
    assert_eq!(blocked[0].as_str(), "src/drivers/led.rs");
    assert!(blocking_files(&dests, &exists, true).is_empty());
}

#[test]
fn conflict_message_lists_each_file() {
    let c = vec![RelPath::new("src/a.rs").unwrap(), RelPath::new("src/b.rs").unwrap()];
    assert_eq!(
        conflict_message(&c, Some(&id("drivers/led"))),
        "these files already exist:\n  src/a.rs\n  src/b.rs\nre-run with --force to overwrite them, or use 'olivaw update drivers/led' if the component is already installed"
    );
    assert_eq!(
        conflict_message(&c[..1].to_vec(), None),
        "these files already exist:\n  src/a.rs\nre-run with --force to overwrite them"
    );
}

#[test]
fn pulled_in_components_need_consent() {
    assert_eq!(extras_decision(0, false, false), ExtrasDecision::Proceed);
    assert_eq!(extras_decision(2, true, false), ExtrasDecision::Proceed);
    assert_eq!(extras_decision(1, false, true), ExtrasDecision::Ask);
    assert_eq!(extras_decision(1, false, false), ExtrasDecision::Refuse);
    assert_eq!(
        extras_refusal_message(&id("slam/scan-matcher"), 1),
        "slam/scan-matcher pulls in 1 more component (listed above) — re-run with --force to confirm non-interactively"
    );
    assert_eq!(
        extras_refusal_message(&id("slam/scan-matcher"), 3),
        "slam/scan-matcher pulls in 3 more components (listed above) — re-run with --force to confirm non-interactively"
    );
}

#[test]
fn try_it_names_the_first_example() {
    let written = vec![
        RelPath::new("src/sensors/mpu6050.rs").unwrap(),
        RelPath::new("examples/mpu6050_read.rs").unwrap(),
        RelPath::new("examples/other.rs").unwrap(),
    ];
    assert_eq!(try_it_example(&written), Some("mpu6050_read".to_string()));
    assert_eq!(try_it_example(&written[..1].to_vec()), None);
}

#[test]
fn list_groups_by_category_and_sorts_names() {
    let reg = sample_registry();
    let installed = vec!["drivers/led".to_string()];
    let ls = list_components(&reg, &installed, None).expect("listing");
    let cats: Vec<&str> = ls.iter().map(|l| l.category.as_str()).collect();
    assert_eq!(cats, vec!["drivers", "sensors", "slam"]);
    let drivers: Vec<&str> = ls[0].entries.iter().map(|e| e.name.as_str()).collect();
    assert_eq!(drivers, vec!["l298n", "led"]);
    assert!(ls[0].entries[1].installed);
    assert!(!ls[0].entries[0].installed);
    assert_eq!(ls[0].entries[0].version, "0.1.0");
    assert_eq!(ls[0].entries[0].description, "the l298n component");
    let total: usize = ls.iter().map(|l| l.entries.len()).sum();
    assert_eq!(total, 5);
    assert_eq!(name_width(&ls), 12);
}

#[test]
fn list_filters_and_suggests_on_typo() {
    let reg = sample_registry();
    let only = list_components(&reg, &vec![], Some("drivers")).expect("known category");
    assert_eq!(only.len(), 1);
    assert_eq!(only[0].entries.len(), 2);
    match list_components(&reg, &vec![], Some("driver")) {
        Err(m) => assert_eq!(m, "no category 'driver' — did you mean 'drivers'? Run 'olivaw list' to see all categories"),
        Ok(_) => panic!("expected a refusal"),
    }
    match list_components(&reg, &vec![], Some("xyzzyplugh")) {
        Err(m) => assert_eq!(m, "no category 'xyzzyplugh'. Categories: drivers, sensors, slam"),
        Ok(_) => panic!("expected a refusal"),
    }
}

#[test]
fn long_names_widen_the_column() {
    let reg = registry_with(vec![comp("kinematics/differential-drive", &[], &[], &[])]);
    let ls = list_components(&reg, &vec![], None).expect("listing");
    assert_eq!(name_width(&ls), "differential-drive".len());
}

#[test]
fn info_lines() {
    let hw = Hardware {
        devices: vec!["MPU-6050".to_string(), "GY-521".to_string()],
        interface: Some("I2C".to_string()),
        voltage: Some("3.3V".to_string()),
        notes: None,
    };
    assert_eq!(hw.summary_line(), "MPU-6050, GY-521 · I2C · 3.3V");
    let bare = Hardware { devices: vec!["L298N".to_string()], interface: None, voltage: None, notes: None };
    assert_eq!(bare.summary_line(), "L298N");
    let compat = Compatibility {
        no_std: Some(true),
        embedded_hal: Some("1.0".to_string()),
        targets: vec!["esp32".to_string(), "rp2040".to_string()],
    };
    assert_eq!(compat.summary_line(), "no_std · embedded-hal 1.0 · esp32, rp2040");
    let std_only = Compatibility { no_std: Some(false), embedded_hal: None, targets: vec![] };
    assert_eq!(std_only.summary_line(), "std");
}

#[test]
fn a_missing_dependency_is_reported_with_a_suggestion() {
    let reg = registry_with(vec![
        comp("slam/core-types", &[], &[], &[]),
        comp("slam/scan-matcher", &[], &[], &["slam/core-type"]),
    ]);
    match resolve(&reg, &[id("slam/scan-matcher")], &Vec::new()) {
        Err(RegistryError::UnknownComponent(m)) => assert_eq!(
            m,
            "no component 'slam/core-type' — did you mean 'slam/core-types'? Run 'olivaw list slam' to see all"
        ),
        _ => panic!("expected an unknown dependency"),
    }
}

#[test]
fn clone_outcomes() {
    assert_eq!(after_clone(false, true, true), CloneOutcome::Failed);
    assert_eq!(after_clone(true, true, true), CloneOutcome::PromoteSubdir);
    assert_eq!(after_clone(true, false, true), CloneOutcome::PromoteRoot);
    assert_eq!(after_clone(true, false, false), CloneOutcome::NoIndex);
    assert_eq!(staging_dir_name("registry-v0.1.0"), ".tmp-registry-v0.1.0");
}

#[test]
fn cache_location_uses_the_pinned_tag() {
    let (dir, tag) = olivaw::registry::cache_location(
        &RegistryOpts { offline: false, tag_override: Some("registry-vTEST".to_string()) },
        std::path::Path::new("/home/u/.olivaw/cache/registry"),
    );
    assert_eq!(tag, "registry-vTEST");
    assert_eq!(dir, std::path::PathBuf::from("/home/u/.olivaw/cache/registry/registry-vTEST"));
}

#[test]
fn resolve_walks_through_an_installed_root() {
    let reg = sample_registry();
    let installed = vec![(
        "slam/scan-matcher".to_string(),
        InstalledComponent {
            version: "0.1.0".to_string(),
            installed_at: "2026-01-01T00:00:00Z".to_string(),
            files: vec![],
            checksums: vec![],
        },
    )];
    let order = resolve(&reg, &[id("slam/scan-matcher")], &installed).expect("resolves");
    let paths: Vec<String> = order.iter().map(|r| r.id.to_string()).collect();
    assert_eq!(paths, vec!["slam/core-types".to_string()]);
    assert!(!order[0].requested);
}

#[test]
fn a_root_reached_from_an_earlier_root_is_not_requested() {
    let reg = sample_registry();
    let order = resolve(&reg, &[id("slam/scan-matcher"), id("slam/core-types")], &Vec::new()).expect("resolves");
    let paths: Vec<String> = order.iter().map(|r| r.id.to_string()).collect();
    assert_eq!(paths, vec!["slam/core-types", "slam/scan-matcher"]);
    assert!(!order[0].requested);
    assert!(order[1].requested);
}

#[test]
fn every_root_visited_first_is_requested() {
    let reg = sample_registry();
    let order = resolve(&reg, &[id("slam/core-types"), id("slam/scan-matcher")], &Vec::new()).expect("resolves");
    let paths: Vec<String> = order.iter().map(|r| r.id.to_string()).collect();
    assert_eq!(paths, vec!["slam/core-types", "slam/scan-matcher"]);
    assert!(order[0].requested);
    assert!(order[1].requested);
}

#[test]
fn the_index_holds_keys_in_order_and_keeps_the_last_entry() {
    let entry = |v: &str| IndexEntry { version: v.to_string(), description: String::new() };
    let index = RegistryIndex::new(
        RegistryMeta { version: "0.2.0".to_string() },
        vec![
            ("sensors/mpu6050".to_string(), entry("0.1.0")),
            ("drivers/led".to_string(), entry("0.1.0")),
            ("sensors/mpu6050".to_string(), entry("0.2.0")),
            ("actuators/servo".to_string(), entry("0.3.0")),
        ],
    );
    let keys: Vec<&str> = index.entries().iter().map(|(k, _)| k.as_str()).collect();
    assert_eq!(keys, vec!["actuators/servo", "drivers/led", "sensors/mpu6050"]);
    assert_eq!(index.entries()[2].1.version, "0.2.0");
    let reg = Registry { source: RegistrySource::Embedded, index, loaded: vec![] };
    let ids: Vec<String> = reg.ids().iter().map(|i| i.to_string()).collect();
    assert_eq!(ids, vec!["actuators/servo", "drivers/led", "sensors/mpu6050"]);
    assert_eq!(reg.categories(), vec!["actuators", "drivers", "sensors"]);
}

#[test]
fn deduplicating_twice_changes_nothing() {
    let dep = |n: &str, r: &str, by: &str| olivaw::plan::CargoDep {
        name: n.to_string(),
        req: r.to_string(),
        needed_by: id(by),
    };
    let mut plan = Plan::new();
    plan.cargo_deps = vec![
        dep("nalgebra", "0.33", "slam/core-types"),
        dep("libm", "0.2", "slam/scan-matcher"),
        dep("nalgebra", "0.33", "slam/scan-matcher"),
        dep("nalgebra", "0.32", "slam/scan-matcher"),
    ];
    plan.dedupe_cargo_deps();
    let once: Vec<(String, String, String)> =
        plan.cargo_deps.iter().map(|d| (d.name.clone(), d.req.clone(), d.needed_by.to_string())).collect();
    assert_eq!(
        once,
        vec![
            ("nalgebra".to_string(), "0.33".to_string(), "slam/core-types".to_string()),
            ("libm".to_string(), "0.2".to_string(), "slam/scan-matcher".to_string()),
            ("nalgebra".to_string(), "0.32".to_string(), "slam/scan-matcher".to_string()),
        ]
    );
    plan.dedupe_cargo_deps();
    let twice: Vec<(String, String, String)> =
        plan.cargo_deps.iter().map(|d| (d.name.clone(), d.req.clone(), d.needed_by.to_string())).collect();
    assert_eq!(twice, once);
}
