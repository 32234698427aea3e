//! The registry-facing parts of the command line, checked on the library
//! with the nine component ids the shipped registry holds.

use olivaw::listing::list_components;
use olivaw::registry::{
    Component, ComponentId, ComponentMeta, Dependencies, IndexEntry, LoadedComponent, Registry, RegistryError,
    RegistryIndex, RegistryMeta, RegistrySource,
};

const SHIPPED: [&str; 9] = [
    "comms/cmdvel-protocol",
    "drivers/l298n",
    "drivers/led",
    "kinematics/differential-drive",
    "sensors/hcsr04",
    "sensors/mpu6050",
    "sensors/rplidar",
    "slam/core-types",
    "slam/scan-matcher",
];

fn shipped_registry() -> Registry {
    let mut index = Vec::new();
    let mut loaded = Vec::new();
    for path in SHIPPED {
        let id = ComponentId::parse(path).expect("valid id");
        let component = Component {
            component: ComponentMeta {
                name: id.name.clone(),
                category: id.category.clone(),
                version: "0.1.0".to_string(),
                description: format!("{} component", id.name),
                license: "MIT OR Apache-2.0".to_string(),
            },
            hardware: None,
            compatibility: None,
            verification: None,
            files: vec![],
            dependencies: Dependencies { cargo: vec![], components: vec![] },
        };
        index.push((
            path.to_string(),
            IndexEntry { version: "0.1.0".to_string(), description: format!("{} component", id.name) },
        ));
        loaded.push(LoadedComponent { path: path.to_string(), parsed: Ok(component) });
    }
    Registry {
        source: RegistrySource::Embedded,
        index: RegistryIndex::new(RegistryMeta { version: "0.1.0".to_string() }, index),
        loaded,
    }
}

#[test]
fn list_filters_by_category_and_suggests_on_typo() {
    let reg = shipped_registry();
    let drivers = list_components(&reg, &vec![], Some("drivers")).expect("known category");
    assert_eq!(drivers.len(), 1);
    assert!(drivers[0].entries.iter().any(|e| e.name == "l298n"));
    assert_eq!(drivers[0].entries.len(), 2);
    match list_components(&reg, &vec![], Some("driver")) {
        Err(m) => assert!(m.contains("did you mean 'drivers'?"), "{m}"),
        Ok(_) => panic!("a typo must be refused"),
    }
}

#[test]
fn info_suggests_close_component_names() {
    let reg = shipped_registry();
    let typo = ComponentId::parse("sensors/mpu650").expect("well-formed id");
    match reg.component(&typo) {
        Err(RegistryError::UnknownComponent(m)) => {
            assert!(m.contains("did you mean 'sensors/mpu6050'?"), "{m}");
            assert!(m.contains("olivaw list sensors"), "{m}");
        }
        _ => panic!("an unknown id must be refused with a suggestion"),
    }
}

#[test]
fn malformed_component_path_explains_the_format() {
    match ComponentId::parse("mpu6050") {
        Err(e) => assert!(e.message().contains("<category>/<name>"), "{}", e.message()),
        Ok(_) => panic!("a bare name is not a component path"),
    }
}

#[test]
fn shipped_registry_lists_nine_components_in_five_groups() {
    let reg = shipped_registry();
    let all = list_components(&reg, &vec![], None).expect("listing");
    let cats: Vec<&str> = all.iter().map(|l| l.category.as_str()).collect();
    assert_eq!(cats, vec!["comms", "drivers", "kinematics", "sensors", "slam"]);
    let total: usize = all.iter().map(|l| l.entries.len()).sum();
    assert_eq!(total, 9);
    let names: Vec<&str> = all.iter().flat_map(|l| l.entries.iter().map(|e| e.name.as_str())).collect();
    assert!(names.contains(&"mpu6050"));
    assert!(names.contains(&"scan-matcher"));
    assert_eq!(reg.categories(), vec!["comms", "drivers", "kinematics", "sensors", "slam"]);
}
