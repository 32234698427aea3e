use olivaw::project::manifest::{InstalledComponent, ProjectManifest, OLIVAW_VERSION};
use olivaw::registry::ComponentId;

fn rec(version: &str) -> InstalledComponent {
    InstalledComponent {
        version: version.to_string(),
        installed_at: "2026-01-01T00:00:00Z".to_string(),
        files: vec!["src/a.rs".to_string()],
        checksums: vec![],
    }
}

#[test]
fn new_manifest_has_no_components() {
    let m = ProjectManifest::new_for("robot", "linux");
    assert_eq!(m.project().name, "robot");
    assert_eq!(m.project().target, "linux");
    assert_eq!(m.project().olivaw_version, OLIVAW_VERSION);
    assert!(m.components().is_empty());
}

#[test]
fn a_recorded_component_reads_back() {
    let mut m = ProjectManifest::new_for("robot", "unknown");
    m.record("drivers/led".to_string(), rec("0.1.0"));
    m.record("sensors/mpu6050".to_string(), rec("0.3.0"));
    m.record("drivers/led".to_string(), rec("0.2.0"));
    assert_eq!(m.components().len(), 2);
    assert_eq!(m.get("drivers/led").expect("installed").version, "0.2.0");
    assert_eq!(m.get("sensors/mpu6050").expect("installed").version, "0.3.0");
    assert!(m.get("slam/core-types").is_none());
}

#[test]
fn later_updates_win() {
    let mut m = ProjectManifest::new_for("robot", "unknown");
    let led = ComponentId::parse("drivers/led").unwrap();
    let led_again = ComponentId::parse("drivers/led").unwrap();
    m.record_all(vec![(led, rec("0.1.0")), (led_again, rec("0.2.0"))]);
    assert_eq!(m.components().len(), 1);
    assert_eq!(m.get("drivers/led").expect("installed").version, "0.2.0");
}

#[test]
fn records_keep_components_in_key_order() {
    let mut m = olivaw::project::manifest::ProjectManifest::new_for("bot", "linux");
    for key in ["slam/core-types", "drivers/led", "sensors/mpu6050", "drivers/led"] {
        m.record(
            key.to_string(),
            olivaw::project::manifest::InstalledComponent {
                version: "0.1.0".to_string(),
                installed_at: "2026-01-01T00:00:00Z".to_string(),
                files: vec![],
                checksums: vec![],
            },
        );
    }
    let keys: Vec<&str> = m.components().iter().map(|(k, _)| k.as_str()).collect();
    assert_eq!(keys, vec!["drivers/led", "sensors/mpu6050", "slam/core-types"]);
}

#[test]
fn a_read_manifest_holds_its_records_in_key_order() {
    let m = ProjectManifest::from_parts(
        olivaw::project::manifest::ProjectMeta {
            name: "bot".to_string(),
            target: "linux".to_string(),
            olivaw_version: OLIVAW_VERSION.to_string(),
        },
        vec![
            ("sensors/mpu6050".to_string(), rec("0.1.0")),
            ("drivers/led".to_string(), rec("0.1.0")),
            ("sensors/mpu6050".to_string(), rec("0.2.0")),
        ],
    );
    let keys: Vec<&str> = m.components().iter().map(|(k, _)| k.as_str()).collect();
    assert_eq!(keys, vec!["drivers/led", "sensors/mpu6050"]);
    assert_eq!(m.get("sensors/mpu6050").map(|r| r.version.as_str()), Some("0.2.0"));
    assert_eq!(m.project().name, "bot");
}
