use olivaw::registry::ComponentId;

#[test]
fn component_id_parses_valid_paths() {
    let id: ComponentId = "sensors/mpu6050".parse().expect("valid id");
    assert_eq!(id.category, "sensors");
    assert_eq!(id.name, "mpu6050");
    assert_eq!(id.to_string(), "sensors/mpu6050");
    let id: ComponentId = "kinematics/differential-drive".parse().expect("valid id");
    assert_eq!(id.name, "differential-drive");
}

#[test]
fn component_id_rejects_bad_paths() {
    for bad in [
        "mpu6050",
        "sensors/",
        "/mpu6050",
        "Sensors/mpu6050",
        "sensors/MPU6050",
        "sensors/mpu 6050",
        "a/b/c",
        "sensors/../etc",
        "",
    ] {
        assert!(bad.parse::<ComponentId>().is_err(), "should reject {bad:?}");
    }
}

#[test]
fn invalid_id_message_explains_the_format() {
    let err = ComponentId::parse("mpu6050").unwrap_err();
    assert!(err.message().contains("<category>/<name>"));
    assert!(err.message().starts_with("'mpu6050' is not a component path"));
}

#[test]
fn an_id_parses_back_from_its_text() {
    let id = ComponentId { category: "kinematics".to_string(), name: "differential-drive".to_string() };
    let back = ComponentId::parse(&id.to_string()).expect("a valid id's text parses");
    assert_eq!(back.category, "kinematics");
    assert_eq!(back.name, "differential-drive");
}
