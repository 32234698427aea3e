use olivaw::project::{PathError, RelPath};

#[test]
fn accepts_normal_relative_paths() {
    for ok in ["src/sensors/mpu6050.rs", "examples/read.rs", "./src/lib.rs", "a"] {
        assert!(RelPath::new(ok).is_ok(), "should accept {ok:?}");
    }
    assert_eq!(RelPath::new("./src/lib.rs").expect("valid").as_str(), "src/lib.rs");
}

#[test]
fn rejects_escaping_paths() {
    for bad in ["", "../evil.rs", "src/../../evil.rs", "/etc/passwd", "~/x.rs", "~root/x.rs"] {
        assert!(RelPath::new(bad).is_err(), "should reject {bad:?}");
    }
}

#[test]
fn rejects_windows_prefixes() {
    for bad in ["C:\\evil.rs", "C:/evil.rs", "\\\\server\\share\\x.rs"] {
        assert!(RelPath::new(bad).is_err(), "should reject {bad:?}");
    }
}

#[test]
fn prefixing_stays_relative() {
    let p = RelPath::new("src/l298n.rs").expect("valid");
    let dir = RelPath::new("vendor").expect("valid");
    assert_eq!(p.prefixed(&dir).as_str(), "vendor/src/l298n.rs");
}

#[test]
fn normalizes_dots_and_repeated_slashes() {
    assert_eq!(RelPath::new("a//b/./c/").expect("valid").as_str(), "a/b/c");
    assert_eq!(RelPath::new("./.").unwrap_err(), PathError::ResolvesToNothing("./.".to_string()));
}

#[test]
fn each_refusal_has_its_kind() {
    assert_eq!(RelPath::new(""), Err(PathError::Empty));
    assert_eq!(RelPath::new("~/x"), Err(PathError::HomeDir("~/x".to_string())));
    assert_eq!(RelPath::new("a/../b"), Err(PathError::ParentDir("a/../b".to_string())));
    assert_eq!(RelPath::new("/x"), Err(PathError::NotRelative("/x".to_string())));
    assert_eq!(
        PathError::ParentDir("a/../b".to_string()).message(),
        "destination path 'a/../b' must not contain '..'"
    );
}

#[test]
fn project_paths_join_under_the_root() {
    let project = olivaw::project::Project { root: std::path::PathBuf::from("/work/bot") };
    assert_eq!(project.manifest_path(), std::path::PathBuf::from("/work/bot/olivaw.toml"));
    assert_eq!(project.cargo_toml_path(), std::path::PathBuf::from("/work/bot/Cargo.toml"));
    let dest = RelPath::new("src/drivers/led.rs").expect("safe path");
    assert_eq!(dest.join_under(&project.root), std::path::PathBuf::from("/work/bot/src/drivers/led.rs"));
}

#[test]
fn a_home_or_drive_prefix_is_refused_after_normalizing() {
    assert!(matches!(RelPath::new("./~/x.rs"), Err(PathError::HomeDir(_))));
    assert!(matches!(RelPath::new("./~x"), Err(PathError::HomeDir(_))));
    assert!(matches!(RelPath::new(".//C:/evil.rs"), Err(PathError::NotRelative(_))));
    let p = RelPath::new("./src/./x.rs").expect("safe");
    assert_eq!(RelPath::new(p.as_str()).expect("canonical").as_str(), p.as_str());
}
