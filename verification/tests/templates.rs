use olivaw::plan::WriteKind;
use olivaw::templates::{
    check_project_name, mark_existing, render_template, scaffold_plan, Target, TemplateDir, TemplateError,
    TemplateFile,
};

fn file(path: &str, contents: &[u8]) -> TemplateFile {
    TemplateFile { path: path.to_string(), contents: contents.to_vec() }
}

fn dirs() -> Vec<TemplateDir> {
    vec![
        TemplateDir {
            name: "common".to_string(),
            files: vec![file("common/gitignore", b"/target\n"), file("common/README.md", b"# {{project_name}}\n")],
        },
        TemplateDir {
            name: "linux".to_string(),
            files: vec![
                file("linux/Cargo.toml", b"[package]\nname = \"{{project_name}}\"\n"),
                file("linux/src/main.rs", b"fn main() {}\n"),
            ],
        },
        TemplateDir { name: "esp32".to_string(), files: vec![file("esp32/src/main.rs", b"#![no_std]\n")] },
    ]
}

#[test]
fn target_names() {
    assert_eq!(Target::Esp32.as_str(), "esp32");
    assert_eq!(Target::Rp2040.as_str(), "rp2040");
    assert_eq!(Target::Linux.as_str(), "linux");
}

#[test]
fn scaffold_substitutes_the_name_and_restores_gitignore() {
    let plan = scaffold_plan("my-bot", Target::Linux, &dirs()).expect("scaffold");
    let dests: Vec<&str> = plan.file_writes.iter().map(|w| w.dest.as_str()).collect();
    assert_eq!(dests, vec![".gitignore", "README.md", "Cargo.toml", "src/main.rs"]);
    assert_eq!(plan.file_writes[1].contents, b"# my-bot\n".to_vec());
    assert_eq!(plan.file_writes[2].contents, b"[package]\nname = \"my-bot\"\n".to_vec());
    assert_eq!(plan.file_writes[3].contents, b"fn main() {}\n".to_vec());
    assert!(plan.file_writes.iter().all(|w| w.kind == WriteKind::Create));
    assert!(plan.cargo_deps.is_empty() && plan.manifest_updates.is_empty());
}

#[test]
fn missing_target_directory_is_a_build_bug() {
    match scaffold_plan("my-bot", Target::Rp2040, &dirs()) {
        Err(e @ TemplateError::MissingDir(_)) => {
            assert_eq!(e.message(), "missing embedded template dir 'rp2040' — this is a build bug in olivaw")
        }
        _ => panic!("expected a missing directory"),
    }
}

#[test]
fn template_paths_must_stay_inside() {
    let bad = vec![
        TemplateDir { name: "common".to_string(), files: vec![file("common/../escape", b"")] },
        TemplateDir { name: "linux".to_string(), files: vec![] },
    ];
    match scaffold_plan("x", Target::Linux, &bad) {
        Err(e @ TemplateError::InvalidPath { .. }) => assert_eq!(e.message(), "invalid template path '../escape'"),
        _ => panic!("expected an invalid path"),
    }
    let outside = vec![TemplateDir { name: "common".to_string(), files: vec![file("linux/x", b"")] }];
    match scaffold_plan("x", Target::Linux, &outside) {
        Err(e @ TemplateError::OutsideRoot(_)) => assert_eq!(e.message(), "template path outside its root"),
        _ => panic!("expected a path outside its root"),
    }
}

#[test]
fn binary_templates_are_copied_verbatim() {
    let bytes = vec![0xff, 0xfe, b'{', b'{'];
    assert_eq!(render_template(bytes.clone(), "bot"), bytes);
    assert_eq!(render_template(b"{{project_name}}-{{project_name}}".to_vec(), "bot"), b"bot-bot".to_vec());
}

#[test]
fn init_rejects_bad_project_names() {
    assert_eq!(
        check_project_name("bad name!"),
        Err("'bad name!' is not a valid project name — use letters, digits, '-' and '_'".to_string())
    );
    assert!(check_project_name("").is_err());
    assert_eq!(check_project_name("my_bot-2"), Ok(()));
}

#[test]
fn existing_files_conflict_unless_forced() {
    let mut plan = scaffold_plan("my-bot", Target::Linux, &dirs()).expect("scaffold");
    let exists = vec![false, false, false, true];
    let conflicts = mark_existing(&mut plan, &exists, false);
    assert_eq!(conflicts.len(), 1);
    assert_eq!(conflicts[0].as_str(), "src/main.rs");
    assert_eq!(plan.file_writes[3].kind, WriteKind::Create);
    let none = mark_existing(&mut plan, &exists, true);
    assert!(none.is_empty());
    assert_eq!(plan.file_writes[3].kind, WriteKind::Overwrite);
    assert_eq!(plan.file_writes[0].kind, WriteKind::Create);
}
