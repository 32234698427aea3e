use olivaw::checksum::sha256_hex;
use olivaw::drift::{
    classify_update, dropped_files, file_state, missing_fix, modified_fix, pending_and_modified, scan,
    summarize_states, update_step, update_write_kinds, version_line, FileAction, FileState, UpdateStep,
};
use olivaw::plan::WriteKind;
use olivaw::project::manifest::InstalledComponent;
use olivaw::project::RelPath;

const LED: &[u8] = b"pub struct Blinker;\n";

fn installed() -> InstalledComponent {
    InstalledComponent {
        version: "0.1.0".to_string(),
        installed_at: "2026-01-01T00:00:00Z".to_string(),
        files: vec!["src/drivers/led.rs".to_string(), "examples/led_modes.rs".to_string()],
        checksums: vec![("src/drivers/led.rs".to_string(), sha256_hex(LED))],
    }
}

#[test]
fn file_states_follow_the_recorded_hash() {
    let inst = installed();
    assert_eq!(file_state(&inst, "src/drivers/led.rs", Some(LED)), FileState::Clean);
    assert_eq!(file_state(&inst, "src/drivers/led.rs", Some(b"// tweak\n")), FileState::Modified);
    assert_eq!(file_state(&inst, "src/drivers/led.rs", None), FileState::Missing);
    assert_eq!(file_state(&inst, "examples/led_modes.rs", Some(b"x")), FileState::Unknown);
    assert_eq!(file_state(&inst, "../escape.rs", Some(LED)), FileState::Unknown);
}

#[test]
fn scan_checks_every_recorded_file() {
    let inst = installed();
    let states = scan(&inst, &vec![Some(b"edited\n".to_vec()), None]);
    assert_eq!(states[0], ("src/drivers/led.rs".to_string(), FileState::Modified));
    assert_eq!(states[1], ("examples/led_modes.rs".to_string(), FileState::Missing));
    assert_eq!(summarize_states(&states), (2, true, true));
    let clean = scan(&inst, &vec![Some(LED.to_vec()), Some(b"".to_vec())]);
    assert_eq!(summarize_states(&clean), (1, false, false));
    assert_eq!(
        modified_fix("drivers/led"),
        "modified → olivaw update drivers/led   (shows a diff first; your edits are safe)"
    );
    assert_eq!(missing_fix("drivers/led"), "missing  → olivaw add drivers/led --force");
}

#[test]
fn update_classifies_each_file() {
    let inst = installed();
    let dest = RelPath::new("src/drivers/led.rs").unwrap();
    let new_version = b"pub struct Blinker;\npub enum Mode {}\n";
    assert!(matches!(classify_update(&inst, &dest, LED, Some(LED.to_vec())), FileAction::UpToDate));
    match classify_update(&inst, &dest, new_version, Some(LED.to_vec())) {
        FileAction::Upstream { new_len_delta } => assert_eq!(new_len_delta, (1, 0)),
        _ => panic!("expected an upstream change"),
    }
    match classify_update(&inst, &dest, new_version, Some(b"mine\n".to_vec())) {
        FileAction::UserModified { old } => assert_eq!(old, b"mine\n".to_vec()),
        _ => panic!("expected a local edit"),
    }
    assert!(matches!(classify_update(&inst, &dest, LED, None), FileAction::Restore));
    let fresh = RelPath::new("src/drivers/new.rs").unwrap();
    assert!(matches!(classify_update(&inst, &fresh, LED, None), FileAction::New));
}

#[test]
fn update_counts_and_kinds() {
    let actions = vec![
        FileAction::UpToDate,
        FileAction::UserModified { old: vec![] },
        FileAction::New,
        FileAction::Restore,
    ];
    assert_eq!(pending_and_modified(&actions), (3, 1));
    assert_eq!(
        update_write_kinds(&actions),
        vec![None, Some(WriteKind::Overwrite), Some(WriteKind::Overwrite), Some(WriteKind::Overwrite)]
    );
}

#[test]
fn local_edits_are_never_overwritten_silently() {
    assert_eq!(update_step(0, 0, 0, false, false, false), UpdateStep::UpToDate);
    assert_eq!(update_step(2, 0, 1, false, true, true), UpdateStep::DryRun);
    assert_eq!(update_step(2, 0, 1, false, false, false), UpdateStep::Refuse);
    assert_eq!(update_step(2, 0, 1, false, false, true), UpdateStep::AskOverwriteEdits);
    assert_eq!(update_step(2, 0, 1, true, false, false), UpdateStep::Apply);
    assert_eq!(update_step(2, 0, 0, false, false, true), UpdateStep::AskApply);
    assert_eq!(update_step(0, 1, 0, false, false, false), UpdateStep::Apply);
}

#[test]
fn dropped_files_are_the_recorded_ones_no_longer_shipped() {
    let incoming = vec![RelPath::new("src/drivers/led.rs").unwrap()];
    let dropped = dropped_files(&installed().files, &incoming);
    assert_eq!(dropped, vec!["examples/led_modes.rs".to_string()]);
}

#[test]
fn version_line_shows_the_change() {
    assert_eq!(version_line("0.1.0", "0.1.0"), "v0.1.0");
    assert_eq!(version_line("0.1.0", "0.2.0"), "0.1.0 → 0.2.0");
}

#[test]
fn classify_all_keeps_file_order() {
    let inst = installed();
    let dests = vec![RelPath::new("src/drivers/led.rs").unwrap(), RelPath::new("examples/led_modes.rs").unwrap()];
    let incoming = vec![LED.to_vec(), b"fn main() {}\n".to_vec()];
    let actions = olivaw::drift::classify_all(&inst, &dests, &incoming, vec![Some(LED.to_vec()), None]);
    assert!(matches!(actions[0], FileAction::UpToDate));
    assert!(matches!(actions[1], FileAction::Restore));
}

#[test]
fn refusal_and_prompt_count_the_edits() {
    assert_eq!(
        olivaw::drift::overwrite_refusal(1),
        "refusing to overwrite 1 locally modified file non-interactively — review the diff above and re-run with --force"
    );
    assert_eq!(olivaw::drift::overwrite_prompt(2), "  Overwrite 2 locally modified files?");
}

#[test]
fn check_verdict_counts_issues_and_picks_the_exit_code() {
    assert_eq!(olivaw::drift::check_verdict(&vec![0, 0], 0), (0, 0));
    assert_eq!(olivaw::drift::check_verdict(&vec![1, 2], 0), (3, 1));
    assert_eq!(olivaw::drift::check_verdict(&vec![], 1), (1, 1));
}
