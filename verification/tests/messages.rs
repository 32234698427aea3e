use olivaw::bench::Channel;
use olivaw::plan::{CargoDep, Plan};
use olivaw::project::cargo::CargoEditError;
use olivaw::project::RelPath;
use olivaw::registry::{pinned_tag, ComponentId, RegistryOpts};
use olivaw::rplidar::ProtocolError;
use olivaw::slam::SlamError;
use olivaw::ui::Ui;

#[test]
fn protocol_errors_read_as_hex() {
    assert_eq!(
        ProtocolError::BadSync { actual: [0x12, 0xab] }.to_string(),
        "bad descriptor sync: expected [0xa5, 0x5a], got [12, ab]"
    );
    assert_eq!(ProtocolError::ReservedSendMode(2).to_string(), "reserved response send mode 0x02");
    assert_eq!(
        ProtocolError::WrongLength { expected: 5, actual: 20 }.to_string(),
        "unexpected response length: expected 5, got 20"
    );
    assert_eq!(
        ProtocolError::Checksum { expected: 0x0f, actual: 0xf0 }.to_string(),
        "bad checksum: expected 0x0f, got 0xf0"
    );
}

#[test]
fn slam_errors_read_in_words() {
    assert_eq!(
        SlamError::ScanTooLarge { actual: 9000, limit: 8192 }.to_string(),
        "scan has 9000 points, exceeding limit 8192"
    );
    assert_eq!(
        SlamError::InvalidConfig { field: "max_iterations", reason: "must be positive".to_string() }.to_string(),
        "invalid config field `max_iterations`: must be positive"
    );
}

#[test]
fn ui_styles_only_with_color() {
    let plain = Ui { color: false };
    assert_eq!(plain.header("Files"), "Files");
    assert_eq!(plain.error_line("boom"), "error: boom");
    let color = Ui { color: true };
    assert_eq!(color.ok("ok"), "\x1b[32mok\x1b[39m");
    assert_eq!(color.warn("careful"), "\x1b[33mcareful\x1b[39m");
    assert_eq!(color.dim("v1"), "\x1b[2mv1\x1b[0m");
    assert_eq!(color.header("H"), "\x1b[1mH\x1b[0m");
    assert_eq!(color.error_line("boom"), "\x1b[1m\x1b[31merror:\x1b[39m\x1b[0m boom");
}

#[test]
fn registry_tag_defaults_to_the_tool_version() {
    assert_eq!(pinned_tag(&RegistryOpts { offline: false, tag_override: None }), "registry-v0.1.0");
    assert_eq!(
        pinned_tag(&RegistryOpts { offline: true, tag_override: Some("registry-vTEST".to_string()) }),
        "registry-vTEST"
    );
}

#[test]
fn cargo_errors_name_the_file() {
    assert_eq!(
        CargoEditError::NotToml.message("Cargo.toml"),
        "Cargo.toml is not valid TOML — fix it before adding components"
    );
}

#[test]
fn motor_channels_describe_their_pins() {
    assert_eq!(Channel { in1: true, in2: false, duty: 255 }.describe(), "forward duty 255/255");
    assert_eq!(Channel { in1: false, in2: true, duty: 7 }.describe(), "reverse duty   7/255");
    assert_eq!(Channel { in1: false, in2: false, duty: 0 }.describe(), "coast   duty   0/255");
    assert_eq!(Channel { in1: true, in2: true, duty: 1000 }.describe(), "brake   duty 1000/255");
}

#[test]
fn dedupe_keeps_the_first_of_each_requirement() {
    let id = ComponentId::parse("slam/core-types").unwrap();
    let dep = |n: &str, r: &str| CargoDep { name: n.to_string(), req: r.to_string(), needed_by: id.clone() };
    let mut plan = Plan::new();
    plan.cargo_deps = vec![dep("nalgebra", "0.34"), dep("kiddo", "5"), dep("nalgebra", "0.34"), dep("nalgebra", "0.33")];
    plan.dedupe_cargo_deps();
    let kept: Vec<(String, String)> = plan.cargo_deps.iter().map(|d| (d.name.clone(), d.req.clone())).collect();
    assert_eq!(
        kept,
        vec![
            ("nalgebra".to_string(), "0.34".to_string()),
            ("kiddo".to_string(), "5".to_string()),
            ("nalgebra".to_string(), "0.33".to_string()),
        ]
    );
    let _ = RelPath::new("x").unwrap();
}

#[test]
fn diffs_render_line_by_line() {
    let plain = Ui { color: false };
    assert_eq!(
        plain.diff_lines("a\nb\n", "a\nc\n"),
        vec!["    @@ -1,2 +1,2 @@", "     a", "    -b", "    +c"]
    );
    let color = Ui { color: true };
    let lines = color.diff_lines("a\nb\n", "a\nc\n");
    assert_eq!(lines[2], "    \x1b[31m-b\x1b[39m");
    assert_eq!(lines[3], "    \x1b[32m+c\x1b[39m");
    assert!(plain.diff_lines("same\n", "same\n").is_empty());
}

/// What a terminal shows: every `ESC … m` sequence taken out.
fn shown(s: &str) -> String {
    let mut out = String::new();
    let mut in_escape = false;
    for c in s.chars() {
        if in_escape {
            if c == 'm' {
                in_escape = false;
            }
        } else if c == '\u{1b}' {
            in_escape = true;
        } else {
            out.push(c);
        }
    }
    out
}

#[test]
fn coloured_lines_show_as_their_plain_text() {
    let plain = Ui { color: false };
    let color = Ui { color: true };
    let msg = "no component 'sensors/bno055'";
    assert_ne!(color.error_line(msg), plain.error_line(msg));
    assert_eq!(shown(&color.error_line(msg)), plain.error_line(msg));
    assert_eq!(shown(&color.header("Components")), plain.header("Components"));
    assert_eq!(shown(&color.ok("added")), "added");
    assert_eq!(shown(&color.warn("careful")), "careful");
    assert_eq!(shown(&color.dim("detail")), "detail");
}
