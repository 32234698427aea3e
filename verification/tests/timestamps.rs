use olivaw::project::manifest::{now_rfc3339, rfc3339_from_secs};

#[test]
fn rfc3339_format_shape() {
    let t = now_rfc3339();
    // 2026-07-20T21:30:00Z — 20 chars, fixed punctuation.
    assert_eq!(t.len(), 20, "unexpected shape: {t}");
    assert_eq!(&t[4..5], "-");
    assert_eq!(&t[10..11], "T");
    assert!(t.ends_with('Z'));
    assert!(t.starts_with("20"), "unexpected year: {t}");
}

#[test]
fn known_instants_render_exactly() {
    assert_eq!(rfc3339_from_secs(0), "1970-01-01T00:00:00Z");
    assert_eq!(rfc3339_from_secs(951_782_400), "2000-02-29T00:00:00Z");
    assert_eq!(rfc3339_from_secs(1_784_583_000), "2026-07-20T21:30:00Z");
    assert_eq!(rfc3339_from_secs(253_402_300_799), "9999-12-31T23:59:59Z");
}
