use safaribooks::epub::{CONTAINER_XML, MIMETYPE};
use safaribooks::{clean_filename, root_name, sanitize_filename, truncate_utf8_by_byte, EpubSkeleton};

#[test]
fn sanitize_scenario() {
    assert_eq!(sanitize_filename(" My  Book: Title! "), "My Book_ Title!");
}

#[test]
fn sanitize_is_idempotent_on_examples() {
    for s in [" My  Book: Title! ", "a\tb\u{3000}\u{3000}c ", "Cafe\u{301}", "", "<>|"] {
        let once = sanitize_filename(s);
        assert_eq!(sanitize_filename(&once), once);
    }
}

#[test]
fn sanitize_replaces_reserved_and_control() {
    let r = sanitize_filename("a<b>c:d\"e/f\\g|h?i*j\u{7}k\u{85}l");
    assert_eq!(r, "a_b_c_d_e_f_g_h_i_j_k_l");
    assert_eq!(sanitize_filename("\u{0}\u{1f}"), "__");
}

#[test]
fn sanitize_collapses_and_trims_whitespace() {
    assert_eq!(sanitize_filename("  a \u{a0}\u{2003} b  "), "a b");
    assert_eq!(sanitize_filename("   "), "");
    assert_eq!(sanitize_filename(""), "");
    assert_eq!(sanitize_filename("x\ny"), "x_y");
}

#[test]
fn sanitize_composes_to_nfc() {
    assert_eq!(sanitize_filename("Cafe\u{301}"), "Caf\u{e9}");
}

#[test]
fn plan_scenario_learning_rust() {
    let s = EpubSkeleton::plan("base", "Learning Rust", "9781491958698");
    assert_eq!(s.root_name, "Learning Rust (9781491958698)");
    assert_eq!(s.root, "base/Learning Rust (9781491958698)");
    assert_eq!(s.meta_inf, "base/Learning Rust (9781491958698)/META-INF");
    assert_eq!(s.oebps, "base/Learning Rust (9781491958698)/OEBPS");
}

#[test]
fn plan_scenario_empty_title() {
    let s = EpubSkeleton::plan("base", "", "123");
    assert_eq!(s.root, "base/(123)");
}

#[test]
fn plan_scenario_long_title() {
    let title = "a".repeat(300);
    let s = EpubSkeleton::plan("base", &title, "42");
    assert_eq!(s.root_name, format!("{} (42)", "a".repeat(250)));
    assert_eq!(s.root_name.len(), 255);
}

#[test]
fn plan_keeps_whole_characters() {
    let title = "\u{e9}".repeat(200);
    let s = EpubSkeleton::plan("", &title, "42");
    assert_eq!(s.root_name, format!("{} (42)", "\u{e9}".repeat(125)));
    assert!(s.root_name.len() <= 255);
    assert_eq!(s.root, s.root_name);
}

#[test]
fn plan_with_long_bookid_keeps_only_the_id() {
    let id = "9".repeat(260);
    let s = EpubSkeleton::plan("b/", "Title", &id);
    assert_eq!(s.root_name, format!(" ({})", id));
    assert_eq!(s.root, format!("b/ ({})", id));
}

#[test]
fn truncation_backs_off_to_a_boundary() {
    assert_eq!(truncate_utf8_by_byte("h\u{e9}llo", 2), "h");
    assert_eq!(truncate_utf8_by_byte("h\u{e9}llo", 3), "h\u{e9}");
    assert_eq!(truncate_utf8_by_byte("abc", 10), "abc");
    assert_eq!(truncate_utf8_by_byte("\u{1f600}", 3), "");
    assert_eq!(truncate_utf8_by_byte("abc", 0), "");
}

#[test]
fn materialize_contents() {
    let s = EpubSkeleton::plan("Books", "Learning Rust", "9781491958698");
    assert_eq!(MIMETYPE.as_bytes(), b"application/epub+zip");
    assert!(CONTAINER_XML.contains("OEBPS/content.opf"));
    assert_eq!(s.mimetype_path(), "Books/Learning Rust (9781491958698)/mimetype");
    assert_eq!(
        s.container_xml_path(),
        "Books/Learning Rust (9781491958698)/META-INF/container.xml"
    );
}

#[test]
fn cleaning_leaves_composition_alone() {
    assert_eq!(clean_filename("Cafe\u{301}"), "Cafe\u{301}");
    assert_eq!(clean_filename(" My  Book: Title! "), "My Book_ Title!");
    assert_eq!(clean_filename("\u{2003}x\u{2003}\u{a0}y\u{3000}"), "x y");
}

#[test]
fn all_reserved_title_keeps_underscores() {
    let s = EpubSkeleton::plan("base", "???", "7");
    assert_eq!(s.root_name, "___ (7)");
}

#[test]
fn root_name_from_clean_title() {
    assert_eq!(root_name("Learning Rust", "9781491958698"), "Learning Rust (9781491958698)");
    assert_eq!(root_name("", "123"), "(123)");
    let long = "b".repeat(300);
    assert_eq!(root_name(&long, "42"), format!("{} (42)", "b".repeat(250)));
}
