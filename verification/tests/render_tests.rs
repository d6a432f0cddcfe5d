use diff2html::parser::{File, Line, LineType};
use diff2html::render::{
    diff_highlight, get_diff_name, get_file_type_icon, get_html_id, get_line_type_class,
    pair_changed_lines, separate_prefix, Diff2HtmlConfig, FileChangeKind,
};

fn file_with_names(old: Option<&str>, new: Option<&str>) -> File {
    let mut f = File::new();
    f.old_name = old.map(|s| s.to_owned());
    f.new_name = new.map(|s| s.to_owned());
    f
}

#[test]
fn diff_name_equal_paths() {
    let f = file_with_names(Some("src/lib.rs"), Some("src/lib.rs"));
    assert_eq!(get_diff_name(&f), "src/lib.rs");
}

#[test]
fn diff_name_factored_rename() {
    let f = file_with_names(Some("src/old/mod.rs"), Some("src/new/mod.rs"));
    assert_eq!(get_diff_name(&f), "src/{old \u{2192} new}/mod.rs");
}

#[test]
fn diff_name_dev_null_falls_back() {
    let f = file_with_names(Some("/dev/null"), Some("x.txt"));
    assert_eq!(get_diff_name(&f), "x.txt");
    let g = file_with_names(None, None);
    assert_eq!(get_diff_name(&g), "uknown/file/path");
    let h = file_with_names(Some("win\\path.txt"), Some("win\\path.txt"));
    assert_eq!(get_diff_name(&h), "win/path.txt");
}

#[test]
fn html_id_shape_and_stability() {
    let f = file_with_names(Some("a.txt"), Some("a.txt"));
    let id1 = get_html_id(&f);
    let id2 = get_html_id(&f);
    assert_eq!(id1, id2);
    assert!(id1.starts_with("d2h-"));
    assert!(id1.len() > 4);
    assert!(id1[4..].chars().all(|c| c.is_ascii_digit()));
    let g = file_with_names(Some("b.txt"), Some("b.txt"));
    assert_ne!(get_html_id(&f), get_html_id(&g));
}

#[test]
fn change_kind_classification() {
    let mut f = file_with_names(Some("a"), Some("a"));
    assert_eq!(get_file_type_icon(&f), FileChangeKind::Changed);
    f.is_new = true;
    assert_eq!(get_file_type_icon(&f), FileChangeKind::Added);
    f.is_new = false;
    f.is_deleted = true;
    assert_eq!(get_file_type_icon(&f), FileChangeKind::Deleted);
    f.is_deleted = false;
    f.is_rename = true;
    assert_eq!(get_file_type_icon(&f), FileChangeKind::Renamed);
    let g = file_with_names(Some("a"), Some("b"));
    assert_eq!(get_file_type_icon(&g), FileChangeKind::Renamed);
}

#[test]
fn line_type_classes() {
    assert_eq!(get_line_type_class(&LineType::Inserts), "d2h-ins");
    assert_eq!(get_line_type_class(&LineType::Deletes), "d2h-del");
    assert_eq!(get_line_type_class(&LineType::Context), "d2h-cntx");
    assert_eq!(
        get_line_type_class(&LineType::InsertChanges),
        "d2h-ins d2h-change"
    );
    assert_eq!(
        get_line_type_class(&LineType::DeleteChanges),
        "d2h-del d2h-change"
    );
}

#[test]
fn separate_prefix_widths() {
    let s = separate_prefix(false, "+abc");
    assert_eq!(s.prefix, "+");
    assert_eq!(s.line, "abc");
    let c = separate_prefix(true, "++abc");
    assert_eq!(c.prefix, "++");
    assert_eq!(c.line, "abc");
    let e = separate_prefix(false, "");
    assert_eq!(e.prefix, "");
    assert_eq!(e.line, "");
}

#[test]
fn highlight_identical_lines_no_spans() {
    let mut cfg = Diff2HtmlConfig::default();
    cfg.matching = "words".to_owned();
    let h = diff_highlight(&cfg, "-a<b", "+a<b");
    assert_eq!(h.first.prefix, "-");
    assert_eq!(h.second.prefix, "+");
    // The escape goes through the html-escaping dependency: '<' must come
    // back as an entity, and no change span appears.
    assert_eq!(h.first.line, "a&lt;b");
    assert_eq!(h.second.line, "a&lt;b");
}

#[test]
fn highlight_one_changed_word() {
    let mut cfg = Diff2HtmlConfig::default();
    cfg.matching = "words".to_owned();
    let h = diff_highlight(&cfg, "-cat dog", "+cat fog");
    assert_eq!(h.first.line, "cat <del class=\"d2h-change\">dog</del>");
    assert_eq!(h.second.line, "cat <ins class=\"d2h-change\">fog</ins>");
}

#[test]
fn highlight_unrelated_word_not_marked() {
    let mut cfg = Diff2HtmlConfig::default();
    cfg.matching = "words".to_owned();
    let h = diff_highlight(&cfg, "-cat dog", "+cat zebra");
    // distance(dog, zebra) = 5/8, above the 0.25 threshold: plain spans.
    assert_eq!(h.first.line, "cat <del>dog</del>");
    assert_eq!(h.second.line, "cat <ins>zebra</ins>");
}

#[test]
fn highlight_long_line_passes_through() {
    let mut cfg = Diff2HtmlConfig::default();
    cfg.max_line_length_highlight = 3;
    let h = diff_highlight(&cfg, "-abcdef<", "+abcdxy<");
    assert_eq!(h.first.line, "abcdef<");
    assert_eq!(h.second.line, "abcdxy<");
}

#[test]
fn pairing_respects_mode_and_ceiling() {
    let cfg_on = Diff2HtmlConfig {
        matching: "lines".to_owned(),
        ..Diff2HtmlConfig::default()
    };
    let old_lines = vec![Line::new("-abc".to_owned())];
    let new_lines = vec![Line::new("+abd".to_owned())];
    let (groups, it, dt) = pair_changed_lines(&cfg_on, &old_lines, &new_lines);
    assert_eq!(it, LineType::InsertChanges);
    assert_eq!(dt, LineType::DeleteChanges);
    assert_eq!(groups.len(), 1);
    assert_eq!((groups[0].a_lo, groups[0].a_hi, groups[0].b_lo, groups[0].b_hi), (0, 1, 0, 1));

    let cfg_off = Diff2HtmlConfig::default();
    let (g2, it2, dt2) = pair_changed_lines(&cfg_off, &old_lines, &new_lines);
    assert_eq!(it2, LineType::Inserts);
    assert_eq!(dt2, LineType::Deletes);
    assert_eq!(g2.len(), 1);
    assert_eq!((g2[0].a_lo, g2[0].a_hi, g2[0].b_lo, g2[0].b_hi), (0, 1, 0, 1));
}
