use cargo_cpl::indent::{indent, indent_code, is_safe_to_indent};
use cargo_cpl::paths::module_candidates;
use cargo_cpl::splice::{splice, Edit};
use cargo_cpl::syntax::find_path_override;
use cargo_cpl::text::{chars_of, offset_of, string_of};
use cargo_cpl::toc::TableOfContents;
use cargo_cpl::expand::ExpandError;

fn chars(s: &str) -> Vec<char> {
    s.chars().collect()
}

fn text(v: &[char]) -> String {
    v.iter().collect()
}

#[test]
fn chars_round_trip() {
    let v = chars_of("aé\nb");
    assert_eq!(v, vec!['a', 'é', '\n', 'b']);
    assert_eq!(string_of(&v), "aé\nb");
}

#[test]
fn indent_skips_empty_lines() {
    assert_eq!(text(&indent(&chars("a\n\nb\n"), 1)), "    a\n\n    b\n");
}

#[test]
fn indent_two_levels_is_eight_spaces() {
    assert_eq!(text(&indent(&chars("x\n"), 2)), "        x\n");
    let once = indent(&indent(&chars("x\ny"), 1), 1);
    assert_eq!(text(&once), "        x\n        y");
}

#[test]
fn indent_zero_levels_changes_nothing() {
    assert_eq!(text(&indent(&chars("a\n b\n"), 0)), "a\n b\n");
}

#[test]
fn indent_code_indents_plain_code() {
    assert_eq!(text(&indent_code(&chars("fn f() {}\n"), 1)), "    fn f() {}\n");
}

#[test]
fn indent_code_keeps_multiline_string() {
    let code = "const S: &str = \"a\nb\";\n";
    assert!(!is_safe_to_indent(&chars(code)));
    assert_eq!(text(&indent_code(&chars(code), 1)), code);
}

#[test]
fn indent_code_keeps_multiline_raw_string_in_body() {
    let code = "fn f() {\n    let s = r#\"x\n  y\"#;\n}\n";
    assert!(!is_safe_to_indent(&chars(code)));
    assert_eq!(text(&indent_code(&chars(code), 1)), code);
}

#[test]
fn indent_code_keeps_untokenizable_text() {
    let code = "fn f( {\n";
    assert!(!is_safe_to_indent(&chars(code)));
    assert_eq!(text(&indent_code(&chars(code), 1)), code);
}

#[test]
fn single_line_literals_are_safe() {
    assert!(is_safe_to_indent(&chars("fn f() { let s = \"a\"; }\n")));
    assert!(is_safe_to_indent(&chars("")));
}

#[test]
fn splice_replaces_ranges_in_order() {
    let t = chars("mod a; mod b;\n");
    let edits = vec![
        Edit { start: 5, end: 6, text: chars(" {}") },
        Edit { start: 12, end: 13, text: chars(" {x}") },
    ];
    assert_eq!(text(&splice(&t, &edits)), "mod a {} mod b {x}\n");
}

#[test]
fn splice_zero_width_edit_inserts() {
    let t = chars("abc");
    let edits = vec![Edit { start: 1, end: 1, text: chars("XY") }];
    assert_eq!(text(&splice(&t, &edits)), "aXYbc");
}

#[test]
fn splice_without_edits_is_identity() {
    let t = chars("line\n\n\n");
    assert_eq!(text(&splice(&t, &Vec::new())), "line\n\n\n");
}

#[test]
fn offsets_of_positions() {
    let t = chars("ab\ncd\n");
    assert_eq!(offset_of(&t, 1, 0), Some(0));
    assert_eq!(offset_of(&t, 1, 2), Some(2));
    assert_eq!(offset_of(&t, 2, 1), Some(4));
    assert_eq!(offset_of(&t, 3, 0), Some(6));
    assert_eq!(offset_of(&t, 2, 3), None);
    assert_eq!(offset_of(&t, 4, 0), None);
}

#[test]
fn candidates_at_the_root() {
    let c = module_candidates(&"src/lib.rs".to_string(), 0, &"b".to_string(), &None);
    assert_eq!(c, vec!["src/b.rs".to_string(), "src/b/mod.rs".to_string()]);
}

#[test]
fn candidates_below_a_plain_file() {
    let c = module_candidates(&"src/a.rs".to_string(), 1, &"b".to_string(), &None);
    assert_eq!(c, vec!["src/a/b.rs".to_string(), "src/a/b/mod.rs".to_string()]);
}

#[test]
fn candidates_below_mod_rs() {
    let c = module_candidates(&"src/a/mod.rs".to_string(), 2, &"b".to_string(), &None);
    assert_eq!(c, vec!["src/a/b.rs".to_string(), "src/a/b/mod.rs".to_string()]);
}

#[test]
fn candidate_of_path_attribute() {
    let over = Some("x/alt.rs".to_string());
    for depth in 0..3 {
        let c = module_candidates(&"src/a.rs".to_string(), depth, &"b".to_string(), &over);
        assert_eq!(c, vec!["src/x/alt.rs".to_string()]);
    }
}

#[test]
fn path_override_takes_first_path_attribute() {
    let attrs = vec![
        None,
        Some(("doc".to_string(), "text".to_string())),
        Some(("path".to_string(), "one.rs".to_string())),
        Some(("path".to_string(), "two.rs".to_string())),
    ];
    assert_eq!(find_path_override(&attrs), Some("one.rs".to_string()));
    assert_eq!(find_path_override(&vec![None]), None);
}

#[test]
fn error_messages() {
    let e = ExpandError::Parse { path: "a.rs".to_string(), message: "expected item".to_string() };
    assert_eq!(e.message(), "could not parse `a.rs`: expected item");
    let e = ExpandError::Cycle { path: "a.rs".to_string() };
    assert_eq!(e.message(), "`a.rs` is reached again from inside its own expansion");
    let e = ExpandError::Span { file: "a.rs".to_string() };
    assert_eq!(e.message(), "a module declaration's span does not fit the text of `a.rs`");
    let e = ExpandError::Unresolved {
        file: "src/lib.rs".to_string(),
        candidates: vec!["src/x.rs".to_string()],
    };
    assert_eq!(e.message(), "one of [\"src/x.rs\"] does not exist (module declared in `src/lib.rs`)");
}

#[test]
fn table_of_contents_markdown() {
    let leaf = TableOfContents { crates: vec![("inner".to_string(), false)], children: vec![] };
    let toc = TableOfContents {
        crates: vec![("top".to_string(), true)],
        children: vec![("algo".to_string(), leaf)],
    };
    let check_mark = "<img src=\"https://github.githubassets.com/images/icons/emoji/unicode/2714.png\" alt=\"\u{2714}\" title=\"\u{2714}\" width=\"20\" height=\"20\">";
    let warn = "<img src=\"https://github.githubassets.com/images/icons/emoji/unicode/26a0.png\" alt=\"\u{26a0}\" title=\"\u{26a0}\" width=\"20\" height=\"20\">";
    let expected = format!(
        "- {} [top](../top/index.html)\n- \u{1f4c1} algo\n    - {} [inner](../inner/index.html)\n",
        check_mark, warn
    );
    assert_eq!(toc.to_md(), expected);
}

#[test]
fn empty_table_of_contents() {
    let toc = TableOfContents { crates: vec![], children: vec![] };
    assert_eq!(toc.to_md(), "");
}

const CHECK_MARK: &str = "<img src=\"https://github.githubassets.com/images/icons/emoji/unicode/2714.png\" alt=\"\u{2714}\" title=\"\u{2714}\" width=\"20\" height=\"20\">";
const WARNING: &str = "<img src=\"https://github.githubassets.com/images/icons/emoji/unicode/26a0.png\" alt=\"\u{26a0}\" title=\"\u{26a0}\" width=\"20\" height=\"20\">";

#[test]
fn table_of_contents_groups_by_directory() {
    let mut toc = TableOfContents::default();
    toc.insert("a/b/x/Cargo.toml", "x", true);
    toc.insert("a/y/Cargo.toml", "y", false);
    toc.insert("z/Cargo.toml", "z", true);
    toc.insert("a/b/w/Cargo.toml", "w", false);
    let expected = format!(
        "- {c} [z](../z/index.html)\n\
         - \u{1f4c1} a\n\
         \x20   - {w} [y](../y/index.html)\n\
         \x20   - \u{1f4c1} b\n\
         \x20       - {w} [w](../w/index.html)\n\
         \x20       - {c} [x](../x/index.html)\n",
        c = CHECK_MARK,
        w = WARNING
    );
    assert_eq!(toc.to_md(), expected);
}

#[test]
fn table_of_contents_replaces_same_name() {
    let mut toc = TableOfContents::default();
    toc.insert("lib/Cargo.toml", "lib", false);
    toc.insert("lib/Cargo.toml", "lib", true);
    assert_eq!(toc.crates, vec![("lib".to_string(), true)]);
    assert_eq!(toc.to_md(), format!("- {} [lib](../lib/index.html)\n", CHECK_MARK));
}

#[test]
fn table_of_contents_orders_names_as_strings() {
    let mut toc = TableOfContents::default();
    for name in ["b", "ab", "a", "B"] {
        toc.insert(&format!("{}/Cargo.toml", name), name, true);
    }
    let names: Vec<&str> = toc.crates.iter().map(|(n, _)| n.as_str()).collect();
    assert_eq!(names, vec!["B", "a", "ab", "b"]);
}

#[test]
fn table_of_contents_top_level_manifest() {
    let mut toc = TableOfContents::default();
    toc.insert("Cargo.toml", "root", false);
    assert_eq!(toc.crates, vec![("root".to_string(), false)]);
    assert!(toc.children.is_empty());
}

#[test]
fn multiline_literal_two_groups_deep_is_found() {
    let code = "fn f() {\n    g([\"a\n\"]);\n}\n";
    assert!(!is_safe_to_indent(&chars(code)));
    let flat = "fn f() {\n    g([\"a\"]);\n}\n";
    assert!(is_safe_to_indent(&chars(flat)));
}
