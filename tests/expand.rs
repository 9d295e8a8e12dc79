use cargo_cpl::expand::{expand, ExpandError, Expansion, SourceTree};
use cargo_cpl::sizes::CodeSizes;

/// Expands `root` over the in-memory files `files`, probing paths as the
/// expansion asks for them; each file's key is its path.
fn run(files: &[(&str, &str)], root: &str) -> Result<String, String> {
    let mut tree = SourceTree::new();
    loop {
        match expand(&tree, &root.to_string()) {
            Expansion::Done(text) => return Ok(text),
            Expansion::Failed(err) => return Err(err.message()),
            Expansion::Needs(path) => match files.iter().find(|(p, _)| *p == path) {
                Some((_, text)) => tree.add_file(path.clone(), path, Ok(text.to_string())),
                None => tree.add_missing(path),
            },
        }
    }
}

#[test]
fn identity_without_declarations() {
    let text = "use std::fmt;\n\nfn main() {\n    println!(\"hi\");\n}\n";
    assert_eq!(run(&[("src/lib.rs", text)], "src/lib.rs"), Ok(text.to_string()));
}

#[test]
fn identity_keeps_missing_trailing_newline() {
    let text = "fn main() {}";
    assert_eq!(run(&[("src/lib.rs", text)], "src/lib.rs"), Ok(text.to_string()));
}

#[test]
fn single_level_inlining() {
    let files = [
        ("src/lib.rs", "mod b;\nfn f() {}\n"),
        ("src/b.rs", "pub fn g() {}\n\npub struct S;\n"),
    ];
    assert_eq!(
        run(&files, "src/lib.rs"),
        Ok("mod b {\n    pub fn g() {}\n\n    pub struct S;\n}\nfn f() {}\n".to_string())
    );
}

#[test]
fn single_level_inlining_keeps_visibility_and_attributes() {
    let files = [
        ("src/lib.rs", "#[allow(dead_code)]\npub mod b;\n"),
        ("src/b.rs", "fn g() {}\n"),
    ];
    assert_eq!(
        run(&files, "src/lib.rs"),
        Ok("#[allow(dead_code)]\npub mod b {\n    fn g() {}\n}\n".to_string())
    );
}

#[test]
fn transitive_inlining_indents_twice() {
    let files = [
        ("src/lib.rs", "mod b;\n"),
        ("src/b.rs", "mod c;\n"),
        ("src/b/c.rs", "fn c() {}\n"),
    ];
    assert_eq!(
        run(&files, "src/lib.rs"),
        Ok("mod b {\n    mod c {\n        fn c() {}\n    }\n}\n".to_string())
    );
}

#[test]
fn mod_rs_children_sit_beside_it() {
    let files = [
        ("src/lib.rs", "mod a;\n"),
        ("src/a/mod.rs", "mod b;\n"),
        ("src/a/b.rs", "struct B;\n"),
    ];
    assert_eq!(
        run(&files, "src/lib.rs"),
        Ok("mod a {\n    mod b {\n        struct B;\n    }\n}\n".to_string())
    );
}

#[test]
fn path_attribute_overrides_convention() {
    let files = [
        ("src/lib.rs", "#[path = \"alt.rs\"]\nmod b;\n"),
        ("src/b.rs", "fn conventional() {}\n"),
        ("src/alt.rs", "fn alternative() {}\n"),
    ];
    assert_eq!(
        run(&files, "src/lib.rs"),
        Ok("#[path = \"alt.rs\"]\nmod b {\n    fn alternative() {}\n}\n".to_string())
    );
}

#[test]
fn path_attribute_at_depth_is_relative_to_the_file() {
    let files = [
        ("src/lib.rs", "mod b;\n"),
        ("src/b.rs", "#[path = \"other.rs\"]\nmod c;\n"),
        ("src/other.rs", "fn o() {}\n"),
    ];
    assert_eq!(
        run(&files, "src/lib.rs"),
        Ok("mod b {\n    #[path = \"other.rs\"]\n    mod c {\n        fn o() {}\n    }\n}\n".to_string())
    );
}

#[test]
fn multiline_literal_is_not_indented() {
    let child = "const S: &str = r\"first\n  second\";\n";
    let files = [("src/lib.rs", "mod b;\n"), ("src/b.rs", child)];
    let out = run(&files, "src/lib.rs").unwrap();
    assert_eq!(out, format!("mod b {{\n{}}}\n", child));
    assert!(out.contains("r\"first\n  second\""));
}

#[test]
fn multiline_literal_inside_a_body_is_kept() {
    let child = "fn f() {\n    let s = \"a\nb\";\n}\n";
    let files = [("src/lib.rs", "mod b;\n"), ("src/b.rs", child)];
    let out = run(&files, "src/lib.rs").unwrap();
    assert!(out.contains("\"a\nb\""));
    assert_eq!(out, format!("mod b {{\n{}}}\n", child));
}

#[test]
fn resolution_failure_names_candidates_and_file() {
    let err = run(&[("src/lib.rs", "mod x;\n")], "src/lib.rs").unwrap_err();
    assert_eq!(
        err,
        "one of [\"src/x.rs\", \"src/x/mod.rs\"] does not exist (module declared in `src/lib.rs`)"
    );
}

#[test]
fn cycle_is_reported() {
    let files = [
        ("src/lib.rs", "mod b;\n"),
        ("src/b.rs", "#[path = \"lib.rs\"]\nmod a;\n"),
    ];
    let err = run(&files, "src/lib.rs").unwrap_err();
    assert_eq!(err, "`src/lib.rs` is reached again from inside its own expansion");
}

#[test]
fn parse_error_is_reported() {
    let files = [("src/lib.rs", "mod b;\n"), ("src/b.rs", "fn (")];
    let err = run(&files, "src/lib.rs").unwrap_err();
    assert!(err.starts_with("could not parse `src/b.rs`: "), "{}", err);
}

#[test]
fn missing_root_is_a_read_error() {
    assert_eq!(run(&[], "src/lib.rs"), Err("could not read `src/lib.rs`: no such file".to_string()));
}

#[test]
fn unreadable_file_is_a_read_error() {
    let mut tree = SourceTree::new();
    tree.add_file("src/lib.rs".to_string(), "k".to_string(), Err("invalid UTF-8".to_string()));
    match expand(&tree, &"src/lib.rs".to_string()) {
        Expansion::Failed(e) => {
            assert!(matches!(e, ExpandError::Read { .. }));
            assert_eq!(e.message(), "could not read `src/lib.rs`: invalid UTF-8");
        }
        _ => panic!("expected a read error"),
    }
}

#[test]
fn inline_modules_are_left_alone() {
    let text = "mod a {\n    mod b;\n}\n";
    assert_eq!(run(&[("src/lib.rs", text)], "src/lib.rs"), Ok(text.to_string()));
}

#[test]
fn first_needed_path_is_asked_for() {
    let mut tree = SourceTree::new();
    tree.add_file("src/lib.rs".to_string(), "k".to_string(), Ok("mod b;\n".to_string()));
    match expand(&tree, &"src/lib.rs".to_string()) {
        Expansion::Needs(p) => assert_eq!(p, "src/b.rs"),
        _ => panic!("expected a request for a path"),
    }
    tree.add_missing("src/b.rs".to_string());
    match expand(&tree, &"src/lib.rs".to_string()) {
        Expansion::Needs(p) => assert_eq!(p, "src/b/mod.rs"),
        _ => panic!("expected a request for a path"),
    }
}

#[test]
fn two_declarations_on_one_line() {
    let files = [
        ("src/lib.rs", "mod a; mod b;\n"),
        ("src/a.rs", "fn a() {}\n"),
        ("src/b.rs", "fn b() {}\n"),
    ];
    assert_eq!(
        run(&files, "src/lib.rs"),
        Ok("mod a {\n    fn a() {}\n} mod b {\n    fn b() {}\n}\n".to_string())
    );
}

#[test]
fn empty_child_gives_empty_braces() {
    let files = [("src/lib.rs", "mod b;\n"), ("src/b.rs", "")];
    assert_eq!(run(&files, "src/lib.rs"), Ok("mod b {\n}\n".to_string()));
}

#[test]
fn code_size_counts_bytes() {
    let files = [("src/lib.rs", "mod b;\n"), ("src/b.rs", "const E: char = 'é';\n")];
    let sizes = CodeSizes::new(run(&files, "src/lib.rs"));
    assert_eq!(sizes.unmodified, Ok("mod b {\n    const E: char = 'é';\n}\n".len()));
    assert_eq!(sizes.unmodified, Ok(36));
}

#[test]
fn code_size_keeps_the_error() {
    let sizes = CodeSizes::new(Err("boom".to_string()));
    assert_eq!(sizes.unmodified, Err("boom".to_string()));
}
