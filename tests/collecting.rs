use tidy_imports::collect::{AutoImports, Suggestion};
use tidy_imports::text::{paths_equal, trim_text};

fn suggestion(file: &str, text: Option<&str>) -> Suggestion {
    Suggestion { file_name: file.to_string(), replacement: text.map(|t| t.to_string()) }
}

fn run(target: &str, stream: Vec<Suggestion>) -> Vec<String> {
    let mut imports = AutoImports::new(target.to_string());
    for s in stream {
        imports.offer(s);
    }
    imports.accepted
}

#[test]
fn duplicate_suggestion_is_accepted_once() {
    let accepted = run(
        "src/main.rs",
        vec![
            suggestion("src/main.rs", Some("use foo::Bar;\n")),
            suggestion("src/main.rs", Some("   use foo::Bar;   ")),
        ],
    );
    assert_eq!(accepted, vec!["use foo::Bar;\n".to_string()]);
}

#[test]
fn other_file_is_never_accepted() {
    let accepted = run(
        "src/main.rs",
        vec![suggestion("src/lib.rs", Some("use foo::Bar;\n")), suggestion("src/main.rs", None)],
    );
    assert!(accepted.is_empty());
    let mut imports = AutoImports::new("src/main.rs".to_string());
    assert!(!imports.offer_checked(false, Some("use foo::Bar;".to_string())));
    assert!(imports.offer_checked(true, Some("use foo::Bar;".to_string())));
    assert!(!imports.offer_checked(true, None));
}

#[test]
fn first_seen_order_is_kept() {
    let accepted = run(
        "src/main.rs",
        vec![
            suggestion("src/main.rs", Some("use b::B;\n")),
            suggestion("src/main.rs", Some("use a::A;\n")),
            suggestion("src/main.rs", Some("use b::B;")),
        ],
    );
    assert_eq!(accepted, vec!["use b::B;\n".to_string(), "use a::A;\n".to_string()]);
}

#[test]
fn equal_paths_match_by_components() {
    let mut imports = AutoImports::new("src//main.rs".to_string());
    assert!(imports.offer(suggestion("src/main.rs", Some("use x::Y;"))));
    assert!(!imports.offer(suggestion("src/main.rs", Some("use x::Y;"))));
    assert_eq!(imports.accepted, vec!["use x::Y;".to_string()]);
    assert!(paths_equal("a//b.rs", "a/b.rs"));
    assert!(!paths_equal("a/b.rs", "a/c.rs"));
}

#[test]
fn trimming_drops_surrounding_whitespace() {
    assert_eq!(trim_text("  use a::b;\n"), "use a::b;");
    assert_eq!(trim_text(""), "");
}
