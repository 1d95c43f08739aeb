use tidy_imports::sort::{sort_inner, sort_uses};
use tidy_imports::text::{same_text, text_less};
use tidy_imports::tree::{UseItem, UseTree};

fn name(s: &str) -> UseTree {
    UseTree::Name(s.to_string())
}

fn path(s: &str, c: UseTree) -> UseTree {
    UseTree::Path(s.to_string(), Box::new(c))
}

fn item(tree: UseTree) -> UseItem {
    UseItem { attrs: Vec::new(), vis: String::new(), tree }
}

#[test]
fn siblings_sort_empty_group_glob_then_names() {
    let mut tree = UseTree::Group(vec![UseTree::Glob, name("zeta"), name("alpha"), UseTree::Group(Vec::new())]);
    assert!(sort_inner(&mut tree));
    assert_eq!(
        tree,
        UseTree::Group(vec![UseTree::Group(Vec::new()), UseTree::Glob, name("alpha"), name("zeta")])
    );
}

#[test]
fn sorting_twice_reports_no_change() {
    let mut uses = vec![
        item(path("z", UseTree::Group(vec![name("b"), name("a")]))),
        item(path("m", UseTree::Glob)),
        item(path("a", name("q"))),
    ];
    assert!(sort_uses(&mut uses));
    let snapshot = format!("{:?}", uses);
    assert!(!sort_uses(&mut uses));
    assert_eq!(format!("{:?}", uses), snapshot);
    assert_eq!(uses[0], item(path("a", name("q"))));
    assert_eq!(uses[2], item(path("z", UseTree::Group(vec![name("a"), name("b")]))));
}

#[test]
fn group_is_keyed_by_its_first_item_after_sorting() {
    let mut tree = UseTree::Group(vec![
        name("m"),
        UseTree::Group(vec![name("z"), name("c")]),
    ]);
    assert!(sort_inner(&mut tree));
    assert_eq!(tree, UseTree::Group(vec![UseTree::Group(vec![name("c"), name("z")]), name("m")]));
}

#[test]
fn equal_keys_keep_their_order() {
    let mut tree = UseTree::Group(vec![
        name("b"),
        UseTree::Rename("a".to_string(), "x".to_string()),
        path("a", name("y")),
        name("a"),
    ]);
    assert!(sort_inner(&mut tree));
    assert_eq!(
        tree,
        UseTree::Group(vec![
            UseTree::Rename("a".to_string(), "x".to_string()),
            path("a", name("y")),
            name("a"),
            name("b"),
        ])
    );
}

#[test]
fn nested_change_alone_is_reported() {
    let mut uses = vec![item(path("a", UseTree::Group(vec![name("y"), name("x")])))];
    assert!(sort_uses(&mut uses));
    assert_eq!(uses, vec![item(path("a", UseTree::Group(vec![name("x"), name("y")])))]);
}

#[test]
fn already_sorted_is_untouched() {
    let mut uses = vec![item(path("a", name("b"))), item(path("c", name("d")))];
    assert!(!sort_uses(&mut uses));
    assert_eq!(uses, vec![item(path("a", name("b"))), item(path("c", name("d")))]);
}

#[test]
fn order_is_by_code_point() {
    assert!(text_less("Zeta", "alpha"));
    assert!(text_less("ab", "abc"));
    assert!(!text_less("abc", "ab"));
    assert!(!text_less("same", "same"));
    assert!(same_text("same", "same"));
    assert!(!same_text("same", "Same"));
    let mut tree = UseTree::Group(vec![name("alpha"), name("Zeta")]);
    assert!(sort_inner(&mut tree));
    assert_eq!(tree, UseTree::Group(vec![name("Zeta"), name("alpha")]));
}
