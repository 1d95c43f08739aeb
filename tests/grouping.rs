use tidy_imports::group::{group_uses, regroup_tree};
use tidy_imports::tree::{UseItem, UseTree};

fn name(s: &str) -> UseTree {
    UseTree::Name(s.to_string())
}

fn path(s: &str, c: UseTree) -> UseTree {
    UseTree::Path(s.to_string(), Box::new(c))
}

fn item(tree: UseTree) -> UseItem {
    UseItem { attrs: Vec::new(), vis: String::new(), tree }
}

#[test]
fn merge_three_paths_into_one_group() {
    let uses = vec![item(path("a", name("b"))), item(path("a", name("c"))), item(path("a", name("d")))];
    let (modified, grouped) = group_uses(uses);
    assert!(modified);
    assert_eq!(grouped, vec![item(path("a", UseTree::Group(vec![name("b"), name("c"), name("d")])))]);
}

#[test]
fn different_modifiers_never_merge() {
    let plain = item(path("a", name("b")));
    let exported = UseItem { attrs: Vec::new(), vis: "pub".to_string(), tree: path("a", name("b")) };
    let tagged = UseItem { attrs: vec!["#[cfg(test)]".to_string()], vis: String::new(), tree: path("a", name("c")) };
    let (modified, grouped) = group_uses(vec![plain, exported, tagged]);
    assert!(!modified);
    assert_eq!(grouped.len(), 3);
    assert_eq!(grouped[0], item(path("a", name("b"))));
    assert_eq!(grouped[1].vis, "pub");
    assert_eq!(grouped[2].attrs, vec!["#[cfg(test)]".to_string()]);
}

#[test]
fn equal_modifiers_merge() {
    let first = UseItem { attrs: vec!["#[allow(unused)]".to_string()], vis: "pub".to_string(), tree: path("a", name("b")) };
    let second = UseItem { attrs: vec!["#[allow(unused)]".to_string()], vis: "pub".to_string(), tree: path("a", name("c")) };
    let (modified, grouped) = group_uses(vec![first, second]);
    assert!(modified);
    assert_eq!(grouped.len(), 1);
    assert_eq!(grouped[0].vis, "pub");
    assert_eq!(grouped[0].tree, path("a", UseTree::Group(vec![name("b"), name("c")])));
}

#[test]
fn recursive_grouping_reaches_fixpoint() {
    let uses = vec![
        item(path("a", path("b", name("x")))),
        item(path("a", path("b", name("y")))),
        item(path("a", name("c"))),
    ];
    let (modified, grouped) = group_uses(uses);
    assert!(modified);
    let expected = path("a", UseTree::Group(vec![path("b", UseTree::Group(vec![name("x"), name("y")])), name("c")]));
    assert_eq!(grouped, vec![item(expected)]);
}

#[test]
fn grouping_twice_reports_no_change() {
    let uses = vec![
        item(path("a", path("b", name("x")))),
        item(path("a", name("c"))),
        item(path("a", path("b", name("y")))),
        item(path("d", UseTree::Glob)),
    ];
    let (first, grouped) = group_uses(uses);
    assert!(first);
    let (second, again) = group_uses(grouped);
    assert!(!second);
    assert_eq!(again.len(), 2);
}

#[test]
fn group_continuation_is_spliced_in() {
    let uses = vec![
        item(path("a", name("b"))),
        item(path("a", UseTree::Group(vec![name("c"), name("d")]))),
    ];
    let (_, grouped) = group_uses(uses);
    assert_eq!(grouped, vec![item(path("a", UseTree::Group(vec![name("b"), name("c"), name("d")])))]);
}

#[test]
fn leaves_and_globs_never_merge() {
    let uses = vec![item(name("a")), item(name("a")), item(UseTree::Glob), item(UseTree::Glob)];
    let (modified, grouped) = group_uses(uses);
    assert!(!modified);
    assert_eq!(grouped.len(), 4);
}

#[test]
fn nested_group_inside_one_declaration_is_regrouped() {
    let tree = path("a", UseTree::Group(vec![path("b", name("x")), path("b", name("y"))]));
    let (modified, out) = regroup_tree(tree);
    assert!(modified);
    assert_eq!(out, path("a", UseTree::Group(vec![path("b", UseTree::Group(vec![name("x"), name("y")]))])));
}

#[test]
fn singleton_group_round_trips() {
    let tree = path("a", UseTree::Group(vec![name("b")]));
    let (modified, out) = regroup_tree(tree);
    assert!(!modified);
    assert_eq!(out, path("a", UseTree::Group(vec![name("b")])));
}

#[test]
fn empty_list_groups_to_empty() {
    let (modified, grouped) = group_uses(Vec::new());
    assert!(!modified);
    assert!(grouped.is_empty());
}
