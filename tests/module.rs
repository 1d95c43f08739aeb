use tidy_imports::module::{insert_use, keyword_statement, reassemble, reserved_segments, split, statement_text, tidy_uses};
use tidy_imports::module::{ExternCrate, Item, Module};
use tidy_imports::tree::{UseItem, UseTree};

fn name(s: &str) -> UseTree {
    UseTree::Name(s.to_string())
}

fn path(s: &str, c: UseTree) -> UseTree {
    UseTree::Path(s.to_string(), Box::new(c))
}

fn item(tree: UseTree) -> UseItem {
    UseItem { attrs: Vec::new(), vis: String::new(), tree }
}

fn krate(name: &str, rename: Option<&str>) -> ExternCrate {
    ExternCrate { attrs: Vec::new(), vis: String::new(), name: name.to_string(), rename: rename.map(|r| r.to_string()) }
}

fn empty_module() -> Module<u32> {
    Module { crates: Vec::new(), uses: Vec::new(), rest: Vec::new() }
}

#[test]
fn missing_crate_is_declared() {
    let mut m = empty_module();
    let reserved = reserved_segments();
    assert!(insert_use(&mut m, item(path("newcrate", name("Thing"))), true, &reserved));
    assert_eq!(m.crates, vec![krate("newcrate", None)]);
    assert_eq!(m.uses, vec![item(path("newcrate", name("Thing")))]);
}

#[test]
fn self_path_never_declares_a_crate() {
    let mut m = empty_module();
    let reserved = reserved_segments();
    assert!(!insert_use(&mut m, item(path("self", name("Thing"))), true, &reserved));
    assert!(!insert_use(&mut m, item(path("super", name("Thing"))), true, &reserved));
    assert!(!insert_use(&mut m, item(path("crate", name("Thing"))), true, &reserved));
    assert!(m.crates.is_empty());
    assert_eq!(m.uses.len(), 3);
}

#[test]
fn known_crate_is_not_declared_again() {
    let mut m = empty_module();
    m.crates.push(krate("serde", None));
    m.crates.push(krate("long_name", Some("short")));
    let reserved = reserved_segments();
    assert!(!insert_use(&mut m, item(path("serde", name("Serialize"))), true, &reserved));
    assert!(!insert_use(&mut m, item(path("short", name("X"))), true, &reserved));
    assert!(insert_use(&mut m, item(path("long_name", name("X"))), true, &reserved));
    assert_eq!(m.crates.len(), 3);
    assert_eq!(m.crates[2], krate("long_name", None));
}

#[test]
fn unknown_crate_list_skips_declaration() {
    let mut m = empty_module();
    let reserved = reserved_segments();
    assert!(!insert_use(&mut m, item(path("newcrate", name("Thing"))), false, &reserved));
    assert!(m.crates.is_empty());
    assert_eq!(m.uses.len(), 1);
}

#[test]
fn reserved_set_is_the_module_keywords() {
    let reserved = reserved_segments();
    assert_eq!(reserved, vec!["self".to_string(), "super".to_string(), "crate".to_string(), "Self".to_string()]);
}

#[test]
fn split_and_reassemble_keep_bucket_order() {
    let items: Vec<Item<u32>> = vec![
        Item::Other(1),
        Item::Use(item(path("b", name("x")))),
        Item::ExternCrate(krate("foo", None)),
        Item::Other(2),
        Item::Use(item(path("a", name("y")))),
        Item::Other(3),
    ];
    let m = split(items);
    assert_eq!(m.crates, vec![krate("foo", None)]);
    assert_eq!(m.uses, vec![item(path("b", name("x"))), item(path("a", name("y")))]);
    assert_eq!(m.rest, vec![1, 2, 3]);
    let back = reassemble(m);
    assert_eq!(
        back,
        vec![
            Item::ExternCrate(krate("foo", None)),
            Item::Use(item(path("b", name("x")))),
            Item::Use(item(path("a", name("y")))),
            Item::Other(1),
            Item::Other(2),
            Item::Other(3),
        ]
    );
}

#[test]
fn nothing_requested_reports_unmodified() {
    let mut uses = vec![item(path("z", name("b"))), item(path("z", name("a")))];
    assert!(!tidy_uses(&mut uses, Vec::new(), false, false));
    assert_eq!(uses, vec![item(path("z", name("b"))), item(path("z", name("a")))]);
}

#[test]
fn suggested_imports_mark_modified() {
    let mut uses = vec![item(path("a", name("b")))];
    assert!(tidy_uses(&mut uses, vec![item(path("c", name("d")))], false, false));
    assert_eq!(uses.len(), 2);
}

#[test]
fn group_then_sort() {
    let mut uses = vec![item(path("z", name("b"))), item(path("a", name("c"))), item(path("z", name("a")))];
    assert!(tidy_uses(&mut uses, Vec::new(), true, true));
    assert_eq!(
        uses,
        vec![item(path("a", name("c"))), item(path("z", UseTree::Group(vec![name("a"), name("b")])))]
    );
    assert!(!tidy_uses(&mut uses, Vec::new(), true, true));
}

#[test]
fn typed_path_gets_one_terminator() {
    assert_eq!(statement_text("  foo::Bar  "), "foo::Bar;");
    assert_eq!(statement_text("use foo::Bar;\n"), "use foo::Bar;");
    assert_eq!(statement_text(""), ";");
    assert_eq!(keyword_statement("foo::Bar;"), "use foo::Bar;");
}
