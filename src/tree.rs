use vstd::prelude::*;

verus! {

broadcast use vstd::std_specs::vec::axiom_vec_decreases_to_view,
    vstd::std_specs::vec::axiom_vec_index_decreases,
    vstd::seq::axiom_seq_index_decreases,
    vstd::seq::axiom_seq_subrange_decreases;

/// One node of an import tree.
#[derive(Debug, PartialEq, Eq)]
pub enum UseTree {
    /// A path segment followed by the rest of the path.
    Path(String, Box<UseTree>),
    /// A single imported name.
    Name(String),
    /// A single imported name bound to another local name.
    Rename(String, String),
    /// Everything from the enclosing path.
    Glob,
    /// Several alternatives that follow the same prefix.
    Group(Vec<UseTree>),
}

/// The mathematical model of an import tree.
pub enum Tree {
    Path(Seq<char>, Box<Tree>),
    Name(Seq<char>),
    Rename(Seq<char>, Seq<char>),
    Glob,
    Group(Seq<Tree>),
}

pub open spec fn tree_of(t: UseTree) -> Tree
    decreases t,
{
    match t {
        UseTree::Path(s, c) => Tree::Path(s@, Box::new(tree_of(*c))),
        UseTree::Name(s) => Tree::Name(s@),
        UseTree::Rename(s, r) => Tree::Rename(s@, r@),
        UseTree::Glob => Tree::Glob,
        UseTree::Group(items) => Tree::Group(trees_of(items@)),
    }
}

pub open spec fn trees_of(s: Seq<UseTree>) -> Seq<Tree>
    decreases s,
{
    if s.len() == 0 {
        Seq::empty()
    } else {
        trees_of(s.drop_last()).push(tree_of(s.last()))
    }
}

impl View for UseTree {
    type V = Tree;

    open spec fn view(&self) -> Tree {
        tree_of(*self)
    }
}

pub proof fn lemma_trees_of(s: Seq<UseTree>)
    ensures
        trees_of(s).len() == s.len(),
        forall|i: int| 0 <= i < s.len() ==> #[trigger] trees_of(s)[i] == tree_of(s[i]),
    decreases s.len(),
{
    if s.len() > 0 {
        lemma_trees_of(s.drop_last());
    }
}

pub proof fn lemma_trees_of_push(s: Seq<UseTree>, x: UseTree)
    ensures
        trees_of(s.push(x)) == trees_of(s).push(tree_of(x)),
{
    assert(s.push(x).drop_last() =~= s);
}

/// One import declaration: its attributes, its visibility and its tree.
#[derive(Debug, PartialEq, Eq)]
pub struct UseItem {
    pub attrs: Vec<String>,
    pub vis: String,
    pub tree: UseTree,
}

} // verus!

verus! {

pub proof fn lemma_trees_of_map(s: Seq<UseTree>)
    ensures
        trees_of(s) == s.map_values(|t: UseTree| tree_of(t)),
{
    lemma_trees_of(s);
    assert(trees_of(s) =~= s.map_values(|t: UseTree| tree_of(t)));
}

/// The model of one import declaration.
pub struct UseDecl {
    pub attrs: Seq<Seq<char>>,
    pub vis: Seq<char>,
    pub tree: Tree,
}

pub open spec fn decl_of(i: UseItem) -> UseDecl {
    UseDecl { attrs: i.attrs@.map_values(|a: String| a@), vis: i.vis@, tree: i.tree@ }
}

pub open spec fn decls_of(s: Seq<UseItem>) -> Seq<UseDecl> {
    s.map_values(|i: UseItem| decl_of(i))
}

} // verus!
