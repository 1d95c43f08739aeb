use vstd::prelude::*;
use crate::order::{in_order, insert_in_order, sort_stable, total_preorder};
use crate::order::{lemma_sort_stable_in_order, lemma_sort_stable_keeps_ordered, lemma_sort_stable_map};
use crate::text::{lemma_text_lt_irreflexive, lemma_text_lt_total, lemma_text_lt_transitive, text_less, text_lt};
use crate::tree::{decl_of, decls_of, lemma_trees_of, lemma_trees_of_map, lemma_trees_of_push};
use crate::tree::{tree_of, trees_of, Tree, UseDecl, UseItem, UseTree};

verus! {

broadcast use vstd::std_specs::vec::axiom_vec_decreases_to_view,
    vstd::std_specs::vec::axiom_vec_index_decreases,
    vstd::seq::axiom_seq_index_decreases,
    vstd::seq::axiom_seq_subrange_decreases;

/// Rank of the sort key: an empty group, then a glob, then a named node.
pub open spec fn key_rank(t: Tree) -> int
    decreases t,
{
    match t {
        Tree::Group(items) => if items.len() == 0 { 0 } else { key_rank(items[0]) },
        Tree::Glob => 1,
        _ => 2,
    }
}

/// Text of the sort key: the segment a node exposes; a group is keyed by its first item.
pub open spec fn key_text(t: Tree) -> Seq<char>
    decreases t,
{
    match t {
        Tree::Group(items) => if items.len() == 0 { Seq::empty() } else { key_text(items[0]) },
        Tree::Path(s, _) => s,
        Tree::Name(s) => s,
        Tree::Rename(s, _) => s,
        Tree::Glob => Seq::empty(),
    }
}

/// `a` sorts at or before `b`.
pub open spec fn key_le(a: Tree, b: Tree) -> bool {
    key_rank(a) < key_rank(b) || (key_rank(a) == key_rank(b) && !text_lt(key_text(b), key_text(a)))
}

pub open spec fn tree_le() -> spec_fn(Tree, Tree) -> bool {
    |a: Tree, b: Tree| key_le(a, b)
}

pub open spec fn decl_le() -> spec_fn(UseDecl, UseDecl) -> bool {
    |a: UseDecl, b: UseDecl| key_le(a.tree, b.tree)
}

/// The tree with every group, at every depth, in canonical order.
pub open spec fn sorted_tree(t: Tree) -> Tree
    decreases t,
{
    match t {
        Tree::Path(s, c) => Tree::Path(s, Box::new(sorted_tree(*c))),
        Tree::Group(items) => Tree::Group(sort_stable(sorted_trees(items), tree_le())),
        _ => t,
    }
}

pub open spec fn sorted_trees(s: Seq<Tree>) -> Seq<Tree>
    decreases s,
{
    if s.len() == 0 {
        Seq::empty()
    } else {
        sorted_trees(s.drop_last()).push(sorted_tree(s.last()))
    }
}

/// Whether sorting changes the tree: some group, at some depth, is out of order.
pub open spec fn sort_changes(t: Tree) -> bool
    decreases t,
{
    match t {
        Tree::Path(_, c) => sort_changes(*c),
        Tree::Group(items) => any_sort_changes(items) || !in_order(sorted_trees(items), tree_le()),
        _ => false,
    }
}

pub open spec fn any_sort_changes(s: Seq<Tree>) -> bool
    decreases s,
{
    s.len() > 0 && (any_sort_changes(s.drop_last()) || sort_changes(s.last()))
}

/// Declarations with their trees sorted inside, before the declarations themselves are ordered.
pub open spec fn inner_sorted_decls(s: Seq<UseDecl>) -> Seq<UseDecl> {
    s.map_values(|d: UseDecl| UseDecl { tree: sorted_tree(d.tree), ..d })
}

/// The declarations in canonical order, each tree sorted inside.
pub open spec fn sorted_decls(s: Seq<UseDecl>) -> Seq<UseDecl> {
    sort_stable(inner_sorted_decls(s), decl_le())
}

/// Whether sorting changes a list of declarations.
pub open spec fn decls_sort_changes(s: Seq<UseDecl>) -> bool {
    any_sort_changes(s.map_values(|d: UseDecl| d.tree)) || !in_order(inner_sorted_decls(s), decl_le())
}

pub proof fn lemma_key_le_total_preorder()
    ensures
        total_preorder(tree_le()),
        total_preorder(decl_le()),
{
    assert forall|a: Tree, b: Tree| #[trigger] key_le(a, b) || key_le(b, a) by {
        lemma_text_lt_total(key_text(a), key_text(b));
        lemma_text_lt_irreflexive(key_text(a));
        if text_lt(key_text(a), key_text(b)) && text_lt(key_text(b), key_text(a)) {
            lemma_text_lt_transitive(key_text(a), key_text(b), key_text(a));
        }
    }
    assert forall|a: Tree, b: Tree, c: Tree| #[trigger] key_le(a, b) && #[trigger] key_le(b, c)
        implies key_le(a, c) by {
        if key_rank(a) == key_rank(b) && key_rank(b) == key_rank(c) {
            if text_lt(key_text(c), key_text(a)) {
                lemma_text_lt_total(key_text(b), key_text(a));
                if text_lt(key_text(a), key_text(b)) {
                    lemma_text_lt_transitive(key_text(c), key_text(a), key_text(b));
                }
            }
        }
    }
    assert forall|a: UseDecl, b: UseDecl| #[trigger] (decl_le())(a, b) || (decl_le())(b, a) by {
        assert(key_le(a.tree, b.tree) || key_le(b.tree, a.tree));
    }
    assert forall|a: UseDecl, b: UseDecl, c: UseDecl| #[trigger] (decl_le())(a, b) && #[trigger] (decl_le())(b, c)
        implies (decl_le())(a, c) by {
        assert(key_le(a.tree, b.tree) && key_le(b.tree, c.tree));
    }
}

/// Values that carry a sort key.
pub trait SortKeyed: Sized {
    spec fn sort_key(&self) -> Tree;

    /// Whether `self` sorts at or before `other`.
    fn sorts_before_or_ties(&self, other: &Self) -> (r: bool)
        ensures
            r == key_le(self.sort_key(), other.sort_key()),
    ;
}

pub open spec fn key_order<T: SortKeyed>() -> spec_fn(T, T) -> bool {
    |a: T, b: T| key_le(a.sort_key(), b.sort_key())
}

/// The node that decides the sort key of `t`: `t` itself unless it is a non-empty group.
fn key_node(t: &UseTree) -> (r: &UseTree)
    ensures
        key_rank(r@) == key_rank(t@),
        key_text(r@) == key_text(t@),
        !(r@ is Group) || r@->Group_0.len() == 0,
    decreases t,
{
    match t {
        UseTree::Group(items) => {
            proof {
                lemma_trees_of(items@);
            }
            if items.len() == 0 {
                t
            } else {
                proof {
                    assert(decreases_to!(*t => (*t)->Group_0));
                    assert(decreases_to!(*items => items@));
                    assert(decreases_to!(items@ => items@[0]));
                }
                key_node(&items[0])
            }
        },
        _ => t,
    }
}

fn key_rank_of(t: &UseTree) -> (r: u8)
    requires
        !(t@ is Group) || t@->Group_0.len() == 0,
    ensures
        r as int == key_rank(t@),
{
    match t {
        UseTree::Group(_) => 0,
        UseTree::Glob => 1,
        _ => 2,
    }
}

fn key_text_of(t: &UseTree) -> (r: &str)
    requires
        key_rank(t@) == 2,
        !(t@ is Group) || t@->Group_0.len() == 0,
    ensures
        r@ == key_text(t@),
{
    match t {
        UseTree::Path(s, _) => s.as_str(),
        UseTree::Name(s) => s.as_str(),
        UseTree::Rename(s, _) => s.as_str(),
        UseTree::Glob => "",
        UseTree::Group(_) => "",
    }
}

fn tree_key_le(a: &UseTree, b: &UseTree) -> (r: bool)
    ensures
        r == key_le(a@, b@),
{
    let ka = key_node(a);
    let kb = key_node(b);
    let ra = key_rank_of(ka);
    let rb = key_rank_of(kb);
    if ra != rb {
        ra < rb
    } else if ra < 2 {
        proof {
            lemma_text_lt_irreflexive(key_text(a@));
            assert(key_text(a@) == Seq::<char>::empty());
            assert(key_text(b@) == Seq::<char>::empty());
        }
        true
    } else {
        !text_less(key_text_of(kb), key_text_of(ka))
    }
}

impl SortKeyed for UseTree {
    open spec fn sort_key(&self) -> Tree {
        self@
    }

    fn sorts_before_or_ties(&self, other: &Self) -> (r: bool) {
        tree_key_le(self, other)
    }
}

impl SortKeyed for UseItem {
    open spec fn sort_key(&self) -> Tree {
        self.tree@
    }

    fn sorts_before_or_ties(&self, other: &Self) -> (r: bool) {
        tree_key_le(&self.tree, &other.tree)
    }
}

/// Stable insertion sort by sort key.
pub fn sort_by_key<T: SortKeyed>(v: Vec<T>) -> (r: Vec<T>)
    ensures
        r@ == sort_stable(v@, key_order::<T>()),
{
    let ghost orig = v@;
    let ghost le = key_order::<T>();
    let mut rest = v;
    let mut out: Vec<T> = Vec::new();
    let ghost mut k: int = 0;
    assert(orig.skip(0) =~= orig);
    assert(orig.take(0) =~= Seq::<T>::empty());
    while rest.len() > 0
        invariant
            0 <= k <= orig.len(),
            rest@ == orig.skip(k),
            le == key_order::<T>(),
            out@ == sort_stable(orig.take(k), le),
        decreases rest.len(),
    {
        let x = rest.remove(0);
        proof {
            assert(orig.take(k + 1).drop_last() =~= orig.take(k));
            assert(orig.skip(k + 1) =~= orig.skip(k).remove(0));
        }
        let ghost s = out@;
        let mut j: usize = out.len();
        assert(s.take(s.len() as int) =~= s);
        assert(s.skip(s.len() as int) =~= Seq::<T>::empty());
        while j > 0 && !out[j - 1].sorts_before_or_ties(&x)
            invariant
                out@ == s,
                j <= s.len(),
                le == key_order::<T>(),
                insert_in_order(s, x, le) == insert_in_order(s.take(j as int), x, le) + s.skip(j as int),
            decreases j,
        {
            proof {
                let t = s.take(j as int);
                assert(t.drop_last() =~= s.take(j - 1));
                assert(t.last() == s[j - 1]);
                assert(insert_in_order(s.take(j - 1), x, le).push(s[j - 1]) + s.skip(j as int)
                    =~= insert_in_order(s.take(j - 1), x, le) + s.skip(j - 1));
            }
            j = j - 1;
        }
        proof {
            if j == 0 {
                assert(s.take(0) =~= Seq::<T>::empty());
                assert(seq![x] + s.skip(0) =~= s.insert(0, x));
            } else {
                assert(s.take(j as int).last() == s[j - 1]);
                assert(s.take(j as int).push(x) + s.skip(j as int) =~= s.insert(j as int, x));
            }
        }
        out.insert(j, x);
        proof {
            k = k + 1;
        }
    }
    assert(orig.take(k) =~= orig);
    out
}

/// Whether neighbours are in non-decreasing key order.
fn keys_in_order<T: SortKeyed>(v: &Vec<T>) -> (r: bool)
    ensures
        r == in_order(v@, key_order::<T>()),
{
    let mut i: usize = 0;
    while v.len() - i > 1
        invariant
            i <= v.len(),
            forall|k: int| 0 <= k < i && k + 1 < v@.len() ==> #[trigger] (key_order::<T>())(v@[k], v@[k + 1]),
        decreases v.len() - i,
    {
        if !v[i].sorts_before_or_ties(&v[i + 1]) {
            assert(!(key_order::<T>())(v@[i as int], v@[i + 1]));
            return false;
        }
        i = i + 1;
    }
    true
}


pub proof fn lemma_in_order_trees(s: Seq<UseTree>)
    ensures
        in_order(s, key_order::<UseTree>()) == in_order(trees_of(s), tree_le()),
{
    lemma_trees_of(s);
    if in_order(s, key_order::<UseTree>()) {
        assert forall|i: int| 0 <= i < trees_of(s).len() - 1 implies #[trigger] (tree_le())(
            trees_of(s)[i],
            trees_of(s)[i + 1],
        ) by {
            assert((key_order::<UseTree>())(s[i], s[i + 1]));
        }
    }
    if in_order(trees_of(s), tree_le()) {
        assert forall|i: int| 0 <= i < s.len() - 1 implies #[trigger] (key_order::<UseTree>())(
            s[i],
            s[i + 1],
        ) by {
            assert((tree_le())(trees_of(s)[i], trees_of(s)[i + 1]));
        }
    }
}

pub proof fn lemma_sort_trees_view(s: Seq<UseTree>)
    ensures
        trees_of(sort_stable(s, key_order::<UseTree>())) == sort_stable(trees_of(s), tree_le()),
{
    let f = |t: UseTree| tree_of(t);
    lemma_sort_stable_map(s, key_order::<UseTree>(), tree_le(), f);
    lemma_trees_of_map(s);
    lemma_trees_of_map(sort_stable(s, key_order::<UseTree>()));
}

pub proof fn lemma_sorted_trees_push(s: Seq<Tree>, x: Tree)
    ensures
        sorted_trees(s.push(x)) == sorted_trees(s).push(sorted_tree(x)),
        any_sort_changes(s.push(x)) == (any_sort_changes(s) || sort_changes(x)),
{
    assert(s.push(x).drop_last() =~= s);
}

/// Sorts the children of a group and then the group itself.
fn sort_list(items: Vec<UseTree>) -> (r: (bool, Vec<UseTree>))
    ensures
        r.0 == (any_sort_changes(trees_of(items@)) || !in_order(sorted_trees(trees_of(items@)), tree_le())),
        trees_of(r.1@) == sort_stable(sorted_trees(trees_of(items@)), tree_le()),
    decreases items,
{
    let ghost orig = items@;
    let ghost whole = items;
    let mut rest = items;
    let mut done: Vec<UseTree> = Vec::new();
    let mut changed = false;
    let ghost mut k: int = 0;
    assert(orig.skip(0) =~= orig);
    assert(orig.take(0) =~= Seq::<UseTree>::empty());
    while rest.len() > 0
        invariant
            0 <= k <= orig.len(),
            whole == items,
            whole@ == orig,
            rest@ == orig.skip(k),
            trees_of(done@) == sorted_trees(trees_of(orig.take(k))),
            changed == any_sort_changes(trees_of(orig.take(k))),
        decreases rest.len(),
    {
        let x = rest.remove(0);
        proof {
            assert(x == orig[k]);
            assert(decreases_to!(whole => whole@));
            assert(decreases_to!(whole@ => whole@[k]));
        }
        let (m, y) = sort_tree(x);
        proof {
            assert(orig.take(k + 1) =~= orig.take(k).push(orig[k]));
            lemma_trees_of_push(orig.take(k), orig[k]);
            lemma_sorted_trees_push(trees_of(orig.take(k)), tree_of(orig[k]));
            lemma_trees_of_push(done@, y);
            assert(orig.skip(k + 1) =~= orig.skip(k).remove(0));
        }
        changed = changed || m;
        done.push(y);
        proof {
            k = k + 1;
        }
    }
    assert(orig.take(k) =~= orig);
    proof {
        lemma_in_order_trees(done@);
    }
    if keys_in_order(&done) {
        proof {
            lemma_sort_stable_keeps_ordered(trees_of(done@), tree_le());
        }
        (changed, done)
    } else {
        let ghost d = done@;
        let sorted = sort_by_key(done);
        proof {
            lemma_sort_trees_view(d);
        }
        (true, sorted)
    }
}

/// Sorts every group in the tree, at every depth; says whether anything moved.
pub fn sort_tree(t: UseTree) -> (r: (bool, UseTree))
    ensures
        r.0 == sort_changes(t@),
        r.1@ == sorted_tree(t@),
    decreases t,
{
    match t {
        UseTree::Path(s, c) => {
            let (m, c2) = sort_tree(*c);
            (m, UseTree::Path(s, Box::new(c2)))
        },
        UseTree::Group(items) => {
            let (m, v) = sort_list(items);
            (m, UseTree::Group(v))
        },
        other => (false, other),
    }
}

/// Sorts a tree in place; the result says whether it changed.
pub fn sort_inner(tree: &mut UseTree) -> (r: bool)
    ensures
        r == sort_changes(old(tree)@),
        final(tree)@ == sorted_tree(old(tree)@),
{
    let mut t = UseTree::Glob;
    core::mem::swap(tree, &mut t);
    let (m, s) = sort_tree(t);
    *tree = s;
    m
}


pub proof fn lemma_in_order_decls(s: Seq<UseItem>)
    ensures
        in_order(s, key_order::<UseItem>()) == in_order(decls_of(s), decl_le()),
{
    if in_order(s, key_order::<UseItem>()) {
        assert forall|i: int| 0 <= i < decls_of(s).len() - 1 implies #[trigger] (decl_le())(
            decls_of(s)[i],
            decls_of(s)[i + 1],
        ) by {
            assert((key_order::<UseItem>())(s[i], s[i + 1]));
        }
    }
    if in_order(decls_of(s), decl_le()) {
        assert forall|i: int| 0 <= i < s.len() - 1 implies #[trigger] (key_order::<UseItem>())(
            s[i],
            s[i + 1],
        ) by {
            assert((decl_le())(decls_of(s)[i], decls_of(s)[i + 1]));
        }
    }
}

/// Sorts a list of declarations: each tree inside, then the declarations by key.
/// The result says whether anything changed.
pub fn sort_uses(uses: &mut Vec<UseItem>) -> (r: bool)
    ensures
        r == decls_sort_changes(decls_of(old(uses)@)),
        decls_of(final(uses)@) == sorted_decls(decls_of(old(uses)@)),
{
    let ghost orig = uses@;
    let ghost trees = decls_of(orig).map_values(|d: UseDecl| d.tree);
    let mut rest: Vec<UseItem> = Vec::new();
    core::mem::swap(uses, &mut rest);
    let mut done: Vec<UseItem> = Vec::new();
    let mut changed = false;
    let ghost mut k: int = 0;
    assert(orig.skip(0) =~= orig);
    assert(decls_of(done@) =~= inner_sorted_decls(decls_of(orig.take(0))));
    assert(trees.take(0) =~= Seq::<Tree>::empty());
    while rest.len() > 0
        invariant
            0 <= k <= orig.len(),
            rest@ == orig.skip(k),
            trees == decls_of(orig).map_values(|d: UseDecl| d.tree),
            done@.len() == k,
            decls_of(done@) == inner_sorted_decls(decls_of(orig.take(k))),
            changed == any_sort_changes(trees.take(k)),
        decreases rest.len(),
    {
        let mut item = rest.remove(0);
        let ghost before = item;
        let m = sort_inner(&mut item.tree);
        proof {
            assert(trees.take(k + 1) =~= trees.take(k).push(trees[k]));
            lemma_sorted_trees_push(trees.take(k), trees[k]);
            assert(orig.skip(k + 1) =~= orig.skip(k).remove(0));
        }
        changed = changed || m;
        let ghost done_before = done@;
        done.push(item);
        proof {
            assert(before == orig[k]);
            assert(decl_of(item) == UseDecl { tree: sorted_tree(decl_of(before).tree), ..decl_of(before) });
            assert forall|i: int| 0 <= i < k + 1 implies decls_of(done@)[i] == inner_sorted_decls(
                decls_of(orig.take(k + 1)),
            )[i] by {
                if i < k {
                    assert(decls_of(done_before)[i] == inner_sorted_decls(decls_of(orig.take(k)))[i]);
                    assert(orig.take(k)[i] == orig.take(k + 1)[i]);
                } else {
                    assert(orig.take(k + 1)[k] == orig[k]);
                    assert(done@[k] == item);
                }
            }
            assert(decls_of(done@) =~= inner_sorted_decls(decls_of(orig.take(k + 1))));
            k = k + 1;
        }
    }
    assert(orig.take(k) =~= orig);
    assert(trees.take(k) =~= trees);
    proof {
        lemma_in_order_decls(done@);
    }
    if keys_in_order(&done) {
        proof {
            lemma_sort_stable_keeps_ordered(decls_of(done@), decl_le());
        }
        *uses = done;
        changed
    } else {
        let ghost d = done@;
        let sorted = sort_by_key(done);
        proof {
            lemma_sort_stable_map(d, key_order::<UseItem>(), decl_le(), |i: UseItem| decl_of(i));
        }
        *uses = sorted;
        true
    }
}

/// Every element of a stable sort is an element of its input.
pub proof fn lemma_sort_stable_elements<A>(s: Seq<A>, le: spec_fn(A, A) -> bool, p: spec_fn(A) -> bool)
    requires
        forall|i: int| 0 <= i < s.len() ==> #[trigger] p(s[i]),
    ensures
        forall|i: int| 0 <= i < sort_stable(s, le).len() ==> #[trigger] p(sort_stable(s, le)[i]),
    decreases s.len(),
{
    if s.len() > 0 {
        lemma_sort_stable_elements(s.drop_last(), le, p);
        lemma_insert_elements(sort_stable(s.drop_last(), le), s.last(), le, p);
    }
}

pub proof fn lemma_insert_elements<A>(s: Seq<A>, x: A, le: spec_fn(A, A) -> bool, p: spec_fn(A) -> bool)
    requires
        forall|i: int| 0 <= i < s.len() ==> #[trigger] p(s[i]),
        p(x),
    ensures
        forall|i: int| 0 <= i < insert_in_order(s, x, le).len() ==> #[trigger] p(insert_in_order(s, x, le)[i]),
    decreases s.len(),
{
    let r = insert_in_order(s, x, le);
    if s.len() == 0 {
        assert(p(r[0]));
    } else if le(s.last(), x) {
        assert forall|i: int| 0 <= i < r.len() implies #[trigger] p(r[i]) by {
            if i < s.len() {
                assert(p(s[i]));
            }
        }
    } else {
        let d = s.drop_last();
        assert forall|i: int| 0 <= i < d.len() implies #[trigger] p(d[i]) by {
            assert(p(s[i]));
        }
        lemma_insert_elements(d, x, le, p);
        let q = insert_in_order(d, x, le);
        assert forall|i: int| 0 <= i < r.len() implies #[trigger] p(r[i]) by {
            if i < q.len() {
                assert(p(q[i]));
            } else {
                assert(p(s[s.len() - 1]));
            }
        }
    }
}

pub proof fn lemma_sorted_trees_index(s: Seq<Tree>)
    ensures
        sorted_trees(s).len() == s.len(),
        forall|i: int| 0 <= i < s.len() ==> #[trigger] sorted_trees(s)[i] == sorted_tree(s[i]),
    decreases s.len(),
{
    if s.len() > 0 {
        lemma_sorted_trees_index(s.drop_last());
    }
}

pub proof fn lemma_any_sort_changes_index(s: Seq<Tree>)
    ensures
        any_sort_changes(s) == exists|i: int| 0 <= i < s.len() && #[trigger] sort_changes(s[i]),
    decreases s.len(),
{
    if s.len() > 0 {
        let d = s.drop_last();
        lemma_any_sort_changes_index(d);
        if any_sort_changes(d) {
            let i = choose|i: int| 0 <= i < d.len() && #[trigger] sort_changes(d[i]);
            assert(sort_changes(s[i]));
        }
        if sort_changes(s.last()) {
            assert(sort_changes(s[s.len() - 1]));
        }
        if exists|i: int| 0 <= i < s.len() && #[trigger] sort_changes(s[i]) {
            let i = choose|i: int| 0 <= i < s.len() && #[trigger] sort_changes(s[i]);
            if i < s.len() - 1 {
                assert(sort_changes(d[i]));
            }
        }
    }
}

pub open spec fn sort_fixed(t: Tree) -> bool {
    sorted_tree(t) == t && !sort_changes(t)
}

/// A sequence whose elements are all sort-fixed is left alone by `sorted_trees`.
pub proof fn lemma_sorted_trees_fixed(s: Seq<Tree>)
    requires
        forall|i: int| 0 <= i < s.len() ==> #[trigger] sort_fixed(s[i]),
    ensures
        sorted_trees(s) == s,
        !any_sort_changes(s),
{
    lemma_sorted_trees_index(s);
    assert forall|i: int| 0 <= i < s.len() implies sorted_trees(s)[i] == s[i] by {
        assert(sort_fixed(s[i]));
    }
    assert(sorted_trees(s) =~= s);
    lemma_any_sort_changes_index(s);
    if any_sort_changes(s) {
        let i = choose|i: int| 0 <= i < s.len() && #[trigger] sort_changes(s[i]);
        assert(sort_fixed(s[i]));
    }
}

/// Sorting an already sorted tree reports no change and leaves it identical.
pub proof fn lemma_sort_tree_idempotent(t: Tree)
    ensures
        !sort_changes(sorted_tree(t)),
        sorted_tree(sorted_tree(t)) == sorted_tree(t),
    decreases t,
{
    match t {
        Tree::Path(s, c) => {
            lemma_sort_tree_idempotent(*c);
        },
        Tree::Group(items) => {
            let q = sorted_trees(items);
            lemma_sorted_trees_index(items);
            assert forall|i: int| 0 <= i < q.len() implies #[trigger] sort_fixed(q[i]) by {
                lemma_sort_tree_idempotent(items[i]);
            }
            let l = sort_stable(q, tree_le());
            let p = |x: Tree| sort_fixed(x);
            assert forall|i: int| 0 <= i < q.len() implies #[trigger] p(q[i]) by {
                assert(sort_fixed(q[i]));
            }
            lemma_sort_stable_elements(q, tree_le(), p);
            assert forall|i: int| 0 <= i < l.len() implies #[trigger] sort_fixed(l[i]) by {
                assert(p(l[i]));
            }
            lemma_sorted_trees_fixed(l);
            lemma_key_le_total_preorder();
            lemma_sort_stable_in_order(q, tree_le());
            lemma_sort_stable_keeps_ordered(l, tree_le());
        },
        _ => {},
    }
}

/// Sorting an already sorted list of declarations reports no change and leaves it identical.
pub proof fn lemma_sort_uses_idempotent(s: Seq<UseDecl>)
    ensures
        !decls_sort_changes(sorted_decls(s)),
        sorted_decls(sorted_decls(s)) == sorted_decls(s),
{
    let q = inner_sorted_decls(s);
    let p = |d: UseDecl| sort_fixed(d.tree);
    assert forall|i: int| 0 <= i < q.len() implies #[trigger] p(q[i]) by {
        lemma_sort_tree_idempotent(s[i].tree);
    }
    let l = sort_stable(q, decl_le());
    lemma_sort_stable_elements(q, decl_le(), p);
    assert(l.len() == q.len()) by {
        lemma_key_le_total_preorder();
        lemma_sort_stable_in_order(q, decl_le());
    }
    assert(inner_sorted_decls(l) =~= l) by {
        assert forall|i: int| 0 <= i < l.len() implies inner_sorted_decls(l)[i] == l[i] by {
            assert(p(l[i]));
        }
    }
    let trees = l.map_values(|d: UseDecl| d.tree);
    assert forall|i: int| 0 <= i < trees.len() implies #[trigger] sort_fixed(trees[i]) by {
        assert(p(l[i]));
    }
    lemma_sorted_trees_fixed(trees);
    lemma_key_le_total_preorder();
    lemma_sort_stable_in_order(q, decl_le());
    lemma_sort_stable_keeps_ordered(l, decl_le());
}

} // verus!
