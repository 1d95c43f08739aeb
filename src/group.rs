use vstd::prelude::*;
use crate::text::same_text;
use crate::tree::{decl_of, decls_of, lemma_trees_of, lemma_trees_of_push, tree_of, trees_of};
use crate::tree::{Tree, UseDecl, UseItem, UseTree};

verus! {

broadcast use vstd::seq::axiom_seq_index_decreases, vstd::seq::axiom_seq_subrange_decreases;

/// Index of the first accepted entry, from `i` on, that `x` may merge into; `acc.len()` if none.
pub open spec fn find_from<A>(acc: Seq<A>, x: A, can: spec_fn(A, A) -> bool, i: int) -> int
    decreases acc.len() - i,
{
    if i < 0 || i >= acc.len() {
        acc.len() as int
    } else if can(acc[i], x) {
        i
    } else {
        find_from(acc, x, can, i + 1)
    }
}

/// Folds `x` into the first accepted entry it may merge into, or accepts it at the end.
pub open spec fn absorb<A>(acc: Seq<A>, x: A, can: spec_fn(A, A) -> bool, join: spec_fn(A, A) -> A) -> Seq<A> {
    let i = find_from(acc, x, can, 0);
    if i < acc.len() {
        acc.update(i, join(acc[i], x))
    } else {
        acc.push(x)
    }
}

/// One grouping pass over one level, scanning entries from left to right.
pub open spec fn group_level<A>(s: Seq<A>, can: spec_fn(A, A) -> bool, join: spec_fn(A, A) -> A) -> Seq<A>
    decreases s.len(),
{
    if s.len() == 0 {
        s
    } else {
        absorb(group_level(s.drop_last(), can, join), s.last(), can, join)
    }
}

/// The alternatives a continuation contributes to a merged group.
pub open spec fn cont_items(c: Tree) -> Seq<Tree> {
    match c {
        Tree::Group(items) => items,
        _ => seq![c],
    }
}

/// Two nodes may merge when both are paths on the same leading segment.
pub open spec fn same_lead(a: Tree, b: Tree) -> bool {
    a is Path && b is Path && a->Path_0 == b->Path_0
}

/// The old entry's continuation, then the new one's, under one shared segment.
pub open spec fn merged(a: Tree, b: Tree) -> Tree {
    match (a, b) {
        (Tree::Path(s, ca), Tree::Path(_, cb)) => Tree::Path(
            s,
            Box::new(Tree::Group(cont_items(*ca) + cont_items(*cb))),
        ),
        _ => a,
    }
}

pub open spec fn tree_can() -> spec_fn(Tree, Tree) -> bool {
    |a: Tree, b: Tree| same_lead(a, b)
}

pub open spec fn tree_join() -> spec_fn(Tree, Tree) -> Tree {
    |a: Tree, b: Tree| merged(a, b)
}

/// Declarations merge when their trees do and their attributes and visibility are equal.
pub open spec fn decl_can() -> spec_fn(UseDecl, UseDecl) -> bool {
    |a: UseDecl, b: UseDecl| same_lead(a.tree, b.tree) && a.attrs == b.attrs && a.vis == b.vis
}

pub open spec fn decl_join() -> spec_fn(UseDecl, UseDecl) -> UseDecl {
    |a: UseDecl, b: UseDecl| UseDecl { tree: merged(a.tree, b.tree), ..a }
}

pub open spec fn size(t: Tree) -> nat
    decreases t,
{
    match t {
        Tree::Path(_, c) => 1 + size(*c),
        Tree::Group(items) => 1 + sizes(items),
        _ => 1,
    }
}

pub open spec fn sizes(s: Seq<Tree>) -> nat
    decreases s,
{
    if s.len() == 0 {
        0
    } else {
        sizes(s.drop_last()) + size(s.last())
    }
}

pub proof fn lemma_sizes_concat(a: Seq<Tree>, b: Seq<Tree>)
    ensures
        sizes(a + b) == sizes(a) + sizes(b),
    decreases b.len(),
{
    if b.len() > 0 {
        assert((a + b).drop_last() =~= a + b.drop_last());
        lemma_sizes_concat(a, b.drop_last());
    } else {
        assert(a + b =~= a);
    }
}

pub proof fn lemma_sizes_update(s: Seq<Tree>, i: int, v: Tree)
    requires
        0 <= i < s.len(),
    ensures
        sizes(s.update(i, v)) + size(s[i]) == sizes(s) + size(v),
    decreases s.len(),
{
    if i < s.len() - 1 {
        assert(s.update(i, v).drop_last() =~= s.drop_last().update(i, v));
        lemma_sizes_update(s.drop_last(), i, v);
    } else {
        assert(s.update(i, v).drop_last() =~= s.drop_last());
    }
}

pub proof fn lemma_sizes_element(s: Seq<Tree>, i: int)
    requires
        0 <= i < s.len(),
    ensures
        size(s[i]) <= sizes(s),
    decreases s.len(),
{
    if i < s.len() - 1 {
        lemma_sizes_element(s.drop_last(), i);
    }
}

pub proof fn lemma_find_from_bounds<A>(acc: Seq<A>, x: A, can: spec_fn(A, A) -> bool, i: int)
    requires
        0 <= i <= acc.len(),
    ensures
        i <= find_from(acc, x, can, i) <= acc.len(),
        find_from(acc, x, can, i) < acc.len() ==> can(acc[find_from(acc, x, can, i)], x),
        forall|j: int| i <= j < find_from(acc, x, can, i) ==> !#[trigger] can(acc[j], x),
    decreases acc.len() - i,
{
    if i < acc.len() && !can(acc[i], x) {
        lemma_find_from_bounds(acc, x, can, i + 1);
    }
}

pub proof fn lemma_merged_size(a: Tree, b: Tree)
    requires
        same_lead(a, b),
    ensures
        size(merged(a, b)) <= size(a) + size(b),
{
    let ca = *a->Path_1;
    let cb = *b->Path_1;
    let g = Tree::Group(cont_items(ca) + cont_items(cb));
    assert(merged(a, b) == Tree::Path(a->Path_0, Box::new(g)));
    assert(size(merged(a, b)) == 1 + size(g));
    assert(size(g) == 1 + sizes(cont_items(ca) + cont_items(cb)));
    assert(size(a) == 1 + size(ca));
    assert(size(b) == 1 + size(cb));
    lemma_sizes_concat(cont_items(ca), cont_items(cb));
    assert(sizes(cont_items(ca)) <= size(ca)) by {
        if !(ca is Group) {
            assert(seq![ca].drop_last() =~= Seq::<Tree>::empty());
            assert(sizes(seq![ca]) == sizes(seq![ca].drop_last()) + size(ca));
            assert(sizes(Seq::<Tree>::empty()) == 0);
        }
    }
    assert(sizes(cont_items(cb)) <= size(cb)) by {
        if !(cb is Group) {
            assert(seq![cb].drop_last() =~= Seq::<Tree>::empty());
            assert(sizes(seq![cb]) == sizes(seq![cb].drop_last()) + size(cb));
            assert(sizes(Seq::<Tree>::empty()) == 0);
        }
    }
}

/// A grouping pass never grows the level, in entries or in nodes.
pub proof fn lemma_group_level_shrinks(s: Seq<Tree>)
    ensures
        sizes(group_level(s, tree_can(), tree_join())) <= sizes(s),
        group_level(s, tree_can(), tree_join()).len() <= s.len(),
    decreases s.len(),
{
    if s.len() > 0 {
        let d = s.drop_last();
        let g = group_level(d, tree_can(), tree_join());
        lemma_group_level_shrinks(d);
        let x = s.last();
        lemma_find_from_bounds(g, x, tree_can(), 0);
        let i = find_from(g, x, tree_can(), 0);
        if i < g.len() {
            lemma_sizes_update(g, i, merged(g[i], x));
            lemma_merged_size(g[i], x);
        } else {
            assert(g.push(x).drop_last() =~= g);
        }
    }
}

/// Every merge, at every depth, done top-down.
pub open spec fn regroup(t: Tree) -> Tree
    decreases size(t), 0nat,
{
    match t {
        Tree::Path(s, c) => Tree::Path(s, Box::new(regroup(*c))),
        Tree::Group(items) => {
            proof {
                lemma_group_level_shrinks(items);
            }
            Tree::Group(regroup_seq(group_level(items, tree_can(), tree_join())))
        },
        _ => t,
    }
}

pub open spec fn regroup_seq(s: Seq<Tree>) -> Seq<Tree>
    decreases sizes(s), 1nat,
{
    if s.len() == 0 {
        s
    } else {
        proof {
            lemma_sizes_element(s, s.len() - 1);
        }
        regroup_seq(s.drop_last()).push(regroup(s.last()))
    }
}


/// A pass that merges nothing leaves the level as it is; otherwise the level gets shorter.
pub proof fn lemma_group_level_len<A>(s: Seq<A>, can: spec_fn(A, A) -> bool, join: spec_fn(A, A) -> A)
    ensures
        group_level(s, can, join).len() <= s.len(),
        group_level(s, can, join).len() == s.len() ==> group_level(s, can, join) == s,
    decreases s.len(),
{
    if s.len() > 0 {
        let d = s.drop_last();
        lemma_group_level_len(d, can, join);
        let g = group_level(d, can, join);
        lemma_find_from_bounds(g, s.last(), can, 0);
        if group_level(s, can, join).len() == s.len() {
            assert(g.push(s.last()) =~= s);
        }
    }
}

/// Everything of `a`, then everything of `b`.
fn append_trees(a: Vec<UseTree>, b: Vec<UseTree>) -> (r: Vec<UseTree>)
    ensures
        trees_of(r@) == trees_of(a@) + trees_of(b@),
{
    let ghost bs = b@;
    let mut out = a;
    let mut rest = b;
    let ghost mut k: int = 0;
    assert(bs.skip(0) =~= bs);
    assert(out@ =~= a@ + bs.take(0));
    while rest.len() > 0
        invariant
            0 <= k <= bs.len(),
            rest@ == bs.skip(k),
            out@ == a@ + bs.take(k),
        decreases rest.len(),
    {
        let x = rest.remove(0);
        proof {
            assert(bs.skip(k + 1) =~= bs.skip(k).remove(0));
            assert(a@ + bs.take(k + 1) =~= (a@ + bs.take(k)).push(x));
        }
        out.push(x);
        proof {
            k = k + 1;
        }
    }
    assert(bs.take(k) =~= bs);
    proof {
        lemma_trees_of(a@);
        lemma_trees_of(b@);
        lemma_trees_of(out@);
        assert(trees_of(out@) =~= trees_of(a@) + trees_of(b@));
    }
    out
}

/// The alternatives that a continuation brings into a merged group.
fn into_items(c: UseTree) -> (r: Vec<UseTree>)
    ensures
        trees_of(r@) == cont_items(c@),
{
    match c {
        UseTree::Group(v) => v,
        other => {
            let v = vec![other];
            proof {
                assert(v@ =~= Seq::<UseTree>::empty().push(other));
                lemma_trees_of_push(Seq::<UseTree>::empty(), other);
                assert(trees_of(Seq::<UseTree>::empty()) =~= Seq::<Tree>::empty());
                assert(Seq::<Tree>::empty().push(tree_of(other)) =~= seq![tree_of(other)]);
            }
            v
        },
    }
}

/// Merges `new` into `old`: one shared segment, then a group of both continuations.
fn merge_trees(old: UseTree, new: UseTree) -> (r: UseTree)
    requires
        same_lead(old@, new@),
    ensures
        r@ == merged(old@, new@),
{
    let ghost ov = old@;
    let ghost nv = new@;
    match old {
        UseTree::Path(s, c) => match new {
            UseTree::Path(_, c2) => {
                let ghost cv = (*c)@;
                let ghost c2v = (*c2)@;
                let items = append_trees(into_items(*c), into_items(*c2));
                assert(ov == Tree::Path(s@, Box::new(cv)));
                assert(nv->Path_1 == Box::new(c2v));
                let ghost iv = trees_of(items@);
                let g = UseTree::Group(items);
                assert(g@ == Tree::Group(iv));
                let ghost sv = s@;
                let r = UseTree::Path(s, Box::new(g));
                assert(r@ == Tree::Path(sv, Box::new(Tree::Group(iv))));
                r
            },
            _ => UseTree::Path(s, c),
        },
        o => o,
    }
}

/// Whether both nodes are paths on the same leading segment.
fn leads_match(a: &UseTree, b: &UseTree) -> (r: bool)
    ensures
        r == same_lead(a@, b@),
{
    match (a, b) {
        (UseTree::Path(x, _), UseTree::Path(y, _)) => same_text(x.as_str(), y.as_str()),
        _ => false,
    }
}

/// Whether two lists of texts are equal, text by text.
fn same_texts(a: &Vec<String>, b: &Vec<String>) -> (r: bool)
    ensures
        r == (a@.map_values(|s: String| s@) == b@.map_values(|s: String| s@)),
{
    if a.len() != b.len() {
        assert(a@.map_values(|s: String| s@).len() != b@.map_values(|s: String| s@).len());
        return false;
    }
    let mut i: usize = 0;
    while i < a.len()
        invariant
            a.len() == b.len(),
            i <= a.len(),
            forall|k: int| 0 <= k < i ==> #[trigger] a@[k]@ == b@[k]@,
        decreases a.len() - i,
    {
        if !same_text(a[i].as_str(), b[i].as_str()) {
            assert(a@.map_values(|s: String| s@)[i as int] != b@.map_values(|s: String| s@)[i as int]);
            return false;
        }
        i = i + 1;
    }
    assert(a@.map_values(|s: String| s@) =~= b@.map_values(|s: String| s@));
    true
}

fn decls_can_merge(a: &UseItem, b: &UseItem) -> (r: bool)
    ensures
        r == (decl_can())(decl_of(*a), decl_of(*b)),
{
    leads_match(&a.tree, &b.tree) && same_texts(&a.attrs, &b.attrs) && same_text(a.vis.as_str(), b.vis.as_str())
}

/// One grouping pass over the alternatives of a group.
fn group_trees_level(items: Vec<UseTree>) -> (r: Vec<UseTree>)
    ensures
        trees_of(r@) == group_level(trees_of(items@), tree_can(), tree_join()),
{
    let ghost orig = items@;
    let mut rest = items;
    let mut acc: Vec<UseTree> = Vec::new();
    let ghost mut k: int = 0;
    assert(orig.skip(0) =~= orig);
    assert(trees_of(orig.take(0)) =~= Seq::<Tree>::empty()) by {
        assert(orig.take(0) =~= Seq::<UseTree>::empty());
    }
    while rest.len() > 0
        invariant
            0 <= k <= orig.len(),
            rest@ == orig.skip(k),
            trees_of(acc@) == group_level(trees_of(orig.take(k)), tree_can(), tree_join()),
        decreases rest.len(),
    {
        let x = rest.remove(0);
        let ghost av = trees_of(acc@);
        proof {
            assert(orig.skip(k + 1) =~= orig.skip(k).remove(0));
            assert(orig.take(k + 1) =~= orig.take(k).push(x));
            lemma_trees_of_push(orig.take(k), x);
            assert(trees_of(orig.take(k)).push(tree_of(x)).drop_last() =~= trees_of(orig.take(k)));
            lemma_trees_of(acc@);
        }
        let mut j: usize = 0;
        while j < acc.len() && !leads_match(&acc[j], &x)
            invariant
                j <= acc.len(),
                av == trees_of(acc@),
                av.len() == acc@.len(),
                forall|i: int| 0 <= i < acc@.len() ==> #[trigger] av[i] == tree_of(acc@[i]),
                find_from(av, tree_of(x), tree_can(), 0) == find_from(av, tree_of(x), tree_can(), j as int),
            decreases acc.len() - j,
        {
            j = j + 1;
        }
        if j < acc.len() {
            let old = acc.remove(j);
            let m = merge_trees(old, x);
            acc.insert(j, m);
            proof {
                lemma_trees_of(acc@);
                assert(trees_of(acc@) =~= av.update(j as int, merged(av[j as int], tree_of(x))));
            }
        } else {
            proof {
                lemma_trees_of_push(acc@, x);
            }
            acc.push(x);
        }
        proof {
            k = k + 1;
        }
    }
    assert(orig.take(k) =~= orig);
    acc
}

/// One grouping pass over a list of declarations.
fn group_items_level(uses: Vec<UseItem>) -> (r: Vec<UseItem>)
    ensures
        decls_of(r@) == group_level(decls_of(uses@), decl_can(), decl_join()),
{
    let ghost orig = uses@;
    let mut rest = uses;
    let mut acc: Vec<UseItem> = Vec::new();
    let ghost mut k: int = 0;
    assert(orig.skip(0) =~= orig);
    assert(decls_of(orig.take(0)) =~= decls_of(acc@));
    while rest.len() > 0
        invariant
            0 <= k <= orig.len(),
            rest@ == orig.skip(k),
            decls_of(acc@) == group_level(decls_of(orig.take(k)), decl_can(), decl_join()),
        decreases rest.len(),
    {
        let x = rest.remove(0);
        let ghost av = decls_of(acc@);
        proof {
            assert(orig.skip(k + 1) =~= orig.skip(k).remove(0));
            assert(decls_of(orig.take(k + 1)).drop_last() =~= decls_of(orig.take(k)));
            assert(decls_of(orig.take(k + 1)).last() == decl_of(x));
        }
        let mut j: usize = 0;
        while j < acc.len() && !decls_can_merge(&acc[j], &x)
            invariant
                j <= acc.len(),
                av == decls_of(acc@),
                find_from(av, decl_of(x), decl_can(), 0) == find_from(av, decl_of(x), decl_can(), j as int),
            decreases acc.len() - j,
        {
            j = j + 1;
        }
        if j < acc.len() {
            let old = acc.remove(j);
            let tree = merge_trees(old.tree, x.tree);
            acc.insert(j, UseItem { attrs: old.attrs, vis: old.vis, tree });
            proof {
                assert(decls_of(acc@) =~= av.update(j as int, (decl_join())(av[j as int], decl_of(x))));
            }
        } else {
            acc.push(x);
            proof {
                assert(decls_of(acc@) =~= av.push(decl_of(x)));
            }
        }
        proof {
            k = k + 1;
        }
    }
    assert(orig.take(k) =~= orig);
    acc
}


pub proof fn lemma_regroup_seq_index(s: Seq<Tree>)
    ensures
        regroup_seq(s).len() == s.len(),
        forall|i: int| 0 <= i < s.len() ==> #[trigger] regroup_seq(s)[i] == regroup(s[i]),
    decreases s.len(),
{
    if s.len() > 0 {
        lemma_regroup_seq_index(s.drop_last());
    }
}

/// Declarations after grouping: one pass over the list, then every tree regrouped inside.
pub open spec fn grouped_decls(s: Seq<UseDecl>) -> Seq<UseDecl> {
    group_level(s, decl_can(), decl_join()).map_values(|d: UseDecl| UseDecl { tree: regroup(d.tree), ..d })
}

/// Regroups every group of a tree, top-down; says whether anything merged.
pub fn regroup_tree(t: UseTree) -> (r: (bool, UseTree))
    ensures
        r.1@ == regroup(t@),
        r.0 == (regroup(t@) != t@),
    decreases size(t@),
{
    let ghost tv = t@;
    match t {
        UseTree::Path(s, c) => {
            let ghost sv = s@;
            let ghost cv = (*c)@;
            assert(size(cv) < size(tv));
            let (m, c2) = regroup_tree(*c);
            let r = UseTree::Path(s, Box::new(c2));
            assert(r@ == Tree::Path(sv, Box::new(c2@)));
            (m, r)
        },
        UseTree::Group(items) => {
            let ghost iv = trees_of(items@);
            let n = items.len();
            proof {
                lemma_trees_of(items@);
                lemma_group_level_shrinks(iv);
                lemma_group_level_len(iv, tree_can(), tree_join());
            }
            let mut rest = group_trees_level(items);
            let ghost g = rest@;
            let ghost gv = trees_of(g);
            proof {
                lemma_trees_of(g);
            }
            let level_changed = rest.len() != n;
            let mut out: Vec<UseTree> = Vec::new();
            let mut child_changed = false;
            let ghost mut k: int = 0;
            assert(g.skip(0) =~= g);
            assert(gv.take(0) =~= Seq::<Tree>::empty());
            while rest.len() > 0
                invariant
                    0 <= k <= g.len(),
                    tv == t@,
                    gv == trees_of(g),
                    gv.len() == g.len(),
                    forall|i: int| 0 <= i < g.len() ==> #[trigger] gv[i] == tree_of(g[i]),
                    sizes(gv) < size(tv),
                    rest@ == g.skip(k),
                    trees_of(out@) == regroup_seq(gv.take(k)),
                    child_changed == exists|i: int| 0 <= i < k && #[trigger] regroup(gv[i]) != gv[i],
                decreases rest.len(),
            {
                let x = rest.remove(0);
                proof {
                    assert(x == g[k]);
                    lemma_sizes_element(gv, k);
                    assert(size(x@) < size(t@));
                    assert(g.skip(k + 1) =~= g.skip(k).remove(0));
                    assert(gv.take(k + 1).drop_last() =~= gv.take(k));
                }
                let (m, y) = regroup_tree(x);
                proof {
                    lemma_trees_of_push(out@, y);
                    if m {
                        assert(regroup(gv[k]) != gv[k]);
                    }
                }
                child_changed = child_changed || m;
                out.push(y);
                proof {
                    k = k + 1;
                }
            }
            assert(gv.take(k) =~= gv);
            proof {
                lemma_regroup_seq_index(gv);
                if !level_changed {
                    assert(gv == iv);
                    if child_changed {
                        let i = choose|i: int| 0 <= i < k && #[trigger] regroup(gv[i]) != gv[i];
                        assert(regroup_seq(gv)[i] != iv[i]);
                    } else {
                        assert(regroup_seq(gv) =~= iv);
                    }
                } else {
                    assert(regroup_seq(gv).len() != iv.len());
                }
            }
            let ghost ov = trees_of(out@);
            let r = UseTree::Group(out);
            assert(r@ == Tree::Group(ov));
            (level_changed || child_changed, r)
        },
        other => (false, other),
    }
}

/// Groups a list of declarations: merges those that share a leading segment and
/// modifiers, then regroups inside every tree. The flag says whether anything merged.
pub fn group_uses(uses: Vec<UseItem>) -> (r: (bool, Vec<UseItem>))
    ensures
        decls_of(r.1@) == grouped_decls(decls_of(uses@)),
        r.0 == (grouped_decls(decls_of(uses@)) != decls_of(uses@)),
{
    let ghost dv = decls_of(uses@);
    let n = uses.len();
    proof {
        lemma_group_level_len(dv, decl_can(), decl_join());
    }
    let mut rest = group_items_level(uses);
    let ghost g = rest@;
    let ghost gv = decls_of(g);
    let level_changed = rest.len() != n;
    let mut out: Vec<UseItem> = Vec::new();
    let mut child_changed = false;
    let ghost mut k: int = 0;
    let ghost target = grouped_decls(dv);
    assert(g.skip(0) =~= g);
    while rest.len() > 0
        invariant
            0 <= k <= g.len(),
            gv == decls_of(g),
            target == gv.map_values(|d: UseDecl| UseDecl { tree: regroup(d.tree), ..d }),
            rest@ == g.skip(k),
            out@.len() == k,
            forall|i: int| 0 <= i < k ==> #[trigger] decls_of(out@)[i] == target[i],
            child_changed == exists|i: int| 0 <= i < k && #[trigger] regroup(gv[i].tree) != gv[i].tree,
        decreases rest.len(),
    {
        let x = rest.remove(0);
        proof {
            assert(x == g[k]);
            assert(g.skip(k + 1) =~= g.skip(k).remove(0));
        }
        let (m, tree) = regroup_tree(x.tree);
        proof {
            if m {
                assert(regroup(gv[k].tree) != gv[k].tree);
            }
        }
        child_changed = child_changed || m;
        let ghost before = out@;
        out.push(UseItem { attrs: x.attrs, vis: x.vis, tree });
        proof {
            assert forall|i: int| 0 <= i < k + 1 implies #[trigger] decls_of(out@)[i] == target[i] by {
                if i < k {
                    assert(decls_of(before)[i] == target[i]);
                }
            }
            k = k + 1;
        }
    }
    assert(decls_of(out@) =~= target);
    proof {
        if !level_changed {
            assert(gv == dv);
            if child_changed {
                let i = choose|i: int| 0 <= i < k && #[trigger] regroup(gv[i].tree) != gv[i].tree;
                assert(target[i] != dv[i]);
            } else {
                assert forall|i: int| 0 <= i < gv.len() implies target[i] == dv[i] by {
                    assert(regroup(gv[i].tree) == gv[i].tree);
                }
                assert(target =~= dv);
            }
        } else {
            assert(target.len() != dv.len());
        }
    }
    (level_changed || child_changed, out)
}


/// Two declarations whose attributes or visibility differ are never merged, whatever
/// their paths: grouping keeps both, in order, each with its own modifiers.
pub proof fn lemma_no_cross_modifier_merge(a: UseDecl, b: UseDecl)
    requires
        a.attrs != b.attrs || a.vis != b.vis,
    ensures
        grouped_decls(seq![a, b]).len() == 2,
        grouped_decls(seq![a, b])[0].attrs == a.attrs,
        grouped_decls(seq![a, b])[0].vis == a.vis,
        grouped_decls(seq![a, b])[1].attrs == b.attrs,
        grouped_decls(seq![a, b])[1].vis == b.vis,
{
    let s = seq![a, b];
    assert(s.drop_last() =~= seq![a]);
    assert(seq![a].drop_last() =~= Seq::<UseDecl>::empty());
    let g1 = group_level(seq![a], decl_can(), decl_join());
    let e = seq![a].drop_last();
    assert(group_level(e, decl_can(), decl_join()) == e);
    assert(find_from(e, a, decl_can(), 0) == 0);
    assert(e.push(a) =~= seq![a]);
    assert(g1 =~= seq![a]);
    assert(!(decl_can())(a, b));
    assert(find_from(seq![a], b, decl_can(), 1) == 1);
    assert(find_from(seq![a], b, decl_can(), 0) == 1);
    assert(group_level(s, decl_can(), decl_join()) =~= seq![a, b]);
}


/// No two entries of the level may merge.
pub open spec fn level_distinct<A>(s: Seq<A>, can: spec_fn(A, A) -> bool) -> bool {
    forall|i: int, j: int| 0 <= i < j < s.len() ==> !#[trigger] can(s[i], s[j])
}

/// Merging keeps what decides mergeability.
pub open spec fn join_keeps_key<A>(can: spec_fn(A, A) -> bool, join: spec_fn(A, A) -> A) -> bool {
    forall|a: A, x: A, c: A|
        #![trigger can(join(a, x), c)]
        #![trigger can(c, join(a, x))]
        can(a, x) ==> can(join(a, x), c) == can(a, c) && can(c, join(a, x)) == can(c, a)
}

pub proof fn lemma_find_none<A>(acc: Seq<A>, x: A, can: spec_fn(A, A) -> bool)
    requires
        forall|j: int| 0 <= j < acc.len() ==> !#[trigger] can(acc[j], x),
    ensures
        find_from(acc, x, can, 0) == acc.len(),
{
    lemma_find_from_bounds(acc, x, can, 0);
}

/// A level where nothing may merge is left as it is.
pub proof fn lemma_group_level_distinct_fixed<A>(s: Seq<A>, can: spec_fn(A, A) -> bool, join: spec_fn(A, A) -> A)
    requires
        level_distinct(s, can),
    ensures
        group_level(s, can, join) == s,
    decreases s.len(),
{
    if s.len() > 0 {
        let d = s.drop_last();
        assert forall|i: int, j: int| 0 <= i < j < d.len() implies !#[trigger] can(d[i], d[j]) by {
            assert(!can(s[i], s[j]));
        }
        lemma_group_level_distinct_fixed(d, can, join);
        assert forall|j: int| 0 <= j < d.len() implies !#[trigger] can(d[j], s.last()) by {
            assert(!can(s[j], s[s.len() - 1]));
        }
        lemma_find_none(d, s.last(), can);
        assert(d.push(s.last()) =~= s);
    }
}

/// After a grouping pass nothing on the level may merge.
pub proof fn lemma_group_level_distinct<A>(s: Seq<A>, can: spec_fn(A, A) -> bool, join: spec_fn(A, A) -> A)
    requires
        join_keeps_key(can, join),
    ensures
        level_distinct(group_level(s, can, join), can),
    decreases s.len(),
{
    if s.len() > 0 {
        let d = s.drop_last();
        let g = group_level(d, can, join);
        let x = s.last();
        lemma_group_level_distinct(d, can, join);
        lemma_find_from_bounds(g, x, can, 0);
        let k = find_from(g, x, can, 0);
        let r = group_level(s, can, join);
        if k < g.len() {
            let v = join(g[k], x);
            assert forall|i: int, j: int| 0 <= i < j < r.len() implies !#[trigger] can(r[i], r[j]) by {
                if i == k {
                    assert(can(v, g[j]) == can(g[k], g[j]));
                } else if j == k {
                    assert(can(g[i], v) == can(g[i], g[k]));
                } else {
                    assert(!can(g[i], g[j]));
                }
            }
        } else {
            assert forall|i: int, j: int| 0 <= i < j < r.len() implies !#[trigger] can(r[i], r[j]) by {
                if j < g.len() {
                    assert(!can(g[i], g[j]));
                }
            }
        }
    }
}

pub proof fn lemma_tree_join_keeps_key()
    ensures
        join_keeps_key(tree_can(), tree_join()),
        join_keeps_key(decl_can(), decl_join()),
{
}

/// Regrouping keeps a node's leading segment.
pub proof fn lemma_regroup_keeps_lead(a: Tree, c: Tree)
    ensures
        same_lead(regroup(a), c) == same_lead(a, c),
        same_lead(c, regroup(a)) == same_lead(c, a),
{
}

/// Grouping a fully grouped tree changes nothing.
pub proof fn lemma_regroup_idempotent(t: Tree)
    ensures
        regroup(regroup(t)) == regroup(t),
    decreases size(t),
{
    match t {
        Tree::Path(s, c) => {
            lemma_regroup_idempotent(*c);
        },
        Tree::Group(items) => {
            let g = group_level(items, tree_can(), tree_join());
            let r = regroup_seq(g);
            lemma_group_level_shrinks(items);
            lemma_tree_join_keeps_key();
            lemma_group_level_distinct(items, tree_can(), tree_join());
            lemma_regroup_seq_index(g);
            assert forall|i: int, j: int| 0 <= i < j < r.len() implies !#[trigger] (tree_can())(r[i], r[j]) by {
                lemma_regroup_keeps_lead(g[i], r[j]);
                lemma_regroup_keeps_lead(g[j], g[i]);
                assert(!(tree_can())(g[i], g[j]));
            }
            lemma_group_level_distinct_fixed(r, tree_can(), tree_join());
            lemma_regroup_seq_index(r);
            assert forall|i: int| 0 <= i < r.len() implies regroup_seq(r)[i] == r[i] by {
                lemma_sizes_element(g, i);
                lemma_regroup_idempotent(g[i]);
            }
            assert(regroup_seq(r) =~= r);
        },
        _ => {},
    }
}

/// Grouping already grouped declarations changes nothing, so it reports no change.
pub proof fn lemma_group_uses_idempotent(s: Seq<UseDecl>)
    ensures
        grouped_decls(grouped_decls(s)) == grouped_decls(s),
{
    let g = group_level(s, decl_can(), decl_join());
    let r = grouped_decls(s);
    lemma_tree_join_keeps_key();
    lemma_group_level_distinct(s, decl_can(), decl_join());
    assert forall|i: int, j: int| 0 <= i < j < r.len() implies !#[trigger] (decl_can())(r[i], r[j]) by {
        lemma_regroup_keeps_lead(g[i].tree, r[j].tree);
        lemma_regroup_keeps_lead(g[j].tree, g[i].tree);
        assert(!(decl_can())(g[i], g[j]));
    }
    lemma_group_level_distinct_fixed(r, decl_can(), decl_join());
    assert forall|i: int| 0 <= i < r.len() implies grouped_decls(r)[i] == r[i] by {
        lemma_regroup_idempotent(g[i].tree);
    }
    assert(grouped_decls(r) =~= r);
}

} // verus!
