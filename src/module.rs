use vstd::prelude::*;
use crate::group::{group_uses, grouped_decls};
use crate::sort::{decls_sort_changes, sort_uses, sorted_decls};
use crate::text::{same_text, trim_text, trimmed};
use crate::tree::{decls_of, Tree, UseItem, UseTree};

verus! {

/// A declared external dependency, optionally bound to another local name.
#[derive(Debug, PartialEq, Eq)]
pub struct ExternCrate {
    pub attrs: Vec<String>,
    pub vis: String,
    pub name: String,
    pub rename: Option<String>,
}

/// One top-level declaration of a module; `O` carries the declarations left untouched.
#[derive(Debug, PartialEq, Eq)]
pub enum Item<O> {
    ExternCrate(ExternCrate),
    Use(UseItem),
    Other(O),
}

/// A module split into its three buckets, each keeping the order it had in the module.
#[derive(Debug, PartialEq, Eq)]
pub struct Module<O> {
    pub crates: Vec<ExternCrate>,
    pub uses: Vec<UseItem>,
    pub rest: Vec<O>,
}

pub open spec fn crates_of<O>(s: Seq<Item<O>>) -> Seq<ExternCrate>
    decreases s.len(),
{
    if s.len() == 0 {
        Seq::empty()
    } else {
        let p = crates_of(s.drop_last());
        match s.last() {
            Item::ExternCrate(c) => p.push(c),
            _ => p,
        }
    }
}

pub open spec fn uses_of<O>(s: Seq<Item<O>>) -> Seq<UseItem>
    decreases s.len(),
{
    if s.len() == 0 {
        Seq::empty()
    } else {
        let p = uses_of(s.drop_last());
        match s.last() {
            Item::Use(u) => p.push(u),
            _ => p,
        }
    }
}

pub open spec fn others_of<O>(s: Seq<Item<O>>) -> Seq<O>
    decreases s.len(),
{
    if s.len() == 0 {
        Seq::empty()
    } else {
        let p = others_of(s.drop_last());
        match s.last() {
            Item::Other(o) => p.push(o),
            _ => p,
        }
    }
}

pub proof fn lemma_buckets_push<O>(s: Seq<Item<O>>, x: Item<O>)
    ensures
        crates_of(s.push(x)) == (match x {
            Item::ExternCrate(c) => crates_of(s).push(c),
            _ => crates_of(s),
        }),
        uses_of(s.push(x)) == (match x {
            Item::Use(u) => uses_of(s).push(u),
            _ => uses_of(s),
        }),
        others_of(s.push(x)) == (match x {
            Item::Other(o) => others_of(s).push(o),
            _ => others_of(s),
        }),
{
    assert(s.push(x).drop_last() =~= s);
}

/// Partitions declarations into external dependencies, imports and the rest, keeping
/// the order inside each bucket.
pub fn split<O>(items: Vec<Item<O>>) -> (r: Module<O>)
    ensures
        r.crates@ == crates_of(items@),
        r.uses@ == uses_of(items@),
        r.rest@ == others_of(items@),
{
    let ghost orig = items@;
    let mut rest_items = items;
    let mut m = Module { crates: Vec::new(), uses: Vec::new(), rest: Vec::new() };
    let ghost mut k: int = 0;
    assert(orig.skip(0) =~= orig);
    assert(orig.take(0) =~= Seq::<Item<O>>::empty());
    while rest_items.len() > 0
        invariant
            0 <= k <= orig.len(),
            rest_items@ == orig.skip(k),
            m.crates@ == crates_of(orig.take(k)),
            m.uses@ == uses_of(orig.take(k)),
            m.rest@ == others_of(orig.take(k)),
        decreases rest_items.len(),
    {
        let x = rest_items.remove(0);
        proof {
            assert(orig.skip(k + 1) =~= orig.skip(k).remove(0));
            assert(orig.take(k + 1) =~= orig.take(k).push(x));
            lemma_buckets_push(orig.take(k), x);
        }
        match x {
            Item::ExternCrate(c) => m.crates.push(c),
            Item::Use(u) => m.uses.push(u),
            Item::Other(o) => m.rest.push(o),
        }
        proof {
            k = k + 1;
        }
    }
    assert(orig.take(k) =~= orig);
    m
}

/// Puts the buckets back together: external dependencies, then imports, then the rest.
/// Splitting the result gives back each bucket unchanged.
pub fn reassemble<O>(m: Module<O>) -> (r: Vec<Item<O>>)
    ensures
        r@.len() == m.crates@.len() + m.uses@.len() + m.rest@.len(),
        crates_of(r@) == m.crates@,
        uses_of(r@) == m.uses@,
        others_of(r@) == m.rest@,
        forall|i: int| 0 <= i < m.crates@.len() ==> #[trigger] r@[i] == Item::<O>::ExternCrate(m.crates@[i]),
{
    let ghost cs = m.crates@;
    let ghost us = m.uses@;
    let ghost os = m.rest@;
    let Module { crates, uses, rest } = m;
    let mut out: Vec<Item<O>> = Vec::new();
    let mut crates = crates;
    let ghost mut k: int = 0;
    assert(cs.skip(0) =~= cs);
    assert(cs.take(0) =~= Seq::<ExternCrate>::empty());
    while crates.len() > 0
        invariant
            0 <= k <= cs.len(),
            crates@ == cs.skip(k),
            out@.len() == k,
            crates_of(out@) == cs.take(k),
            uses_of(out@) == Seq::<UseItem>::empty(),
            others_of(out@) == Seq::<O>::empty(),
            forall|i: int| 0 <= i < k ==> #[trigger] out@[i] == Item::<O>::ExternCrate(cs[i]),
        decreases crates.len(),
    {
        let c = crates.remove(0);
        proof {
            assert(cs.skip(k + 1) =~= cs.skip(k).remove(0));
            assert(cs.take(k + 1) =~= cs.take(k).push(c));
            lemma_buckets_push(out@, Item::ExternCrate(c));
        }
        out.push(Item::ExternCrate(c));
        proof {
            k = k + 1;
        }
    }
    assert(cs.take(k) =~= cs);
    let ghost n = out@.len();
    let mut uses = uses;
    proof {
        k = 0;
    }
    assert(us.skip(0) =~= us);
    assert(us.take(0) =~= Seq::<UseItem>::empty());
    while uses.len() > 0
        invariant
            0 <= k <= us.len(),
            uses@ == us.skip(k),
            n == cs.len(),
            out@.len() == n + k,
            crates_of(out@) == cs,
            uses_of(out@) == us.take(k),
            others_of(out@) == Seq::<O>::empty(),
            forall|i: int| 0 <= i < n ==> #[trigger] out@[i] == Item::<O>::ExternCrate(cs[i]),
        decreases uses.len(),
    {
        let u = uses.remove(0);
        proof {
            assert(us.skip(k + 1) =~= us.skip(k).remove(0));
            assert(us.take(k + 1) =~= us.take(k).push(u));
            lemma_buckets_push(out@, Item::Use(u));
        }
        out.push(Item::Use(u));
        proof {
            k = k + 1;
        }
    }
    assert(us.take(k) =~= us);
    let ghost n2 = out@.len();
    let mut rest = rest;
    proof {
        k = 0;
    }
    assert(os.skip(0) =~= os);
    assert(os.take(0) =~= Seq::<O>::empty());
    while rest.len() > 0
        invariant
            0 <= k <= os.len(),
            rest@ == os.skip(k),
            n == cs.len(),
            n2 == cs.len() + us.len(),
            out@.len() == n2 + k,
            crates_of(out@) == cs,
            uses_of(out@) == us,
            others_of(out@) == os.take(k),
            forall|i: int| 0 <= i < n ==> #[trigger] out@[i] == Item::<O>::ExternCrate(cs[i]),
        decreases rest.len(),
    {
        let o = rest.remove(0);
        proof {
            assert(os.skip(k + 1) =~= os.skip(k).remove(0));
            assert(os.take(k + 1) =~= os.take(k).push(o));
            lemma_buckets_push(out@, Item::Other(o));
        }
        out.push(Item::Other(o));
        proof {
            k = k + 1;
        }
    }
    assert(os.take(k) =~= os);
    out
}

/// The segment an import path starts with, if it starts with one.
pub open spec fn lead_segment(t: Tree) -> Option<Seq<char>> {
    match t {
        Tree::Path(s, _) => Some(s),
        Tree::Name(s) => Some(s),
        Tree::Rename(s, _) => Some(s),
        _ => None,
    }
}

/// The name a dependency is known by: its rename if it has one.
pub open spec fn effective_name(c: ExternCrate) -> Seq<char> {
    match c.rename {
        Some(r) => r@,
        None => c.name@,
    }
}

/// Whether importing `t` calls for a new external dependency declaration: its leading
/// segment is neither reserved nor the name of a known dependency.
pub open spec fn needs_extern(crates: Seq<ExternCrate>, reserved: Seq<Seq<char>>, t: Tree) -> bool {
    &&& lead_segment(t) is Some
    &&& !reserved.contains(lead_segment(t)->0)
    &&& forall|i: int| 0 <= i < crates.len() ==> effective_name(#[trigger] crates[i]) != lead_segment(t)->0
}

pub open spec fn texts_of(v: Seq<String>) -> Seq<Seq<char>> {
    v.map_values(|s: String| s@)
}

/// The segments that never name an external dependency.
pub fn reserved_segments() -> (r: Vec<String>)
    ensures
        texts_of(r@) == seq!["self"@, "super"@, "crate"@, "Self"@],
{
    let r = vec![
        String::from_str("self"),
        String::from_str("super"),
        String::from_str("crate"),
        String::from_str("Self"),
    ];
    assert(texts_of(r@) =~= seq!["self"@, "super"@, "crate"@, "Self"@]);
    r
}

fn lead_text(t: &UseTree) -> (r: Option<&String>)
    ensures
        match r {
            Some(s) => lead_segment(t@) == Some(s@),
            None => lead_segment(t@) is None,
        },
{
    match t {
        UseTree::Path(s, _) => Some(s),
        UseTree::Name(s) => Some(s),
        UseTree::Rename(s, _) => Some(s),
        _ => None,
    }
}

fn contains_text(v: &Vec<String>, s: &str) -> (r: bool)
    ensures
        r == texts_of(v@).contains(s@),
{
    let mut i: usize = 0;
    while i < v.len()
        invariant
            i <= v.len(),
            forall|k: int| 0 <= k < i ==> #[trigger] v@[k]@ != s@,
        decreases v.len() - i,
    {
        if same_text(v[i].as_str(), s) {
            assert(texts_of(v@)[i as int] == s@);
            return true;
        }
        i = i + 1;
    }
    assert forall|k: int| 0 <= k < texts_of(v@).len() implies texts_of(v@)[k] != s@ by {
        assert(v@[k]@ != s@);
    }
    false
}

fn effective_name_of(c: &ExternCrate) -> (r: &String)
    ensures
        r@ == effective_name(*c),
{
    match &c.rename {
        Some(r) => r,
        None => &c.name,
    }
}

fn known_crate(crates: &Vec<ExternCrate>, s: &str) -> (r: bool)
    ensures
        r == exists|i: int| 0 <= i < crates@.len() && effective_name(#[trigger] crates@[i]) == s@,
{
    let mut i: usize = 0;
    while i < crates.len()
        invariant
            i <= crates.len(),
            forall|k: int| 0 <= k < i ==> effective_name(#[trigger] crates@[k]) != s@,
        decreases crates.len() - i,
    {
        if same_text(effective_name_of(&crates[i]).as_str(), s) {
            assert(effective_name(crates@[i as int]) == s@);
            return true;
        }
        i = i + 1;
    }
    false
}

/// Appends an import to the module. When the list of known dependencies is available
/// and the import's leading segment is neither reserved nor known, a declaration of
/// that dependency is appended too, with no attributes, inherited visibility and no
/// rename. The result says whether one was.
pub fn insert_use<O>(m: &mut Module<O>, item: UseItem, crates_known: bool, reserved: &Vec<String>) -> (added: bool)
    ensures
        final(m).uses@ == old(m).uses@.push(item),
        final(m).rest == old(m).rest,
        added == (crates_known && needs_extern(old(m).crates@, texts_of(reserved@), item.tree@)),
        !added ==> final(m).crates@ == old(m).crates@,
        added ==> {
            &&& final(m).crates@.len() == old(m).crates@.len() + 1
            &&& final(m).crates@.take(old(m).crates@.len() as int) == old(m).crates@
            &&& final(m).crates@.last().name@ == lead_segment(item.tree@)->0
            &&& final(m).crates@.last().rename is None
            &&& final(m).crates@.last().attrs@.len() == 0
            &&& final(m).crates@.last().vis@.len() == 0
        },
{
    let mut added = false;
    if crates_known {
        match lead_text(&item.tree) {
            Some(lead) => {
                if !contains_text(reserved, lead.as_str()) && !known_crate(&m.crates, lead.as_str()) {
                    let name = lead.clone();
                    let c = ExternCrate { attrs: Vec::new(), vis: String::new(), name, rename: None };
                    let ghost before = m.crates@;
                    m.crates.push(c);
                    assert(m.crates@.take(before.len() as int) =~= before);
                    added = true;
                }
            },
            None => {},
        }
    }
    m.uses.push(item);
    added
}

/// Runs the stages asked for on the import bucket: appends the suggested imports, then
/// groups, then sorts. The result says whether any stage changed the imports.
pub fn tidy_uses(uses: &mut Vec<UseItem>, suggested: Vec<UseItem>, group: bool, sort: bool) -> (r: bool)
    ensures
        ({
            let u0 = decls_of(old(uses)@ + suggested@);
            let u1 = if group { grouped_decls(u0) } else { u0 };
            &&& decls_of(final(uses)@) == (if sort { sorted_decls(u1) } else { u1 })
            &&& r == (suggested@.len() > 0 || (group && u1 != u0) || (sort && decls_sort_changes(u1)))
        }),
        !group && !sort && suggested@.len() == 0 ==> !r && final(uses)@ == old(uses)@,
{
    let ghost start = uses@;
    let mut modified = suggested.len() > 0;
    let mut rest = suggested;
    let ghost sv = rest@;
    let ghost mut k: int = 0;
    assert(sv.skip(0) =~= sv);
    assert(start + sv.take(0) =~= start);
    while rest.len() > 0
        invariant
            0 <= k <= sv.len(),
            rest@ == sv.skip(k),
            uses@ == start + sv.take(k),
        decreases rest.len(),
    {
        let x = rest.remove(0);
        proof {
            assert(sv.skip(k + 1) =~= sv.skip(k).remove(0));
            assert(start + sv.take(k + 1) =~= (start + sv.take(k)).push(x));
        }
        uses.push(x);
        proof {
            k = k + 1;
        }
    }
    assert(sv.take(k) =~= sv);
    if group {
        let mut all: Vec<UseItem> = Vec::new();
        core::mem::swap(uses, &mut all);
        let (m, grouped) = group_uses(all);
        *uses = grouped;
        modified = modified || m;
    }
    if sort {
        let m = sort_uses(uses);
        modified = modified || m;
    }
    modified
}


/// An import whose leading segment is reserved never calls for a dependency declaration.
pub proof fn lemma_reserved_never_declared(crates: Seq<ExternCrate>, reserved: Seq<Seq<char>>, t: Tree)
    requires
        lead_segment(t) is Some,
        reserved.contains(lead_segment(t)->0),
    ensures
        !needs_extern(crates, reserved, t),
{
}

/// A path as typed, trimmed and ending in exactly the one terminator it needs.
pub open spec fn statement_of(raw: Seq<char>) -> Seq<char> {
    let t = trimmed(raw);
    if t.len() > 0 && t.last() == ';' {
        t
    } else {
        t.push(';')
    }
}

/// Trims a typed path and adds the statement terminator when it is missing.
pub fn statement_text(raw: &str) -> (r: String)
    ensures
        r@ == statement_of(raw@),
{
    let t = trim_text(raw);
    let mut s = String::from_str(t);
    let n = t.unicode_len();
    if n == 0 || t.get_char(n - 1) != ';' {
        proof {
            reveal_strlit(";");
        }
        s.append(";");
        assert(s@ =~= t@.push(';'));
    }
    s
}

/// The statement with the import keyword in front, for paths typed without it.
pub fn keyword_statement(stmt: &str) -> (r: String)
    ensures
        r@ == "use "@ + stmt@,
{
    let s = String::from_str("use ");
    s.concat(stmt)
}

} // verus!
