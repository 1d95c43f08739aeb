use vstd::prelude::*;

verus! {

/// Inserts `x` after the last element, counted from the end, that `le` puts at or before it.
pub open spec fn insert_in_order<A>(s: Seq<A>, x: A, le: spec_fn(A, A) -> bool) -> Seq<A>
    decreases s.len(),
{
    if s.len() == 0 {
        seq![x]
    } else if le(s.last(), x) {
        s.push(x)
    } else {
        insert_in_order(s.drop_last(), x, le).push(s.last())
    }
}

/// Stable sort by `le`: elements that tie keep their relative order.
pub open spec fn sort_stable<A>(s: Seq<A>, le: spec_fn(A, A) -> bool) -> Seq<A>
    decreases s.len(),
{
    if s.len() == 0 {
        s
    } else {
        insert_in_order(sort_stable(s.drop_last(), le), s.last(), le)
    }
}

/// Neighbours are in non-decreasing order.
pub open spec fn in_order<A>(s: Seq<A>, le: spec_fn(A, A) -> bool) -> bool {
    forall|i: int| 0 <= i < s.len() - 1 ==> #[trigger] le(s[i], s[i + 1])
}

pub open spec fn total_preorder<A>(le: spec_fn(A, A) -> bool) -> bool {
    &&& forall|a: A, b: A| #[trigger] le(a, b) || le(b, a)
    &&& forall|a: A, b: A, c: A| #[trigger] le(a, b) && #[trigger] le(b, c) ==> le(a, c)
}

pub proof fn lemma_insert_shape<A>(s: Seq<A>, x: A, le: spec_fn(A, A) -> bool)
    ensures
        insert_in_order(s, x, le).len() == s.len() + 1,
        insert_in_order(s, x, le).last() == x || (s.len() > 0 && insert_in_order(s, x, le).last()
            == s.last()),
    decreases s.len(),
{
    if s.len() > 0 {
        lemma_insert_shape(s.drop_last(), x, le);
    }
}

pub proof fn lemma_insert_in_order<A>(s: Seq<A>, x: A, le: spec_fn(A, A) -> bool)
    requires
        total_preorder(le),
        in_order(s, le),
    ensures
        in_order(insert_in_order(s, x, le), le),
    decreases s.len(),
{
    let r = insert_in_order(s, x, le);
    if s.len() == 0 {
    } else if le(s.last(), x) {
        assert forall|i: int| 0 <= i < r.len() - 1 implies #[trigger] le(r[i], r[i + 1]) by {
            if i < s.len() - 1 {
                assert(le(s[i], s[i + 1]));
            }
        }
    } else {
        let p = s.drop_last();
        assert forall|i: int| 0 <= i < p.len() - 1 implies #[trigger] le(p[i], p[i + 1]) by {
            assert(le(s[i], s[i + 1]));
        }
        lemma_insert_in_order(p, x, le);
        lemma_insert_shape(p, x, le);
        let q = insert_in_order(p, x, le);
        assert(le(q.last(), s.last())) by {
            assert(le(s.last(), x) || le(x, s.last()));
            if q.last() != x {
                let k = s.len() - 2;
                assert(le(s[k], s[k + 1]));
                assert(q.last() == s[k]);
            }
        }
        assert forall|i: int| 0 <= i < r.len() - 1 implies #[trigger] le(r[i], r[i + 1]) by {
            if i < q.len() - 1 {
                assert(le(q[i], q[i + 1]));
            }
        }
    }
}

pub proof fn lemma_sort_stable_in_order<A>(s: Seq<A>, le: spec_fn(A, A) -> bool)
    requires
        total_preorder(le),
    ensures
        in_order(sort_stable(s, le), le),
        sort_stable(s, le).len() == s.len(),
    decreases s.len(),
{
    if s.len() > 0 {
        lemma_sort_stable_in_order(s.drop_last(), le);
        lemma_insert_in_order(sort_stable(s.drop_last(), le), s.last(), le);
        lemma_insert_shape(sort_stable(s.drop_last(), le), s.last(), le);
    }
}

/// A sequence already in order is left as it is.
pub proof fn lemma_sort_stable_keeps_ordered<A>(s: Seq<A>, le: spec_fn(A, A) -> bool)
    requires
        in_order(s, le),
    ensures
        sort_stable(s, le) == s,
    decreases s.len(),
{
    if s.len() > 0 {
        let p = s.drop_last();
        assert forall|i: int| 0 <= i < p.len() - 1 implies #[trigger] le(p[i], p[i + 1]) by {
            assert(le(s[i], s[i + 1]));
        }
        lemma_sort_stable_keeps_ordered(p, le);
        if p.len() > 0 {
            let k = s.len() - 2;
            assert(le(s[k], s[k + 1]));
        }
        assert(p.push(s.last()) =~= s);
    }
}

/// Sorting commutes with a map that carries one order onto the other.
pub proof fn lemma_sort_stable_map<A, B>(
    s: Seq<A>,
    le_a: spec_fn(A, A) -> bool,
    le_b: spec_fn(B, B) -> bool,
    f: spec_fn(A) -> B,
)
    requires
        forall|a1: A, a2: A| #[trigger] le_a(a1, a2) == le_b(f(a1), f(a2)),
    ensures
        sort_stable(s, le_a).map_values(f) == sort_stable(s.map_values(f), le_b),
    decreases s.len(),
{
    if s.len() > 0 {
        lemma_sort_stable_map(s.drop_last(), le_a, le_b, f);
        assert(s.drop_last().map_values(f) =~= s.map_values(f).drop_last());
        lemma_insert_map(sort_stable(s.drop_last(), le_a), s.last(), le_a, le_b, f);
    }
}

pub proof fn lemma_insert_map<A, B>(
    s: Seq<A>,
    x: A,
    le_a: spec_fn(A, A) -> bool,
    le_b: spec_fn(B, B) -> bool,
    f: spec_fn(A) -> B,
)
    requires
        forall|a1: A, a2: A| #[trigger] le_a(a1, a2) == le_b(f(a1), f(a2)),
    ensures
        insert_in_order(s, x, le_a).map_values(f) == insert_in_order(s.map_values(f), f(x), le_b),
    decreases s.len(),
{
    if s.len() == 0 {
        assert(seq![x].map_values(f) =~= seq![f(x)]);
    } else {
        assert(s.drop_last().map_values(f) =~= s.map_values(f).drop_last());
        lemma_insert_map(s.drop_last(), x, le_a, le_b, f);
        assert(s.push(x).map_values(f) =~= s.map_values(f).push(f(x)));
        assert(insert_in_order(s.drop_last(), x, le_a).push(s.last()).map_values(f)
            =~= insert_in_order(s.drop_last(), x, le_a).map_values(f).push(f(s.last())));
    }
}

} // verus!
