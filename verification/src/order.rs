//! Stable ordering of sequences by a strict order, as mathematics.
use vstd::prelude::*;

verus! {

/// Inserts `x` into `s` before the first element that it is `lt`: a stable
/// insertion step.
pub open spec fn insert_sorted<A>(s: Seq<A>, x: A, lt: spec_fn(A, A) -> bool) -> Seq<A>
    decreases s.len(),
{
    if s.len() == 0 {
        seq![x]
    } else if lt(x, s[0]) {
        seq![x] + s
    } else {
        seq![s[0]] + insert_sorted(s.drop_first(), x, lt)
    }
}

/// `s` stably sorted by `lt` (elements that compare equal keep their order).
pub open spec fn sort_by<A>(s: Seq<A>, lt: spec_fn(A, A) -> bool) -> Seq<A>
    decreases s.len(),
{
    if s.len() == 0 {
        s
    } else {
        insert_sorted(sort_by(s.drop_last(), lt), s.last(), lt)
    }
}

/// Inserting at the first position where `x` is `lt` than the element there,
/// with `x` not `lt` any earlier one, is the stable insertion step.
pub proof fn lemma_insert_sorted<A>(s: Seq<A>, x: A, lt: spec_fn(A, A) -> bool, j: int)
    requires
        0 <= j <= s.len(),
        forall|i: int| 0 <= i < j ==> !lt(x, #[trigger] s[i]),
        j < s.len() ==> lt(x, s[j]),
    ensures
        insert_sorted(s, x, lt) == s.insert(j, x),
    decreases s.len(),
{
    if s.len() == 0 {
        assert(s.insert(j, x) =~= seq![x]);
    } else if j == 0 {
        assert(s.insert(j, x) =~= seq![x] + s);
    } else {
        let t = s.drop_first();
        assert forall|i: int| 0 <= i < j - 1 implies !lt(x, #[trigger] t[i]) by {
            assert(t[i] == s[i + 1]);
        }
        lemma_insert_sorted(t, x, lt, j - 1);
        assert(s.insert(j, x) =~= seq![s[0]] + t.insert(j - 1, x));
    }
}

/// `lt` is a strict order: irreflexive and transitive.
pub open spec fn strict_order<A>(lt: spec_fn(A, A) -> bool) -> bool {
    &&& forall|a: A| !#[trigger] lt(a, a)
    &&& forall|a: A, b: A, c: A| #[trigger] lt(a, b) && #[trigger] lt(b, c) ==> lt(a, c)
}

/// No element of `s` is `lt` an element before it.
pub open spec fn sorted_by<A>(s: Seq<A>, lt: spec_fn(A, A) -> bool) -> bool {
    forall|i: int, j: int| 0 <= i < j < s.len() ==> !lt(#[trigger] s[j], #[trigger] s[i])
}

/// Where the stable insertion step puts `x`: after every element that `x` is
/// not `lt`, before the first that it is.
pub proof fn lemma_insert_position<A>(s: Seq<A>, x: A, lt: spec_fn(A, A) -> bool) -> (j: int)
    ensures
        0 <= j <= s.len(),
        insert_sorted(s, x, lt) == s.insert(j, x),
        forall|i: int| 0 <= i < j ==> !lt(x, #[trigger] s[i]),
        j < s.len() ==> lt(x, s[j]),
    decreases s.len(),
{
    if s.len() == 0 {
        assert(s.insert(0, x) =~= seq![x]);
        0
    } else if lt(x, s[0]) {
        assert(s.insert(0, x) =~= seq![x] + s);
        0
    } else {
        let t = s.drop_first();
        let k = lemma_insert_position(t, x, lt);
        assert(s.insert(k + 1, x) =~= seq![s[0]] + t.insert(k, x));
        assert forall|i: int| 0 <= i < k + 1 implies !lt(x, #[trigger] s[i]) by {
            if i > 0 {
                assert(s[i] == t[i - 1]);
            }
        }
        if k + 1 < s.len() {
            assert(s[k + 1] == t[k]);
        }
        k + 1
    }
}

/// The stable insertion step keeps a sorted sequence sorted and adds `x` to
/// its elements.
pub proof fn lemma_insert_sorted_sorted<A>(s: Seq<A>, x: A, lt: spec_fn(A, A) -> bool)
    requires
        strict_order(lt),
        sorted_by(s, lt),
    ensures
        sorted_by(insert_sorted(s, x, lt), lt),
        insert_sorted(s, x, lt).to_multiset() == s.to_multiset().insert(x),
        insert_sorted(s, x, lt).len() == s.len() + 1,
{
    broadcast use vstd::seq_lib::to_multiset_insert;

    let j = lemma_insert_position(s, x, lt);
    let r = s.insert(j, x);
    assert forall|a: int, b: int| 0 <= a < b < r.len() implies !lt(#[trigger] r[b], #[trigger] r[a]) by {
        if b < j {
            assert(r[a] == s[a] && r[b] == s[b]);
        } else if b == j {
            assert(r[a] == s[a] && r[b] == x);
        } else if a < j {
            assert(r[a] == s[a] && r[b] == s[b - 1]);
        } else if a == j {
            assert(r[a] == x && r[b] == s[b - 1]);
            if lt(s[b - 1], x) {
                assert(lt(x, s[j]));
                assert(lt(s[b - 1], s[j]));
                if b - 1 > j {
                    assert(!lt(s[b - 1], s[j]));
                }
            }
        } else {
            assert(r[a] == s[a - 1] && r[b] == s[b - 1]);
        }
    }
}

/// `sort_by` sorts: its result is sorted and has the elements of `s`, each
/// as often.
pub proof fn lemma_sort_by<A>(s: Seq<A>, lt: spec_fn(A, A) -> bool)
    requires
        strict_order(lt),
    ensures
        sorted_by(sort_by(s, lt), lt),
        sort_by(s, lt).to_multiset() == s.to_multiset(),
        sort_by(s, lt).len() == s.len(),
    decreases s.len(),
{
    broadcast use vstd::seq_lib::to_multiset_build, vstd::seq_lib::to_multiset_len;

    if s.len() > 0 {
        lemma_sort_by(s.drop_last(), lt);
        lemma_insert_sorted_sorted(sort_by(s.drop_last(), lt), s.last(), lt);
        assert(s == s.drop_last().push(s.last()));
    }
}

/// Every element of `sort_by(s, lt)` is an element of `s`.
pub proof fn lemma_sort_by_contains<A>(s: Seq<A>, lt: spec_fn(A, A) -> bool, k: int)
    requires
        strict_order(lt),
        0 <= k < sort_by(s, lt).len(),
    ensures
        s.contains(sort_by(s, lt)[k]),
{
    broadcast use vstd::seq_lib::to_multiset_contains;

    lemma_sort_by(s, lt);
    let r = sort_by(s, lt);
    assert(r.contains(r[k]));
    assert(r.to_multiset().count(r[k]) > 0);
    assert(s.to_multiset().count(r[k]) > 0);
}

} // verus!
