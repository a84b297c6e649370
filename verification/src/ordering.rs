//! Stable sorting into descending order, as a mathematical function of the input sequence.
//!
//! `below(a, x)` says that `a` ranks strictly below `x`; a stable sort into descending order
//! puts each element after every earlier element that does not rank below it.

use vstd::prelude::*;

verus! {

/// Where `x` goes in the descending sequence `s`: before the first element below it.
pub open spec fn insert_pos<A>(s: Seq<A>, x: A, below: spec_fn(A, A) -> bool) -> nat
    decreases s.len(),
{
    if s.len() == 0 {
        0
    } else if below(s[0], x) {
        0
    } else {
        1 + insert_pos(s.drop_first(), x, below)
    }
}

/// `s` with `x` placed at `insert_pos`.
pub open spec fn sorted_insert<A>(s: Seq<A>, x: A, below: spec_fn(A, A) -> bool) -> Seq<A> {
    s.insert(insert_pos(s, x, below) as int, x)
}

/// The stable sort of `s` into descending order: elements that are not below one another keep
/// their order (what `sort_by` with the reversed comparison gives).
pub open spec fn stable_sort_desc<A>(s: Seq<A>, below: spec_fn(A, A) -> bool) -> Seq<A>
    decreases s.len(),
{
    if s.len() == 0 {
        s
    } else {
        sorted_insert(stable_sort_desc(s.drop_last(), below), s.last(), below)
    }
}

/// `below` is a strict order: irreflexive and transitive.
pub open spec fn is_strict_order<A>(below: spec_fn(A, A) -> bool) -> bool {
    &&& forall|a: A| !#[trigger] below(a, a)
    &&& forall|a: A, b: A, c: A| #[trigger] below(a, b) && #[trigger] below(b, c) ==> below(a, c)
}

/// No element of `s` is below an element that comes after it.
pub open spec fn is_sorted_desc<A>(s: Seq<A>, below: spec_fn(A, A) -> bool) -> bool {
    forall|i: int, j: int| 0 <= i < j < s.len() ==> !below(#[trigger] s[i], #[trigger] s[j])
}

/// `insert_pos` lies within the sequence, everything before it is not below `x`, and the element
/// at it (if any) is below `x`.
pub proof fn lemma_insert_pos<A>(s: Seq<A>, x: A, below: spec_fn(A, A) -> bool)
    ensures
        insert_pos(s, x, below) <= s.len(),
        forall|i: int| 0 <= i < insert_pos(s, x, below) ==> !below(#[trigger] s[i], x),
        insert_pos(s, x, below) < s.len() ==> below(s[insert_pos(s, x, below) as int], x),
    decreases s.len(),
{
    if s.len() > 0 && !below(s[0], x) {
        lemma_insert_pos(s.drop_first(), x, below);
        assert forall|i: int| 0 <= i < insert_pos(s, x, below) implies !below(#[trigger] s[i], x) by {
            if i > 0 {
                assert(s[i] == s.drop_first()[i - 1]);
            }
        }
    }
}

/// Sorting keeps the elements: the result is a permutation of the input.
pub proof fn lemma_stable_sort_permutation<A>(s: Seq<A>, below: spec_fn(A, A) -> bool)
    ensures
        stable_sort_desc(s, below).to_multiset() == s.to_multiset(),
        stable_sort_desc(s, below).len() == s.len(),
    decreases s.len(),
{
    broadcast use vstd::seq_lib::group_to_multiset_ensures;
    if s.len() > 0 {
        let prev = stable_sort_desc(s.drop_last(), below);
        lemma_stable_sort_permutation(s.drop_last(), below);
        lemma_insert_pos(prev, s.last(), below);
        let p = insert_pos(prev, s.last(), below) as int;
        vstd::seq_lib::lemma_seq_union_to_multiset_commutative(prev.take(p), prev.skip(p));
        assert(prev =~= prev.take(p) + prev.skip(p));
        assert(prev.insert(p, s.last()) =~= prev.take(p).push(s.last()) + prev.skip(p));
        vstd::seq_lib::lemma_multiset_commutative(prev.take(p).push(s.last()), prev.skip(p));
        vstd::seq_lib::lemma_multiset_commutative(prev.take(p), prev.skip(p));
        assert(s =~= s.drop_last().push(s.last()));
    }
}

/// Under a strict order the result is in descending order.
pub proof fn lemma_stable_sort_sorted<A>(s: Seq<A>, below: spec_fn(A, A) -> bool)
    requires
        is_strict_order(below),
    ensures
        is_sorted_desc(stable_sort_desc(s, below), below),
    decreases s.len(),
{
    if s.len() > 0 {
        let prev = stable_sort_desc(s.drop_last(), below);
        let x = s.last();
        lemma_stable_sort_sorted(s.drop_last(), below);
        lemma_insert_pos(prev, x, below);
        let p = insert_pos(prev, x, below) as int;
        let r = prev.insert(p, x);
        assert forall|i: int, j: int| 0 <= i < j < r.len() implies !below(
            #[trigger] r[i],
            #[trigger] r[j],
        ) by {
            if j < p {
                assert(r[i] == prev[i] && r[j] == prev[j]);
            } else if j == p {
                assert(r[i] == prev[i]);
            } else if i == p {
                assert(r[j] == prev[j - 1]);
                if p < prev.len() {
                    assert(below(prev[p], x));
                    if j - 1 > p {
                        assert(!below(prev[p], prev[j - 1]));
                    }
                    if below(x, prev[j - 1]) {
                        if j - 1 == p {
                            assert(below(x, x));
                        } else {
                            assert(below(prev[p], prev[j - 1]));
                        }
                    }
                }
            } else if i < p {
                assert(r[i] == prev[i] && r[j] == prev[j - 1]);
            } else {
                assert(r[i] == prev[i - 1] && r[j] == prev[j - 1]);
            }
        }
    }
}

/// Sorting keeps exactly the elements of the input.
pub proof fn lemma_stable_sort_contains<A>(s: Seq<A>, below: spec_fn(A, A) -> bool, x: A)
    ensures
        stable_sort_desc(s, below).contains(x) <==> s.contains(x),
    decreases s.len(),
{
    if s.len() > 0 {
        let prev = stable_sort_desc(s.drop_last(), below);
        lemma_stable_sort_contains(s.drop_last(), below, x);
        lemma_insert_pos(prev, s.last(), below);
        let p = insert_pos(prev, s.last(), below) as int;
        let r = prev.insert(p, s.last());
        if r.contains(x) {
            let i = choose|i: int| 0 <= i < r.len() && r[i] == x;
            if i < p {
                assert(prev[i] == x);
                assert(s.drop_last().contains(x));
                let j = choose|j: int| 0 <= j < s.drop_last().len() && s.drop_last()[j] == x;
                assert(s[j] == x);
            } else if i > p {
                assert(prev[i - 1] == x);
                assert(s.drop_last().contains(x));
                let j = choose|j: int| 0 <= j < s.drop_last().len() && s.drop_last()[j] == x;
                assert(s[j] == x);
            } else {
                assert(s[s.len() - 1] == x);
            }
        }
        if s.contains(x) {
            let i = choose|i: int| 0 <= i < s.len() && s[i] == x;
            if i == s.len() - 1 {
                assert(r[p] == x);
            } else {
                assert(s.drop_last()[i] == x);
                assert(prev.contains(x));
                let j = choose|j: int| 0 <= j < prev.len() && prev[j] == x;
                if j < p {
                    assert(r[j] == x);
                } else {
                    assert(r[j + 1] == x);
                }
            }
        }
    }
}

/// No two positions of `s` hold elements with the same key.
pub open spec fn keys_distinct<A, K>(s: Seq<A>, key: spec_fn(A) -> K) -> bool {
    forall|i: int, j: int| 0 <= i < s.len() && 0 <= j < s.len() && i != j ==> key(#[trigger] s[i]) != key(
        #[trigger] s[j],
    )
}

/// Sorting keeps keys distinct.
pub proof fn lemma_stable_sort_keys_distinct<A, K>(
    s: Seq<A>,
    below: spec_fn(A, A) -> bool,
    key: spec_fn(A) -> K,
)
    requires
        keys_distinct(s, key),
    ensures
        keys_distinct(stable_sort_desc(s, below), key),
    decreases s.len(),
{
    if s.len() > 0 {
        let pre = s.drop_last();
        let x = s.last();
        assert(keys_distinct(pre, key)) by {
            assert forall|i: int, j: int|
                0 <= i < pre.len() && 0 <= j < pre.len() && i != j implies key(#[trigger] pre[i])
                != key(#[trigger] pre[j]) by {
                assert(pre[i] == s[i] && pre[j] == s[j]);
            }
        }
        lemma_stable_sort_keys_distinct(pre, below, key);
        let prev = stable_sort_desc(pre, below);
        lemma_insert_pos(prev, x, below);
        let p = insert_pos(prev, x, below) as int;
        let r = prev.insert(p, x);
        assert forall|i: int| 0 <= i < prev.len() implies key(#[trigger] prev[i]) != key(x) by {
            lemma_stable_sort_contains(pre, below, prev[i]);
            assert(prev.contains(prev[i]));
            let j = choose|j: int| 0 <= j < pre.len() && pre[j] == prev[i];
            assert(s[j] == pre[j]);
            assert(key(s[j]) != key(s[s.len() - 1]));
        }
        assert forall|i: int, j: int|
            0 <= i < r.len() && 0 <= j < r.len() && i != j implies key(#[trigger] r[i]) != key(
            #[trigger] r[j],
        ) by {
            if i != p && j != p {
                let a = if i < p { i } else { i - 1 };
                let b = if j < p { j } else { j - 1 };
                assert(r[i] == prev[a] && r[j] == prev[b]);
            } else if i == p {
                let b = if j < p { j } else { j - 1 };
                assert(r[j] == prev[b]);
            } else {
                let a = if i < p { i } else { i - 1 };
                assert(r[i] == prev[a]);
            }
        }
    }
}

} // verus!
