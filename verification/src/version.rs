//! Version strings such as `24.11`: their numeric parts and their order.

use vstd::prelude::*;

use crate::text::{chars_of, parse_u32, parse_u32_chars, split_on};

verus! {

/// The outcome of comparing two versions.
#[derive(Debug, Clone, Copy, PartialEq, Eq, Structural)]
pub enum PartsOrder {
    Less,
    Equal,
    Greater,
}

/// The values of the pieces that parse as `u32`, in order (a `filter_map` of `parse_u32`).
pub open spec fn parsed_parts(pieces: Seq<Seq<char>>) -> Seq<u32>
    decreases pieces.len(),
{
    if pieces.len() == 0 {
        Seq::<u32>::empty()
    } else {
        let prev = parsed_parts(pieces.drop_last());
        match parse_u32(pieces.last()) {
            Some(v) => prev.push(v),
            None => prev,
        }
    }
}

/// The numeric parts of a version: the `.`-separated pieces that parse as `u32`.
pub open spec fn version_parts(s: Seq<char>) -> Seq<u32> {
    parsed_parts(split_on(s, '.'))
}

/// Lexicographic order of number sequences, a proper prefix coming first.
pub open spec fn lex_order(a: Seq<u32>, b: Seq<u32>) -> PartsOrder
    decreases a.len(),
{
    if a.len() == 0 {
        if b.len() == 0 {
            PartsOrder::Equal
        } else {
            PartsOrder::Less
        }
    } else if b.len() == 0 {
        PartsOrder::Greater
    } else if a[0] < b[0] {
        PartsOrder::Less
    } else if a[0] > b[0] {
        PartsOrder::Greater
    } else {
        lex_order(a.drop_first(), b.drop_first())
    }
}

/// The order of two version strings: that of their numeric parts.
pub open spec fn version_order(a: Seq<char>, b: Seq<char>) -> PartsOrder {
    lex_order(version_parts(a), version_parts(b))
}

/// The opposite outcome.
pub open spec fn flipped(o: PartsOrder) -> PartsOrder {
    match o {
        PartsOrder::Less => PartsOrder::Greater,
        PartsOrder::Equal => PartsOrder::Equal,
        PartsOrder::Greater => PartsOrder::Less,
    }
}

/// The `std::cmp::Ordering` that stands for an outcome.
pub open spec fn ordering_of(o: PartsOrder) -> std::cmp::Ordering {
    match o {
        PartsOrder::Less => std::cmp::Ordering::Less,
        PartsOrder::Equal => std::cmp::Ordering::Equal,
        PartsOrder::Greater => std::cmp::Ordering::Greater,
    }
}

/// The numeric parts of the version `s` (see `version_parts`).
pub fn version_parts_of(s: &str) -> (r: Vec<u32>)
    ensures
        r@ == version_parts(s@),
{
    let cs = chars_of(s);
    let mut parts: Vec<u32> = Vec::new();
    let mut cur: Vec<char> = Vec::new();
    let ghost mut done: Seq<Seq<char>> = Seq::empty();
    assert(cs@.take(0) =~= Seq::<char>::empty());
    for i in 0..cs.len()
        invariant
            split_on(cs@.take(i as int), '.') =~= done.push(cur@),
            parts@ == parsed_parts(done),
    {
        let c = cs[i];
        assert(cs@.take(i + 1).drop_last() =~= cs@.take(i as int));
        assert(cs@.take(i + 1).last() == c);
        if c == '.' {
            let ghost next = done.push(cur@);
            assert(next.drop_last() =~= done);
            match parse_u32_chars(&cur) {
                Some(v) => parts.push(v),
                None => {},
            }
            proof {
                done = next;
            }
            cur = Vec::new();
        } else {
            let ghost old_cur = cur@;
            cur.push(c);
            assert(done.push(old_cur).update(done.len() as int, cur@) =~= done.push(cur@));
        }
    }
    assert(cs@.take(cs.len() as int) =~= cs@);
    let ghost all = done.push(cur@);
    assert(all.drop_last() =~= done);
    match parse_u32_chars(&cur) {
        Some(v) => parts.push(v),
        None => {},
    }
    parts
}

/// The lexicographic order of `a` and `b` (see `lex_order`).
pub fn compare_parts(a: &Vec<u32>, b: &Vec<u32>) -> (r: PartsOrder)
    ensures
        r == lex_order(a@, b@),
{
    let mut i: usize = 0;
    assert(a@.skip(0) =~= a@);
    assert(b@.skip(0) =~= b@);
    while i < a.len() && i < b.len()
        invariant
            i <= a.len(),
            i <= b.len(),
            lex_order(a@, b@) == lex_order(a@.skip(i as int), b@.skip(i as int)),
        decreases a.len() - i,
    {
        if a[i] < b[i] {
            return PartsOrder::Less;
        }
        if a[i] > b[i] {
            return PartsOrder::Greater;
        }
        assert(a@.skip(i as int).drop_first() =~= a@.skip(i + 1));
        assert(b@.skip(i as int).drop_first() =~= b@.skip(i + 1));
        i += 1;
    }
    if i < a.len() {
        PartsOrder::Greater
    } else if i < b.len() {
        PartsOrder::Less
    } else {
        PartsOrder::Equal
    }
}

/// The order of two version strings (see `version_order`).
pub fn version_order_of(a: &str, b: &str) -> (r: PartsOrder)
    ensures
        r == version_order(a@, b@),
{
    let pa = version_parts_of(a);
    let pb = version_parts_of(b);
    compare_parts(&pa, &pb)
}

/// Compares two version strings by their numeric parts.
pub fn compare_versions(a: &str, b: &str) -> (r: std::cmp::Ordering)
    ensures
        r == ordering_of(version_order(a@, b@)),
{
    match version_order_of(a, b) {
        PartsOrder::Less => std::cmp::Ordering::Less,
        PartsOrder::Equal => std::cmp::Ordering::Equal,
        PartsOrder::Greater => std::cmp::Ordering::Greater,
    }
}

/// Number sequences are ordered `Equal` exactly when they are the same.
pub proof fn lemma_lex_order_equal(a: Seq<u32>, b: Seq<u32>)
    ensures
        (lex_order(a, b) == PartsOrder::Equal) <==> (a == b),
    decreases a.len(),
{
    if a.len() > 0 && b.len() > 0 && a[0] == b[0] {
        lemma_lex_order_equal(a.drop_first(), b.drop_first());
        if a.drop_first() == b.drop_first() {
            assert(a =~= b) by {
                assert forall|i: int| 0 <= i < a.len() implies a[i] == b[i] by {
                    if i > 0 {
                        assert(a[i] == a.drop_first()[i - 1]);
                        assert(b[i] == b.drop_first()[i - 1]);
                    }
                }
            }
        }
        if a == b {
            assert(a.drop_first() == b.drop_first());
        }
    } else if a.len() == 0 && b.len() > 0 {
        assert(a != b);
    } else if a.len() > 0 && b.len() == 0 {
        assert(a != b);
    } else if a.len() > 0 && b.len() > 0 {
        assert(a[0] != b[0]);
    } else {
        assert(a =~= b);
    }
}

/// Swapping the arguments flips the outcome.
pub proof fn lemma_lex_order_flip(a: Seq<u32>, b: Seq<u32>)
    ensures
        lex_order(a, b) == flipped(lex_order(b, a)),
    decreases a.len(),
{
    if a.len() > 0 && b.len() > 0 && a[0] == b[0] {
        lemma_lex_order_flip(a.drop_first(), b.drop_first());
    }
}

/// `Less` is transitive.
pub proof fn lemma_lex_order_less_trans(a: Seq<u32>, b: Seq<u32>, c: Seq<u32>)
    requires
        lex_order(a, b) == PartsOrder::Less,
        lex_order(b, c) == PartsOrder::Less,
    ensures
        lex_order(a, c) == PartsOrder::Less,
    decreases a.len(),
{
    if a.len() > 0 && b.len() > 0 && c.len() > 0 && a[0] == b[0] && b[0] == c[0] {
        lemma_lex_order_less_trans(a.drop_first(), b.drop_first(), c.drop_first());
    }
}

/// Number sequences are ordered by their first differing part, as numbers: where `a` and `b`
/// agree before position `i`, `a` is `Less` when its part there is smaller and `Greater` when it
/// is larger.
pub proof fn lemma_lex_order_first_difference(a: Seq<u32>, b: Seq<u32>, i: int)
    requires
        0 <= i < a.len(),
        i < b.len(),
        forall|j: int| 0 <= j < i ==> a[j] == b[j],
    ensures
        a[i] < b[i] ==> lex_order(a, b) == PartsOrder::Less,
        a[i] > b[i] ==> lex_order(a, b) == PartsOrder::Greater,
    decreases i,
{
    if i > 0 {
        assert(a[0] == b[0]);
        assert forall|j: int| 0 <= j < i - 1 implies a.drop_first()[j] == b.drop_first()[j] by {
            assert(a[j + 1] == b[j + 1]);
        }
        lemma_lex_order_first_difference(a.drop_first(), b.drop_first(), i - 1);
    }
}

/// A proper prefix is `Less` than the longer sequence.
pub proof fn lemma_lex_order_prefix(a: Seq<u32>, b: Seq<u32>)
    requires
        a.len() < b.len(),
        forall|j: int| 0 <= j < a.len() ==> a[j] == b[j],
    ensures
        lex_order(a, b) == PartsOrder::Less,
    decreases a.len(),
{
    if a.len() > 0 {
        assert(a[0] == b[0]);
        assert forall|j: int| 0 <= j < a.len() - 1 implies a.drop_first()[j] == b.drop_first()[j] by {
            assert(a[j + 1] == b[j + 1]);
        }
        lemma_lex_order_prefix(a.drop_first(), b.drop_first());
    }
}

/// Versions compare by their numeric parts, first difference first: where the parts of `a` and
/// `b` agree before position `i`, `a` is older when its part there is smaller and newer when it is
/// larger; a version whose parts are a proper prefix of the other's is older.
pub proof fn lemma_version_order_by_parts(a: Seq<char>, b: Seq<char>, i: int)
    requires
        0 <= i,
        forall|j: int| 0 <= j < i ==> version_parts(a)[j] == version_parts(b)[j],
    ensures
        i < version_parts(a).len() && i < version_parts(b).len() && version_parts(a)[i]
            < version_parts(b)[i] ==> version_order(a, b) == PartsOrder::Less,
        i < version_parts(a).len() && i < version_parts(b).len() && version_parts(a)[i]
            > version_parts(b)[i] ==> version_order(a, b) == PartsOrder::Greater,
        i == version_parts(a).len() && i < version_parts(b).len() ==> version_order(a, b)
            == PartsOrder::Less,
{
    let (pa, pb) = (version_parts(a), version_parts(b));
    if i < pa.len() && i < pb.len() {
        lemma_lex_order_first_difference(pa, pb, i);
    }
    if i == pa.len() && i < pb.len() {
        lemma_lex_order_prefix(pa, pb);
    }
}

/// Every version is ordered `Equal` to itself.
pub proof fn lemma_version_order_reflexive(a: Seq<char>)
    ensures
        version_order(a, a) == PartsOrder::Equal,
{
    lemma_lex_order_equal(version_parts(a), version_parts(a));
}

/// Comparing `b` with `a` gives the opposite of comparing `a` with `b`.
pub proof fn lemma_version_order_antisymmetric(a: Seq<char>, b: Seq<char>)
    ensures
        version_order(a, b) == flipped(version_order(b, a)),
{
    lemma_lex_order_flip(version_parts(a), version_parts(b));
}

/// The version order is transitive: `Less` and `Less` give `Less`, `Equal` chains stay `Equal`,
/// and a version `Equal` to another compares with every third version as that one does.
pub proof fn lemma_version_order_transitive(a: Seq<char>, b: Seq<char>, c: Seq<char>)
    ensures
        version_order(a, b) == PartsOrder::Less && version_order(b, c) == PartsOrder::Less
            ==> version_order(a, c) == PartsOrder::Less,
        version_order(a, b) == PartsOrder::Equal ==> version_order(a, c) == version_order(b, c),
{
    let (pa, pb, pc) = (version_parts(a), version_parts(b), version_parts(c));
    lemma_lex_order_equal(pa, pb);
    if lex_order(pa, pb) == PartsOrder::Less && lex_order(pb, pc) == PartsOrder::Less {
        lemma_lex_order_less_trans(pa, pb, pc);
    }
}

/// Versions are ordered `Equal` exactly when their numeric parts agree.
pub proof fn lemma_version_order_equal_parts(a: Seq<char>, b: Seq<char>)
    ensures
        (version_order(a, b) == PartsOrder::Equal) <==> (version_parts(a) == version_parts(b)),
{
    lemma_lex_order_equal(version_parts(a), version_parts(b));
}

} // verus!
