use vstd::prelude::*;

verus! {

broadcast use vstd::seq_lib::group_to_multiset_ensures;

/// `s` is in non-decreasing order under `le`.
pub open spec fn sorted_by<A>(s: Seq<A>, le: spec_fn(A, A) -> bool) -> bool {
    forall|i: int, j: int| 0 <= i <= j < s.len() ==> le(#[trigger] s[i], #[trigger] s[j])
}

/// `le` never relates two different values both ways.
pub open spec fn antisymmetric<A>(le: spec_fn(A, A) -> bool) -> bool {
    forall|a: A, b: A| #[trigger] le(a, b) && #[trigger] le(b, a) ==> a == b
}

/// The order on integers that `<=` computes.
pub open spec fn int_le(a: i32, b: i32) -> bool {
    a <= b
}

/// `int_le` as a function value.
pub open spec fn int_order() -> spec_fn(i32, i32) -> bool {
    |a: i32, b: i32| int_le(a, b)
}

/// `s` is in non-decreasing numeric order.
pub open spec fn sorted(s: Seq<i32>) -> bool {
    sorted_by(s, int_order())
}

/// Under an antisymmetric order, a sequence has exactly one sorted
/// arrangement: two sorted sequences holding the same values are equal.
pub proof fn lemma_sorted_unique<A>(x: Seq<A>, y: Seq<A>, le: spec_fn(A, A) -> bool)
    requires
        antisymmetric(le),
        sorted_by(x, le),
        sorted_by(y, le),
        x.to_multiset() == y.to_multiset(),
    ensures
        x == y,
    decreases x.len(),
{
    if x.len() == 0 {
        assert(y.to_multiset().len() == 0);
        assert(x =~= y);
    } else {
        assert(x.len() == x.to_multiset().len());
        assert(y.len() == y.to_multiset().len());
        let v = x.last();
        let w = y.last();
        assert(x.to_multiset().count(v) > 0);
        assert(y.contains(v));
        let j = choose|j: int| 0 <= j < y.len() && y[j] == v;
        assert(le(y[j], y[y.len() - 1]));
        assert(x.contains(w)) by {
            assert(y.to_multiset().count(w) > 0);
        }
        let k = choose|k: int| 0 <= k < x.len() && x[k] == w;
        assert(le(x[k], x[x.len() - 1]));
        assert(v == w);
        let x0 = x.drop_last();
        let y0 = y.drop_last();
        assert(x0.push(v) =~= x);
        assert(y0.push(v) =~= y);
        assert(x0.to_multiset() =~= y0.to_multiset()) by {
            assert forall|a: A| x0.to_multiset().count(a) == y0.to_multiset().count(a) by {
                assert(x0.push(v).to_multiset().count(a) == y0.push(v).to_multiset().count(a));
            }
        }
        assert(sorted_by(x0, le)) by {
            assert forall|i: int, j: int| 0 <= i <= j < x0.len() implies le(
                #[trigger] x0[i],
                #[trigger] x0[j],
            ) by {
                assert(x0[i] == x[i] && x0[j] == x[j]);
            }
        }
        assert(sorted_by(y0, le)) by {
            assert forall|i: int, j: int| 0 <= i <= j < y0.len() implies le(
                #[trigger] y0[i],
                #[trigger] y0[j],
            ) by {
                assert(y0[i] == y[i] && y0[j] == y[j]);
            }
        }
        lemma_sorted_unique(x0, y0, le);
    }
}

/// Calls `<[i32]>::sort`, which the standard library documents as sorting the
/// slice in place; the contract claims that the result is in non-decreasing
/// order and holds the same values as before, each as often.
#[verifier::external_body]
pub(crate) fn sort_slice(a: &mut [i32])
    ensures
        final(a)@.len() == old(a)@.len(),
        sorted(final(a)@),
        final(a)@.to_multiset() == old(a)@.to_multiset(),
{
    a.sort();
}


/// Lexicographic order on texts, character by character by code point (a
/// proper prefix comes first): the order of `str`'s `Ord`.
pub open spec fn text_le(a: Seq<char>, b: Seq<char>) -> bool
    decreases a.len(),
{
    if a.len() == 0 {
        true
    } else if b.len() == 0 {
        false
    } else if a[0] != b[0] {
        (a[0] as u32) < (b[0] as u32)
    } else {
        text_le(a.drop_first(), b.drop_first())
    }
}

/// `text_le` as a function value.
pub open spec fn text_order() -> spec_fn(Seq<char>, Seq<char>) -> bool {
    |a: Seq<char>, b: Seq<char>| text_le(a, b)
}

/// `ns` is in lexicographic order.
pub open spec fn sorted_texts(ns: Seq<Seq<char>>) -> bool {
    sorted_by(ns, text_order())
}

/// The texts that the strings `v` hold, in order.
pub open spec fn texts(v: Seq<String>) -> Seq<Seq<char>> {
    v.map_values(|s: String| s@)
}

/// Two texts that are each lexicographically before the other are equal.
pub proof fn lemma_text_le_antisymmetric(a: Seq<char>, b: Seq<char>)
    requires
        text_le(a, b),
        text_le(b, a),
    ensures
        a == b,
    decreases a.len(),
{
    if a.len() > 0 && b.len() > 0 {
        if a[0] == b[0] {
            lemma_text_le_antisymmetric(a.drop_first(), b.drop_first());
            assert(a =~= seq![a[0]] + a.drop_first());
            assert(b =~= seq![b[0]] + b.drop_first());
        }
    } else {
        assert(a =~= b);
    }
}

/// The lexicographic order on texts is antisymmetric.
pub proof fn lemma_text_order_antisymmetric()
    ensures
        antisymmetric(text_order()),
{
    assert forall|a: Seq<char>, b: Seq<char>|
        #[trigger] text_le(a, b) && #[trigger] text_le(b, a) implies a == b by {
        lemma_text_le_antisymmetric(a, b);
    }
}

/// Calls `<[String]>::sort`; `str`'s `Ord` is documented as ordering strings
/// lexicographically by their bytes, which for UTF-8 is the order of code
/// points. The contract claims that the strings end in that order and are
/// the same strings as before, each as often.
#[verifier::external_body]
pub(crate) fn sort_texts(v: &mut Vec<String>)
    ensures
        final(v)@.len() == old(v)@.len(),
        sorted_texts(texts(final(v)@)),
        texts(final(v)@).to_multiset() == texts(old(v)@).to_multiset(),
{
    v.sort();
}

} // verus!
