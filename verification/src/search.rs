use vstd::multiset::Multiset;
use vstd::prelude::*;

use crate::sorting::{antisymmetric, int_le, int_order, lemma_sorted_unique, sort_slice, sorted, sorted_by};

verus! {

/// The search for `t` in `a[lo..=hi]`: probe the middle element (rounding
/// down); stop there if it is `t`, give up if it is above `t` at index 0,
/// otherwise go on in the half below or above it; `-1` once the range is empty.
pub open spec fn probe(a: Seq<i32>, t: i32, lo: int, hi: int) -> int
    decreases hi + 1 - lo,
{
    if lo > hi {
        -1
    } else {
        let mid = (lo + hi) / 2;
        if t == a[mid] {
            mid
        } else if t < a[mid] {
            if mid == 0 {
                -1
            } else {
                probe(a, t, lo, mid - 1)
            }
        } else {
            probe(a, t, mid + 1, hi)
        }
    }
}

/// The answer of `bin_search` for `t` in `a`.
pub open spec fn bin_search_spec(a: Seq<i32>, t: i32) -> int {
    if a.len() == 0 {
        -1
    } else {
        probe(a, t, 0, a.len() - 1)
    }
}

/// Looks for `t` in `a` by halving the range `inicio..=fin`; returns an index
/// holding `t`, or `-1`. On a sorted slice `-1` means that `t` is absent.
pub fn bin_search(t: i32, a: &[i32]) -> (r: isize)
    requires
        a@.len() <= isize::MAX,
    ensures
        r == bin_search_spec(a@, t),
        r == -1 || (0 <= r < a@.len() && a@[r as int] == t),
        sorted(a@) ==> (r == -1 <==> !a@.contains(t)),
{
    if a.len() == 0 {
        return -1;
    }
    let mut inicio: usize = 0;
    let mut fin: usize = a.len() - 1;
    while inicio <= fin
        invariant
            a@.len() <= isize::MAX,
            fin < a@.len(),
            inicio <= a@.len(),
            inicio <= fin + 1,
            probe(a@, t, inicio as int, fin as int) == bin_search_spec(a@, t),
            sorted(a@) ==> forall|i: int| 0 <= i < inicio ==> a@[i] < t,
            sorted(a@) ==> forall|i: int| fin < i < a@.len() ==> a@[i] > t,
        decreases fin + 1 - inicio,
    {
        let medio = (inicio + fin) / 2;
        let valor = a[medio];
        if t == valor {
            return medio as isize;
        } else if t < valor {
            if medio == 0 {
                proof {
                    if sorted(a@) {
                        assert forall|i: int| 0 <= i < a@.len() implies a@[i] != t by {
                            assert(int_le(a@[0], a@[i]));
                        }
                    }
                }
                return -1;
            }
            proof {
                if sorted(a@) {
                    assert forall|i: int| medio - 1 < i < a@.len() implies a@[i] > t by {
                        assert(int_le(a@[medio as int], a@[i]));
                    }
                }
            }
            fin = medio - 1;
        } else {
            proof {
                if sorted(a@) {
                    assert forall|i: int| 0 <= i < medio + 1 implies a@[i] < t by {
                        assert(int_le(a@[i], a@[medio as int]));
                    }
                }
            }
            inicio = medio + 1;
        }
    }
    -1
}

/// Some element after position `i` of `s` is the opposite of `s[i]`.
pub open spec fn opposite_follows(s: Seq<i32>, i: int) -> bool {
    exists|j: int| i < j < s.len() && s[j] as int == -(s[i] as int)
}

/// How many of the first `k` positions of `s` are followed by their opposite.
pub open spec fn pair_count(s: Seq<i32>, k: int) -> nat
    decreases k,
{
    if k <= 0 {
        0
    } else {
        pair_count(s, k - 1) + if opposite_follows(s, k - 1) {
            1nat
        } else {
            0nat
        }
    }
}

/// At most one position is counted per element.
pub proof fn lemma_pair_count_bound(s: Seq<i32>, k: int)
    ensures
        pair_count(s, k) <= if k < 0 {
            0
        } else {
            k
        },
    decreases k,
{
    if k > 0 {
        lemma_pair_count_bound(s, k - 1);
    }
}

/// The values of `m` in non-decreasing order, each as often as `m` holds it.
pub open spec fn sorted_of(m: Multiset<i32>) -> Seq<i32> {
    choose|s: Seq<i32>| sorted(s) && s.to_multiset() == m
}

/// What `count` answers for `a`: once `a` is sorted, how many positions are
/// followed further on by their opposite.
pub open spec fn count_spec(a: Seq<i32>) -> nat {
    let s = sorted_of(a.to_multiset());
    pair_count(s, s.len() as int)
}

/// Sorts `a` and counts the positions of the sorted slice whose opposite
/// occurs further on (each pair `x`, `-x` once, a zero paired with a later
/// zero).
pub fn count(a: &mut [i32]) -> (r: u32)
    requires
        old(a)@.len() <= isize::MAX,
        forall|i: int| 0 <= i < old(a)@.len() ==> old(a)@[i] != i32::MIN,
        count_spec(old(a)@) <= u32::MAX,
    ensures
        sorted(final(a)@),
        final(a)@.to_multiset() == old(a)@.to_multiset(),
        final(a)@ == sorted_of(old(a)@.to_multiset()),
        r == pair_count(final(a)@, final(a)@.len() as int),
        r == count_spec(old(a)@),
{
    sort_slice(a);
    let ghost s = a@;
    proof {
        let c = sorted_of(old(a)@.to_multiset());
        lemma_int_order_antisymmetric();
        lemma_sorted_unique(c, s, int_order());
        assert(s == c);
        broadcast use vstd::seq_lib::group_to_multiset_ensures;
        assert forall|i: int| 0 <= i < s.len() implies s[i] != i32::MIN by {
            assert(s.to_multiset().count(s[i]) > 0);
            assert(old(a)@.contains(s[i]));
        }
    }
    let n = a.len();
    let mut contador: u32 = 0;
    for i in 0..n
        invariant
            n == s.len(),
            a@ == s,
            sorted(s),
            s.len() <= isize::MAX,
            pair_count(s, s.len() as int) <= u32::MAX,
            forall|k: int| 0 <= k < s.len() ==> s[k] != i32::MIN,
            contador == pair_count(s, i as int),
    {
        let valor = a[i];
        let opuesto = -valor;
        let resto = &a[i + 1..n];
        proof {
            assert(resto@ =~= s.subrange(i + 1, n as int));
            assert(sorted(resto@)) by {
                assert forall|p: int, q: int| 0 <= p <= q < resto@.len() implies int_le(
                    #[trigger] resto@[p],
                    #[trigger] resto@[q],
                ) by {
                    assert(int_le(s[i + 1 + p], s[i + 1 + q]));
                }
            }
            assert(resto@.contains(opuesto) <==> opposite_follows(s, i as int)) by {
                if resto@.contains(opuesto) {
                    let p = choose|p: int| 0 <= p < resto@.len() && resto@[p] == opuesto;
                    assert(s[i + 1 + p] == opuesto);
                }
                if opposite_follows(s, i as int) {
                    let j = choose|j: int| i < j < s.len() && s[j] as int == -(s[i as int] as int);
                    assert(resto@[j - i - 1] == opuesto);
                }
            }
            lemma_pair_count_mono(s, i + 1, s.len() as int);
        }
        if bin_search(opuesto, resto) != -1 {
            contador += 1;
        }
    }
    contador
}

proof fn lemma_pair_count_mono(s: Seq<i32>, k: int, n: int)
    requires
        k <= n,
    ensures
        pair_count(s, k) <= pair_count(s, n),
    decreases n - k,
{
    if k < n {
        lemma_pair_count_mono(s, k, n - 1);
    }
}

/// The numeric order is antisymmetric.
pub proof fn lemma_int_order_antisymmetric()
    ensures
        antisymmetric(int_order()),
{
}

/// `count` does not depend on the order of its input: two arrays holding the
/// same values, each as often, get the same answer (and so does a second call
/// on the slice the first call sorted).
pub proof fn lemma_count_order_free(a: Seq<i32>, b: Seq<i32>)
    requires
        a.to_multiset() == b.to_multiset(),
    ensures
        count_spec(a) == count_spec(b),
        sorted_of(a.to_multiset()) == sorted_of(b.to_multiset()),
{
}

/// Two sorted arrangements of the same values are the same array.
pub proof fn lemma_sorted_arrangement_unique(sa: Seq<i32>, sb: Seq<i32>)
    requires
        sorted(sa),
        sorted(sb),
        sa.to_multiset() == sb.to_multiset(),
    ensures
        sa == sb,
{
    lemma_int_order_antisymmetric();
    lemma_sorted_unique(sa, sb, int_order());
}

/// Every array has a sorted arrangement: `sorted_of` of its values is sorted,
/// holds the same values and is as long.
pub proof fn lemma_sorted_of(a: Seq<i32>)
    ensures
        sorted(sorted_of(a.to_multiset())),
        sorted_of(a.to_multiset()).to_multiset() == a.to_multiset(),
        sorted_of(a.to_multiset()).len() == a.len(),
{
    broadcast use vstd::seq_lib::group_to_multiset_ensures;

    let le = int_order();
    assert(vstd::relations::total_ordering(le)) by {
        assert(vstd::relations::reflexive(le));
        assert(vstd::relations::antisymmetric(le));
        assert(vstd::relations::transitive(le));
        assert(vstd::relations::strongly_connected(le));
    }
    a.lemma_sort_by_ensures(le);
    let w = a.sort_by(le);
    assert(sorted(w)) by {
        assert forall|i: int, j: int| 0 <= i <= j < w.len() implies le(#[trigger] w[i], #[trigger] w[j]) by {
            if i < j {
                assert(vstd::relations::sorted_by(w, le));
            }
        }
    }
    let c = sorted_of(a.to_multiset());
    assert(sorted(c) && c.to_multiset() == a.to_multiset());
    assert(c.len() == c.to_multiset().len());
    assert(a.len() == a.to_multiset().len());
}

/// `count` never answers more than the length of its input; in particular an
/// input of at most `u32::MAX` values meets its bound on the answer.
pub proof fn lemma_count_spec_bound(a: Seq<i32>)
    ensures
        count_spec(a) <= a.len(),
{
    lemma_sorted_of(a);
    let s = sorted_of(a.to_multiset());
    lemma_pair_count_bound(s, s.len() as int);
}

} // verus!
