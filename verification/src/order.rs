//! Stable insertion sort under a strict weak order, and what it gives: a sorted
//! rearrangement of its input. The project's sorts (paths by `Path` order, findings by id)
//! are instances.
use vstd::prelude::*;

verus! {

broadcast use vstd::seq_lib::group_seq_properties;

/// `lt` is a strict weak order: irreflexive, transitive, and two elements that neither
/// orders before the other compare alike with every third.
pub open spec fn strict_weak<A>(lt: spec_fn(A, A) -> bool) -> bool {
    &&& forall|a: A| !(#[trigger] lt(a, a))
    &&& forall|a: A, b: A, c: A| #[trigger] lt(a, b) && #[trigger] lt(b, c) ==> lt(a, c)
    &&& forall|a: A, b: A, c: A|
        !lt(a, b) && !lt(b, a) ==> (#[trigger] lt(a, c) == #[trigger] lt(b, c) && lt(c, a) == lt(
            c,
            b,
        ))
}

/// Where `x` goes in `s`: after the leading elements that do not order after it.
pub open spec fn ins_pos<A>(lt: spec_fn(A, A) -> bool, s: Seq<A>, x: A) -> int
    decreases s.len(),
{
    if s.len() == 0 {
        0
    } else if lt(x, s[0]) {
        0
    } else {
        1 + ins_pos(lt, s.drop_first(), x)
    }
}

/// Insertion of each element in turn: the stable sort by `lt`.
pub open spec fn ins_sort<A>(lt: spec_fn(A, A) -> bool, s: Seq<A>) -> Seq<A>
    decreases s.len(),
{
    if s.len() == 0 {
        s
    } else {
        let sorted = ins_sort(lt, s.drop_last());
        sorted.insert(ins_pos(lt, sorted, s.last()), s.last())
    }
}

/// No element orders before one that comes earlier.
pub open spec fn sorted_by<A>(lt: spec_fn(A, A) -> bool, s: Seq<A>) -> bool {
    forall|i: int, j: int| 0 <= i < j < s.len() ==> !lt(#[trigger] s[j], #[trigger] s[i])
}

proof fn lemma_ins_pos<A>(lt: spec_fn(A, A) -> bool, s: Seq<A>, x: A) -> (p: int)
    ensures
        p == ins_pos(lt, s, x),
        0 <= p <= s.len(),
        forall|k: int| 0 <= k < p ==> !lt(x, #[trigger] s[k]),
        p < s.len() ==> lt(x, s[p]),
    decreases s.len(),
{
    if s.len() == 0 {
        0
    } else if lt(x, s[0]) {
        0
    } else {
        let q = lemma_ins_pos(lt, s.drop_first(), x);
        assert forall|k: int| 0 <= k < q + 1 implies !lt(x, #[trigger] s[k]) by {
            if k > 0 {
                assert(s[k] == s.drop_first()[k - 1]);
            }
        }
        if q + 1 < s.len() {
            assert(s[q + 1] == s.drop_first()[q]);
        }
        q + 1
    }
}

proof fn lemma_insert_sorted<A>(lt: spec_fn(A, A) -> bool, s: Seq<A>, x: A)
    requires
        strict_weak(lt),
        sorted_by(lt, s),
    ensures
        sorted_by(lt, s.insert(ins_pos(lt, s, x), x)),
{
    let p = lemma_ins_pos(lt, s, x);
    let t = s.insert(p, x);
    assert forall|i: int, j: int| 0 <= i < j < t.len() implies !lt(#[trigger] t[j], #[trigger] t[i]) by {
        if j < p {
            assert(t[i] == s[i] && t[j] == s[j]);
        } else if j == p {
            assert(t[i] == s[i] && t[j] == x);
        } else if i < p {
            assert(t[i] == s[i] && t[j] == s[j - 1]);
            // s[i] <= x < s[p] <= s[j - 1]
            assert(!lt(x, s[i]));
            assert(lt(x, s[p]));
            if p < j - 1 {
                assert(!lt(s[j - 1], s[p]));
            }
            if lt(s[j - 1], s[i]) {
                if lt(s[p], s[j - 1]) {
                    assert(lt(x, s[j - 1]));
                    assert(lt(x, s[i]));
                } else {
                    assert(!lt(s[j - 1], s[p]) || p == j - 1);
                    assert(lt(x, s[j - 1]));
                    assert(lt(x, s[i]));
                }
            }
        } else if i == p {
            assert(t[i] == x && t[j] == s[j - 1]);
            assert(lt(x, s[p]));
            if p < j - 1 {
                assert(!lt(s[j - 1], s[p]));
                if lt(s[j - 1], x) {
                    assert(lt(s[j - 1], s[p]));
                }
            } else {
                if lt(s[j - 1], x) {
                    assert(lt(x, x));
                }
            }
        } else {
            assert(t[i] == s[i - 1] && t[j] == s[j - 1]);
        }
    }
}

/// Law: insertion sort under a strict weak order gives a sorted sequence.
pub proof fn law_ins_sort_sorted<A>(lt: spec_fn(A, A) -> bool, s: Seq<A>)
    requires
        strict_weak(lt),
    ensures
        sorted_by(lt, ins_sort(lt, s)),
    decreases s.len(),
{
    if s.len() > 0 {
        law_ins_sort_sorted(lt, s.drop_last());
        lemma_insert_sorted(lt, ins_sort(lt, s.drop_last()), s.last());
    }
}

/// Law: insertion sort rearranges its input: the same elements, each as often.
pub proof fn law_ins_sort_permutes<A>(lt: spec_fn(A, A) -> bool, s: Seq<A>)
    ensures
        ins_sort(lt, s).to_multiset() == s.to_multiset(),
    decreases s.len(),
{
    if s.len() > 0 {
        let sorted = ins_sort(lt, s.drop_last());
        law_ins_sort_permutes(lt, s.drop_last());
        let p = lemma_ins_pos(lt, sorted, s.last());
        vstd::seq_lib::to_multiset_insert(sorted, p, s.last());
        vstd::seq_lib::to_multiset_build(s.drop_last(), s.last());
        assert(s.drop_last().push(s.last()) == s);
    }
}

} // verus!
