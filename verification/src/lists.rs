//! Facts on filtered sequences.

use vstd::prelude::*;

verus! {

/// Filtering one element more.
pub proof fn lemma_filter_step<A>(s: Seq<A>, keep: spec_fn(A) -> bool, i: int)
    requires
        0 <= i < s.len(),
    ensures
        s.take(i + 1).filter(keep) == (if keep(s[i]) {
            s.take(i).filter(keep).push(s[i])
        } else {
            s.take(i).filter(keep)
        }),
{
    reveal(Seq::filter);
    assert(s.take(i + 1).drop_last() =~= s.take(i));
}

/// Filtering and mapping one element more.
pub proof fn lemma_filter_map_step<A, B>(s: Seq<A>, f: spec_fn(A) -> Option<B>, i: int)
    requires
        0 <= i < s.len(),
    ensures
        s.take(i + 1).filter_map(f) == (match f(s[i]) {
            Some(b) => s.take(i).filter_map(f).push(b),
            None => s.take(i).filter_map(f),
        }),
{
    assert(s.take(i + 1).drop_last() =~= s.take(i));
    assert(s.take(i + 1).filter_map(f) =~= (match f(s[i]) {
        Some(b) => s.take(i).filter_map(f).push(b),
        None => s.take(i).filter_map(f),
    }));
}

/// A filtered sequence has exactly the elements that are kept.
pub proof fn lemma_filter_elements<A>(s: Seq<A>, keep: spec_fn(A) -> bool, x: A)
    ensures
        s.filter(keep).contains(x) <==> s.contains(x) && keep(x),
{
    let kept = s.filter(keep);
    if kept.contains(x) {
        let i = choose|i: int| 0 <= i < kept.len() && kept[i] == x;
        s.lemma_filter_pred(keep, i);
        s.lemma_filter_contains_rev(keep, x);
    }
    if s.contains(x) && keep(x) {
        let i = choose|i: int| 0 <= i < s.len() && s[i] == x;
        s.lemma_filter_contains(keep, i);
    }
}

/// A mapped sequence has exactly the results of its elements.
pub proof fn lemma_filter_map_elements<A, B>(s: Seq<A>, f: spec_fn(A) -> Option<B>, y: B)
    ensures
        s.filter_map(f).contains(y) <==> exists|i: int|
            0 <= i < s.len() && f(#[trigger] s[i]) == Some(y),
    decreases s.len(),
{
    let all = s.filter_map(f);
    if s.len() == 0 {
        assert(all =~= Seq::<B>::empty());
    } else {
        let rest = s.drop_last();
        lemma_filter_map_elements(rest, f, y);
        lemma_filter_map_step(s, f, s.len() - 1);
        assert(s.take(s.len() as int) =~= s);
        assert(s.take(s.len() - 1) =~= rest);
        let before = rest.filter_map(f);
        if all.contains(y) {
            let k = choose|k: int| 0 <= k < all.len() && all[k] == y;
            if k < before.len() {
                assert(before[k] == y);
                assert(before.contains(y));
                let i = choose|i: int| 0 <= i < rest.len() && f(#[trigger] rest[i]) == Some(y);
                assert(f(s[i]) == Some(y));
            } else {
                assert(f(s[s.len() - 1]) == Some(y));
            }
        }
        if exists|i: int| 0 <= i < s.len() && f(#[trigger] s[i]) == Some(y) {
            let i = choose|i: int| 0 <= i < s.len() && f(#[trigger] s[i]) == Some(y);
            if i < rest.len() {
                assert(f(rest[i]) == Some(y));
                let k = choose|k: int| 0 <= k < before.len() && before[k] == y;
                assert(all[k] == y);
            } else {
                assert(all[all.len() - 1] == y);
            }
        }
    }
}

/// The results stand in the order of the elements they come from.
pub proof fn lemma_filter_map_order<A, B>(s: Seq<A>, f: spec_fn(A) -> Option<B>, j: int, k: int)
    requires
        0 <= j < k < s.filter_map(f).len(),
    ensures
        exists|a: int, b: int|
            0 <= a < b < s.len() && f(#[trigger] s[a]) == Some(s.filter_map(f)[j]) && f(
                #[trigger] s[b],
            ) == Some(s.filter_map(f)[k]),
    decreases s.len(),
{
    if s.len() == 0 {
        assert(s.filter_map(f) =~= Seq::<B>::empty());
    } else {
        let rest = s.drop_last();
        let all = s.filter_map(f);
        let before = rest.filter_map(f);
        lemma_filter_map_step(s, f, s.len() - 1);
        assert(s.take(s.len() as int) =~= s);
        assert(s.take(s.len() - 1) =~= rest);
        assert(all[j] == before[j]);
        if k < before.len() {
            lemma_filter_map_order(rest, f, j, k);
            let (a, b) = choose|a: int, b: int|
                0 <= a < b < rest.len() && f(#[trigger] rest[a]) == Some(before[j]) && f(
                    #[trigger] rest[b],
                ) == Some(before[k]);
            assert(f(s[a]) == Some(all[j]) && f(s[b]) == Some(all[k]));
        } else {
            assert(before.contains(before[j]));
            lemma_filter_map_elements(rest, f, before[j]);
            let a = choose|a: int| 0 <= a < rest.len() && f(#[trigger] rest[a]) == Some(before[j]);
            assert(f(s[a]) == Some(all[j]) && f(s[s.len() - 1]) == Some(all[k]));
        }
    }
}

} // verus!
