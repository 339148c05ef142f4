//! Facts about filtered sequences that the table operations rest on.

use vstd::prelude::*;

verus! {

/// Filtering a sequence that ends in `x` filters what stands before `x` and
/// keeps `x` if it passes.
pub proof fn lemma_filter_push<T>(s: Seq<T>, x: T, p: spec_fn(T) -> bool)
    ensures
        s.push(x).filter(p) == if p(x) {
            s.filter(p).push(x)
        } else {
            s.filter(p)
        },
{
    reveal(Seq::filter);
    assert(s.push(x).drop_last() =~= s);
}

/// Filtering the empty sequence leaves it empty.
pub proof fn lemma_filter_empty<T>(p: spec_fn(T) -> bool)
    ensures
        Seq::<T>::empty().filter(p) == Seq::<T>::empty(),
{
    reveal(Seq::filter);
}

/// Every item of a filtered sequence passes the filter and stands in the
/// source; every item of the source that passes stands in the result.
pub proof fn lemma_filter_members<T>(s: Seq<T>, p: spec_fn(T) -> bool)
    ensures
        s.filter(p).len() <= s.len(),
        forall|i: int|
            0 <= i < s.filter(p).len() ==> p(#[trigger] s.filter(p)[i]) && s.contains(
                s.filter(p)[i],
            ),
        forall|j: int| 0 <= j < s.len() && p(s[j]) ==> s.filter(p).contains(#[trigger] s[j]),
    decreases s.len(),
{
    reveal(Seq::filter);
    if s.len() == 0 {
    } else {
        let init = s.drop_last();
        let last = s.last();
        lemma_filter_members(init, p);
        let f = s.filter(p);
        let g = init.filter(p);
        assert forall|i: int| 0 <= i < f.len() implies p(#[trigger] f[i]) && s.contains(f[i]) by {
            if i < g.len() {
                assert(f[i] == g[i]);
                assert(init.contains(g[i]));
                let k = choose|k: int| 0 <= k < init.len() && init[k] == g[i];
                assert(s[k] == g[i]);
            } else {
                assert(f[i] == last);
                assert(s[s.len() - 1] == last);
            }
        }
        assert forall|j: int| 0 <= j < s.len() && p(s[j]) implies f.contains(#[trigger] s[j]) by {
            if j < init.len() {
                assert(init[j] == s[j]);
                assert(g.contains(init[j]));
                let k = choose|k: int| 0 <= k < g.len() && g[k] == init[j];
                assert(f[k] == s[j]);
            } else {
                assert(f[f.len() - 1] == s[j]);
            }
        }
    }
}

/// A relation that holds between any two items at different places of a
/// sequence holds between any two items at different places of what a
/// filter leaves of it.
pub proof fn lemma_filter_pairwise<T>(s: Seq<T>, p: spec_fn(T) -> bool, rel: spec_fn(T, T) -> bool)
    requires
        forall|i: int, j: int| 0 <= i < s.len() && 0 <= j < s.len() && i != j ==> rel(s[i], s[j]),
    ensures
        forall|i: int, j: int|
            0 <= i < s.filter(p).len() && 0 <= j < s.filter(p).len() && i != j ==> rel(
                s.filter(p)[i],
                s.filter(p)[j],
            ),
    decreases s.len(),
{
    reveal(Seq::filter);
    if s.len() == 0 {
    } else {
        let init = s.drop_last();
        let last = s.last();
        assert forall|i: int, j: int|
            0 <= i < init.len() && 0 <= j < init.len() && i != j implies rel(init[i], init[j]) by {
            assert(init[i] == s[i] && init[j] == s[j]);
        }
        lemma_filter_pairwise(init, p, rel);
        lemma_filter_members(init, p);
        let f = s.filter(p);
        let g = init.filter(p);
        assert forall|i: int, j: int| 0 <= i < f.len() && 0 <= j < f.len() && i != j implies rel(
            f[i],
            f[j],
        ) by {
            if i < g.len() && j < g.len() {
                assert(f[i] == g[i] && f[j] == g[j]);
            } else if i < g.len() {
                assert(f[i] == g[i]);
                assert(init.contains(g[i]));
                let k = choose|k: int| 0 <= k < init.len() && init[k] == g[i];
                assert(s[k] == f[i] && s[s.len() - 1] == f[j]);
            } else {
                assert(f[j] == g[j]);
                assert(init.contains(g[j]));
                let k = choose|k: int| 0 <= k < init.len() && init[k] == g[j];
                assert(s[k] == f[j] && s[s.len() - 1] == f[i]);
            }
        }
    }
}

/// A filter that everything passes changes nothing.
pub proof fn lemma_filter_all<T>(s: Seq<T>, p: spec_fn(T) -> bool)
    requires
        forall|i: int| 0 <= i < s.len() ==> p(#[trigger] s[i]),
    ensures
        s.filter(p) == s,
    decreases s.len(),
{
    reveal(Seq::filter);
    if s.len() == 0 {
    } else {
        let init = s.drop_last();
        assert forall|i: int| 0 <= i < init.len() implies p(#[trigger] init[i]) by {
            assert(init[i] == s[i]);
        }
        lemma_filter_all(init, p);
        assert(init.push(s.last()) =~= s);
    }
}

/// A filter that nothing passes leaves nothing.
pub proof fn lemma_filter_none<T>(s: Seq<T>, p: spec_fn(T) -> bool)
    requires
        forall|i: int| 0 <= i < s.len() ==> !p(#[trigger] s[i]),
    ensures
        s.filter(p).len() == 0,
{
    lemma_filter_members(s, p);
    if s.filter(p).len() > 0 {
        let x = s.filter(p)[0];
        assert(p(x) && s.contains(x));
    }
}

/// Two filters that agree on every item of a sequence leave the same.
pub proof fn lemma_filter_agree<T>(s: Seq<T>, p: spec_fn(T) -> bool, q: spec_fn(T) -> bool)
    requires
        forall|i: int| 0 <= i < s.len() ==> p(#[trigger] s[i]) == q(s[i]),
    ensures
        s.filter(p) == s.filter(q),
    decreases s.len(),
{
    reveal(Seq::filter);
    if s.len() == 0 {
    } else {
        let init = s.drop_last();
        assert forall|i: int| 0 <= i < init.len() implies p(#[trigger] init[i]) == q(init[i]) by {
            assert(init[i] == s[i]);
        }
        lemma_filter_agree(init, p, q);
    }
}

/// A filter on top of another leaves no more than a filter that passes
/// whatever passes both.
pub proof fn lemma_filter_twice_len<T>(
    s: Seq<T>,
    f: spec_fn(T) -> bool,
    q1: spec_fn(T) -> bool,
    q2: spec_fn(T) -> bool,
)
    requires
        forall|i: int| 0 <= i < s.len() && f(#[trigger] s[i]) && q1(s[i]) ==> q2(s[i]),
    ensures
        s.filter(f).filter(q1).len() <= s.filter(q2).len(),
    decreases s.len(),
{
    if s.len() == 0 {
        lemma_filter_empty(f);
        lemma_filter_empty(q1);
        lemma_filter_empty(q2);
        assert(s =~= Seq::<T>::empty());
    } else {
        let init = s.drop_last();
        let last = s.last();
        assert(init.push(last) =~= s);
        assert forall|i: int| 0 <= i < init.len() && f(#[trigger] init[i]) && q1(init[i]) implies q2(
            init[i],
        ) by {
            assert(init[i] == s[i]);
        }
        lemma_filter_twice_len(init, f, q1, q2);
        lemma_filter_push(init, last, f);
        lemma_filter_push(init, last, q2);
        lemma_filter_push(init.filter(f), last, q1);
        assert(s[s.len() - 1] == last);
    }
}

/// Changing items in a way that a filter does not see changes nothing in
/// how many pass.
pub proof fn lemma_filter_map_len<T>(s: Seq<T>, f: spec_fn(T) -> T, q: spec_fn(T) -> bool)
    requires
        forall|i: int| 0 <= i < s.len() ==> q(f(#[trigger] s[i])) == q(s[i]),
    ensures
        s.map_values(f).filter(q).len() == s.filter(q).len(),
    decreases s.len(),
{
    if s.len() == 0 {
        assert(s.map_values(f) =~= s);
    } else {
        let init = s.drop_last();
        let last = s.last();
        assert(init.push(last) =~= s);
        assert(init.map_values(f).push(f(last)) =~= s.map_values(f));
        assert forall|i: int| 0 <= i < init.len() implies q(f(#[trigger] init[i])) == q(init[i]) by {
            assert(init[i] == s[i]);
        }
        lemma_filter_map_len(init, f, q);
        lemma_filter_push(init, last, q);
        lemma_filter_push(init.map_values(f), f(last), q);
        assert(s[s.len() - 1] == last);
    }
}

} // verus!
