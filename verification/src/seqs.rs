//! Facts about sequences.

use vstd::prelude::*;

verus! {

broadcast use vstd::seq_lib::group_seq_properties;

/// Filtering one element more.
pub proof fn lemma_filter_next<T>(s: Seq<T>, k: int, p: spec_fn(T) -> bool)
    requires
        0 <= k < s.len(),
    ensures
        s.take(k + 1).filter(p) == if p(s[k]) {
            s.take(k).filter(p).push(s[k])
        } else {
            s.take(k).filter(p)
        },
{
    reveal(Seq::filter);
    assert(s.take(k + 1).drop_last() =~= s.take(k));
}

/// Filtering takes exactly those elements for which the predicate holds.
pub proof fn lemma_filter_contains<T>(s: Seq<T>, p: spec_fn(T) -> bool)
    ensures
        forall|x: T|
            #![trigger s.filter(p).contains(x)]
            s.filter(p).contains(x) <==> s.contains(x) && p(x),
    decreases s.len(),
{
    reveal(Seq::filter);
    if s.len() > 0 {
        let t = s.drop_last();
        lemma_filter_contains(t, p);
        let f = s.filter(p);
        let g = t.filter(p);
        assert forall|x: T| #![trigger f.contains(x)] f.contains(x) <==> s.contains(x) && p(x) by {
            if f.contains(x) {
                let i = choose|i: int| 0 <= i < f.len() && f[i] == x;
                if i < g.len() {
                    assert(g[i] == x);
                    assert(g.contains(x));
                    let j = choose|j: int| 0 <= j < t.len() && t[j] == x;
                    assert(s[j] == x);
                }
            }
            if s.contains(x) && p(x) {
                let i = choose|i: int| 0 <= i < s.len() && s[i] == x;
                if i < t.len() {
                    assert(t[i] == x);
                    assert(g.contains(x));
                    let j = choose|j: int| 0 <= j < g.len() && g[j] == x;
                    assert(f[j] == x);
                } else {
                    assert(f.last() == x);
                }
            }
        }
    }
}

/// Filtering a sequence without repetition repeats nothing.
pub proof fn lemma_filter_distinct<T>(s: Seq<T>, p: spec_fn(T) -> bool)
    requires
        s.no_duplicates(),
    ensures
        s.filter(p).no_duplicates(),
        forall|x: T|
            #![trigger s.filter(p).contains(x)]
            s.filter(p).contains(x) <==> s.contains(x) && p(x),
    decreases s.len(),
{
    reveal(Seq::filter);
    lemma_filter_contains(s, p);
    if s.len() > 0 {
        let t = s.drop_last();
        lemma_filter_distinct(t, p);
        assert(!t.contains(s.last()));
        assert(!t.filter(p).contains(s.last()));
    }
}

/// Whether `at` are ascending positions in `t` at which the elements of `s` stand.
pub open spec fn picks<T>(s: Seq<T>, t: Seq<T>, at: Seq<int>) -> bool {
    &&& at.len() == s.len()
    &&& forall|i: int, j: int| 0 <= i < j < at.len() ==> at[i] < at[j]
    &&& forall|i: int| 0 <= i < at.len() ==> 0 <= #[trigger] at[i] < t.len() && t[at[i]] == s[i]
}

/// Whether `s` is what remains of `t` when some elements are left out.
pub open spec fn is_subsequence<T>(s: Seq<T>, t: Seq<T>) -> bool {
    exists|at: Seq<int>| picks(s, t, at)
}

/// Filtering by a narrower predicate picks from filtering by a wider one, and what
/// is made of the elements one by one stays in that order.
pub proof fn lemma_filter_picks<T, U>(
    s: Seq<T>,
    p: spec_fn(T) -> bool,
    q: spec_fn(T) -> bool,
    f: spec_fn(T) -> U,
)
    requires
        forall|x: T| #[trigger] p(x) ==> q(x),
    ensures
        is_subsequence(s.filter(p).map_values(f), s.filter(q).map_values(f)),
    decreases s.len(),
{
    reveal(Seq::filter);
    let a = s.filter(p).map_values(f);
    let b = s.filter(q).map_values(f);
    if s.len() == 0 {
        assert(picks(a, b, Seq::empty()));
    } else {
        let t = s.drop_last();
        lemma_filter_picks(t, p, q, f);
        let c = t.filter(p).map_values(f);
        let d = t.filter(q).map_values(f);
        let at = choose|at: Seq<int>| picks(c, d, at);
        assert(forall|i: int| 0 <= i < d.len() ==> b[i] == d[i]);
        assert(p(s.last()) ==> q(s.last()));
        if p(s.last()) {
            assert(a =~= c.push(f(s.last())));
            assert(b =~= d.push(f(s.last())));
            assert(picks(a, b, at.push(d.len() as int)));
        } else {
            assert(a =~= c);
            assert(picks(a, b, at));
        }
    }
}

/// Picking goes part by part.
pub proof fn lemma_subsequence_add<T>(a: Seq<T>, b: Seq<T>, c: Seq<T>, d: Seq<T>)
    requires
        is_subsequence(a, b),
        is_subsequence(c, d),
    ensures
        is_subsequence(a + c, b + d),
{
    let x = choose|x: Seq<int>| picks(a, b, x);
    let y = choose|y: Seq<int>| picks(c, d, y);
    let z = x + y.map_values(|i: int| i + b.len());
    assert forall|i: int| 0 <= i < z.len() implies 0 <= #[trigger] z[i] < (b + d).len() && (b
        + d)[z[i]] == (a + c)[i] by {
        if i < x.len() {
            assert(z[i] == x[i]);
        } else {
            assert(z[i] == y[i - x.len()] + b.len());
        }
    }
    assert(picks(a + c, b + d, z));
}

/// What meets either of two predicates that exclude each other is what meets the one
/// and what meets the other.
pub proof fn lemma_filter_either<T, U>(
    s: Seq<T>,
    p: spec_fn(T) -> bool,
    q: spec_fn(T) -> bool,
    r: spec_fn(T) -> bool,
    f: spec_fn(T) -> U,
)
    requires
        forall|x: T| #[trigger] r(x) <==> p(x) || q(x),
        forall|x: T| !(#[trigger] p(x) && q(x)),
    ensures
        s.filter(r).map_values(f).to_multiset() == s.filter(p).map_values(f).to_multiset().add(
            s.filter(q).map_values(f).to_multiset(),
        ),
    decreases s.len(),
{
    reveal(Seq::filter);
    broadcast use vstd::seq_lib::group_to_multiset_ensures;
    let a = s.filter(p).map_values(f);
    let b = s.filter(q).map_values(f);
    let c = s.filter(r).map_values(f);
    if s.len() == 0 {
        assert(a =~= Seq::<U>::empty());
        assert(b =~= Seq::<U>::empty());
        assert(c =~= Seq::<U>::empty());
        assert(Seq::<U>::empty().to_multiset().len() == 0);
        assert(c.to_multiset() =~= a.to_multiset().add(b.to_multiset()));
    } else {
        let t = s.drop_last();
        let x = s.last();
        lemma_filter_either(t, p, q, r, f);
        let a0 = t.filter(p).map_values(f);
        let b0 = t.filter(q).map_values(f);
        let c0 = t.filter(r).map_values(f);
        assert(r(x) <==> p(x) || q(x));
        assert(!(p(x) && q(x)));
        assert(a =~= if p(x) { a0.push(f(x)) } else { a0 });
        assert(b =~= if q(x) { b0.push(f(x)) } else { b0 });
        assert(c =~= if r(x) { c0.push(f(x)) } else { c0 });
        assert(c.to_multiset() =~= a.to_multiset().add(b.to_multiset()));
    }
}

/// Filtering keeps of each element that meets the predicate every occurrence, in
/// order, and of the others none.
pub proof fn lemma_filter_counts<T>(s: Seq<T>, p: spec_fn(T) -> bool)
    ensures
        is_subsequence(s.filter(p), s),
        forall|x: T| #[trigger]
            s.filter(p).to_multiset().count(x) == if p(x) {
                s.to_multiset().count(x)
            } else {
                0
            },
    decreases s.len(),
{
    reveal(Seq::filter);
    broadcast use vstd::seq_lib::group_to_multiset_ensures;
    let f = s.filter(p);
    if s.len() == 0 {
        assert(f =~= s);
        assert(s =~= Seq::<T>::empty());
        assert(picks(f, s, Seq::empty()));
        assert(s.to_multiset().len() == 0);
    } else {
        let t = s.drop_last();
        let g = t.filter(p);
        lemma_filter_counts(t, p);
        let at = choose|at: Seq<int>| picks(g, t, at);
        assert(s =~= t.push(s.last()));
        if p(s.last()) {
            assert(picks(f, s, at.push(t.len() as int)));
        } else {
            assert(picks(f, s, at));
        }
    }
}

} // verus!
