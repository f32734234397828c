//! A stable sort for values that are ordered by a total preorder.
use vstd::prelude::*;

verus! {

/// Values with a total preorder, given as a three-way comparison.
pub trait Ranked: Sized {
    /// Negative when `a` comes before `b`, zero when they rank equal,
    /// positive when `a` comes after `b`.
    spec fn rank_order(a: Self, b: Self) -> int;

    /// Compares two values: -1, 0 or 1.
    fn compare_rank(&self, other: &Self) -> (r: i8)
        ensures
            r as int == Self::rank_order(*self, *other),
    ;

    /// The comparison is a total preorder: it takes three values, swapping
    /// its arguments negates it, and "not after" is transitive.
    proof fn lemma_rank_order_laws(a: Self, b: Self, c: Self)
        ensures
            -1 <= Self::rank_order(a, b) <= 1,
            Self::rank_order(a, b) == -Self::rank_order(b, a),
            Self::rank_order(a, b) <= 0 && Self::rank_order(b, c) <= 0 ==> Self::rank_order(a, c)
                <= 0,
    ;
}

/// Every value comes before or ranks equal with every later value.
pub open spec fn sorted_by_rank<T: Ranked>(s: Seq<T>) -> bool {
    forall|i: int, j: int| 0 <= i < j < s.len() ==> T::rank_order(#[trigger] s[i], #[trigger] s[j]) <= 0
}

/// The values that rank equal with `k`.
pub open spec fn same_rank_as<T: Ranked>(k: T) -> spec_fn(T) -> bool {
    |x: T| T::rank_order(k, x) == 0
}

/// `out` is `input` sorted stably: sorted, and for every rank the values
/// of that rank keep the order they had in `input`.
pub open spec fn is_stable_sort_of<T: Ranked>(out: Seq<T>, input: Seq<T>) -> bool {
    &&& out.len() == input.len()
    &&& sorted_by_rank(out)
    &&& forall|k: T| #[trigger] out.filter(same_rank_as(k)) == input.filter(same_rank_as(k))
}

proof fn lemma_filter_single<T>(x: T, pred: spec_fn(T) -> bool)
    ensures
        seq![x].filter(pred) == (if pred(x) {
            seq![x]
        } else {
            Seq::<T>::empty()
        }),
{
    reveal(Seq::filter);
    assert(seq![x].drop_last() =~= Seq::<T>::empty());
    assert(Seq::<T>::empty().filter(pred) =~= Seq::<T>::empty());
    if pred(x) {
        assert(Seq::<T>::empty().push(x) =~= seq![x]);
    }
}

proof fn lemma_filter_none<T>(s: Seq<T>, pred: spec_fn(T) -> bool)
    requires
        forall|i: int| 0 <= i < s.len() ==> !pred(#[trigger] s[i]),
    ensures
        s.filter(pred) == Seq::<T>::empty(),
{
    s.lemma_all_neg_filter_empty(pred);
    assert(s.filter(pred) =~= Seq::<T>::empty());
}

proof fn lemma_filter_insert<T>(s: Seq<T>, p: int, x: T, pred: spec_fn(T) -> bool)
    requires
        0 <= p <= s.len(),
    ensures
        s.insert(p, x).filter(pred) == s.take(p).filter(pred) + seq![x].filter(pred) + s.skip(
            p,
        ).filter(pred),
        s.filter(pred) == s.take(p).filter(pred) + s.skip(p).filter(pred),
{
    assert(s.insert(p, x) =~= s.take(p) + seq![x] + s.skip(p));
    assert(s =~= s.take(p) + s.skip(p));
    Seq::filter_distributes_over_add(s.take(p) + seq![x], s.skip(p), pred);
    Seq::filter_distributes_over_add(s.take(p), seq![x], pred);
    Seq::filter_distributes_over_add(s.take(p), s.skip(p), pred);
}

proof fn lemma_filter_push<T>(s: Seq<T>, x: T, pred: spec_fn(T) -> bool)
    ensures
        s.push(x).filter(pred) == s.filter(pred) + seq![x].filter(pred),
{
    assert(s.push(x) =~= s + seq![x]);
    Seq::filter_distributes_over_add(s, seq![x], pred);
}

/// Sorts `v` stably by `T::rank_order`: equal-ranked values keep their
/// order (an insertion sort).
pub fn stable_sort<T: Ranked>(v: Vec<T>) -> (r: Vec<T>)
    ensures
        is_stable_sort_of(r@, v@),
{
    let ghost orig = v@;
    let mut input = v;
    let mut out: Vec<T> = Vec::new();
    let ghost mut done: int = 0;
    proof {
        assert(orig.skip(0) =~= orig);
        assert forall|k: T| #[trigger] out@.filter(same_rank_as(k)) == orig.take(0).filter(
            same_rank_as(k),
        ) by {
            assert(out@ =~= Seq::<T>::empty());
            assert(orig.take(0) =~= Seq::<T>::empty());
        }
    }
    while input.len() > 0
        invariant
            0 <= done <= orig.len(),
            input@ == orig.skip(done),
            out@.len() == done,
            sorted_by_rank(out@),
            forall|k: T| #[trigger] out@.filter(same_rank_as(k)) == orig.take(done).filter(
                same_rank_as(k),
            ),
        decreases input@.len(),
    {
        let x = input.remove(0);
        assert(x == orig[done]);
        let mut p: usize = 0;
        while p < out.len() && out[p].compare_rank(&x) <= 0
            invariant
                p <= out@.len(),
                forall|i: int| 0 <= i < p ==> T::rank_order(#[trigger] out@[i], x) <= 0,
            decreases out@.len() - p,
        {
            p = p + 1;
        }
        let ghost before = out@;
        proof {
            // every value from `p` on comes strictly after `x`
            assert forall|m: int| p <= m < before.len() implies T::rank_order(x, #[trigger] before[m])
                < 0 by {
                T::lemma_rank_order_laws(before[p as int], x, before[m]);
                T::lemma_rank_order_laws(before[m], x, before[p as int]);
                T::lemma_rank_order_laws(before[p as int], before[m], x);
                T::lemma_rank_order_laws(x, before[m], x);
                if m > p {
                    assert(T::rank_order(before[p as int], before[m]) <= 0);
                }
            }
        }
        out.insert(p, x);
        proof {
            let after = out@;
            assert(after == before.insert(p as int, x));
            assert forall|i: int, j: int| 0 <= i < j < after.len() implies T::rank_order(
                #[trigger] after[i],
                #[trigger] after[j],
            ) <= 0 by {
                if j < p {
                    assert(after[i] == before[i] && after[j] == before[j]);
                } else if j == p {
                    assert(after[i] == before[i] && after[j] == x);
                } else if i < p {
                    assert(after[i] == before[i] && after[j] == before[j - 1]);
                    T::lemma_rank_order_laws(before[i], x, before[j - 1]);
                } else if i == p {
                    assert(after[i] == x && after[j] == before[j - 1]);
                } else {
                    assert(after[i] == before[i - 1] && after[j] == before[j - 1]);
                }
            }
            let prefix = orig.take(done);
            assert(orig.take(done + 1) =~= prefix.push(x));
            assert forall|k: T| #[trigger] after.filter(same_rank_as(k)) == orig.take(done + 1).filter(
                same_rank_as(k),
            ) by {
                let pred = same_rank_as(k);
                lemma_filter_insert(before, p as int, x, pred);
                lemma_filter_push(prefix, x, pred);
                lemma_filter_single(x, pred);
                assert(before.filter(pred) == prefix.filter(pred));
                if pred(x) {
                    assert forall|i: int| 0 <= i < before.skip(p as int).len() implies !pred(
                        #[trigger] before.skip(p as int)[i],
                    ) by {
                        let y = before.skip(p as int)[i];
                        assert(y == before[p + i]);
                        assert(T::rank_order(x, y) < 0);
                        T::lemma_rank_order_laws(y, k, x);
                        T::lemma_rank_order_laws(k, x, y);
                        T::lemma_rank_order_laws(x, y, k);
                    }
                    lemma_filter_none(before.skip(p as int), pred);
                    assert(before.skip(p as int).filter(pred) =~= Seq::<T>::empty());
                    assert(after.filter(pred) =~= before.take(p as int).filter(pred) + seq![x]);
                    assert(before.filter(pred) =~= before.take(p as int).filter(pred));
                } else {
                    assert(after.filter(pred) =~= before.filter(pred));
                }
            }
            assert(input@ =~= orig.skip(done + 1));
            done = done + 1;
        }
    }
    proof {
        assert(orig.take(done) =~= orig);
    }
    out
}

proof fn lemma_filter_two<T>(s: Seq<T>, pred: spec_fn(T) -> bool, i: int, j: int)
    requires
        0 <= i < j < s.len(),
        pred(s[i]),
        pred(s[j]),
    ensures
        s.filter(pred).len() >= 2,
{
    let a = s.take(i);
    let b = s.subrange(i + 1, j);
    let c = s.skip(j + 1);
    assert(s =~= a + seq![s[i]] + b + seq![s[j]] + c);
    Seq::filter_distributes_over_add(a + seq![s[i]] + b + seq![s[j]], c, pred);
    Seq::filter_distributes_over_add(a + seq![s[i]] + b, seq![s[j]], pred);
    Seq::filter_distributes_over_add(a + seq![s[i]], b, pred);
    Seq::filter_distributes_over_add(a, seq![s[i]], pred);
    lemma_filter_single(s[i], pred);
    lemma_filter_single(s[j], pred);
}

proof fn lemma_filter_one<T>(s: Seq<T>, pred: spec_fn(T) -> bool, i: int)
    requires
        0 <= i < s.len(),
        pred(s[i]),
        forall|j: int| 0 <= j < s.len() && j != i ==> !pred(#[trigger] s[j]),
    ensures
        s.filter(pred) == seq![s[i]],
{
    let a = s.take(i);
    let c = s.skip(i + 1);
    assert(s =~= a + seq![s[i]] + c);
    Seq::filter_distributes_over_add(a + seq![s[i]], c, pred);
    Seq::filter_distributes_over_add(a, seq![s[i]], pred);
    lemma_filter_single(s[i], pred);
    assert forall|j: int| 0 <= j < a.len() implies !pred(#[trigger] a[j]) by {
        assert(a[j] == s[j]);
    }
    assert forall|j: int| 0 <= j < c.len() implies !pred(#[trigger] c[j]) by {
        assert(c[j] == s[i + 1 + j]);
    }
    lemma_filter_none(a, pred);
    lemma_filter_none(c, pred);
    assert(s.filter(pred) =~= seq![s[i]]);
}

proof fn lemma_filter_member<T>(s: Seq<T>, pred: spec_fn(T) -> bool, x: T)
    requires
        s.filter(pred).contains(x),
    ensures
        s.contains(x),
        pred(x),
{
    s.lemma_filter_contains_rev(pred, x);
    let i = choose|i: int| 0 <= i < s.filter(pred).len() && s.filter(pred)[i] == x;
    s.lemma_filter_pred(pred, i);
}

proof fn lemma_in_filter<T>(s: Seq<T>, pred: spec_fn(T) -> bool, i: int)
    requires
        0 <= i < s.len(),
        pred(s[i]),
    ensures
        s.filter(pred).contains(s[i]),
{
    s.lemma_filter_contains(pred, i);
}

/// Sorting values of pairwise different ranks keeps exactly the same
/// values and orders them strictly.
pub proof fn lemma_stable_sort_distinct<T: Ranked>(out: Seq<T>, input: Seq<T>)
    requires
        is_stable_sort_of(out, input),
        forall|a: int, b: int|
            0 <= a < b < input.len() ==> T::rank_order(#[trigger] input[a], #[trigger] input[b]) != 0,
    ensures
        forall|x: T| out.contains(x) <==> input.contains(x),
        forall|i: int, j: int|
            0 <= i < j < out.len() ==> T::rank_order(#[trigger] out[i], #[trigger] out[j]) < 0,
{
    assert forall|x: T| out.contains(x) implies input.contains(x) by {
        let i = choose|i: int| 0 <= i < out.len() && out[i] == x;
        T::lemma_rank_order_laws(x, x, x);
        lemma_in_filter(out, same_rank_as(x), i);
        assert(out.filter(same_rank_as(x)) == input.filter(same_rank_as(x)));
        lemma_filter_member(input, same_rank_as(x), x);
    }
    assert forall|x: T| input.contains(x) implies out.contains(x) by {
        let i = choose|i: int| 0 <= i < input.len() && input[i] == x;
        T::lemma_rank_order_laws(x, x, x);
        lemma_in_filter(input, same_rank_as(x), i);
        assert(out.filter(same_rank_as(x)) == input.filter(same_rank_as(x)));
        lemma_filter_member(out, same_rank_as(x), x);
    }
    assert forall|i: int, j: int| 0 <= i < j < out.len() implies T::rank_order(
        #[trigger] out[i],
        #[trigger] out[j],
    ) < 0 by {
        if T::rank_order(out[i], out[j]) == 0 {
            let x = out[i];
            T::lemma_rank_order_laws(x, x, x);
            T::lemma_rank_order_laws(out[j], x, out[j]);
            assert(out.contains(x));
            let a = choose|a: int| 0 <= a < input.len() && input[a] == x;
            let pred = same_rank_as(x);
            assert forall|b: int| 0 <= b < input.len() && b != a implies !pred(#[trigger] input[b]) by {
                T::lemma_rank_order_laws(input[a], input[b], input[a]);
                if a < b {
                    assert(T::rank_order(input[a], input[b]) != 0);
                } else {
                    assert(T::rank_order(input[b], input[a]) != 0);
                }
            }
            lemma_filter_one(input, pred, a);
            lemma_filter_two(out, pred, i, j);
            assert(out.filter(pred) == input.filter(pred));
        }
    }
}

} // verus!
