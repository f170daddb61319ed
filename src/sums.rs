use vstd::prelude::*;

verus! {

/// The sum of `f` over the elements of `s`, accumulated from the front.
pub open spec fn sum_of<A>(s: Seq<A>, f: spec_fn(A) -> int) -> int
    decreases s.len(),
{
    if s.len() == 0 {
        0
    } else {
        sum_of(s.drop_last(), f) + f(s.last())
    }
}

pub proof fn lemma_sum_push<A>(s: Seq<A>, x: A, f: spec_fn(A) -> int)
    ensures
        sum_of(s.push(x), f) == sum_of(s, f) + f(x),
{
    assert(s.push(x).drop_last() =~= s);
}

pub proof fn lemma_sum_prefix_step<A>(s: Seq<A>, i: int, f: spec_fn(A) -> int)
    requires
        0 <= i < s.len(),
    ensures
        sum_of(s.take(i + 1), f) == sum_of(s.take(i), f) + f(s[i]),
{
    assert(s.take(i + 1).drop_last() =~= s.take(i));
}

/// A pointwise bound carries over to the sums.
pub proof fn lemma_sum_le<A>(s: Seq<A>, f: spec_fn(A) -> int, g: spec_fn(A) -> int)
    requires
        forall|i: int| 0 <= i < s.len() ==> f(#[trigger] s[i]) <= g(s[i]),
    ensures
        sum_of(s, f) <= sum_of(s, g),
    decreases s.len(),
{
    if s.len() > 0 {
        let t = s.drop_last();
        assert forall|i: int| 0 <= i < t.len() implies f(#[trigger] t[i]) <= g(t[i]) by {
            assert(t[i] == s[i]);
        }
        lemma_sum_le(t, f, g);
    }
}

/// With non-negative terms, every prefix sum is between zero and the total.
pub proof fn lemma_sum_prefix_bound<A>(s: Seq<A>, i: int, f: spec_fn(A) -> int)
    requires
        0 <= i <= s.len(),
        forall|j: int| 0 <= j < s.len() ==> f(#[trigger] s[j]) >= 0,
    ensures
        0 <= sum_of(s.take(i), f) <= sum_of(s, f),
    decreases s.len() - i,
{
    if i == s.len() {
        assert(s.take(i) =~= s);
        lemma_sum_nonneg(s, f);
    } else {
        lemma_sum_prefix_step(s, i, f);
        lemma_sum_prefix_bound(s, i + 1, f);
        let t = s.take(i);
        assert forall|j: int| 0 <= j < t.len() implies f(#[trigger] t[j]) >= 0 by {
            assert(t[j] == s[j]);
        }
        lemma_sum_nonneg(t, f);
    }
}

pub proof fn lemma_sum_nonneg<A>(s: Seq<A>, f: spec_fn(A) -> int)
    requires
        forall|j: int| 0 <= j < s.len() ==> f(#[trigger] s[j]) >= 0,
    ensures
        sum_of(s, f) >= 0,
    decreases s.len(),
{
    if s.len() > 0 {
        let t = s.drop_last();
        assert forall|j: int| 0 <= j < t.len() implies f(#[trigger] t[j]) >= 0 by {
            assert(t[j] == s[j]);
        }
        lemma_sum_nonneg(t, f);
    }
}

/// Summing over a concatenation.
pub proof fn lemma_sum_concat<A>(s: Seq<A>, t: Seq<A>, f: spec_fn(A) -> int)
    ensures
        sum_of(s + t, f) == sum_of(s, f) + sum_of(t, f),
    decreases t.len(),
{
    if t.len() == 0 {
        assert(s + t =~= s);
    } else {
        assert((s + t).drop_last() =~= s + t.drop_last());
        lemma_sum_concat(s, t.drop_last(), f);
    }
}

/// Replacing one element changes the sum by the difference of its terms.
pub proof fn lemma_sum_update<A>(s: Seq<A>, i: int, x: A, f: spec_fn(A) -> int)
    requires
        0 <= i < s.len(),
    ensures
        sum_of(s.update(i, x), f) == sum_of(s, f) - f(s[i]) + f(x),
{
    let u = s.update(i, x);
    assert(s =~= s.take(i) + seq![s[i]] + s.skip(i + 1));
    assert(u =~= s.take(i) + seq![x] + s.skip(i + 1));
    lemma_sum_concat(s.take(i) + seq![s[i]], s.skip(i + 1), f);
    lemma_sum_concat(s.take(i), seq![s[i]], f);
    lemma_sum_concat(s.take(i) + seq![x], s.skip(i + 1), f);
    lemma_sum_concat(s.take(i), seq![x], f);
    lemma_sum_push(Seq::<A>::empty(), s[i], f);
    lemma_sum_push(Seq::<A>::empty(), x, f);
    assert(Seq::<A>::empty().push(s[i]) =~= seq![s[i]]);
    assert(Seq::<A>::empty().push(x) =~= seq![x]);
}

/// Removing one element takes its term out of the sum.
pub proof fn lemma_sum_remove<A>(s: Seq<A>, i: int, f: spec_fn(A) -> int)
    requires
        0 <= i < s.len(),
    ensures
        sum_of(s.remove(i), f) == sum_of(s, f) - f(s[i]),
{
    assert(s =~= s.take(i) + seq![s[i]] + s.skip(i + 1));
    assert(s.remove(i) =~= s.take(i) + s.skip(i + 1));
    lemma_sum_concat(s.take(i) + seq![s[i]], s.skip(i + 1), f);
    lemma_sum_concat(s.take(i), seq![s[i]], f);
    lemma_sum_concat(s.take(i), s.skip(i + 1), f);
    lemma_sum_push(Seq::<A>::empty(), s[i], f);
    assert(Seq::<A>::empty().push(s[i]) =~= seq![s[i]]);
}

/// Inserting one element adds its term to the sum.
pub proof fn lemma_sum_insert<A>(s: Seq<A>, i: int, x: A, f: spec_fn(A) -> int)
    requires
        0 <= i <= s.len(),
    ensures
        sum_of(s.insert(i, x), f) == sum_of(s, f) + f(x),
{
    assert(s =~= s.take(i) + s.skip(i));
    assert(s.insert(i, x) =~= s.take(i) + seq![x] + s.skip(i));
    lemma_sum_concat(s.take(i) + seq![x], s.skip(i), f);
    lemma_sum_concat(s.take(i), seq![x], f);
    lemma_sum_concat(s.take(i), s.skip(i), f);
    lemma_sum_push(Seq::<A>::empty(), x, f);
    assert(Seq::<A>::empty().push(x) =~= seq![x]);
}

/// Where every term but one is zero, the sum is that term.
pub proof fn lemma_sum_single<A>(s: Seq<A>, i: int, f: spec_fn(A) -> int)
    requires
        0 <= i < s.len(),
        forall|j: int| 0 <= j < s.len() && j != i ==> f(#[trigger] s[j]) == 0,
    ensures
        sum_of(s, f) == f(s[i]),
{
    lemma_sum_remove(s, i, f);
    let r = s.remove(i);
    assert forall|j: int| 0 <= j < r.len() implies f(#[trigger] r[j]) == 0 by {
        if j < i {
            assert(r[j] == s[j]);
        } else {
            assert(r[j] == s[j + 1]);
        }
    }
    lemma_sum_zero(r, f);
}

/// Adding a constant to every term adds that constant once per element.
pub proof fn lemma_sum_plus_const<A>(s: Seq<A>, f: spec_fn(A) -> int, g: spec_fn(A) -> int, c: int)
    requires
        forall|i: int| 0 <= i < s.len() ==> f(#[trigger] s[i]) == c + g(s[i]),
    ensures
        sum_of(s, f) == c * s.len() + sum_of(s, g),
    decreases s.len(),
{
    if s.len() > 0 {
        let t = s.drop_last();
        assert forall|i: int| 0 <= i < t.len() implies f(#[trigger] t[i]) == c + g(t[i]) by {
            assert(t[i] == s[i]);
        }
        lemma_sum_plus_const(t, f, g, c);
        assert(f(s.last()) == c + g(s.last()));
        assert(c * t.len() + c == c * s.len()) by (nonlinear_arith)
            requires
                t.len() + 1 == s.len(),
        ;
    }
}

/// Two sequences whose terms agree position by position have the same sum.
pub proof fn lemma_sum_pointwise<A, B>(a: Seq<A>, b: Seq<B>, f: spec_fn(A) -> int, g: spec_fn(B) -> int)
    requires
        a.len() == b.len(),
        forall|i: int| 0 <= i < a.len() ==> f(#[trigger] a[i]) == g(#[trigger] b[i]),
    ensures
        sum_of(a, f) == sum_of(b, g),
    decreases a.len(),
{
    if a.len() > 0 {
        let (a1, b1) = (a.drop_last(), b.drop_last());
        assert forall|i: int| 0 <= i < a1.len() implies f(#[trigger] a1[i]) == g(#[trigger] b1[i]) by {
            assert(a1[i] == a[i] && b1[i] == b[i]);
        }
        lemma_sum_pointwise(a1, b1, f, g);
        assert(f(a[a.len() - 1]) == g(b[b.len() - 1]));
    }
}

/// With non-negative terms, one term is at most the sum.
pub proof fn lemma_sum_term_le<A>(s: Seq<A>, i: int, f: spec_fn(A) -> int)
    requires
        0 <= i < s.len(),
        forall|j: int| 0 <= j < s.len() ==> f(#[trigger] s[j]) >= 0,
    ensures
        f(s[i]) <= sum_of(s, f),
{
    lemma_sum_remove(s, i, f);
    let r = s.remove(i);
    assert forall|j: int| 0 <= j < r.len() implies f(#[trigger] r[j]) >= 0 by {
        if j < i {
            assert(r[j] == s[j]);
        } else {
            assert(r[j] == s[j + 1]);
        }
    }
    lemma_sum_nonneg(r, f);
}

/// Where every term is zero, so is the sum.
pub proof fn lemma_sum_zero<A>(s: Seq<A>, f: spec_fn(A) -> int)
    requires
        forall|j: int| 0 <= j < s.len() ==> f(#[trigger] s[j]) == 0,
    ensures
        sum_of(s, f) == 0,
    decreases s.len(),
{
    if s.len() > 0 {
        let t = s.drop_last();
        assert forall|j: int| 0 <= j < t.len() implies f(#[trigger] t[j]) == 0 by {
            assert(t[j] == s[j]);
        }
        lemma_sum_zero(t, f);
    }
}

/// Scaling every term scales the sum.
pub proof fn lemma_sum_scale<A>(s: Seq<A>, f: spec_fn(A) -> int, g: spec_fn(A) -> int, m: int)
    requires
        forall|i: int| 0 <= i < s.len() ==> g(#[trigger] s[i]) == m * f(s[i]),
    ensures
        sum_of(s, g) == m * sum_of(s, f),
    decreases s.len(),
{
    if s.len() > 0 {
        let t = s.drop_last();
        assert forall|i: int| 0 <= i < t.len() implies g(#[trigger] t[i]) == m * f(t[i]) by {
            assert(t[i] == s[i]);
        }
        lemma_sum_scale(t, f, g, m);
        assert(g(s.last()) == m * f(s.last()));
        assert(m * sum_of(t, f) + m * f(s.last()) == m * (sum_of(t, f) + f(s.last())))
            by (nonlinear_arith);
    }
}

} // verus!
