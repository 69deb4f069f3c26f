//! What the star columns of a run add up to when they grow, for columns
//! measured in ticks.
use vstd::prelude::*;

use crate::grid::helper::{
    expand_by_star, insert_pos, lemma_insert_pos_bound, lemma_sort_complete, lemma_sort_members,
    lemma_star_columns, shared_size_per_star, size_per_star, sort_by_size_per_star, star_columns,
    star_fill,
};
use crate::grid::GridLength;
use crate::scalar::{truncated_div, Additive, Divisible, Ordered, Ticks};

verus! {

/// The sum of `f` over the elements of `q`.
pub open spec fn sum_over(q: Seq<usize>, f: spec_fn(usize) -> int) -> int
    decreases q.len(),
{
    if q.len() == 0 {
        0
    } else {
        sum_over(q.drop_last(), f) + f(q.last())
    }
}

proof fn lemma_sum_append(a: Seq<usize>, b: Seq<usize>, f: spec_fn(usize) -> int)
    ensures
        sum_over(a + b, f) == sum_over(a, f) + sum_over(b, f),
    decreases b.len(),
{
    if b.len() == 0 {
        assert(a + b =~= a);
    } else {
        lemma_sum_append(a, b.drop_last(), f);
        assert((a + b).drop_last() =~= a + b.drop_last());
    }
}

proof fn lemma_sum_ext(q: Seq<usize>, f: spec_fn(usize) -> int, g: spec_fn(usize) -> int)
    requires
        forall|i: int| 0 <= i < q.len() ==> f(#[trigger] q[i]) == g(q[i]),
    ensures
        sum_over(q, f) == sum_over(q, g),
    decreases q.len(),
{
    if q.len() > 0 {
        let d = q.drop_last();
        assert forall|i: int| 0 <= i < d.len() implies f(#[trigger] d[i]) == g(d[i]) by {
            assert(d[i] == q[i]);
        }
        lemma_sum_ext(d, f, g);
        assert(f(q[q.len() - 1]) == g(q[q.len() - 1]));
    }
}

proof fn lemma_sum_nonneg(q: Seq<usize>, f: spec_fn(usize) -> int)
    requires
        forall|i: int| 0 <= i < q.len() ==> f(#[trigger] q[i]) >= 0,
    ensures
        sum_over(q, f) >= 0,
    decreases q.len(),
{
    if q.len() > 0 {
        let d = q.drop_last();
        assert forall|i: int| 0 <= i < d.len() implies f(#[trigger] d[i]) >= 0 by {
            assert(d[i] == q[i]);
        }
        lemma_sum_nonneg(d, f);
        assert(f(q[q.len() - 1]) >= 0);
    }
}

proof fn lemma_sum_remove(q: Seq<usize>, p: int, f: spec_fn(usize) -> int)
    requires
        0 <= p < q.len(),
    ensures
        sum_over(q, f) == sum_over(q.remove(p), f) + f(q[p]),
    decreases q.len(),
{
    if p == q.len() - 1 {
        assert(q.remove(p) =~= q.drop_last());
    } else {
        let d = q.drop_last();
        lemma_sum_remove(d, p, f);
        assert(q.remove(p).drop_last() =~= d.remove(p));
        assert(q.remove(p).last() == q.last());
        assert(d[p] == q[p]);
    }
}

/// The sum over a prefix of `i` elements, with the sum over the first `i + 1`.
proof fn lemma_sum_prefix_step(q: Seq<usize>, i: int, f: spec_fn(usize) -> int)
    requires
        0 <= i < q.len(),
    ensures
        sum_over(q.take(i + 1), f) == sum_over(q.take(i), f) + f(q[i]),
{
    assert(q.take(i + 1).drop_last() =~= q.take(i));
}

/// With terms that are not negative, a prefix sums to no more than the
/// whole, and one term is no more than the whole.
proof fn lemma_sum_bounds(q: Seq<usize>, i: int, f: spec_fn(usize) -> int)
    requires
        0 <= i <= q.len(),
        forall|k: int| 0 <= k < q.len() ==> f(#[trigger] q[k]) >= 0,
    ensures
        0 <= sum_over(q.take(i), f) <= sum_over(q, f),
        i < q.len() ==> f(q[i]) <= sum_over(q, f),
{
    let a = q.take(i);
    let b = q.skip(i);
    assert(q =~= a + b);
    lemma_sum_append(a, b, f);
    assert forall|k: int| 0 <= k < a.len() implies f(#[trigger] a[k]) >= 0 by {
        assert(a[k] == q[k]);
    }
    assert forall|k: int| 0 <= k < b.len() implies f(#[trigger] b[k]) >= 0 by {
        assert(b[k] == q[i + k]);
    }
    lemma_sum_nonneg(a, f);
    lemma_sum_nonneg(b, f);
    if i < q.len() {
        lemma_sum_remove(q, i, f);
        let r = q.remove(i);
        assert forall|k: int| 0 <= k < r.len() implies f(#[trigger] r[k]) >= 0 by {
            if k < i {
                assert(r[k] == q[k]);
            } else {
                assert(r[k] == q[k + 1]);
            }
        }
        lemma_sum_nonneg(r, f);
    }
}

/// `f` on the elements of `q`, zero elsewhere.
pub open spec fn restrict(q: Seq<usize>, f: spec_fn(usize) -> int) -> spec_fn(usize) -> int {
    |k: usize| if q.contains(k) { f(k) } else { 0 }
}

proof fn lemma_sum_zero(q: Seq<usize>, f: spec_fn(usize) -> int)
    requires
        forall|i: int| 0 <= i < q.len() ==> f(#[trigger] q[i]) == 0,
    ensures
        sum_over(q, f) == 0,
    decreases q.len(),
{
    if q.len() > 0 {
        let d = q.drop_last();
        assert forall|i: int| 0 <= i < d.len() implies f(#[trigger] d[i]) == 0 by {
            assert(d[i] == q[i]);
        }
        lemma_sum_zero(d, f);
        assert(f(q[q.len() - 1]) == 0);
    }
}

/// Summing over a sequence without repeats is summing over any larger
/// sequence without repeats, counting only the elements of the first.
proof fn lemma_sum_within(q: Seq<usize>, r: Seq<usize>, f: spec_fn(usize) -> int)
    requires
        q.no_duplicates(),
        r.no_duplicates(),
        forall|i: int| 0 <= i < q.len() ==> r.contains(#[trigger] q[i]),
    ensures
        sum_over(q, f) == sum_over(r, restrict(q, f)),
    decreases r.len(),
{
    let g = restrict(q, f);
    if r.len() == 0 {
        if q.len() > 0 {
            assert(r.contains(q[0]));
        }
        return;
    }
    let x = r.last();
    let r2 = r.drop_last();
    assert(r2.no_duplicates()) by {
        assert forall|i: int, j: int| 0 <= i < r2.len() && 0 <= j < r2.len() && i != j implies r2[i]
            != r2[j] by {
            assert(r2[i] == r[i] && r2[j] == r[j]);
        }
    }
    assert forall|k: usize| #[trigger] r2.contains(k) implies k != x by {
        let i = choose|i: int| 0 <= i < r2.len() && r2[i] == k;
        assert(r[i] == k);
    }
    if q.contains(x) {
        let p = choose|p: int| 0 <= p < q.len() && q[p] == x;
        let q2 = q.remove(p);
        lemma_sum_remove(q, p, f);
        assert forall|i: int| 0 <= i < q2.len() implies r2.contains(#[trigger] q2[i]) by {
            let qi = if i < p {
                i
            } else {
                i + 1
            };
            assert(q2[i] == q[qi]);
            assert(q[qi] != x);
            assert(r.contains(q[qi]));
            let j = choose|j: int| 0 <= j < r.len() && r[j] == q[qi];
            assert(j != r.len() - 1);
            assert(r2[j] == q[qi]);
        }
        assert(q2.no_duplicates()) by {
            assert forall|i: int, j: int| 0 <= i < q2.len() && 0 <= j < q2.len() && i != j implies q2[i]
                != q2[j] by {
                let qi = if i < p {
                    i
                } else {
                    i + 1
                };
                let qj = if j < p {
                    j
                } else {
                    j + 1
                };
                assert(q2[i] == q[qi] && q2[j] == q[qj]);
            }
        }
        lemma_sum_within(q2, r2, f);
        let g2 = restrict(q2, f);
        assert forall|i: int| 0 <= i < r2.len() implies g(#[trigger] r2[i]) == g2(r2[i]) by {
            let k = r2[i];
            assert(r2.contains(k));
            assert(k != x);
            if q.contains(k) {
                let a = choose|a: int| 0 <= a < q.len() && q[a] == k;
                assert(a != p);
                if a < p {
                    assert(q2[a] == k);
                } else {
                    assert(q2[a - 1] == k);
                }
            }
            if q2.contains(k) {
                let a = choose|a: int| 0 <= a < q2.len() && q2[a] == k;
                if a < p {
                    assert(q[a] == k);
                } else {
                    assert(q[a + 1] == k);
                }
            }
        }
        lemma_sum_ext(r2, g, g2);
    } else {
        assert forall|i: int| 0 <= i < q.len() implies r2.contains(#[trigger] q[i]) by {
            assert(r.contains(q[i]));
            let j = choose|j: int| 0 <= j < r.len() && r[j] == q[i];
            assert(q[i] != x);
            assert(j != r.len() - 1);
            assert(r2[j] == q[i]);
        }
        lemma_sum_within(q, r2, f);
    }
}

/// The stars of each column, as a number.
pub open spec fn weight_of(columns: Seq<GridLength<Ticks>>) -> spec_fn(usize) -> int {
    |k: usize| columns[k as int]->Star_0.0 as int
}

/// The size of each column, as a number.
pub open spec fn size_of(sizes: Seq<Ticks>) -> spec_fn(usize) -> int {
    |k: usize| sizes[k as int].0 as int
}

/// `l` times `f`, less `g`.
pub open spec fn scaled_less(l: int, f: spec_fn(usize) -> int, g: spec_fn(usize) -> int) -> spec_fn(
    usize,
) -> int {
    |k: usize| l * f(k) - g(k)
}

proof fn lemma_sum_scaled_less(q: Seq<usize>, l: int, f: spec_fn(usize) -> int, g: spec_fn(usize) -> int)
    ensures
        sum_over(q, scaled_less(l, f, g)) == l * sum_over(q, f) - sum_over(q, g),
    decreases q.len(),
{
    if q.len() > 0 {
        lemma_sum_scaled_less(q.drop_last(), l, f, g);
        let a = sum_over(q.drop_last(), f);
        let x = f(q.last());
        assert(l * (a + x) == l * a + l * x) by (nonlinear_arith);
    }
}

/// The star columns `sorted` that the fill reaches from position `i`, with
/// `star_count` and `remaining` holding the stars and the space of the
/// first `i` plus `total`: the fill stops at some position `j`, giving the
/// first `j + 1` columns the level `l`, the quotient of their space by
/// their stars.
proof fn lemma_star_fill_ticks(
    sizes: Seq<Ticks>,
    columns: Seq<GridLength<Ticks>>,
    sorted: Seq<usize>,
    i: int,
    total: int,
    star_count: Ticks,
    remaining: Ticks,
) -> (res: (int, int))
    requires
        0 <= i < sorted.len(),
        sizes.len() == columns.len(),
        columns.len() <= usize::MAX,
        forall|q: int|
            0 <= q < sorted.len() ==> #[trigger] sorted[q] < sizes.len() && columns[sorted[q] as int] is Star
                && weight_of(columns)(sorted[q]) >= 1 && size_of(sizes)(sorted[q]) >= 0,
        total >= 0,
        total + sum_over(sorted, size_of(sizes)) + sum_over(sorted, weight_of(columns)) <= i64::MAX,
        star_count.0 == sum_over(sorted.take(i), weight_of(columns)),
        remaining.0 == total + sum_over(sorted.take(i), size_of(sizes)),
    ensures
        i <= res.0 < sorted.len(),
        0 <= res.1,
        res.1 * sum_over(sorted.take(res.0 + 1), weight_of(columns)) <= total + sum_over(
            sorted.take(res.0 + 1),
            size_of(sizes),
        ),
        total + sum_over(sorted.take(res.0 + 1), size_of(sizes)) < (res.1 + 1) * sum_over(
            sorted.take(res.0 + 1),
            weight_of(columns),
        ),
        forall|q: int|
            0 <= q <= res.0 ==> 0 <= res.1 * weight_of(columns)(#[trigger] sorted[q]) <= i64::MAX,
        star_fill(sizes, columns, sorted, i, star_count, remaining) == Seq::new(
            sizes.len(),
            |c: int|
                if sorted.take(res.0 + 1).contains(c as usize) {
                    Ticks((res.1 * weight_of(columns)(c as usize)) as i64)
                } else {
                    sizes[c]
                },
        ),
    decreases sorted.len() - i,
{
    let w = weight_of(columns);
    let s = size_of(sizes);
    lemma_sum_prefix_step(sorted, i, w);
    lemma_sum_prefix_step(sorted, i, s);
    lemma_sum_bounds(sorted, i + 1, w);
    lemma_sum_bounds(sorted, i + 1, s);
    lemma_sum_bounds(sorted, i, w);
    lemma_sum_bounds(sorted, i, s);
    lemma_sum_bounds(sorted, 0, w);
    let ww = sum_over(sorted.take(i + 1), w);
    let n = total + sum_over(sorted.take(i + 1), s);
    let k = sorted[i];
    assert(star_count.spec_plus(columns[k as int]->Star_0) == Ticks(ww as i64));
    assert(remaining.spec_plus(sizes[k as int]) == Ticks(n as i64));
    assert(ww >= 1);
    let l = n / ww;
    vstd::arithmetic::div_mod::lemma_fundamental_div_mod(n, ww);
    vstd::arithmetic::div_mod::lemma_mod_pos_bound(n, ww);
    vstd::arithmetic::div_mod::lemma_div_pos_is_pos(n, ww);
    assert(l * ww <= n && n < (l + 1) * ww) by (nonlinear_arith)
        requires
            n == ww * l + n % ww,
            0 <= n % ww < ww,
    ;
    assert(l <= n) by (nonlinear_arith)
        requires
            l * ww <= n,
            ww >= 1,
            l >= 0,
    ;
    let new = shared_size_per_star(sizes, columns, sorted, i, star_count, remaining);
    assert(truncated_div(n, ww) == l);
    assert(new == Ticks(l as i64));
    let next = if i + 1 < sorted.len() {
        size_per_star(sizes, columns, sorted[i + 1])
    } else {
        Ticks::spec_infinity()
    };
    if !next.spec_leq(new) {
        let take = sorted.take(i + 1);
        assert forall|q: int| 0 <= q <= i implies 0 <= l * w(#[trigger] sorted[q]) <= i64::MAX by {
            assert forall|r: int| 0 <= r < take.len() implies w(#[trigger] take[r]) >= 0 by {
                assert(take[r] == sorted[r]);
            }
            lemma_sum_bounds(take, q, w);
            assert(take[q] == sorted[q]);
            let x = w(sorted[q]);
            assert(0 <= l * x <= l * ww) by (nonlinear_arith)
                requires
                    0 <= x <= ww,
                    0 <= l,
            ;
        }
        let expected = Seq::new(
            sizes.len(),
            |c: int|
                if take.contains(c as usize) {
                    Ticks((l * w(c as usize)) as i64)
                } else {
                    sizes[c]
                },
        );
        let fill = star_fill(sizes, columns, sorted, i, star_count, remaining);
        assert forall|c: int| 0 <= c < sizes.len() implies #[trigger] fill[c] == expected[c] by {
            if take.contains(c as usize) {
                let q = choose|q: int| 0 <= q < take.len() && #[trigger] take[q] == c as usize;
                assert(take[q] == sorted[q]);
                assert(0 <= l * w(sorted[q]) <= i64::MAX);
                assert(columns[c]->Star_0.0 == w(c as usize));
            }
        }
        assert(fill =~= expected);
        (i, l)
    } else {
        if i + 1 >= sorted.len() {
            assert(sum_over(sorted.take(i + 1), s) <= sum_over(sorted, s));
            assert(sorted.take(sorted.len() as int) =~= sorted);
            assert(false);
        }
        lemma_star_fill_ticks(
            sizes,
            columns,
            sorted,
            i + 1,
            total,
            star_count.spec_plus(columns[k as int]->Star_0),
            remaining.spec_plus(sizes[k as int]),
        )
    }
}

/// The star columns of a run come from left to right, each once.
proof fn lemma_star_columns_distinct<T>(columns: Seq<GridLength<T>>, start: int, span: nat)
    requires
        0 <= start,
        start + span <= usize::MAX,
    ensures
        star_columns(columns, start, span).no_duplicates(),
        forall|a: int, b: int|
            0 <= a < b < star_columns(columns, start, span).len() ==> #[trigger] star_columns(
                columns,
                start,
                span,
            )[a] < #[trigger] star_columns(columns, start, span)[b],
    decreases span,
{
    lemma_star_columns(columns, start, span);
    if span > 0 {
        lemma_star_columns_distinct(columns, start, (span - 1) as nat);
        lemma_star_columns(columns, start, (span - 1) as nat);
    }
}

/// Sorting columns that come each once gives columns that come each once.
proof fn lemma_sort_distinct<T: Divisible>(
    sizes: Seq<T>,
    columns: Seq<GridLength<T>>,
    idx: Seq<usize>,
)
    requires
        idx.no_duplicates(),
    ensures
        sort_by_size_per_star(sizes, columns, idx).no_duplicates(),
    decreases idx.len(),
{
    if idx.len() > 0 {
        let prev = idx.drop_last();
        assert(prev.no_duplicates()) by {
            assert forall|i: int, j: int| 0 <= i < prev.len() && 0 <= j < prev.len() && i != j implies prev[i]
                != prev[j] by {
                assert(prev[i] == idx[i] && prev[j] == idx[j]);
            }
        }
        lemma_sort_distinct(sizes, columns, prev);
        lemma_sort_members(sizes, columns, prev);
        let sorted = sort_by_size_per_star(sizes, columns, prev);
        let x = idx.last();
        lemma_insert_pos_bound(sizes, columns, sorted, x);
        let p = insert_pos(sizes, columns, sorted, x) as int;
        sorted.insert_ensures(p, x);
        let res = sorted.insert(p, x);
        assert(!sorted.contains(x)) by {
            if sorted.contains(x) {
                assert(prev.contains(x));
                let q = choose|q: int| 0 <= q < prev.len() && prev[q] == x;
                assert(idx[q] == x && idx[idx.len() - 1] == x);
            }
        }
        assert forall|i: int, j: int| 0 <= i < res.len() && 0 <= j < res.len() && i != j implies res[i]
            != res[j] by {
            let si = if i < p {
                i
            } else {
                i - 1
            };
            let sj = if j < p {
                j
            } else {
                j - 1
            };
            if i == p {
                assert(res[j] == sorted[sj]);
                assert(sorted.contains(sorted[sj]));
            } else if j == p {
                assert(res[i] == sorted[si]);
                assert(sorted.contains(sorted[si]));
            } else {
                assert(res[i] == sorted[si] && res[j] == sorted[sj]);
            }
        }
    }
}

/// The sum of the sizes of `span` columns from `start`, in ticks.
pub open spec fn span_ticks(sizes: Seq<Ticks>, start: int, span: nat) -> int
    decreases span,
{
    if span == 0 {
        0
    } else {
        span_ticks(sizes, start, (span - 1) as nat) + sizes[start + span - 1].0
    }
}

/// How much each column grew from `old` to `new`, in ticks.
pub open spec fn growth_of(old: Seq<Ticks>, new: Seq<Ticks>) -> spec_fn(usize) -> int {
    |k: usize| new[k as int].0 - old[k as int].0
}

/// The total stars of the star columns of a run.
pub open spec fn star_weight_total(columns: Seq<GridLength<Ticks>>, start: int, span: nat) -> int {
    sum_over(star_columns(columns, start, span), weight_of(columns))
}

/// The total size of the star columns of a run.
pub open spec fn star_size_total(
    sizes: Seq<Ticks>,
    columns: Seq<GridLength<Ticks>>,
    start: int,
    span: nat,
) -> int {
    sum_over(star_columns(columns, start, span), size_of(sizes))
}

/// When only star columns change, a run grows by what its star columns grow.
proof fn lemma_span_growth(
    old: Seq<Ticks>,
    new: Seq<Ticks>,
    columns: Seq<GridLength<Ticks>>,
    start: int,
    span: nat,
)
    requires
        0 <= start,
        start + span <= usize::MAX,
        forall|k: int| start <= k < start + span && !(columns[k] is Star) ==> #[trigger] new[k] == old[k],
    ensures
        span_ticks(new, start, span) - span_ticks(old, start, span) == sum_over(
            star_columns(columns, start, span),
            growth_of(old, new),
        ),
    decreases span,
{
    if span > 0 {
        lemma_span_growth(old, new, columns, start, (span - 1) as nat);
        let k = start + span - 1;
        if !(columns[k] is Star) {
            assert(new[k] == old[k]);
        } else {
            let prev = star_columns(columns, start, (span - 1) as nat);
            assert(star_columns(columns, start, span).drop_last() =~= prev);
        }
    }
}

/// Law of the star columns on tick counts: when the star columns of a run
/// have at least one star each and no negative size, `remaining` is not
/// negative, and no sum involved leaves the range of `i64`, growing the star
/// columns by `remaining` adds to the run at most `remaining`, and less
/// than it by fewer ticks than the run's star columns have stars, since each
/// column grows to a whole number of ticks per star. With no star column
/// nothing grows.
pub proof fn lemma_star_ratio_total(
    sizes: Seq<Ticks>,
    columns: Seq<GridLength<Ticks>>,
    start: int,
    span: nat,
    remaining: Ticks,
)
    requires
        sizes.len() == columns.len(),
        columns.len() <= usize::MAX,
        0 <= start,
        start + span <= columns.len(),
        forall|k: int|
            start <= k < start + span && #[trigger] columns[k] is Star ==> columns[k]->Star_0.0 >= 1
                && sizes[k].0 >= 0,
        remaining.0 >= 0,
        remaining.0 + star_size_total(sizes, columns, start, span) + star_weight_total(
            columns,
            start,
            span,
        ) <= i64::MAX,
    ensures
        star_columns(columns, start, span).len() == 0 ==> span_ticks(
            expand_by_star(sizes, columns, start, span, remaining).1,
            start,
            span,
        ) == span_ticks(sizes, start, span),
        star_columns(columns, start, span).len() > 0 ==> remaining.0 - star_weight_total(
            columns,
            start,
            span,
        ) < span_ticks(expand_by_star(sizes, columns, start, span, remaining).1, start, span)
            - span_ticks(sizes, start, span) <= remaining.0,
{
    let stars = star_columns(columns, start, span);
    lemma_star_columns(columns, start, span);
    lemma_star_columns_distinct(columns, start, span);
    if stars.len() == 0 {
        return;
    }
    let w = weight_of(columns);
    let s = size_of(sizes);
    let r = remaining.0 as int;
    let sorted = sort_by_size_per_star(sizes, columns, stars);
    lemma_sort_members(sizes, columns, stars);
    lemma_sort_complete(sizes, columns, stars);
    lemma_sort_distinct(sizes, columns, stars);
    assert forall|q: int| 0 <= q < sorted.len() implies #[trigger] sorted[q] < sizes.len()
        && columns[sorted[q] as int] is Star && w(sorted[q]) >= 1 && s(sorted[q]) >= 0 by {
        assert(sorted.contains(sorted[q]));
        assert(stars.contains(sorted[q]));
        let a = choose|a: int| 0 <= a < stars.len() && stars[a] == sorted[q];
        assert(start <= stars[a] < start + span);
    }
    assert forall|q: int| 0 <= q < sorted.len() implies stars.contains(#[trigger] sorted[q]) by {
        assert(sorted.contains(sorted[q]));
    }
    // Sums over the sorted columns are sums over the star columns.
    lemma_sum_within(sorted, stars, w);
    lemma_sum_within(sorted, stars, s);
    assert forall|a: int| 0 <= a < stars.len() implies #[trigger] stars[a] == stars[a] && sorted.contains(
        stars[a],
    ) by {
        assert(stars.contains(stars[a]));
    }
    lemma_sum_ext(stars, restrict(sorted, w), w);
    lemma_sum_ext(stars, restrict(sorted, s), s);
    assert(sorted.take(0) =~= Seq::<usize>::empty());
    let (j, l) = lemma_star_fill_ticks(sizes, columns, sorted, 0, r, Ticks(0), remaining);
    let new = expand_by_star(sizes, columns, start, span, remaining).1;
    let take = sorted.take(j + 1);
    assert(new == Seq::new(
        sizes.len(),
        |c: int|
            if take.contains(c as usize) {
                Ticks((l * w(c as usize)) as i64)
            } else {
                sizes[c]
            },
    ));
    // Only star columns change.
    assert forall|k: int| start <= k < start + span && !(columns[k] is Star) implies #[trigger] new[k]
        == sizes[k] by {
        if take.contains(k as usize) {
            let q = choose|q: int| 0 <= q < take.len() && take[q] == k as usize;
            assert(take[q] == sorted[q]);
        }
    }
    let g = growth_of(sizes, new);
    lemma_span_growth(sizes, new, columns, start, span);
    lemma_sum_within(sorted, stars, g);
    lemma_sum_ext(stars, restrict(sorted, g), g);
    // The columns past the stopping point do not change.
    let rest = sorted.skip(j + 1);
    assert(sorted =~= take + rest);
    lemma_sum_append(take, rest, g);
    assert forall|q: int| 0 <= q < rest.len() implies g(#[trigger] rest[q]) == 0 by {
        let k = rest[q];
        assert(k == sorted[j + 1 + q]);
        if take.contains(k) {
            let a = choose|a: int| 0 <= a < take.len() && take[a] == k;
            assert(take[a] == sorted[a]);
        }
    }
    lemma_sum_zero(rest, g);
    // The columns up to it reach the level.
    let lin = scaled_less(l, w, s);
    assert forall|q: int| 0 <= q < take.len() implies g(#[trigger] take[q]) == lin(take[q]) by {
        assert(take[q] == sorted[q]);
        assert(take.contains(take[q]));
        assert(0 <= l * w(sorted[q]) <= i64::MAX);
    }
    lemma_sum_ext(take, g, lin);
    lemma_sum_scaled_less(take, l, w, s);
    lemma_sum_bounds(sorted, j + 1, w);
    let ww = sum_over(take, w);
    let ss = sum_over(take, s);
    assert((l + 1) * ww == l * ww + ww) by (nonlinear_arith);
    assert(sum_over(sorted, g) == l * ww - ss);
    assert(sum_over(stars, g) == sum_over(sorted, g));
    assert(ww <= star_weight_total(columns, start, span));
}

} // verus!
