//! Column arithmetic of the grid layout: the sizes of the columns and how
//! they grow to fit the children.
use vstd::prelude::*;

use crate::grid::GridLength;
use crate::scalar::{Additive, Divisible, Ordered};

pub mod totals;

verus! {

/// A run of grid columns that lies inside the grid: `span` columns starting
/// at column `start`.
#[derive(Debug, Clone, Copy)]
pub struct NormalizedSpan {
    start: usize,
    span: usize,
}

impl NormalizedSpan {
    /// The first column of the span.
    pub closed spec fn spec_start(self) -> usize {
        self.start
    }

    /// The number of columns in the span.
    pub closed spec fn spec_span(self) -> usize {
        self.span
    }

    /// The first column of the span.
    pub fn start(&self) -> (res: usize)
        ensures
            res == self.spec_start(),
    {
        self.start
    }

    /// The number of columns in the span.
    pub fn span(&self) -> (res: usize)
        ensures
            res == self.spec_span(),
    {
        self.span
    }
}

/// The start and length of the run of columns that [`normalize_span`] gives.
pub open spec fn spec_normalize(n_columns: nat, column: nat, span: nat) -> (nat, nat) {
    let start = if column < n_columns - 1 {
        column
    } else {
        (n_columns - 1) as nat
    };
    let len = if span < n_columns - start {
        span
    } else {
        (n_columns - start) as nat
    };
    (start, len)
}

/// Clamp a requested run of columns into a grid of `n_columns` columns: the
/// start moves to the last column if it lies beyond it, and the span is cut
/// at the end of the grid.
pub fn normalize_span(n_columns: usize, column: usize, span: usize) -> (res: NormalizedSpan)
    requires
        n_columns > 0,
    ensures
        res.spec_start() == if column < n_columns - 1 {
            column
        } else {
            (n_columns - 1) as usize
        },
        res.spec_span() == if span < n_columns - res.spec_start() {
            span
        } else {
            (n_columns - res.spec_start()) as usize
        },
        res.spec_start() < n_columns,
        res.spec_start() + res.spec_span() <= n_columns,
        (res.spec_start() as nat, res.spec_span() as nat) == spec_normalize(
            n_columns as nat,
            column as nat,
            span as nat,
        ),
{
    let start = if column < n_columns - 1 {
        column
    } else {
        n_columns - 1
    };
    let rest = n_columns - start;
    let span = if span < rest {
        span
    } else {
        rest
    };
    NormalizedSpan { start, span }
}

/// The running sums of `s`, starting with zero: element `k` is the sum of the
/// first `k` elements of `s`.
pub open spec fn prefix_sums<T: Additive>(s: Seq<T>) -> Seq<T>
    decreases s.len(),
{
    if s.len() == 0 {
        seq![T::spec_zero()]
    } else {
        let prev = prefix_sums(s.drop_last());
        prev.push(prev.last().spec_plus(s.last()))
    }
}

/// The running sums are one longer than the input, start at zero, and each
/// adds the next element to the one before.
pub proof fn lemma_prefix_sums_shape<T: Additive>(s: Seq<T>)
    ensures
        prefix_sums(s).len() == s.len() + 1,
        prefix_sums(s)[0] == T::spec_zero(),
        forall|k: int| 0 <= k < s.len() ==> #[trigger] prefix_sums(s)[k + 1] == prefix_sums(s)[k].spec_plus(s[k]),
    decreases s.len(),
{
    if s.len() > 0 {
        lemma_prefix_sums_shape(s.drop_last());
    }
}

/// The running sums of `arr`, with a zero in front: element `k` of the result
/// is the sum of the first `k` elements of `arr`.
pub fn prefix_sum<T: Additive>(arr: &[T]) -> (res: Vec<T>)
    ensures
        res@ == prefix_sums(arr@),
        res@.len() == arr@.len() + 1,
        res@[0] == T::spec_zero(),
        forall|k: int| 0 <= k < arr@.len() ==> #[trigger] res@[k + 1] == res@[k].spec_plus(arr@[k]),
{
    let mut res: Vec<T> = Vec::new();
    let mut sum = T::zero();
    res.push(sum);
    let n = arr.len();
    let mut i: usize = 0;
    while i < n
        invariant
            n == arr@.len(),
            i <= n,
            res@ == prefix_sums(arr@.take(i as int)),
            sum == res@.last(),
        decreases n - i,
    {
        sum = sum.plus(arr[i]);
        res.push(sum);
        assert(arr@.take(i + 1).drop_last() =~= arr@.take(i as int));
        i += 1;
    }
    assert(arr@.take(n as int) =~= arr@);
    proof {
        lemma_prefix_sums_shape(arr@);
    }
    res
}

/// The sum of `s`, added from the first element on, starting at zero.
pub open spec fn seq_sum<T: Additive>(s: Seq<T>) -> T
    decreases s.len(),
{
    if s.len() == 0 {
        T::spec_zero()
    } else {
        seq_sum(s.drop_last()).spec_plus(s.last())
    }
}

/// The size a column starts with: its width when fixed, zero otherwise.
pub open spec fn initial_size<T: Additive>(c: GridLength<T>) -> T {
    match c {
        GridLength::Fixed(v) => v,
        _ => T::spec_zero(),
    }
}

/// The number of auto columns among `span` columns from `start`.
pub open spec fn auto_count<T>(columns: Seq<GridLength<T>>, start: int, span: nat) -> nat
    decreases span,
{
    if span == 0 {
        0
    } else {
        auto_count(columns, start, (span - 1) as nat) + if columns[start + span - 1] is Auto {
            1nat
        } else {
            0nat
        }
    }
}

/// Grow the auto columns among `span` columns from `start` by equal parts of
/// `remaining`: whether there was any, and the new sizes.
pub open spec fn expand_by_auto<T: Divisible>(
    sizes: Seq<T>,
    columns: Seq<GridLength<T>>,
    start: int,
    span: nat,
    remaining: T,
) -> (bool, Seq<T>) {
    let n = auto_count(columns, start, span);
    if n == 0 {
        (false, sizes)
    } else {
        let inc = remaining.spec_div(T::spec_from_count(n as usize));
        (
            true,
            Seq::new(
                sizes.len(),
                |k: int|
                    if start <= k < start + span && columns[k] is Auto {
                        sizes[k].spec_plus(inc)
                    } else {
                        sizes[k]
                    },
            ),
        )
    }
}

/// The star columns among `span` columns from `start`, from left to right.
pub open spec fn star_columns<T>(columns: Seq<GridLength<T>>, start: int, span: nat) -> Seq<usize>
    decreases span,
{
    if span == 0 {
        Seq::empty()
    } else {
        let prev = star_columns(columns, start, (span - 1) as nat);
        if columns[start + span - 1] is Star {
            prev.push((start + span - 1) as usize)
        } else {
            prev
        }
    }
}

/// The size of column `k` per star.
pub open spec fn size_per_star<T: Divisible>(sizes: Seq<T>, columns: Seq<GridLength<T>>, k: usize) -> T {
    sizes[k as int].spec_div(columns[k as int]->Star_0)
}

/// Where column `x` goes into `sorted`: after every column whose size per
/// star is not greater, looking from the back.
pub open spec fn insert_pos<T: Divisible>(
    sizes: Seq<T>,
    columns: Seq<GridLength<T>>,
    sorted: Seq<usize>,
    x: usize,
) -> nat
    decreases sorted.len(),
{
    if sorted.len() == 0 {
        0
    } else if size_per_star(sizes, columns, sorted.last()).spec_leq(size_per_star(sizes, columns, x)) {
        sorted.len()
    } else {
        insert_pos(sizes, columns, sorted.drop_last(), x)
    }
}

/// The columns `idx` ordered by size per star; columns with equal sizes per
/// star keep their order (a stable sort).
pub open spec fn sort_by_size_per_star<T: Divisible>(
    sizes: Seq<T>,
    columns: Seq<GridLength<T>>,
    idx: Seq<usize>,
) -> Seq<usize>
    decreases idx.len(),
{
    if idx.len() == 0 {
        Seq::empty()
    } else {
        let sorted = sort_by_size_per_star(sizes, columns, idx.drop_last());
        sorted.insert(insert_pos(sizes, columns, sorted, idx.last()) as int, idx.last())
    }
}

/// The size per star after the first `i + 1` of the `sorted` star columns
/// share `remaining` more space with what they have: `star_count` and
/// `remaining` hold the stars and space of the first `i` ones.
pub open spec fn shared_size_per_star<T: Divisible>(
    sizes: Seq<T>,
    columns: Seq<GridLength<T>>,
    sorted: Seq<usize>,
    i: int,
    star_count: T,
    remaining: T,
) -> T {
    remaining.spec_plus(sizes[sorted[i] as int]).spec_div(
        star_count.spec_plus(columns[sorted[i] as int]->Star_0),
    )
}

/// Fill the star columns in `sorted` from the one with the least size per
/// star: the first columns that, sharing the space equally per star, stay
/// below the size per star of the next one get that share; the others keep
/// their size.
pub open spec fn star_fill<T: Divisible>(
    sizes: Seq<T>,
    columns: Seq<GridLength<T>>,
    sorted: Seq<usize>,
    i: int,
    star_count: T,
    remaining: T,
) -> Seq<T>
    decreases sorted.len() - i,
{
    if i < 0 || i >= sorted.len() {
        sizes
    } else {
        let next = if i + 1 < sorted.len() {
            size_per_star(sizes, columns, sorted[i + 1])
        } else {
            T::spec_infinity()
        };
        let new = shared_size_per_star(sizes, columns, sorted, i, star_count, remaining);
        if !next.spec_leq(new) {
            Seq::new(
                sizes.len(),
                |c: int|
                    if sorted.take(i + 1).contains(c as usize) {
                        new.spec_times(columns[c]->Star_0)
                    } else {
                        sizes[c]
                    },
            )
        } else {
            star_fill(
                sizes,
                columns,
                sorted,
                i + 1,
                star_count.spec_plus(columns[sorted[i] as int]->Star_0),
                remaining.spec_plus(sizes[sorted[i] as int]),
            )
        }
    }
}

/// Grow the star columns among `span` columns from `start` by `remaining`,
/// in proportion to their stars: whether there was any, and the new sizes.
pub open spec fn expand_by_star<T: Divisible>(
    sizes: Seq<T>,
    columns: Seq<GridLength<T>>,
    start: int,
    span: nat,
    remaining: T,
) -> (bool, Seq<T>) {
    let stars = star_columns(columns, start, span);
    if stars.len() == 0 {
        (false, sizes)
    } else {
        (
            true,
            star_fill(
                sizes,
                columns,
                sort_by_size_per_star(sizes, columns, stars),
                0,
                T::spec_zero(),
                remaining,
            ),
        )
    }
}

/// Grow `span` columns from `start` so that together they are at least
/// `required` long: nothing to do when they already are; a single column
/// that is not fixed takes `required`; otherwise the star columns take the
/// missing space, or, without star columns, the auto columns. Whether the
/// columns fit or grew, and the new sizes.
pub open spec fn expand_to_fit<T: Divisible>(
    sizes: Seq<T>,
    columns: Seq<GridLength<T>>,
    start: int,
    span: nat,
    required: T,
) -> (bool, Seq<T>) {
    let current = seq_sum(sizes.subrange(start, start + span));
    if required.spec_leq(current) {
        (true, sizes)
    } else if span == 1 {
        if columns[start] is Fixed {
            (false, sizes)
        } else {
            (true, sizes.update(start, required))
        }
    } else {
        let remaining = required.spec_minus(current);
        let by_star = expand_by_star(sizes, columns, start, span, remaining);
        if by_star.0 {
            by_star
        } else {
            expand_by_auto(sizes, columns, start, span, remaining)
        }
    }
}

/// What a [`GridHelper`] holds: the current size of each column and the
/// columns themselves.
#[verifier::ext_equal]
pub struct GridHelperView<T> {
    pub sizes: Seq<T>,
    pub columns: Seq<GridLength<T>>,
}

/// The sizes of the columns of a grid while they grow to fit its children.
pub struct GridHelper<T> {
    column_sizes: Vec<T>,
    columns: Vec<GridLength<T>>,
}

impl<T> View for GridHelper<T> {
    type V = GridHelperView<T>;

    closed spec fn view(&self) -> GridHelperView<T> {
        GridHelperView { sizes: self.column_sizes@, columns: self.columns@ }
    }
}

impl<T> GridHelperView<T> {
    /// There is one size per column, and at least one column.
    pub open spec fn wf(self) -> bool {
        &&& self.sizes.len() == self.columns.len()
        &&& self.columns.len() > 0
    }
}

/// The weight of a star column.
fn star_weight<T: Additive>(c: &GridLength<T>) -> (res: T)
    requires
        *c is Star,
    ensures
        res == c->Star_0,
{
    match c {
        GridLength::Star(v) => *v,
        _ => T::zero(),
    }
}

impl NormalizedSpan {
    /// The run of `span` columns from column `start`, taken as it is.
    pub fn new(start: usize, span: usize) -> (res: NormalizedSpan)
        ensures
            res.spec_start() == start,
            res.spec_span() == span,
    {
        NormalizedSpan { start, span }
    }
}

/// `take(j + 1)` holds what `take(j)` holds and the element at `j`.
proof fn lemma_take_contains_step(s: Seq<usize>, j: int, c: usize)
    requires
        0 <= j < s.len(),
    ensures
        s.take(j + 1).contains(c) <==> (s.take(j).contains(c) || s[j] == c),
{
    let prev = s.take(j);
    let next = s.take(j + 1);
    if prev.contains(c) {
        let k = choose|k: int| 0 <= k < prev.len() && #[trigger] prev[k] == c;
        assert(next[k] == c);
    }
    if s[j] == c {
        assert(next[j] == c);
    }
    if next.contains(c) && s[j] != c {
        let k = choose|k: int| 0 <= k < next.len() && #[trigger] next[k] == c;
        assert(k != j);
        assert(prev[k] == c);
    }
}

impl<T: Divisible> GridHelper<T> {
    /// The sizes of `columns` before any child is fitted: fixed columns have
    /// their width, the others zero.
    pub fn new(columns: &[GridLength<T>]) -> (res: Self)
        ensures
            res@.columns == columns@,
            res@.sizes == Seq::new(columns@.len(), |k: int| initial_size(columns@[k])),
    {
        let mut column_sizes: Vec<T> = Vec::new();
        let mut cols: Vec<GridLength<T>> = Vec::new();
        let mut i: usize = 0;
        while i < columns.len()
            invariant
                i <= columns@.len(),
                column_sizes@ == Seq::new(i as nat, |k: int| initial_size(columns@[k])),
                cols@ == columns@.take(i as int),
            decreases columns@.len() - i,
        {
            let c = columns[i];
            let size = match c {
                GridLength::Fixed(v) => v,
                _ => T::zero(),
            };
            column_sizes.push(size);
            cols.push(c);
            i += 1;
            assert(column_sizes@ =~= Seq::new(i as nat, |k: int| initial_size(columns@[k])));
            assert(cols@ =~= columns@.take(i as int));
        }
        assert(cols@ =~= columns@);
        GridHelper { column_sizes, columns: cols }
    }

    /// The columns with sizes given: one size per column.
    pub fn new_with_column_sizes(columns: &[GridLength<T>], column_sizes: Vec<T>) -> (res: Self)
        requires
            columns@.len() == column_sizes@.len(),
        ensures
            res@ == (GridHelperView { sizes: column_sizes@, columns: columns@ }),
    {
        let mut cols: Vec<GridLength<T>> = Vec::new();
        let mut i: usize = 0;
        while i < columns.len()
            invariant
                i <= columns@.len(),
                cols@ == columns@.take(i as int),
            decreases columns@.len() - i,
        {
            cols.push(columns[i]);
            i += 1;
            assert(cols@ =~= columns@.take(i as int));
        }
        assert(cols@ =~= columns@);
        GridHelper { column_sizes, columns: cols }
    }

    /// Where each column starts, and, last, where the grid ends.
    pub fn column_starts(&self) -> (res: Vec<T>)
        ensures
            res@ == prefix_sums(self@.sizes),
    {
        prefix_sum(self.column_sizes.as_slice())
    }

    /// The sizes of the columns.
    pub fn into_column_sizes(self) -> (res: Vec<T>)
        ensures
            res@ == self@.sizes,
    {
        self.column_sizes
    }

    /// The run of columns `span` columns from `column`, clamped into the grid.
    pub fn normalize_span(&self, column: usize, span: usize) -> (res: NormalizedSpan)
        requires
            self@.columns.len() > 0,
        ensures
            (res.spec_start() as nat, res.spec_span() as nat) == spec_normalize(
                self@.columns.len(),
                column as nat,
                span as nat,
            ),
            res.spec_start() + res.spec_span() <= self@.columns.len(),
    {
        normalize_span(self.columns.len(), column, span)
    }

    /// The sum of the sizes of `span` columns from `start`.
    fn span_sum(&self, start: usize, span: usize) -> (res: T)
        requires
            start + span <= self@.sizes.len(),
        ensures
            res == seq_sum(self@.sizes.subrange(start as int, start + span)),
    {
        let mut acc = T::zero();
        let total = self.column_sizes.len();
        let mut i: usize = 0;
        while i < span
            invariant
                i <= span,
                total == self@.sizes.len(),
                start + span <= self@.sizes.len(),
                acc == seq_sum(self@.sizes.subrange(start as int, start + i)),
            decreases span - i,
        {
            acc = acc.plus(self.column_sizes[start + i]);
            assert(self@.sizes.subrange(start as int, start + i + 1).drop_last() =~= self@.sizes.subrange(
                start as int,
                start + i,
            ));
            i += 1;
        }
        acc
    }

    /// The size per star of the star column `k`.
    fn size_per_star(&self, k: usize) -> (res: T)
        requires
            k < self@.sizes.len(),
            k < self@.columns.len(),
            self@.columns[k as int] is Star,
        ensures
            res == size_per_star(self@.sizes, self@.columns, k),
    {
        self.column_sizes[k].div(star_weight(&self.columns[k]))
    }

    /// Grow the whole grid to at least `required`; whether it fits.
    pub fn expand_to_fit(&mut self, required: T) -> (res: bool)
        requires
            old(self)@.wf(),
        ensures
            (res, final(self)@.sizes) == expand_to_fit(
                old(self)@.sizes,
                old(self)@.columns,
                0,
                old(self)@.columns.len(),
                required,
            ),
            final(self)@.columns == old(self)@.columns,
            final(self)@.wf(),
    {
        let span = NormalizedSpan { start: 0, span: self.columns.len() };
        self.expand_span_to_fit(span, required)
    }

    /// Grow the columns of `span` to at least `required` together; whether
    /// they fit, grown or as they were.
    pub fn expand_span_to_fit(&mut self, span: NormalizedSpan, required: T) -> (res: bool)
        requires
            old(self)@.wf(),
            span.spec_start() + span.spec_span() <= old(self)@.columns.len(),
        ensures
            (res, final(self)@.sizes) == expand_to_fit(
                old(self)@.sizes,
                old(self)@.columns,
                span.spec_start() as int,
                span.spec_span() as nat,
                required,
            ),
            final(self)@.columns == old(self)@.columns,
            final(self)@.wf(),
    {
        let start = span.start();
        let len = span.span();
        let current = self.span_sum(start, len);
        if required.leq(current) {
            return true;
        }
        if len == 1 {
            if !self.columns[start].is_fixed() {
                self.column_sizes.set(start, required);
                return true;
            } else {
                return false;
            }
        }
        let remaining = required.minus(current);
        if self.expand_span_by_star_ratio(span, remaining) {
            true
        } else {
            self.expand_span_by_auto_count(span, remaining)
        }
    }

    /// Grow the auto columns of `span` by equal parts of `remaining`; whether
    /// there was any.
    pub fn expand_span_by_auto_count(&mut self, span: NormalizedSpan, remaining: T) -> (res: bool)
        requires
            old(self)@.wf(),
            span.spec_start() + span.spec_span() <= old(self)@.columns.len(),
        ensures
            (res, final(self)@.sizes) == expand_by_auto(
                old(self)@.sizes,
                old(self)@.columns,
                span.spec_start() as int,
                span.spec_span() as nat,
                remaining,
            ),
            final(self)@.columns == old(self)@.columns,
            final(self)@.wf(),
    {
        let start = span.start();
        let len = span.span();
        let ghost cols = self@.columns;
        let ghost sizes0 = self@.sizes;
        let ncol = self.columns.len();
        let mut n_auto: usize = 0;
        let mut i: usize = 0;
        while i < len
            invariant
                i <= len,
                start + len <= cols.len(),
                ncol == cols.len(),
                self@.columns == cols,
                n_auto == auto_count(cols, start as int, i as nat),
                n_auto <= i,
            decreases len - i,
        {
            if self.columns[start + i].is_auto() {
                n_auto += 1;
            }
            i += 1;
        }
        if n_auto == 0 {
            return false;
        }
        let increment = remaining.div(T::from_count(n_auto));
        let mut i: usize = 0;
        while i < len
            invariant
                i <= len,
                start + len <= cols.len(),
                ncol == cols.len(),
                cols.len() == sizes0.len(),
                self@.columns == cols,
                self@.sizes == Seq::new(
                    sizes0.len(),
                    |k: int|
                        if start <= k < start + i && cols[k] is Auto {
                            sizes0[k].spec_plus(increment)
                        } else {
                            sizes0[k]
                        },
                ),
            decreases len - i,
        {
            if self.columns[start + i].is_auto() {
                let v = self.column_sizes[start + i].plus(increment);
                self.column_sizes.set(start + i, v);
            }
            i += 1;
            assert(self@.sizes =~= Seq::new(
                sizes0.len(),
                |k: int|
                    if start <= k < start + i && cols[k] is Auto {
                        sizes0[k].spec_plus(increment)
                    } else {
                        sizes0[k]
                    },
            ));
        }
        true
    }

    /// Grow the star columns of `span` by `remaining` so that their sizes
    /// move toward the ratio of their stars: the columns with the least size
    /// per star grow first, all to the same size per star; whether there was
    /// any star column.
    pub fn expand_span_by_star_ratio(&mut self, span: NormalizedSpan, remaining: T) -> (res: bool)
        requires
            old(self)@.wf(),
            span.spec_start() + span.spec_span() <= old(self)@.columns.len(),
        ensures
            (res, final(self)@.sizes) == expand_by_star(
                old(self)@.sizes,
                old(self)@.columns,
                span.spec_start() as int,
                span.spec_span() as nat,
                remaining,
            ),
            final(self)@.columns == old(self)@.columns,
            final(self)@.wf(),
    {
        let start = span.start();
        let len = span.span();
        let ghost cols = self@.columns;
        let ghost sizes0 = self@.sizes;
        let ncol = self.columns.len();
        let mut stars: Vec<usize> = Vec::new();
        let mut i: usize = 0;
        while i < len
            invariant
                i <= len,
                start + len <= cols.len(),
                ncol == cols.len(),
                self@.columns == cols,
                stars@ == star_columns(cols, start as int, i as nat),
                forall|q: int|
                    0 <= q < stars@.len() ==> (#[trigger] stars@[q]) < cols.len() && cols[stars@[q] as int] is Star,
            decreases len - i,
        {
            if self.columns[start + i].is_star() {
                stars.push(start + i);
            }
            i += 1;
        }
        if stars.len() == 0 {
            return false;
        }
        let mut sorted: Vec<usize> = Vec::new();
        let mut j: usize = 0;
        while j < stars.len()
            invariant
                j <= stars@.len(),
                self@.columns == cols,
                self@.sizes == sizes0,
                sizes0.len() == cols.len(),
                forall|q: int|
                    0 <= q < stars@.len() ==> (#[trigger] stars@[q]) < cols.len() && cols[stars@[q] as int] is Star,
                sorted@ == sort_by_size_per_star(sizes0, cols, stars@.take(j as int)),
                forall|q: int|
                    0 <= q < sorted@.len() ==> (#[trigger] sorted@[q]) < cols.len() && cols[sorted@[q] as int] is Star,
            decreases stars@.len() - j,
        {
            let x = stars[j];
            let key = self.size_per_star(x);
            let mut p = sorted.len();
            assert(sorted@.take(p as int) =~= sorted@);
            while p > 0 && !self.size_per_star(sorted[p - 1]).leq(key)
                invariant
                    p <= sorted@.len(),
                    self@.columns == cols,
                    self@.sizes == sizes0,
                    sizes0.len() == cols.len(),
                    key == size_per_star(sizes0, cols, x),
                    forall|q: int|
                        0 <= q < sorted@.len() ==> (#[trigger] sorted@[q]) < cols.len() && cols[sorted@[q] as int] is Star,
                    insert_pos(sizes0, cols, sorted@, x) == insert_pos(sizes0, cols, sorted@.take(p as int), x),
                decreases p,
            {
                assert(sorted@.take(p as int).drop_last() =~= sorted@.take(p - 1));
                p -= 1;
            }
            assert(insert_pos(sizes0, cols, sorted@, x) == p) by {
                if p > 0 {
                    assert(sorted@.take(p as int).last() == sorted@[p - 1]);
                }
            }
            let ghost before = sorted@;
            sorted.insert(p, x);
            proof {
                before.insert_ensures(p as int, x);
                assert(stars@.take(j + 1).drop_last() =~= stars@.take(j as int));
                assert forall|q: int| 0 <= q < sorted@.len() implies (#[trigger] sorted@[q]) < cols.len()
                    && cols[sorted@[q] as int] is Star by {
                    if q < p {
                        assert(sorted@[q] == before[q]);
                    } else if q > p {
                        assert(sorted@[q] == before[q - 1]);
                    }
                }
            }
            j += 1;
        }
        assert(stars@.take(stars@.len() as int) =~= stars@);
        let n = sorted.len();
        let mut star_count = T::zero();
        let mut rem = remaining;
        let mut i: usize = 0;
        while i < n
            invariant_except_break
                i <= n,
                self@.sizes == sizes0,
                star_fill(sizes0, cols, sorted@, 0, T::spec_zero(), remaining) == star_fill(
                    sizes0,
                    cols,
                    sorted@,
                    i as int,
                    star_count,
                    rem,
                ),
            invariant
                n == sorted@.len(),
                ncol == cols.len(),
                self@.columns == cols,
                sizes0.len() == cols.len(),
                forall|q: int|
                    0 <= q < sorted@.len() ==> (#[trigger] sorted@[q]) < cols.len() && cols[sorted@[q] as int] is Star,
            ensures
                self@.sizes == star_fill(sizes0, cols, sorted@, 0, T::spec_zero(), remaining),
                self@.sizes.len() == cols.len(),
            decreases n - i,
        {
            let next = if i + 1 < n {
                self.size_per_star(sorted[i + 1])
            } else {
                T::infinity()
            };
            let k = sorted[i];
            let w = star_weight(&self.columns[k]);
            star_count = star_count.plus(w);
            rem = rem.plus(self.column_sizes[k]);
            let new = rem.div(star_count);
            if !next.leq(new) {
                let ghost target = star_fill(sizes0, cols, sorted@, i as int, star_count, rem);
                let mut j: usize = 0;
                while j <= i
                    invariant
                        j <= i + 1,
                        i < n,
                        ncol == cols.len(),
                        n == sorted@.len(),
                        self@.columns == cols,
                        sizes0.len() == cols.len(),
                        self@.sizes.len() == cols.len(),
                        forall|q: int|
                            0 <= q < sorted@.len() ==> (#[trigger] sorted@[q]) < cols.len() && cols[sorted@[q] as int] is Star,
                        forall|c: int|
                            0 <= c < cols.len() ==> #[trigger] self@.sizes[c] == if sorted@.take(
                                j as int,
                            ).contains(c as usize) {
                                new.spec_times(cols[c]->Star_0)
                            } else {
                                sizes0[c]
                            },
                    decreases i + 1 - j,
                {
                    let c = sorted[j];
                    let v = new.times(star_weight(&self.columns[c]));
                    let ghost prev_sizes = self@.sizes;
                    self.column_sizes.set(c, v);
                    proof {
                        assert forall|d: int| 0 <= d < cols.len() implies #[trigger] self@.sizes[d]
                            == if sorted@.take(j + 1).contains(d as usize) {
                            new.spec_times(cols[d]->Star_0)
                        } else {
                            sizes0[d]
                        } by {
                            lemma_take_contains_step(sorted@, j as int, d as usize);
                            assert(prev_sizes[d] == if sorted@.take(j as int).contains(d as usize) {
                                new.spec_times(cols[d]->Star_0)
                            } else {
                                sizes0[d]
                            });
                            if d == c as int {
                                assert(self@.sizes[d] == v);
                            } else {
                                assert(self@.sizes[d] == prev_sizes[d]);
                                assert(sorted@[j as int] != d as usize);
                            }
                        }
                    }
                    j += 1;
                }
                assert(self@.sizes =~= Seq::new(
                    sizes0.len(),
                    |c: int|
                        if sorted@.take(i + 1).contains(c as usize) {
                            new.spec_times(cols[c]->Star_0)
                        } else {
                            sizes0[c]
                        },
                ));
                break;
            }
            i += 1;
        }
        true
    }
}

/// The star columns of a run lie in the run and are star columns.
proof fn lemma_star_columns<T>(columns: Seq<GridLength<T>>, start: int, span: nat)
    requires
        0 <= start,
        start + span <= usize::MAX,
    ensures
        forall|q: int|
            0 <= q < star_columns(columns, start, span).len() ==> start <= #[trigger] star_columns(
                columns,
                start,
                span,
            )[q] < start + span && columns[star_columns(columns, start, span)[q] as int] is Star,
    decreases span,
{
    if span > 0 {
        lemma_star_columns(columns, start, (span - 1) as nat);
    }
}

/// Sorting keeps exactly the columns it is given.
proof fn lemma_sort_members<T: Divisible>(
    sizes: Seq<T>,
    columns: Seq<GridLength<T>>,
    idx: Seq<usize>,
)
    ensures
        sort_by_size_per_star(sizes, columns, idx).len() == idx.len(),
        forall|c: usize| #[trigger]
            sort_by_size_per_star(sizes, columns, idx).contains(c) ==> idx.contains(c),
    decreases idx.len(),
{
    if idx.len() > 0 {
        let prev = idx.drop_last();
        let sorted = sort_by_size_per_star(sizes, columns, prev);
        lemma_sort_members(sizes, columns, prev);
        lemma_insert_pos_bound(sizes, columns, sorted, idx.last());
        let p = insert_pos(sizes, columns, sorted, idx.last()) as int;
        let res = sorted.insert(p, idx.last());
        sorted.insert_ensures(p, idx.last());
        assert forall|c: usize| #[trigger] res.contains(c) implies idx.contains(c) by {
            let k = choose|k: int| 0 <= k < res.len() && res[k] == c;
            if k == p {
                assert(idx[idx.len() - 1] == c);
            } else {
                let j = if k < p {
                    k
                } else {
                    k - 1
                };
                assert(sorted[j] == c);
                assert(sorted.contains(c));
                let q = choose|q: int| 0 <= q < prev.len() && prev[q] == c;
                assert(idx[q] == c);
            }
        }
    }
}

/// The insert position lies within the sequence.
proof fn lemma_insert_pos_bound<T: Divisible>(
    sizes: Seq<T>,
    columns: Seq<GridLength<T>>,
    sorted: Seq<usize>,
    x: usize,
)
    ensures
        insert_pos(sizes, columns, sorted, x) <= sorted.len(),
    decreases sorted.len(),
{
    if sorted.len() > 0 {
        lemma_insert_pos_bound(sizes, columns, sorted.drop_last(), x);
    }
}

/// Filling changes only the columns in `sorted`.
proof fn lemma_star_fill_frame<T: Divisible>(
    sizes: Seq<T>,
    columns: Seq<GridLength<T>>,
    sorted: Seq<usize>,
    i: int,
    star_count: T,
    remaining: T,
)
    ensures
        star_fill(sizes, columns, sorted, i, star_count, remaining).len() == sizes.len(),
        forall|c: int|
            0 <= c < sizes.len() && !sorted.contains(c as usize) ==> #[trigger] star_fill(
                sizes,
                columns,
                sorted,
                i,
                star_count,
                remaining,
            )[c] == sizes[c],
    decreases sorted.len() - i,
{
    if 0 <= i < sorted.len() {
        let new = shared_size_per_star(sizes, columns, sorted, i, star_count, remaining);
        let next = if i + 1 < sorted.len() {
            size_per_star(sizes, columns, sorted[i + 1])
        } else {
            T::spec_infinity()
        };
        if !next.spec_leq(new) {
            let head = sorted.take(i + 1);
            assert forall|c: int|
                0 <= c < sizes.len() && !sorted.contains(c as usize) implies !#[trigger] head.contains(
                c as usize,
            ) by {
                if head.contains(c as usize) {
                    let k = choose|k: int| 0 <= k < head.len() && #[trigger] head[k] == c as usize;
                    assert(sorted[k] == c as usize);
                }
            }
        } else {
            lemma_star_fill_frame(
                sizes,
                columns,
                sorted,
                i + 1,
                star_count.spec_plus(columns[sorted[i] as int]->Star_0),
                remaining.spec_plus(sizes[sorted[i] as int]),
            );
        }
    }
}

/// Law of the column sizing: fitting a run of columns never changes a
/// column outside the run nor a fixed column, and leaves all sizes as they
/// were when it reports that the run cannot fit.
pub proof fn lemma_expand_to_fit_frame<T: Divisible>(
    sizes: Seq<T>,
    columns: Seq<GridLength<T>>,
    start: int,
    span: nat,
    required: T,
)
    requires
        sizes.len() == columns.len(),
        columns.len() <= usize::MAX,
        0 <= start,
        start + span <= columns.len(),
    ensures
        expand_to_fit(sizes, columns, start, span, required).1.len() == sizes.len(),
        !expand_to_fit(sizes, columns, start, span, required).0 ==> expand_to_fit(
            sizes,
            columns,
            start,
            span,
            required,
        ).1 == sizes,
        forall|k: int|
            0 <= k < sizes.len() && (k < start || k >= start + span || columns[k] is Fixed)
                ==> #[trigger] expand_to_fit(sizes, columns, start, span, required).1[k]
                == sizes[k],
{
    let current = seq_sum(sizes.subrange(start, start + span));
    if required.spec_leq(current) || span == 1 {
        return;
    }
    let remaining = required.spec_minus(current);
    let stars = star_columns(columns, start, span);
    lemma_star_columns(columns, start, span);
    if stars.len() > 0 {
        let sorted = sort_by_size_per_star(sizes, columns, stars);
        lemma_sort_members(sizes, columns, stars);
        lemma_star_fill_frame(sizes, columns, sorted, 0, T::spec_zero(), remaining);
        assert forall|k: int|
            0 <= k < sizes.len() && (k < start || k >= start + span || columns[k] is Fixed)
                implies !sorted.contains(k as usize) by {
            if sorted.contains(k as usize) {
                assert(stars.contains(k as usize));
                let q = choose|q: int| 0 <= q < stars.len() && stars[q] == k as usize;
                assert(start <= stars[q] < start + span && columns[stars[q] as int] is Star);
            }
        }
    }
}

/// The columns `s` come in order of size per star.
pub open spec fn sorted_by_size_per_star<T: Divisible>(
    sizes: Seq<T>,
    columns: Seq<GridLength<T>>,
    s: Seq<usize>,
) -> bool {
    forall|a: int, b: int|
        #![trigger s[a], s[b]]
        0 <= a <= b < s.len() ==> size_per_star(sizes, columns, s[a]).spec_leq(
            size_per_star(sizes, columns, s[b]),
        )
}

/// In a sorted run, the insert position splits the columns whose size per
/// star is not greater than that of `x` from those whose is.
proof fn lemma_insert_pos_split<T: Divisible>(
    sizes: Seq<T>,
    columns: Seq<GridLength<T>>,
    sorted: Seq<usize>,
    x: usize,
)
    requires
        sorted_by_size_per_star(sizes, columns, sorted),
    ensures
        insert_pos(sizes, columns, sorted, x) <= sorted.len(),
        forall|k: int|
            0 <= k < insert_pos(sizes, columns, sorted, x) ==> size_per_star(
                sizes,
                columns,
                #[trigger] sorted[k],
            ).spec_leq(size_per_star(sizes, columns, x)),
        forall|k: int|
            insert_pos(sizes, columns, sorted, x) <= k < sorted.len() ==> !size_per_star(
                sizes,
                columns,
                #[trigger] sorted[k],
            ).spec_leq(size_per_star(sizes, columns, x)),
    decreases sorted.len(),
{
    if sorted.len() > 0 {
        let last = sorted.last();
        let px = size_per_star(sizes, columns, x);
        if size_per_star(sizes, columns, last).spec_leq(px) {
            assert forall|k: int| 0 <= k < sorted.len() implies size_per_star(
                sizes,
                columns,
                #[trigger] sorted[k],
            ).spec_leq(px) by {
                assert(size_per_star(sizes, columns, sorted[k]).spec_leq(
                    size_per_star(sizes, columns, sorted[sorted.len() - 1]),
                ));
                T::lemma_total_order(
                    size_per_star(sizes, columns, sorted[k]),
                    size_per_star(sizes, columns, last),
                    px,
                );
            }
        } else {
            let prev = sorted.drop_last();
            assert forall|a: int, b: int| 0 <= a <= b < prev.len() implies size_per_star(
                sizes,
                columns,
                #[trigger] prev[a],
            ).spec_leq(size_per_star(sizes, columns, #[trigger] prev[b])) by {
                assert(prev[a] == sorted[a] && prev[b] == sorted[b]);
            }
            lemma_insert_pos_split(sizes, columns, prev, x);
            assert forall|k: int|
                insert_pos(sizes, columns, sorted, x) <= k < sorted.len() implies !size_per_star(
                sizes,
                columns,
                #[trigger] sorted[k],
            ).spec_leq(px) by {
                if k < prev.len() {
                    assert(prev[k] == sorted[k]);
                }
            }
            assert forall|k: int| 0 <= k < insert_pos(sizes, columns, sorted, x) implies size_per_star(
                sizes,
                columns,
                #[trigger] sorted[k],
            ).spec_leq(px) by {
                assert(prev[k] == sorted[k]);
            }
        }
    }
}

/// Sorting orders the columns by size per star.
proof fn lemma_sort_sorted<T: Divisible>(
    sizes: Seq<T>,
    columns: Seq<GridLength<T>>,
    idx: Seq<usize>,
)
    ensures
        sorted_by_size_per_star(sizes, columns, sort_by_size_per_star(sizes, columns, idx)),
    decreases idx.len(),
{
    if idx.len() > 0 {
        let prev = idx.drop_last();
        let sorted = sort_by_size_per_star(sizes, columns, prev);
        lemma_sort_sorted(sizes, columns, prev);
        let x = idx.last();
        lemma_insert_pos_split(sizes, columns, sorted, x);
        let p = insert_pos(sizes, columns, sorted, x) as int;
        let res = sorted.insert(p, x);
        sorted.insert_ensures(p, x);
        let px = size_per_star(sizes, columns, x);
        assert forall|a: int, b: int| 0 <= a <= b < res.len() implies size_per_star(
            sizes,
            columns,
            #[trigger] res[a],
        ).spec_leq(size_per_star(sizes, columns, #[trigger] res[b])) by {
            let sa = size_per_star(sizes, columns, res[a]);
            let sb = size_per_star(sizes, columns, res[b]);
            T::lemma_total_order(sa, sb, px);
            T::lemma_total_order(px, sb, sa);
            if a < p {
                assert(res[a] == sorted[a]);
                if b < p {
                    assert(res[b] == sorted[b]);
                } else if b > p {
                    assert(res[b] == sorted[b - 1]);
                    assert(size_per_star(sizes, columns, sorted[a]).spec_leq(
                        size_per_star(sizes, columns, sorted[b - 1]),
                    ));
                }
            } else if a == p {
                if b > p {
                    assert(res[b] == sorted[b - 1]);
                    assert(!size_per_star(sizes, columns, sorted[b - 1]).spec_leq(px));
                }
            } else {
                assert(res[a] == sorted[a - 1]);
                assert(res[b] == sorted[b - 1]);
                assert(size_per_star(sizes, columns, sorted[a - 1]).spec_leq(
                    size_per_star(sizes, columns, sorted[b - 1]),
                ));
            }
        }
    }
}

/// Sorting loses none of the columns it is given.
proof fn lemma_sort_complete<T: Divisible>(
    sizes: Seq<T>,
    columns: Seq<GridLength<T>>,
    idx: Seq<usize>,
)
    ensures
        forall|c: usize| #[trigger]
            idx.contains(c) ==> sort_by_size_per_star(sizes, columns, idx).contains(c),
    decreases idx.len(),
{
    if idx.len() > 0 {
        let prev = idx.drop_last();
        let sorted = sort_by_size_per_star(sizes, columns, prev);
        lemma_sort_complete(sizes, columns, prev);
        lemma_insert_pos_bound(sizes, columns, sorted, idx.last());
        let p = insert_pos(sizes, columns, sorted, idx.last()) as int;
        let res = sorted.insert(p, idx.last());
        sorted.insert_ensures(p, idx.last());
        assert forall|c: usize| #[trigger] idx.contains(c) implies res.contains(c) by {
            let k = choose|k: int| 0 <= k < idx.len() && #[trigger] idx[k] == c;
            if k == idx.len() - 1 {
                assert(res[p] == c);
            } else {
                assert(prev[k] == c);
                assert(prev.contains(c));
                let q = choose|q: int| 0 <= q < sorted.len() && #[trigger] sorted[q] == c;
                if q < p {
                    assert(res[q] == c);
                } else {
                    assert(res[q + 1] == c);
                }
            }
        }
    }
}

/// A star column within the run is among the run's star columns.
proof fn lemma_star_columns_complete<T>(columns: Seq<GridLength<T>>, start: int, span: nat, d: int)
    requires
        0 <= start <= d < start + span,
        start + span <= usize::MAX,
        columns[d] is Star,
    ensures
        star_columns(columns, start, span).contains(d as usize),
    decreases span,
{
    let prev = star_columns(columns, start, (span - 1) as nat);
    if d == start + span - 1 {
        assert(star_columns(columns, start, span).last() == d as usize);
    } else {
        lemma_star_columns_complete(columns, start, (span - 1) as nat, d);
        let q = choose|q: int| 0 <= q < prev.len() && #[trigger] prev[q] == d as usize;
        assert(star_columns(columns, start, span)[q] == d as usize);
    }
}

/// Filling from position `i` either leaves the sizes as they are, or gives
/// the columns up to some position `j` one size per star, the level, below
/// the size per star of the column after them.
proof fn lemma_star_fill_level<T: Divisible>(
    sizes: Seq<T>,
    columns: Seq<GridLength<T>>,
    sorted: Seq<usize>,
    i: int,
    star_count: T,
    remaining: T,
) -> (res: (int, T))
    requires
        0 <= i,
    ensures
        star_fill(sizes, columns, sorted, i, star_count, remaining) == sizes || (i <= res.0
            < sorted.len() && star_fill(sizes, columns, sorted, i, star_count, remaining)
            == Seq::new(
            sizes.len(),
            |c: int|
                if sorted.take(res.0 + 1).contains(c as usize) {
                    res.1.spec_times(columns[c]->Star_0)
                } else {
                    sizes[c]
                },
        ) && (res.0 + 1 < sorted.len() ==> !size_per_star(sizes, columns, sorted[res.0 + 1]).spec_leq(
            res.1,
        ))),
    decreases sorted.len() - i,
{
    if i >= sorted.len() {
        (0, T::spec_zero())
    } else {
        let next = if i + 1 < sorted.len() {
            size_per_star(sizes, columns, sorted[i + 1])
        } else {
            T::spec_infinity()
        };
        let new = shared_size_per_star(sizes, columns, sorted, i, star_count, remaining);
        if !next.spec_leq(new) {
            (i, new)
        } else {
            lemma_star_fill_level(
                sizes,
                columns,
                sorted,
                i + 1,
                star_count.spec_plus(columns[sorted[i] as int]->Star_0),
                remaining.spec_plus(sizes[sorted[i] as int]),
            )
        }
    }
}

/// Law of the star columns: growing the star columns of a run by
/// `remaining` brings the columns with the least size per star up to one
/// level of size per star, each to the level times its stars, and leaves
/// every other column as it was; a star column of the run left out has a
/// size per star above the level and not below any column that grew.
/// The result gives the level and the columns that reached it.
pub proof fn lemma_star_ratio_level<T: Divisible>(
    sizes: Seq<T>,
    columns: Seq<GridLength<T>>,
    start: int,
    span: nat,
    remaining: T,
) -> (res: (T, Set<int>))
    requires
        sizes.len() == columns.len(),
        columns.len() <= usize::MAX,
        0 <= start,
        start + span <= columns.len(),
    ensures
        expand_by_star(sizes, columns, start, span, remaining).1.len() == sizes.len(),
        forall|c: int|
            #[trigger] res.1.contains(c) ==> start <= c < start + span && columns[c] is Star,
        forall|c: int|
            0 <= c < sizes.len() ==> #[trigger] expand_by_star(
                sizes,
                columns,
                start,
                span,
                remaining,
            ).1[c] == if res.1.contains(c) {
                res.0.spec_times(columns[c]->Star_0)
            } else {
                sizes[c]
            },
        forall|c: int, d: int|
            #![trigger res.1.contains(c), res.1.contains(d)]
            res.1.contains(c) && start <= d < start + span && columns[d] is Star && !res.1.contains(
                d,
            ) ==> !size_per_star(sizes, columns, d as usize).spec_leq(res.0) && size_per_star(
                sizes,
                columns,
                c as usize,
            ).spec_leq(size_per_star(sizes, columns, d as usize)),
{
    let stars = star_columns(columns, start, span);
    lemma_star_columns(columns, start, span);
    if stars.len() == 0 {
        return (T::spec_zero(), Set::empty());
    }
    let sorted = sort_by_size_per_star(sizes, columns, stars);
    lemma_sort_members(sizes, columns, stars);
    lemma_sort_sorted(sizes, columns, stars);
    lemma_sort_complete(sizes, columns, stars);
    let fill = star_fill(sizes, columns, sorted, 0, T::spec_zero(), remaining);
    lemma_star_fill_frame(sizes, columns, sorted, 0, T::spec_zero(), remaining);
    let (j, level) = lemma_star_fill_level(sizes, columns, sorted, 0, T::spec_zero(), remaining);
    if fill == sizes {
        return (level, Set::empty());
    }
    let grown = Set::new(|c: int| 0 <= c < sizes.len() && sorted.take(j + 1).contains(c as usize));
    assert forall|c: int| #[trigger] grown.contains(c) implies start <= c < start + span
        && columns[c] is Star by {
        let q = choose|q: int| 0 <= q < j + 1 && #[trigger] sorted.take(j + 1)[q] == c as usize;
        assert(sorted[q] == c as usize);
        assert(sorted.contains(c as usize));
        let r = choose|r: int| 0 <= r < stars.len() && #[trigger] stars[r] == c as usize;
        assert(start <= stars[r] < start + span);
    }
    assert forall|c: int, d: int|
        #![trigger grown.contains(c), grown.contains(d)]
        grown.contains(c) && start <= d < start + span && columns[d] is Star && !grown.contains(d)
            implies !size_per_star(sizes, columns, d as usize).spec_leq(level) && size_per_star(
            sizes,
            columns,
            c as usize,
        ).spec_leq(size_per_star(sizes, columns, d as usize)) by {
        lemma_star_columns_complete(columns, start, span, d);
        assert(sorted.contains(d as usize));
        let b = choose|b: int| 0 <= b < sorted.len() && #[trigger] sorted[b] == d as usize;
        if b <= j {
            assert(sorted.take(j + 1)[b] == d as usize);
            assert(sorted.take(j + 1).contains(d as usize));
        }
        let a = choose|a: int| 0 <= a < j + 1 && #[trigger] sorted.take(j + 1)[a] == c as usize;
        assert(sorted[a] == c as usize);
        assert(size_per_star(sizes, columns, sorted[a]).spec_leq(size_per_star(sizes, columns, sorted[b])));
        assert(size_per_star(sizes, columns, sorted[j + 1]).spec_leq(
            size_per_star(sizes, columns, sorted[b]),
        ));
        T::lemma_total_order(
            size_per_star(sizes, columns, sorted[j + 1]),
            size_per_star(sizes, columns, d as usize),
            level,
        );
    }
    assert forall|c: int| 0 <= c < sizes.len() implies #[trigger] fill[c] == if grown.contains(c) {
        level.spec_times(columns[c]->Star_0)
    } else {
        sizes[c]
    } by {}
    (level, grown)
}

/// Fitting a run of columns that holds no star column never shrinks a
/// column: the run either fits already, or its single column takes the
/// required size, or its auto columns each grow by an equal share.
pub proof fn lemma_expand_to_fit_grows<T: Divisible>(
    sizes: Seq<T>,
    columns: Seq<GridLength<T>>,
    start: int,
    span: nat,
    required: T,
)
    requires
        sizes.len() == columns.len(),
        columns.len() <= usize::MAX,
        0 <= start,
        start + span <= columns.len(),
        forall|k: int| start <= k < start + span ==> !(#[trigger] columns[k] is Star),
    ensures
        expand_to_fit(sizes, columns, start, span, required).1.len() == sizes.len(),
        forall|k: int|
            0 <= k < sizes.len() ==> sizes[k].spec_leq(
                #[trigger] expand_to_fit(sizes, columns, start, span, required).1[k],
            ),
{
    lemma_expand_to_fit_frame(sizes, columns, start, span, required);
    let res = expand_to_fit(sizes, columns, start, span, required).1;
    let current = seq_sum(sizes.subrange(start, start + span));
    if required.spec_leq(current) {
        assert forall|k: int| 0 <= k < sizes.len() implies sizes[k].spec_leq(#[trigger] res[k]) by {
            T::lemma_total_order(sizes[k], sizes[k], sizes[k]);
        }
        return;
    }
    if span == 1 {
        let one = sizes.subrange(start, start + 1);
        assert(one.drop_last() =~= Seq::<T>::empty());
        assert(seq_sum(one.drop_last()) == T::spec_zero());
        assert(one.last() == sizes[start]);
        T::lemma_zero_plus(sizes[start]);
        assert forall|k: int| 0 <= k < sizes.len() implies sizes[k].spec_leq(#[trigger] res[k]) by {
            T::lemma_total_order(sizes[k], required, sizes[k]);
        }
        return;
    }
    let remaining = required.spec_minus(current);
    T::lemma_minus_of_greater(required, current);
    let stars = star_columns(columns, start, span);
    lemma_star_columns(columns, start, span);
    if stars.len() > 0 {
        assert(columns[stars[0] as int] is Star);
    }
    assert(stars.len() == 0);
    let n = auto_count(columns, start, span);
    lemma_auto_count_bound(columns, start, span);
    if n > 0 {
        T::lemma_share_not_negative(remaining, n as usize);
    }
    assert forall|k: int| 0 <= k < sizes.len() implies sizes[k].spec_leq(#[trigger] res[k]) by {
        T::lemma_total_order(sizes[k], sizes[k], sizes[k]);
        if n > 0 {
            T::lemma_plus_monotone(sizes[k], remaining.spec_div(T::spec_from_count(n as usize)));
        }
    }
}

/// There are no more auto columns in a run than columns.
proof fn lemma_auto_count_bound<T>(columns: Seq<GridLength<T>>, start: int, span: nat)
    ensures
        auto_count(columns, start, span) <= span,
    decreases span,
{
    if span > 0 {
        lemma_auto_count_bound(columns, start, (span - 1) as nat);
    }
}

} // verus!
