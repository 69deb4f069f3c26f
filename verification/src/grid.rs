//! Layout of a grid: children sit in columns, the columns grow to fit them,
//! and each child is aligned inside the columns it spans.
use vstd::prelude::*;

use crate::grid::helper::{
    expand_to_fit, initial_size, lemma_expand_to_fit_frame, lemma_expand_to_fit_grows, prefix_sums,
    seq_sum, spec_normalize, GridHelper,
};
use crate::scalar::{Additive, Divisible, Ordered};
use crate::schedule::{Alignment, TimeRange};

pub mod helper;

verus! {

/// The width of a grid column: a fixed duration, a share of the free space
/// weighted by a number of stars, or as wide as its children need.
#[derive(Debug, Clone, Copy, PartialEq, Eq)]
pub enum GridLength<T> {
    Fixed(T),
    Star(T),
    Auto,
}

/// A value that [`GridLength::star`] or [`GridLength::fixed`] refuses.
#[derive(Debug, Clone, Copy, PartialEq, Eq)]
pub enum LengthError<T> {
    /// A star weight that is not finite or not greater than zero.
    InvalidStar(T),
    /// A fixed width that is not finite or is negative.
    InvalidFixed(T),
}

impl<T: Divisible> GridLength<T> {
    /// One star: the column takes an equal share of the free space.
    pub fn star_unit() -> (res: Self)
        ensures
            res == GridLength::Star(T::spec_from_count(1)),
    {
        GridLength::Star(T::from_count(1))
    }
}

impl<T: Ordered> GridLength<T> {
    /// A column as wide as its children need.
    pub fn auto() -> (res: Self)
        ensures
            res == GridLength::<T>::Auto,
    {
        GridLength::Auto
    }

    /// A column with `value` stars; the weight must be finite and greater
    /// than zero.
    pub fn star(value: T) -> (res: Result<Self, LengthError<T>>)
        ensures
            value.spec_is_finite() && !value.spec_leq(T::spec_zero()) ==> res == Ok::<
                Self,
                LengthError<T>,
            >(GridLength::Star(value)),
            !(value.spec_is_finite() && !value.spec_leq(T::spec_zero())) ==> res == Err::<
                Self,
                LengthError<T>,
            >(LengthError::InvalidStar(value)),
    {
        if value.is_finite() && !value.leq(T::zero()) {
            Ok(GridLength::Star(value))
        } else {
            Err(LengthError::InvalidStar(value))
        }
    }

    /// A column of fixed width `value`; the width must be finite and not
    /// negative.
    pub fn fixed(value: T) -> (res: Result<Self, LengthError<T>>)
        ensures
            value.spec_is_finite() && T::spec_zero().spec_leq(value) ==> res == Ok::<
                Self,
                LengthError<T>,
            >(GridLength::Fixed(value)),
            !(value.spec_is_finite() && T::spec_zero().spec_leq(value)) ==> res == Err::<
                Self,
                LengthError<T>,
            >(LengthError::InvalidFixed(value)),
    {
        if value.is_finite() && T::zero().leq(value) {
            Ok(GridLength::Fixed(value))
        } else {
            Err(LengthError::InvalidFixed(value))
        }
    }

    /// The column is as wide as its children need.
    pub fn is_auto(&self) -> (res: bool)
        ensures
            res == (*self is Auto),
    {
        match self {
            GridLength::Auto => true,
            _ => false,
        }
    }

    /// The column takes a share of the free space.
    pub fn is_star(&self) -> (res: bool)
        ensures
            res == (*self is Star),
    {
        match self {
            GridLength::Star(_) => true,
            _ => false,
        }
    }

    /// The column has a fixed width.
    pub fn is_fixed(&self) -> (res: bool)
        ensures
            res == (*self is Fixed),
    {
        match self {
            GridLength::Fixed(_) => true,
            _ => false,
        }
    }
}

/// The form of a column width written as text: `auto`, a single `*`, a
/// weight followed by `*`, or a plain width.
#[derive(Debug, Clone, Copy, PartialEq, Eq, Structural)]
pub enum LengthSyntax {
    /// The text is `auto`.
    Auto,
    /// The text is `*`: one star.
    UnitStar,
    /// The text ends in `*`: the bytes before it are the weight.
    Star,
    /// Anything else: the whole text is the width.
    Fixed,
}

/// The form of the column width written as the bytes `s`.
pub open spec fn spec_length_syntax(s: Seq<u8>) -> LengthSyntax {
    if s == seq![97u8, 117u8, 116u8, 111u8] {
        LengthSyntax::Auto
    } else if s == seq![42u8] {
        LengthSyntax::UnitStar
    } else if s.len() > 0 && s.last() == 42u8 {
        LengthSyntax::Star
    } else {
        LengthSyntax::Fixed
    }
}

/// Tell which form of column width the bytes `s` are written in; for a
/// weighted star, the weight is every byte but the last.
pub fn length_syntax(s: &[u8]) -> (res: LengthSyntax)
    ensures
        res == spec_length_syntax(s@),
{
    let n = s.len();
    if n == 4 && s[0] == 97u8 && s[1] == 117u8 && s[2] == 116u8 && s[3] == 111u8 {
        assert(s@ =~= seq![97u8, 117u8, 116u8, 111u8]);
        return LengthSyntax::Auto;
    }
    if n == 1 && s[0] == 42u8 {
        assert(s@ =~= seq![42u8]);
        return LengthSyntax::UnitStar;
    }
    if n > 0 && s[n - 1] == 42u8 {
        proof {
            if s@ == seq![97u8, 117u8, 116u8, 111u8] {
                assert(s@[3] == 111u8);
            }
        }
        return LengthSyntax::Star;
    }
    proof {
        if s@ == seq![97u8, 117u8, 116u8, 111u8] {
            assert(s@.len() == 4 && s@[0] == 97u8 && s@[1] == 117u8 && s@[2] == 116u8 && s@[3] == 111u8);
        }
        if s@ == seq![42u8] {
            assert(s@[0] == 42u8);
        }
    }
    LengthSyntax::Fixed
}

/// What the grid's measure reads of a child: the duration it needs and the
/// columns it asks for.
#[derive(Debug, Clone, Copy)]
pub struct GridChild<T> {
    pub duration: T,
    pub column: usize,
    pub span: usize,
}

/// A span of no column, which [`GridChild::with_span`] refuses.
#[derive(Debug, Clone, Copy, PartialEq, Eq)]
pub enum SpanError {
    ZeroSpan,
}

impl<T> GridChild<T> {
    /// A child that needs `duration`, in the first column.
    pub fn new(duration: T) -> (res: Self)
        ensures
            res == (GridChild { duration, column: 0, span: 1 }),
    {
        GridChild { duration, column: 0, span: 1 }
    }

    /// The same child starting in `column`.
    pub fn with_column(self, column: usize) -> (res: Self)
        ensures
            res == (GridChild { column, ..self }),
    {
        GridChild { column, ..self }
    }

    /// The same child over `span` columns; refused when `span` is zero.
    pub fn with_span(self, span: usize) -> (res: Result<Self, SpanError>)
        ensures
            span == 0 ==> res == Err::<Self, SpanError>(SpanError::ZeroSpan),
            span > 0 ==> res == Ok::<Self, SpanError>(GridChild { span, ..self }),
    {
        if span == 0 {
            return Err(SpanError::ZeroSpan);
        }
        Ok(GridChild { span, ..self })
    }
}

/// What the grid's arrangement reads of a child: the columns it asks for,
/// its alignment and the duration it needs.
#[derive(Debug, Clone, Copy)]
pub struct GridArrangeChild<T> {
    pub column: usize,
    pub span: usize,
    pub alignment: Alignment,
    pub duration: T,
}

/// The measure of a grid: its duration, the size of each column and the
/// duration each child needs.
#[derive(Debug, Clone)]
pub struct GridMeasure<T> {
    pub total_duration: T,
    pub column_sizes: Vec<T>,
    pub child_durations: Vec<T>,
}

/// Fit the children in order, those that span one column when `single`
/// holds, the others when it does not.
pub open spec fn fit_children<T: Divisible>(
    sizes: Seq<T>,
    columns: Seq<GridLength<T>>,
    children: Seq<GridChild<T>>,
    single: bool,
) -> Seq<T>
    decreases children.len(),
{
    if children.len() == 0 {
        sizes
    } else {
        let prev = fit_children(sizes, columns, children.drop_last(), single);
        let c = children.last();
        let (start, len) = spec_normalize(columns.len(), c.column as nat, c.span as nat);
        if (len == 1) == single {
            expand_to_fit(prev, columns, start as int, len, c.duration).1
        } else {
            prev
        }
    }
}

/// The sizes of the columns once every child fits: first the children in a
/// single column, then those that span several.
pub open spec fn measured_sizes<T: Divisible>(
    columns: Seq<GridLength<T>>,
    children: Seq<GridChild<T>>,
) -> Seq<T> {
    let initial = Seq::new(columns.len(), |k: int| initial_size(columns[k]));
    fit_children(fit_children(initial, columns, children, true), columns, children, false)
}

/// Fit each of `children` in turn, those that span one column when `single`
/// holds, the others when it does not.
fn fit_pass<T: Divisible>(helper: &mut GridHelper<T>, children: &[GridChild<T>], single: bool)
    requires
        old(helper)@.wf(),
    ensures
        final(helper)@.wf(),
        final(helper)@.columns == old(helper)@.columns,
        final(helper)@.sizes == fit_children(
            old(helper)@.sizes,
            old(helper)@.columns,
            children@,
            single,
        ),
{
    let ghost cols = helper@.columns;
    let ghost sizes0 = helper@.sizes;
    let mut i: usize = 0;
    while i < children.len()
        invariant
            i <= children@.len(),
            helper@.wf(),
            helper@.columns == cols,
            helper@.sizes == fit_children(sizes0, cols, children@.take(i as int), single),
        decreases children@.len() - i,
    {
        let c = children[i];
        let span = helper.normalize_span(c.column, c.span);
        if (span.span() == 1) == single {
            helper.expand_span_to_fit(span, c.duration);
        }
        assert(children@.take(i + 1).drop_last() =~= children@.take(i as int));
        i += 1;
    }
    assert(children@.take(children@.len() as int) =~= children@);
}

/// Measure a grid: the columns grow to fit the children, first those in a
/// single column, then those that span several; the grid lasts as long as
/// its columns together.
pub fn measure_grid<T: Divisible>(children: &[GridChild<T>], columns: &[GridLength<T>]) -> (res:
    GridMeasure<T>)
    requires
        columns@.len() > 0,
    ensures
        res.column_sizes@ == measured_sizes(columns@, children@),
        res.column_sizes@.len() == columns@.len(),
        res.total_duration == seq_sum(res.column_sizes@),
        res.child_durations@.len() == children@.len(),
        forall|i: int|
            0 <= i < children@.len() ==> #[trigger] res.child_durations@[i] == children@[i].duration,
{
    let mut helper = GridHelper::new(columns);
    fit_pass(&mut helper, children, true);
    fit_pass(&mut helper, children, false);
    let column_sizes = helper.into_column_sizes();
    let mut total = T::zero();
    let mut i: usize = 0;
    while i < column_sizes.len()
        invariant
            i <= column_sizes@.len(),
            total == seq_sum(column_sizes@.take(i as int)),
        decreases column_sizes@.len() - i,
    {
        total = total.plus(column_sizes[i]);
        assert(column_sizes@.take(i + 1).drop_last() =~= column_sizes@.take(i as int));
        i += 1;
    }
    assert(column_sizes@.take(column_sizes@.len() as int) =~= column_sizes@);
    let mut child_durations: Vec<T> = Vec::new();
    let mut j: usize = 0;
    while j < children.len()
        invariant
            j <= children@.len(),
            child_durations@.len() == j,
            forall|k: int| 0 <= k < j ==> #[trigger] child_durations@[k] == children@[k].duration,
        decreases children@.len() - j,
    {
        child_durations.push(children[j].duration);
        j += 1;
    }
    GridMeasure { total_duration: total, column_sizes, child_durations }
}

/// Where a child of a grid lands, given where the columns start: its span
/// of columns clamped into the grid, a stretched child filling that span,
/// the others placed at its start, end or center by their alignment.
pub open spec fn grid_child_range<T: Divisible>(
    starts: Seq<T>,
    n_columns: nat,
    range: TimeRange<T>,
    c: GridArrangeChild<T>,
) -> TimeRange<T> {
    let (s, l) = spec_normalize(n_columns, c.column as nat, c.span as nat);
    let span_duration = starts[(s + l) as int].spec_minus(starts[s as int]);
    let d = if c.alignment == Alignment::Stretch {
        span_duration
    } else {
        c.duration
    };
    let inner = match c.alignment {
        Alignment::End => span_duration.spec_minus(d),
        Alignment::Center => span_duration.spec_minus(d).spec_div(T::spec_from_count(2)),
        _ => T::spec_zero(),
    };
    TimeRange { start: range.start.spec_plus(inner.spec_plus(starts[s as int])), span: d }
}

/// Arrange the children of a grid with measured `column_sizes` in
/// `time_range`: the columns first grow to fill the range, then each child
/// is placed in its span of columns.
pub fn arrange_grid<T: Divisible>(
    time_range: TimeRange<T>,
    columns: &[GridLength<T>],
    column_sizes: Vec<T>,
    children: &[GridArrangeChild<T>],
) -> (res: Vec<TimeRange<T>>)
    requires
        columns@.len() > 0,
        columns@.len() == column_sizes@.len(),
    ensures
        res@.len() == children@.len(),
        forall|i: int|
            0 <= i < children@.len() ==> #[trigger] res@[i] == grid_child_range(
                prefix_sums(
                    expand_to_fit(
                        column_sizes@,
                        columns@,
                        0,
                        columns@.len(),
                        time_range.span,
                    ).1,
                ),
                columns@.len(),
                time_range,
                children@[i],
            ),
{
    let mut helper = GridHelper::new_with_column_sizes(columns, column_sizes);
    helper.expand_to_fit(time_range.span);
    let column_starts = helper.column_starts();
    proof {
        crate::grid::helper::lemma_prefix_sums_shape(helper@.sizes);
    }
    let ncol = columns.len();
    let mut res: Vec<TimeRange<T>> = Vec::new();
    let mut i: usize = 0;
    while i < children.len()
        invariant
            i <= children@.len(),
            ncol == columns@.len(),
            helper@.wf(),
            helper@.columns == columns@,
            column_starts@ == prefix_sums(helper@.sizes),
            column_starts@.len() == helper@.sizes.len() + 1,
            res@.len() == i,
            forall|k: int|
                0 <= k < i ==> #[trigger] res@[k] == grid_child_range(
                    column_starts@,
                    columns@.len(),
                    time_range,
                    children@[k],
                ),
        decreases children@.len() - i,
    {
        let c = children[i];
        let span = helper.normalize_span(c.column, c.span);
        let start = span.start();
        let len = span.span();
        let span_duration = column_starts[start + len].minus(column_starts[start]);
        let child_duration = match c.alignment {
            Alignment::Stretch => span_duration,
            _ => c.duration,
        };
        let inner = match c.alignment {
            Alignment::End => span_duration.minus(child_duration),
            Alignment::Center => span_duration.minus(child_duration).div(T::from_count(2)),
            _ => T::zero(),
        };
        let offset = inner.plus(column_starts[start]);
        res.push(TimeRange { start: time_range.start.plus(offset), span: child_duration });
        i += 1;
    }
    res
}

/// Fitting children keeps the number of columns and leaves fixed columns as
/// they are.
proof fn lemma_fit_children_keeps_fixed<T: Divisible>(
    sizes: Seq<T>,
    columns: Seq<GridLength<T>>,
    children: Seq<GridChild<T>>,
    single: bool,
)
    requires
        sizes.len() == columns.len(),
        0 < columns.len() <= usize::MAX,
    ensures
        fit_children(sizes, columns, children, single).len() == sizes.len(),
        forall|k: int|
            0 <= k < sizes.len() && columns[k] is Fixed ==> #[trigger] fit_children(
                sizes,
                columns,
                children,
                single,
            )[k] == sizes[k],
    decreases children.len(),
{
    if children.len() > 0 {
        let prev_children = children.drop_last();
        lemma_fit_children_keeps_fixed(sizes, columns, prev_children, single);
        let prev = fit_children(sizes, columns, prev_children, single);
        let c = children.last();
        let (start, len) = spec_normalize(columns.len(), c.column as nat, c.span as nat);
        lemma_expand_to_fit_frame(prev, columns, start as int, len, c.duration);
    }
}

/// Law of the grid layout: a fixed column measures exactly its width, and
/// there is one size per column.
pub proof fn lemma_fixed_columns_keep_width<T: Divisible>(
    columns: Seq<GridLength<T>>,
    children: Seq<GridChild<T>>,
)
    requires
        0 < columns.len() <= usize::MAX,
    ensures
        measured_sizes(columns, children).len() == columns.len(),
        forall|k: int|
            0 <= k < columns.len() && columns[k] is Fixed ==> #[trigger] measured_sizes(
                columns,
                children,
            )[k] == columns[k]->Fixed_0,
{
    let initial = Seq::new(columns.len(), |k: int| initial_size(columns[k]));
    lemma_fit_children_keeps_fixed(initial, columns, children, true);
    let first = fit_children(initial, columns, children, true);
    lemma_fit_children_keeps_fixed(first, columns, children, false);
}

/// Fitting the single-column children never shrinks a column, and leaves
/// each such child in a column that is not fixed no longer than its column.
proof fn lemma_single_pass_fits<T: Divisible>(
    sizes: Seq<T>,
    columns: Seq<GridLength<T>>,
    children: Seq<GridChild<T>>,
)
    requires
        sizes.len() == columns.len(),
        0 < columns.len() <= usize::MAX,
    ensures
        fit_children(sizes, columns, children, true).len() == sizes.len(),
        forall|k: int|
            0 <= k < sizes.len() ==> sizes[k].spec_leq(
                #[trigger] fit_children(sizes, columns, children, true)[k],
            ),
        forall|i: int|
            0 <= i < children.len() && #[trigger] spec_normalize(
                columns.len(),
                children[i].column as nat,
                children[i].span as nat,
            ).1 == 1 && !(columns[spec_normalize(
                columns.len(),
                children[i].column as nat,
                children[i].span as nat,
            ).0 as int] is Fixed) ==> children[i].duration.spec_leq(
                fit_children(sizes, columns, children, true)[spec_normalize(
                    columns.len(),
                    children[i].column as nat,
                    children[i].span as nat,
                ).0 as int],
            ),
    decreases children.len(),
{
    lemma_fit_children_keeps_fixed(sizes, columns, children, true);
    if children.len() == 0 {
        assert forall|k: int| 0 <= k < sizes.len() implies sizes[k].spec_leq(
            #[trigger] fit_children(sizes, columns, children, true)[k],
        ) by {
            T::lemma_total_order(sizes[k], sizes[k], sizes[k]);
        }
        return;
    }
    let prev_children = children.drop_last();
    lemma_single_pass_fits(sizes, columns, prev_children);
    let prev = fit_children(sizes, columns, prev_children, true);
    let res = fit_children(sizes, columns, children, true);
    let c = children.last();
    let (start, len) = spec_normalize(columns.len(), c.column as nat, c.span as nat);
    lemma_fit_children_keeps_fixed(sizes, columns, prev_children, true);
    if len == 1 {
        let one = prev.subrange(start as int, start as int + 1);
        assert(one.drop_last() =~= Seq::<T>::empty());
        assert(seq_sum(one.drop_last()) == T::spec_zero());
        assert(one.last() == prev[start as int]);
        T::lemma_zero_plus(prev[start as int]);
        assert(seq_sum(one) == prev[start as int]);
        T::lemma_total_order(c.duration, prev[start as int], c.duration);
    }
    assert forall|k: int| 0 <= k < sizes.len() implies prev[k].spec_leq(#[trigger] res[k]) by {
        T::lemma_total_order(prev[k], res[k], prev[k]);
        if len == 1 && k == start && !(columns[start as int] is Fixed) {
            T::lemma_total_order(c.duration, prev[k], prev[k]);
        }
    }
    assert forall|k: int| 0 <= k < sizes.len() implies sizes[k].spec_leq(#[trigger] res[k]) by {
        T::lemma_total_order(sizes[k], prev[k], res[k]);
    }
    assert forall|i: int|
        0 <= i < children.len() && #[trigger] spec_normalize(
            columns.len(),
            children[i].column as nat,
            children[i].span as nat,
        ).1 == 1 && !(columns[spec_normalize(
            columns.len(),
            children[i].column as nat,
            children[i].span as nat,
        ).0 as int] is Fixed) implies children[i].duration.spec_leq(
        res[spec_normalize(columns.len(), children[i].column as nat, children[i].span as nat).0 as int],
    ) by {
        let s = spec_normalize(columns.len(), children[i].column as nat, children[i].span as nat).0 as int;
        if i < children.len() - 1 {
            assert(prev_children[i] == children[i]);
            assert(prev[s].spec_leq(res[s]));
            T::lemma_total_order(children[i].duration, prev[s], res[s]);
        } else {
            T::lemma_total_order(c.duration, res[s], c.duration);
        }
    }
}

/// The children that span several columns cover no star column.
pub open spec fn spans_avoid_stars<T>(columns: Seq<GridLength<T>>, children: Seq<GridChild<T>>) -> bool {
    forall|i: int, k: int|
        #![trigger children[i], columns[k]]
        0 <= i < children.len() && spec_normalize(
            columns.len(),
            children[i].column as nat,
            children[i].span as nat,
        ).1 != 1 && spec_normalize(columns.len(), children[i].column as nat, children[i].span as nat).0
            <= k < spec_normalize(columns.len(), children[i].column as nat, children[i].span as nat).0
            + spec_normalize(columns.len(), children[i].column as nat, children[i].span as nat).1
            ==> !(columns[k] is Star)
}

/// Fitting the children that span several columns never shrinks a column
/// when none of them covers a star column.
proof fn lemma_multi_pass_grows<T: Divisible>(
    sizes: Seq<T>,
    columns: Seq<GridLength<T>>,
    children: Seq<GridChild<T>>,
)
    requires
        sizes.len() == columns.len(),
        0 < columns.len() <= usize::MAX,
        spans_avoid_stars(columns, children),
    ensures
        fit_children(sizes, columns, children, false).len() == sizes.len(),
        forall|k: int|
            0 <= k < sizes.len() ==> sizes[k].spec_leq(
                #[trigger] fit_children(sizes, columns, children, false)[k],
            ),
    decreases children.len(),
{
    lemma_fit_children_keeps_fixed(sizes, columns, children, false);
    if children.len() == 0 {
        assert forall|k: int| 0 <= k < sizes.len() implies sizes[k].spec_leq(
            #[trigger] fit_children(sizes, columns, children, false)[k],
        ) by {
            T::lemma_total_order(sizes[k], sizes[k], sizes[k]);
        }
        return;
    }
    let prev_children = children.drop_last();
    assert forall|i: int, k: int|
        #![trigger prev_children[i], columns[k]]
        0 <= i < prev_children.len() && spec_normalize(
            columns.len(),
            prev_children[i].column as nat,
            prev_children[i].span as nat,
        ).1 != 1 && spec_normalize(
            columns.len(),
            prev_children[i].column as nat,
            prev_children[i].span as nat,
        ).0 <= k < spec_normalize(
            columns.len(),
            prev_children[i].column as nat,
            prev_children[i].span as nat,
        ).0 + spec_normalize(
            columns.len(),
            prev_children[i].column as nat,
            prev_children[i].span as nat,
        ).1 implies !(columns[k] is Star) by {
        assert(prev_children[i] == children[i]);
    }
    lemma_multi_pass_grows(sizes, columns, prev_children);
    lemma_fit_children_keeps_fixed(sizes, columns, prev_children, false);
    let prev = fit_children(sizes, columns, prev_children, false);
    let res = fit_children(sizes, columns, children, false);
    let last = children.len() - 1;
    let c = children[last];
    let (start, len) = spec_normalize(columns.len(), c.column as nat, c.span as nat);
    if len != 1 {
        assert forall|k: int| start <= k < start + len implies !(#[trigger] columns[k] is Star) by {
            assert(children[last] == c);
        }
        lemma_expand_to_fit_grows(prev, columns, start as int, len, c.duration);
    }
    assert forall|k: int| 0 <= k < sizes.len() implies sizes[k].spec_leq(#[trigger] res[k]) by {
        T::lemma_total_order(prev[k], prev[k], prev[k]);
        T::lemma_total_order(sizes[k], prev[k], res[k]);
    }
}

/// Law of the grid measure: when no child that spans several columns covers
/// a star column (in particular, when every child lies in a single column),
/// each child in a single column that is not fixed is no longer than the
/// measured size of its column, and no column is measured below its
/// starting size.
pub proof fn lemma_single_column_children_fit<T: Divisible>(
    columns: Seq<GridLength<T>>,
    children: Seq<GridChild<T>>,
)
    requires
        0 < columns.len() <= usize::MAX,
        spans_avoid_stars(columns, children),
    ensures
        forall|k: int|
            0 <= k < columns.len() ==> initial_size(columns[k]).spec_leq(
                #[trigger] measured_sizes(columns, children)[k],
            ),
        forall|i: int|
            0 <= i < children.len() && #[trigger] spec_normalize(
                columns.len(),
                children[i].column as nat,
                children[i].span as nat,
            ).1 == 1 && !(columns[spec_normalize(
                columns.len(),
                children[i].column as nat,
                children[i].span as nat,
            ).0 as int] is Fixed) ==> children[i].duration.spec_leq(
                measured_sizes(columns, children)[spec_normalize(
                    columns.len(),
                    children[i].column as nat,
                    children[i].span as nat,
                ).0 as int],
            ),
{
    let initial = Seq::new(columns.len(), |k: int| initial_size(columns[k]));
    lemma_single_pass_fits(initial, columns, children);
    let first = fit_children(initial, columns, children, true);
    lemma_multi_pass_grows(first, columns, children);
    let second = measured_sizes(columns, children);
    assert forall|i: int|
        0 <= i < children.len() && #[trigger] spec_normalize(
            columns.len(),
            children[i].column as nat,
            children[i].span as nat,
        ).1 == 1 && !(columns[spec_normalize(
            columns.len(),
            children[i].column as nat,
            children[i].span as nat,
        ).0 as int] is Fixed) implies children[i].duration.spec_leq(
        second[spec_normalize(columns.len(), children[i].column as nat, children[i].span as nat).0 as int],
    ) by {
        let s = spec_normalize(columns.len(), children[i].column as nat, children[i].span as nat).0 as int;
        T::lemma_total_order(children[i].duration, first[s], second[s]);
    }
    assert forall|k: int| 0 <= k < columns.len() implies initial_size(columns[k]).spec_leq(
        #[trigger] second[k],
    ) by {
        assert(initial[k] == initial_size(columns[k]));
        T::lemma_total_order(initial[k], first[k], second[k]);
    }
}

} // verus!
