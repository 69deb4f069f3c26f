use bosing::absolute::{arrange_absolute, measure_absolute, AbsoluteChild};
use bosing::grid::helper::{GridHelper, NormalizedSpan};
use bosing::grid::{arrange_grid, measure_grid, GridArrangeChild, GridChild, GridLength};
use bosing::scalar::{Additive, Divisible, Ordered, Scalar};
use bosing::schedule::{Alignment, Direction, TimeRange};
use bosing::stack::{arrange_stack, measure_stack, StackChild, StackHelper};

/// A time in seconds, as the schedule of a waveform holds it.
#[derive(Debug, Clone, Copy, PartialEq)]
struct F(f64);

// The library states its contracts over the `spec_*` functions of the traits;
// outside Verus they are plain methods, given here the meaning of the
// operation they describe.
impl Additive for F {
    fn spec_zero() -> Self {
        F(0.0)
    }
    fn spec_plus(self, rhs: Self) -> Self {
        F(self.0 + rhs.0)
    }
    fn spec_minus(self, rhs: Self) -> Self {
        F(self.0 - rhs.0)
    }
    fn lemma_zero_arith() {}
    fn zero() -> Self {
        F(0.0)
    }
    fn plus(self, rhs: Self) -> Self {
        F(self.0 + rhs.0)
    }
    fn minus(self, rhs: Self) -> Self {
        F(self.0 - rhs.0)
    }
}

impl Scalar for F {
    fn spec_times(self, rhs: Self) -> Self {
        F(self.0 * rhs.0)
    }
    fn spec_negate(self) -> Self {
        F(-self.0)
    }
    fn lemma_times_zero(_c: Self) {}
    fn times(self, rhs: Self) -> Self {
        F(self.0 * rhs.0)
    }
    fn negate(self) -> Self {
        F(-self.0)
    }
}

impl Ordered for F {
    fn spec_leq(self, rhs: Self) -> bool {
        self.0 <= rhs.0
    }
    fn spec_is_finite(self) -> bool {
        self.0.is_finite()
    }
    fn spec_infinity() -> Self {
        F(f64::INFINITY)
    }
    fn leq(self, rhs: Self) -> bool {
        self.0 <= rhs.0
    }
    fn is_finite(self) -> bool {
        self.0.is_finite()
    }
    fn infinity() -> Self {
        F(f64::INFINITY)
    }
    fn lemma_total_order(_a: Self, _b: Self, _c: Self) {}
    fn lemma_plus_monotone(_a: Self, _s: Self) {}
    fn lemma_zero_plus(_a: Self) {}
    fn lemma_minus_of_greater(_a: Self, _b: Self) {}
}

impl Divisible for F {
    fn spec_div(self, rhs: Self) -> Self {
        F(self.0 / rhs.0)
    }
    fn spec_from_count(n: usize) -> Self {
        F(n as f64)
    }
    fn div(self, rhs: Self) -> Self {
        F(self.0 / rhs.0)
    }
    fn from_count(n: usize) -> Self {
        F(n as f64)
    }
    fn lemma_share_not_negative(_a: Self, _n: usize) {}
}

fn t(v: f64) -> F {
    F(v)
}

fn times(v: &[f64]) -> Vec<F> {
    v.iter().map(|&x| F(x)).collect()
}

// ---- stack ----

#[test]
fn test_helper_no_channels() {
    let mut helper = StackHelper::<F>::new(0);
    assert_eq!(helper.get_usage(&[]), F(0.0));
    let time = t(10.0);
    helper.update_usage(time, &[]);
    assert_eq!(helper.get_usage(&[]), time);
    assert_eq!(helper.into_max_usage(), time);
}

#[test]
fn test_helper_with_channels() {
    let mut helper = StackHelper::<F>::new(5);
    assert_eq!(helper.get_usage(&[]), F(0.0));
    assert_eq!(helper.get_usage(&[0]), F(0.0));

    let t1 = t(10.0);
    helper.update_usage(t1, &[]);
    assert_eq!(helper.get_usage(&[]), t1);
    assert_eq!(helper.get_usage(&[0]), t1);

    let t2 = t(20.0);
    helper.update_usage(t2, &[0]);
    assert_eq!(helper.get_usage(&[]), t2);
    assert_eq!(helper.get_usage(&[0]), t2);
    assert_eq!(helper.get_usage(&[1]), t1);
    assert_eq!(helper.get_usage(&[0, 1]), t2);
    assert_eq!(helper.into_max_usage(), t2);
}

fn no_channel_children() -> Vec<StackChild<F>> {
    [10.0, 20.0, 30.0]
        .iter()
        .map(|&d| StackChild { span: t(d), channels: vec![] })
        .collect()
}

fn channel_children() -> Vec<StackChild<F>> {
    vec![
        StackChild { span: t(10.0), channels: vec![0] },
        StackChild { span: t(20.0), channels: vec![1] },
        StackChild { span: t(20.0), channels: vec![0, 1] },
        StackChild { span: t(20.0), channels: vec![0] },
        StackChild { span: t(10.0), channels: vec![1] },
    ]
}

fn starts(timings: &[TimeRange<F>]) -> Vec<F> {
    timings.iter().map(|r| r.start).collect()
}

#[test]
fn measure_stack_no_channels_forward() {
    let (total, timings) = measure_stack(&no_channel_children(), 0, Direction::Forward);
    assert_eq!(total, t(60.0));
    assert_eq!(starts(&timings), times(&[0.0, 10.0, 30.0]));
}

#[test]
fn measure_stack_no_channels_backward() {
    let (total, timings) = measure_stack(&no_channel_children(), 0, Direction::Backward);
    assert_eq!(total, t(60.0));
    assert_eq!(starts(&timings), times(&[50.0, 30.0, 0.0]));
}

#[test]
fn measure_stack_with_channels_forward() {
    let (total, timings) = measure_stack(&channel_children(), 2, Direction::Forward);
    assert_eq!(total, t(60.0));
    assert_eq!(starts(&timings), times(&[0.0, 0.0, 20.0, 40.0, 40.0]));
    let spans: Vec<F> = timings.iter().map(|r| r.span).collect();
    assert_eq!(spans, times(&[10.0, 20.0, 20.0, 20.0, 10.0]));
}

#[test]
fn measure_stack_with_channels_backward() {
    let (total, timings) = measure_stack(&channel_children(), 2, Direction::Backward);
    assert_eq!(total, t(60.0));
    assert_eq!(starts(&timings), times(&[40.0, 40.0, 20.0, 0.0, 0.0]));
}

#[test]
fn stack_children_sharing_a_channel_do_not_overlap() {
    // In the order of placement, a child that shares a channel with an
    // earlier one starts no earlier than that one ends, and none ends after
    // the stack.
    let children = channel_children();
    let (total, timings) = measure_stack(&children, 2, Direction::Forward);
    for j in 0..children.len() {
        for i in 0..j {
            let shared = children[i].channels.iter().any(|c| children[j].channels.contains(c));
            if shared {
                assert!(timings[i].start.0 + timings[i].span.0 <= timings[j].start.0);
            }
        }
        assert!(timings[j].start.0 + timings[j].span.0 <= total.0);
    }
}

#[test]
fn arrange_stack_places_from_start_or_end() {
    let range = TimeRange { start: t(100.0), span: t(80.0) };
    let timings = vec![
        TimeRange { start: t(0.0), span: t(10.0) },
        TimeRange { start: t(10.0), span: t(20.0) },
    ];
    let forward = arrange_stack(range, &timings, Direction::Forward);
    assert_eq!(starts(&forward), times(&[100.0, 110.0]));
    let backward = arrange_stack(range, &timings, Direction::Backward);
    assert_eq!(starts(&backward), times(&[170.0, 150.0]));
    assert_eq!(backward[1].span, t(20.0));
}

// ---- absolute ----

#[test]
fn measure_absolute_takes_latest_end() {
    let children = vec![
        AbsoluteChild { offset: t(10.0), duration: t(5.0) },
        AbsoluteChild { offset: t(0.0), duration: t(20.0) },
        AbsoluteChild { offset: t(12.0), duration: t(3.0) },
    ];
    assert_eq!(measure_absolute(&children), t(20.0));
    assert_eq!(measure_absolute::<F>(&[]), t(0.0));
    let ranges = arrange_absolute(TimeRange { start: t(100.0), span: t(50.0) }, &children);
    assert_eq!(starts(&ranges), times(&[110.0, 100.0, 112.0]));
    assert_eq!(ranges[0].span, t(5.0));
}

// ---- grid ----

fn fixed(v: f64) -> GridLength<F> {
    GridLength::fixed(t(v)).unwrap()
}

fn star(v: f64) -> GridLength<F> {
    GridLength::star(t(v)).unwrap()
}

fn auto() -> GridLength<F> {
    GridLength::auto()
}

#[test]
fn new_should_init_fixed_columns() {
    let columns = [fixed(1.0), fixed(2.0), fixed(3.0), auto(), star(1.0)];
    let helper = GridHelper::new(&columns);
    assert_eq!(helper.into_column_sizes(), times(&[1.0, 2.0, 3.0, 0.0, 0.0]));
}

fn expand_star_case(
    columns: &[GridLength<F>],
    start: usize,
    span: usize,
    expected_expanded: bool,
    expected: &[f64],
) {
    let mut helper = GridHelper::new(columns);
    let expanded = helper.expand_span_by_star_ratio(NormalizedSpan::new(start, span), t(6.0));
    assert_eq!(expanded, expected_expanded);
    assert_eq!(helper.into_column_sizes(), times(expected));
}

#[test]
fn expand_star_increase_by_ratio() {
    expand_star_case(&[star(1.0), star(2.0), star(3.0)], 0, 3, true, &[1.0, 2.0, 3.0]);
}

#[test]
fn expand_star_ignore_auto_and_fixed() {
    expand_star_case(&[auto(), fixed(1.0)], 0, 2, false, &[0.0, 1.0]);
}

#[test]
fn expand_star_respect_span() {
    expand_star_case(&[star(1.0), star(2.0), star(3.0)], 0, 2, true, &[2.0, 4.0, 0.0]);
}

#[test]
fn expand_star_expand_more() {
    expand_star_case(&[star(1.0), fixed(10.0)], 0, 2, true, &[6.0, 10.0]);
}

#[test]
fn expand_star_towards_ratio() {
    let columns = [star(1.0), star(2.0), star(3.0)];
    let column_sizes = times(&[0.0, 0.0, 9.0]);

    let mut helper = GridHelper::new_with_column_sizes(&columns, column_sizes);
    let span = NormalizedSpan::new(0, 3);

    let expanded = helper.expand_span_by_star_ratio(span, t(6.0));

    assert!(expanded);
    assert_eq!(helper.into_column_sizes(), times(&[2.0, 4.0, 9.0]));
}

fn expand_auto_case(
    columns: &[GridLength<F>],
    start: usize,
    span: usize,
    expected_expanded: bool,
    expected: &[f64],
) {
    let mut helper = GridHelper::new(columns);
    let expanded = helper.expand_span_by_auto_count(NormalizedSpan::new(start, span), t(6.0));
    assert_eq!(expanded, expected_expanded);
    assert_eq!(helper.into_column_sizes(), times(expected));
}

#[test]
fn expand_auto_increase_by_count() {
    expand_auto_case(&[auto(), auto(), auto()], 0, 3, true, &[2.0, 2.0, 2.0]);
}

#[test]
fn expand_auto_ignore_star_and_fixed() {
    expand_auto_case(&[star(1.0), fixed(1.0)], 0, 2, false, &[0.0, 1.0]);
}

#[test]
fn expand_auto_respect_span() {
    expand_auto_case(&[auto(), auto(), auto()], 0, 2, true, &[3.0, 3.0, 0.0]);
}

#[test]
fn expand_auto_expand_more() {
    expand_auto_case(&[auto(), fixed(10.0)], 0, 2, true, &[6.0, 10.0]);
}

fn expand_fit_case(
    columns: &[GridLength<F>],
    start: usize,
    span: usize,
    expected_fit: bool,
    expected: &[f64],
) {
    let mut helper = GridHelper::new(columns);
    let fit = helper.expand_span_to_fit(NormalizedSpan::new(start, span), t(6.0));
    assert_eq!(fit, expected_fit);
    assert_eq!(helper.into_column_sizes(), times(expected));
}

#[test]
fn expand_fit_star_first() {
    expand_fit_case(&[auto(), star(1.0), auto()], 0, 3, true, &[0.0, 6.0, 0.0]);
}

#[test]
fn expand_fit_auto_if_no_star() {
    expand_fit_case(&[fixed(1.0), auto()], 0, 2, true, &[1.0, 5.0]);
}

#[test]
fn expand_fit_already_fit() {
    expand_fit_case(&[fixed(7.0), star(1.0), auto()], 0, 3, true, &[7.0, 0.0, 0.0]);
}

#[test]
fn expand_fit_cannot_expand() {
    expand_fit_case(&[fixed(1.0), fixed(1.0), fixed(1.0)], 0, 3, false, &[1.0, 1.0, 1.0]);
}

#[test]
fn expand_fit_respect_span() {
    expand_fit_case(&[fixed(7.0), star(1.0), auto()], 1, 2, true, &[7.0, 6.0, 0.0]);
}

#[test]
fn expand_fit_single_column() {
    // A single column that is not fixed takes the whole requirement; a fixed
    // one cannot grow.
    expand_fit_case(&[auto(), fixed(1.0)], 0, 1, true, &[6.0, 1.0]);
    expand_fit_case(&[fixed(1.0), auto()], 0, 1, false, &[1.0, 0.0]);
}

fn measure_grid_case(children: &[(f64, usize, usize)], columns: &[GridLength<F>], expected: (f64, &[f64])) {
    let children: Vec<GridChild<F>> = children
        .iter()
        .map(|&(duration, column, span)| GridChild { duration: t(duration), column, span })
        .collect();
    let res = measure_grid(&children, columns);
    assert_eq!(res.total_duration, t(expected.0));
    assert_eq!(res.column_sizes, times(expected.1));
    assert_eq!(res.child_durations, children.iter().map(|c| c.duration).collect::<Vec<_>>());
}

#[test]
fn measure_grid_not_enough_size() {
    measure_grid_case(&[(40.0, 0, 1)], &[fixed(30.0)], (30.0, &[30.0]));
}

#[test]
fn measure_grid_sandwiched() {
    measure_grid_case(
        &[(40.0, 0, 1), (40.0, 2, 1), (100.0, 0, 3)],
        &[auto(), star(1.0), auto()],
        (100.0, &[40.0, 20.0, 40.0]),
    );
}

#[test]
fn measure_grid_empty_star() {
    measure_grid_case(&[], &[star(1.0)], (0.0, &[0.0]));
}

#[test]
fn measure_grid_empty_fixed() {
    measure_grid_case(&[], &[fixed(10.0)], (10.0, &[10.0]));
}

#[test]
fn arrange_grid_aligns_children() {
    let columns = [fixed(10.0), star(1.0)];
    let sizes = times(&[10.0, 0.0]);
    let child = |column, span, alignment, duration| GridArrangeChild {
        column,
        span,
        alignment,
        duration: t(duration),
    };
    let children = [
        child(0, 1, Alignment::End, 4.0),
        child(1, 1, Alignment::Center, 10.0),
        child(0, 2, Alignment::Stretch, 1.0),
        child(5, 1, Alignment::Start, 2.0),
    ];
    let range = TimeRange { start: t(100.0), span: t(40.0) };
    let res = arrange_grid(range, &columns, sizes, &children);
    // The star column grows to 30 to fill the range.
    assert_eq!(starts(&res), times(&[106.0, 120.0, 100.0, 110.0]));
    let spans: Vec<F> = res.iter().map(|r| r.span).collect();
    assert_eq!(spans, times(&[4.0, 10.0, 40.0, 2.0]));
}

#[test]
fn grid_length_checks_values() {
    assert!(GridLength::star(t(0.0)).is_err());
    assert!(GridLength::star(t(f64::INFINITY)).is_err());
    assert!(GridLength::fixed(t(-1.0)).is_err());
    assert!(GridLength::fixed(t(0.0)).unwrap().is_fixed());
    assert!(GridLength::star(t(2.0)).unwrap().is_star());
    assert!(GridLength::<F>::auto().is_auto());
    assert_eq!(GridLength::<F>::star_unit(), GridLength::Star(t(1.0)));
}

#[test]
fn star_columns_share_remaining_time_by_weight() {
    // Two columns of 1* and 2* sharing 300 get 100 and 200.
    let mut helper = GridHelper::new(&[star(1.0), star(2.0)]);
    assert!(helper.expand_span_to_fit(NormalizedSpan::new(0, 2), t(300.0)));
    assert_eq!(helper.into_column_sizes(), times(&[100.0, 200.0]));
}

#[test]
fn fitting_never_touches_fixed_or_outside_columns() {
    let columns = [auto(), fixed(3.0), star(1.0), auto()];
    let mut helper = GridHelper::new(&columns);
    assert!(helper.expand_span_to_fit(NormalizedSpan::new(0, 3), t(10.0)));
    let sizes = helper.into_column_sizes();
    assert_eq!(sizes[1], t(3.0));
    assert_eq!(sizes[3], t(0.0));
    assert_eq!(sizes, times(&[0.0, 3.0, 7.0, 0.0]));
}
