//! A schedule as a tree of elements: the channels each element spans, the
//! time it needs, where its children land, and the execution of the whole
//! tree into oscillator states and pulses.
use vstd::prelude::*;

use crate::absolute::{arrange_absolute, latest_end, measure_absolute, AbsoluteChild};
use crate::element::{
    arrange_repeat, lemma_merged_channels, measure_repeat, merge_channel_ids, merged_channels,
    repeat_start, spec_measure_repeat, OscInstruction, Play,
};
use crate::grid::helper::{expand_to_fit, prefix_sums, seq_sum};
use crate::grid::{
    arrange_grid, grid_child_range, measure_grid, measured_sizes, GridArrangeChild, GridChild,
    GridLength,
};
use crate::scalar::{Additive, Divisible, Ordered};
use crate::schedule::{lemma_measure_not_negative, Direction, ElementCommon, TimeRange};
use crate::stack::{
    arrange_stack, arranged_start, channels_valid, lemma_stack_no_overlap, measure_stack, occupied,
    processing_index, shares_channel, spans_not_negative,
    processing_order, stack_run, stack_views, StackChild, StackChildView, StackState,
};

verus! {

/// An element of a schedule: the properties every element has and what it
/// is. Channels and shapes are named by their index in the executor's
/// tables.
pub struct Element<T> {
    pub common: ElementCommon<T>,
    pub variant: Variant<T>,
}

/// A child of an absolute container and its offset from the container's
/// start.
pub struct AbsoluteEntry<T> {
    pub time: T,
    pub element: Element<T>,
}

/// A child of a grid and the columns it asks for.
pub struct GridEntry<T> {
    pub element: Element<T>,
    pub column: usize,
    pub span: usize,
}

/// What an element is.
pub enum Variant<T> {
    /// A pulse.
    Play(Play<usize, usize, T>),
    /// A change of phase or frequency on one channel.
    Osc(OscInstruction<usize, T>),
    /// An exchange of phases between two channels.
    SwapPhase(usize, usize),
    /// Nothing but a span on the channels, or on all channels of the parent
    /// when it names none.
    Barrier(Vec<usize>),
    /// A child played `count` times with `spacing` between copies.
    Repeat(Box<Element<T>>, usize, T),
    /// Children placed one after another on the channels they use.
    Stack(Vec<Element<T>>, Direction),
    /// Children at fixed offsets.
    Absolute(Vec<AbsoluteEntry<T>>),
    /// Children in columns.
    Grid(Vec<GridEntry<T>>, Vec<GridLength<T>>),
}

/// The number of children of an element; a repeat has one per copy.
pub open spec fn child_count<T>(e: Element<T>) -> nat {
    match e.variant {
        Variant::Repeat(_, count, _) => count as nat,
        Variant::Stack(c, _) => c@.len(),
        Variant::Absolute(c) => c@.len(),
        Variant::Grid(c, _) => c@.len(),
        _ => 0,
    }
}

/// Child `k` of an element; every copy of a repeat is its child.
pub open spec fn child_at<T>(e: Element<T>, k: int) -> Element<T> {
    match e.variant {
        Variant::Repeat(child, _, _) => *child,
        Variant::Stack(c, _) => c@[k],
        Variant::Absolute(c) => c@[k].element,
        Variant::Grid(c, _) => c@[k].element,
        _ => e,
    }
}

/// An element is larger than each of its children.
pub proof fn lemma_child_decreases<T>(e: Element<T>, k: int)
    requires
        0 <= k < child_count(e),
    ensures
        decreases_to!(e => child_at(e, k)),
{
    match e.variant {
        Variant::Repeat(child, _, _) => {
            assert(decreases_to!(e => e.variant));
            assert(decreases_to!(e.variant => e.variant->Repeat_0));
        },
        Variant::Stack(c, _) => {
            assert(decreases_to!(e => e.variant));
            assert(decreases_to!(e.variant => e.variant->Stack_0));
            assert(decreases_to!(e.variant->Stack_0 => e.variant->Stack_0@));
            assert(decreases_to!(e.variant->Stack_0@ => e.variant->Stack_0@[k]));
        },
        Variant::Absolute(c) => {
            assert(decreases_to!(e => e.variant));
            assert(decreases_to!(e.variant => e.variant->Absolute_0));
            assert(decreases_to!(e.variant->Absolute_0 => e.variant->Absolute_0@));
            assert(decreases_to!(e.variant->Absolute_0@ => e.variant->Absolute_0@[k]));
            assert(decreases_to!(e.variant->Absolute_0@[k] => e.variant->Absolute_0@[k].element));
        },
        Variant::Grid(c, _) => {
            assert(decreases_to!(e => e.variant));
            assert(decreases_to!(e.variant => e.variant->Grid_0));
            assert(decreases_to!(e.variant->Grid_0 => e.variant->Grid_0@));
            assert(decreases_to!(e.variant->Grid_0@ => e.variant->Grid_0@[k]));
            assert(decreases_to!(e.variant->Grid_0@[k] => e.variant->Grid_0@[k].element));
        },
        _ => {},
    }
}

/// The channels an element spans: those it names, its child's for a
/// repeat, and for a container those of its children, each once.
pub open spec fn channels<T>(e: Element<T>) -> Seq<usize>
    decreases e, 1nat, 0nat,
{
    match e.variant {
        Variant::Play(p) => seq![p@.channel_id],
        Variant::Osc(o) => seq![o.channel_id],
        Variant::SwapPhase(a, b) => seq![a, b],
        Variant::Barrier(v) => v@,
        Variant::Repeat(child, _, _) => {
            proof {
                assert(decreases_to!(e => e.variant));
                assert(decreases_to!(e.variant => e.variant->Repeat_0));
            }
            channels(*child)
        },
        _ => merged_channels(child_channels(e, 0)),
    }
}

/// The channels of the children of `e` from child `k` on.
pub open spec fn child_channels<T>(e: Element<T>, k: nat) -> Seq<Seq<usize>>
    decreases e, 0nat, child_count(e) - k,
{
    if k >= child_count(e) {
        Seq::empty()
    } else {
        proof {
            lemma_child_decreases(e, k as int);
        }
        seq![channels(child_at(e, k as int))] + child_channels(e, k + 1)
    }
}

/// The range each child of `e` gets when the content of `e` gets `r`.
pub open spec fn child_ranges<T: Divisible>(e: Element<T>, r: TimeRange<T>) -> Seq<TimeRange<T>> {
    let ms = child_measures(e, 0);
    match e.variant {
        Variant::Repeat(child, count, spacing) => Seq::new(
            count as nat,
            |k: int|
                TimeRange {
                    start: repeat_start(r.start, measure(*child), spacing, k as usize),
                    span: measure(*child),
                },
        ),
        Variant::Stack(_, dir) => Seq::new(
            ms.len(),
            |k: int|
                TimeRange {
                    start: arranged_start(
                        r,
                        TimeRange {
                            start: stack_layout(e, ms, dir).0[processing_index(ms.len(), k, dir)],
                            span: ms[k],
                        },
                        dir,
                    ),
                    span: ms[k],
                },
        ),
        Variant::Absolute(entries) => Seq::new(
            ms.len(),
            |k: int| TimeRange { start: r.start.spec_plus(entries@[k].time), span: ms[k] },
        ),
        Variant::Grid(entries, cols) => {
            let columns = grid_columns(cols@);
            let sizes = measured_sizes(columns, grid_children(entries@, ms));
            let starts = prefix_sums(expand_to_fit(sizes, columns, 0, columns.len(), r.span).1);
            Seq::new(
                ms.len(),
                |k: int|
                    grid_child_range(
                        starts,
                        columns.len(),
                        r,
                        GridArrangeChild {
                            column: entries@[k].column,
                            span: entries@[k].span,
                            alignment: entries@[k].element.common@.alignment,
                            duration: ms[k],
                        },
                    ),
            )
        },
        _ => Seq::empty(),
    }
}

/// There is one child range per child.
pub proof fn lemma_child_ranges_len<T: Divisible>(e: Element<T>, r: TimeRange<T>)
    ensures
        child_ranges(e, r).len() == child_count(e),
{
    lemma_child_measures_len(e, 0);
}

/// Two elements of the same kind with the same children have the same
/// children's channels and measures, from every child on.
proof fn lemma_same_children<T: Divisible>(e1: Element<T>, e2: Element<T>, k: nat)
    requires
        e1.variant == e2.variant,
    ensures
        child_channels(e1, k) == child_channels(e2, k),
        child_measures(e1, k) == child_measures(e2, k),
    decreases child_count(e1) - k,
{
    if k < child_count(e1) {
        lemma_same_children(e1, e2, k + 1);
    }
}

/// Law of the layout: whether an element is a phantom changes neither the
/// time it needs nor where its children land; a phantom is measured and
/// arranged like any other element.
pub proof fn lemma_phantom_measured_alike<T: Divisible>(
    e1: Element<T>,
    e2: Element<T>,
    r: TimeRange<T>,
)
    requires
        e1.variant == e2.variant,
        e1.common@.margin == e2.common@.margin,
        e1.common@.duration == e2.common@.duration,
        e1.common@.max_duration == e2.common@.max_duration,
        e1.common@.min_duration == e2.common@.min_duration,
    ensures
        measure(e1) == measure(e2),
        child_ranges(e1, r) == child_ranges(e2, r),
        e1.common@.spec_inner_time_range(r) == e2.common@.spec_inner_time_range(r),
{
    lemma_same_children(e1, e2, 0);
    assert(channels(e1) == channels(e2));
    let ms = child_measures(e1, 0);
    assert(stack_child_views(e1, ms) =~= stack_child_views(e2, ms));
    match e1.variant {
        Variant::Stack(_, dir) => {
            assert(stack_layout(e1, ms, dir) == stack_layout(e2, ms, dir));
        },
        _ => {},
    }
    assert(content_measure(e1) == content_measure(e2));
    assert(child_ranges(e1, r) =~= child_ranges(e2, r));
}

/// The position of `c` in `list`: the first index that holds it, the length
/// of the list when none does.
pub open spec fn first_index(list: Seq<usize>, c: usize) -> nat
    decreases list.len(),
{
    if list.len() == 0 {
        0
    } else if list[0] == c {
        0
    } else {
        1 + first_index(list.drop_first(), c)
    }
}

/// The positions of `cs` in `list`.
pub open spec fn positions(list: Seq<usize>, cs: Seq<usize>) -> Seq<usize> {
    Seq::new(cs.len(), |j: int| first_index(list, cs[j]) as usize)
}

/// The columns of a grid; a grid without columns has one column of one
/// star.
pub open spec fn grid_columns<T: Divisible>(cols: Seq<GridLength<T>>) -> Seq<GridLength<T>> {
    if cols.len() == 0 {
        seq![GridLength::Star(T::spec_from_count(1))]
    } else {
        cols
    }
}

/// The children of a stack element as the stack layout sees them, with
/// durations `ms`: each child's channels by their position among the
/// stack's channels.
pub open spec fn stack_child_views<T: Divisible>(e: Element<T>, ms: Seq<T>) -> Seq<StackChildView<T>> {
    Seq::new(
        ms.len(),
        |k: int| StackChildView { span: ms[k], channels: positions(channels(e), channels(child_at(e, k))) },
    )
}

/// The layout of a stack element with child durations `ms`: the start of
/// each child in the processing order and the final state.
pub open spec fn stack_layout<T: Divisible>(e: Element<T>, ms: Seq<T>, dir: Direction) -> (
    Seq<T>,
    StackState<T>,
) {
    stack_run(channels(e).len(), processing_order(stack_child_views(e, ms), dir))
}

/// The children of an absolute container with durations `ms`.
pub open spec fn absolute_children<T>(entries: Seq<AbsoluteEntry<T>>, ms: Seq<T>) -> Seq<AbsoluteChild<T>> {
    Seq::new(ms.len(), |k: int| AbsoluteChild { offset: entries[k].time, duration: ms[k] })
}

/// The children of a grid with durations `ms`.
pub open spec fn grid_children<T>(entries: Seq<GridEntry<T>>, ms: Seq<T>) -> Seq<GridChild<T>> {
    Seq::new(
        ms.len(),
        |k: int| GridChild { duration: ms[k], column: entries[k].column, span: entries[k].span },
    )
}

/// The time an element needs, margins and duration limits included.
pub open spec fn measure<T: Divisible>(e: Element<T>) -> T
    decreases e, 2nat, 0nat,
{
    e.common@.spec_measure(content_measure(e))
}

/// The time the content of an element needs.
pub open spec fn content_measure<T: Divisible>(e: Element<T>) -> T
    decreases e, 1nat, 0nat,
{
    match e.variant {
        Variant::Play(p) => p@.spec_measure(),
        Variant::Repeat(child, count, spacing) => {
            proof {
                assert(decreases_to!(e => e.variant));
                assert(decreases_to!(e.variant => e.variant->Repeat_0));
            }
            spec_measure_repeat(count, measure(*child), spacing)
        },
        Variant::Stack(_, dir) => stack_layout(e, child_measures(e, 0), dir).1.max_usage(),
        Variant::Absolute(entries) => latest_end(absolute_children(entries@, child_measures(e, 0))),
        Variant::Grid(entries, cols) => seq_sum(
            measured_sizes(grid_columns(cols@), grid_children(entries@, child_measures(e, 0))),
        ),
        _ => T::spec_zero(),
    }
}

/// The time each child of `e` from child `k` on needs.
pub open spec fn child_measures<T: Divisible>(e: Element<T>, k: nat) -> Seq<T>
    decreases e, 0nat, child_count(e) - k,
{
    if k >= child_count(e) {
        Seq::empty()
    } else {
        proof {
            lemma_child_decreases(e, k as int);
        }
        seq![measure(child_at(e, k as int))] + child_measures(e, k + 1)
    }
}

/// The channels of child `k` are entry `k - j` of the children's channels
/// from child `j` on.
proof fn lemma_child_channels_at<T>(e: Element<T>, j: nat, k: int)
    requires
        j <= k < child_count(e),
    ensures
        child_channels(e, j).len() == child_count(e) - j,
        child_channels(e, j)[k - j] == channels(child_at(e, k)),
    decreases child_count(e) - j,
{
    lemma_child_channels_len(e, j);
    if j < k {
        lemma_child_channels_at(e, j + 1, k);
    }
}

proof fn lemma_child_channels_len<T>(e: Element<T>, j: nat)
    ensures
        child_channels(e, j).len() == if j <= child_count(e) {
            child_count(e) - j
        } else {
            0
        },
    decreases child_count(e) - j,
{
    if j < child_count(e) {
        lemma_child_channels_len(e, j + 1);
    }
}

/// A value that `list` holds sits at its first index.
proof fn lemma_first_index(list: Seq<usize>, c: usize)
    ensures
        list.contains(c) ==> first_index(list, c) < list.len() && list[first_index(list, c) as int]
            == c,
    decreases list.len(),
{
    if list.len() > 0 && list[0] != c {
        lemma_first_index(list.drop_first(), c);
        if list.contains(c) {
            let k = choose|k: int| 0 <= k < list.len() && list[k] == c;
            assert(list.drop_first()[k - 1] == c);
        }
    }
}

/// The channels of each child of a container lie among the container's
/// channels.
proof fn lemma_child_channels_in_container<T>(e: Element<T>, k: int, c: usize)
    requires
        0 <= k < child_count(e),
        !(e.variant is Repeat),
        channels(child_at(e, k)).contains(c),
    ensures
        channels(e).contains(c),
{
    let rows = child_channels(e, 0);
    lemma_child_channels_at(e, 0, k);
    lemma_merged_channels(rows);
    assert(rows[k].contains(c));
    match e.variant {
        Variant::Stack(..) | Variant::Absolute(..) | Variant::Grid(..) => {
            assert(channels(e) == merged_channels(rows));
        },
        _ => {},
    }
}

/// The first index of `c` is `r` when `r` is the first index holding it, or
/// the length when none does.
proof fn lemma_first_index_char(list: Seq<usize>, c: usize, r: nat)
    requires
        r <= list.len(),
        forall|j: int| 0 <= j < r ==> list[j] != c,
        r < list.len() ==> list[r as int] == c,
    ensures
        first_index(list, c) == r,
    decreases r,
{
    if r > 0 {
        assert forall|j: int| 0 <= j < r - 1 implies list.drop_first()[j] != c by {
            assert(list[j + 1] != c);
        }
        lemma_first_index_char(list.drop_first(), c, (r - 1) as nat);
    } else if list.len() > 0 {
        assert(list[0] == c);
    }
}

/// The position of `c` in `list`.
fn position_of(list: &Vec<usize>, c: usize) -> (res: usize)
    ensures
        res == first_index(list@, c),
{
    let mut i: usize = 0;
    while i < list.len()
        invariant
            i <= list@.len(),
            forall|j: int| 0 <= j < i ==> list@[j] != c,
        decreases list@.len() - i,
    {
        if list[i] == c {
            proof {
                lemma_first_index_char(list@, c, i as nat);
            }
            return i;
        }
        i += 1;
    }
    proof {
        lemma_first_index_char(list@, c, i as nat);
    }
    i
}

/// The positions of `cs` in `list`.
fn positions_of(list: &Vec<usize>, cs: &Vec<usize>) -> (res: Vec<usize>)
    ensures
        res@ == positions(list@, cs@),
{
    let mut res: Vec<usize> = Vec::new();
    let mut j: usize = 0;
    while j < cs.len()
        invariant
            j <= cs@.len(),
            res@ == positions(list@, cs@).take(j as int),
        decreases cs@.len() - j,
    {
        let p = position_of(list, cs[j]);
        res.push(p);
        j += 1;
        assert(res@ =~= positions(list@, cs@).take(j as int));
    }
    assert(positions(list@, cs@).take(cs@.len() as int) =~= positions(list@, cs@));
    res
}

/// The child measures from child `j` on number one per child.
proof fn lemma_child_measures_at<T: Divisible>(e: Element<T>, j: nat, k: int)
    requires
        j <= k < child_count(e),
    ensures
        child_measures(e, j).len() == child_count(e) - j,
        child_measures(e, j)[k - j] == measure(child_at(e, k)),
    decreases child_count(e) - j,
{
    lemma_child_measures_len(e, j);
    if j < k {
        lemma_child_measures_at(e, j + 1, k);
    }
}

proof fn lemma_child_measures_len<T: Divisible>(e: Element<T>, j: nat)
    ensures
        child_measures(e, j).len() == if j <= child_count(e) {
            child_count(e) - j
        } else {
            0
        },
    decreases child_count(e) - j,
{
    if j < child_count(e) {
        lemma_child_measures_len(e, j + 1);
    }
}

/// The columns of a grid; one column of one star when there is none.
fn grid_columns_exec<T: Divisible>(cols: &Vec<GridLength<T>>) -> (res: Vec<GridLength<T>>)
    ensures
        res@ == grid_columns(cols@),
        res@.len() > 0,
{
    if cols.len() == 0 {
        return vec![GridLength::star_unit()];
    }
    let mut res: Vec<GridLength<T>> = Vec::new();
    let mut i: usize = 0;
    while i < cols.len()
        invariant
            i <= cols@.len(),
            res@ == cols@.take(i as int),
        decreases cols@.len() - i,
    {
        res.push(cols[i]);
        i += 1;
        assert(res@ =~= cols@.take(i as int));
    }
    assert(cols@.take(cols@.len() as int) =~= cols@);
    res
}

/// The rows of `lists` as sequences.
pub open spec fn list_views(lists: Seq<Vec<usize>>) -> Seq<Seq<usize>> {
    lists.map_values(|v: Vec<usize>| v@)
}

impl<T: Divisible> Element<T> {
    /// The number of children; a repeat has one per copy.
    pub fn child_count(&self) -> (res: usize)
        ensures
            res == child_count(*self),
    {
        match &self.variant {
            Variant::Repeat(_, count, _) => *count,
            Variant::Stack(c, _) => c.len(),
            Variant::Absolute(c) => c.len(),
            Variant::Grid(c, _) => c.len(),
            _ => 0,
        }
    }

    /// Child `k`.
    pub fn child(&self, k: usize) -> (res: &Element<T>)
        requires
            k < child_count(*self),
        ensures
            *res == child_at(*self, k as int),
    {
        match &self.variant {
            Variant::Repeat(child, _, _) => &**child,
            Variant::Stack(c, _) => &c[k],
            Variant::Absolute(c) => &c[k].element,
            Variant::Grid(c, _) => &c[k].element,
            _ => self,
        }
    }

    /// The channels the element spans.
    pub fn channels(&self) -> (res: Vec<usize>)
        ensures
            res@ == channels(*self),
        decreases self,
    {
        match &self.variant {
            Variant::Play(p) => vec![*p.channel_id()],
            Variant::Osc(o) => vec![o.channel_id],
            Variant::SwapPhase(a, b) => vec![*a, *b],
            Variant::Barrier(v) => {
                let mut res: Vec<usize> = Vec::new();
                let mut i: usize = 0;
                while i < v.len()
                    invariant
                        i <= v@.len(),
                        res@ == v@.take(i as int),
                    decreases v@.len() - i,
                {
                    res.push(v[i]);
                    i += 1;
                    assert(res@ =~= v@.take(i as int));
                }
                assert(v@.take(v@.len() as int) =~= v@);
                res
            },
            Variant::Repeat(child, _, _) => {
                proof {
                    assert(decreases_to!(*self => self.variant));
                    assert(decreases_to!(self.variant => self.variant->Repeat_0));
                }
                child.channels()
            },
            _ => {
                let n = self.child_count();
                let mut lists: Vec<Vec<usize>> = Vec::new();
                let mut k: usize = 0;
                assert(list_views(lists@) + child_channels(*self, 0) =~= child_channels(*self, 0));
                while k < n
                    invariant
                        k <= n,
                        n == child_count(*self),
                        list_views(lists@) + child_channels(*self, k as nat) == child_channels(
                            *self,
                            0,
                        ),
                    decreases n - k,
                {
                    proof {
                        lemma_child_decreases(*self, k as int);
                    }
                    let c = self.child(k);
                    let cs = c.channels();
                    let ghost before = list_views(lists@);
                    lists.push(cs);
                    assert(list_views(lists@) =~= before.push(cs@));
                    assert(child_channels(*self, k as nat) =~= seq![cs@] + child_channels(
                        *self,
                        (k + 1) as nat,
                    ));
                    assert(list_views(lists@) + child_channels(*self, (k + 1) as nat) =~= before
                        + child_channels(*self, k as nat));
                    k += 1;
                }
                assert(list_views(lists@) =~= child_channels(*self, 0));
                let res = merge_channel_ids(&lists);
                res
            },
        }
    }

    /// The time each child needs.
    fn child_measures(&self) -> (res: Vec<T>)
        ensures
            res@ == child_measures(*self, 0),
        decreases self, 0nat,
    {
        let n = self.child_count();
        let mut ms: Vec<T> = Vec::new();
        let mut k: usize = 0;
        assert(ms@ + child_measures(*self, 0) =~= child_measures(*self, 0));
        while k < n
            invariant
                k <= n,
                n == child_count(*self),
                ms@ + child_measures(*self, k as nat) == child_measures(*self, 0),
            decreases n - k,
        {
            proof {
                lemma_child_decreases(*self, k as int);
            }
            let c = self.child(k);
            let m = c.measure();
            let ghost before = ms@;
            ms.push(m);
            assert(child_measures(*self, k as nat) =~= seq![m] + child_measures(
                *self,
                (k + 1) as nat,
            ));
            assert(ms@ + child_measures(*self, (k + 1) as nat) =~= before + child_measures(
                *self,
                k as nat,
            ));
            k += 1;
        }
        assert(ms@ =~= child_measures(*self, 0));
        ms
    }

    /// The time the element needs, margins and duration limits included.
    pub fn measure(&self) -> (res: T)
        ensures
            res == measure(*self),
        decreases self, 2nat,
    {
        let inner = self.content_measure();
        self.common.measure(inner)
    }

    /// The time the content of the element needs.
    pub fn content_measure(&self) -> (res: T)
        ensures
            res == content_measure(*self),
        decreases self, 1nat,
    {
        match &self.variant {
            Variant::Play(p) => p.measure(),
            Variant::Repeat(child, count, spacing) => {
                proof {
                    assert(decreases_to!(*self => self.variant));
                    assert(decreases_to!(self.variant => self.variant->Repeat_0));
                }
                let m = child.measure();
                measure_repeat(*count, m, *spacing)
            },
            Variant::Stack(_, dir) => {
                let ms = self.child_measures();
                let (views, n) = self.stack_views_exec(&ms);
                let (total, _) = measure_stack(&views, n, *dir);
                total
            },
            Variant::Absolute(entries) => {
                let ms = self.child_measures();
                proof {
                    lemma_child_measures_len(*self, 0);
                }
                let mut children: Vec<AbsoluteChild<T>> = Vec::new();
                let mut k: usize = 0;
                while k < entries.len()
                    invariant
                        k <= entries@.len(),
                        ms@.len() == entries@.len(),
                        children@ == absolute_children(entries@, ms@).take(k as int),
                    decreases entries@.len() - k,
                {
                    children.push(AbsoluteChild { offset: entries[k].time, duration: ms[k] });
                    k += 1;
                    assert(children@ =~= absolute_children(entries@, ms@).take(k as int));
                }
                assert(children@ =~= absolute_children(entries@, ms@));
                measure_absolute(&children)
            },
            Variant::Grid(entries, cols) => {
                let ms = self.child_measures();
                proof {
                    lemma_child_measures_len(*self, 0);
                }
                let mut children: Vec<GridChild<T>> = Vec::new();
                let mut k: usize = 0;
                while k < entries.len()
                    invariant
                        k <= entries@.len(),
                        ms@.len() == entries@.len(),
                        children@ == grid_children(entries@, ms@).take(k as int),
                    decreases entries@.len() - k,
                {
                    children.push(
                        GridChild { duration: ms[k], column: entries[k].column, span: entries[k].span },
                    );
                    k += 1;
                    assert(children@ =~= grid_children(entries@, ms@).take(k as int));
                }
                assert(children@ =~= grid_children(entries@, ms@));
                let columns = grid_columns_exec(cols);
                measure_grid(&children, &columns).total_duration
            },
            _ => T::zero(),
        }
    }


    /// The children of a stack as the stack layout sees them, with durations
    /// `ms`, and the number of the stack's channels.
    fn stack_views_exec(&self, ms: &Vec<T>) -> (res: (Vec<StackChild<T>>, usize))
        requires
            self.variant is Stack,
            ms@ == child_measures(*self, 0),
        ensures
            stack_views(res.0@) == stack_child_views(*self, ms@),
            res.1 == channels(*self).len(),
            channels_valid(stack_views(res.0@), res.1 as nat),
    {
        let list = self.channels();
        let n = self.child_count();
        proof {
            lemma_child_measures_len(*self, 0);
        }
        let mut views: Vec<StackChild<T>> = Vec::new();
        let mut k: usize = 0;
        while k < n
            invariant
                k <= n,
                n == child_count(*self),
                ms@ == child_measures(*self, 0),
                ms@.len() == n,
                list@ == channels(*self),
                self.variant is Stack,
                stack_views(views@) == stack_child_views(*self, ms@).take(k as int),
                channels_valid(stack_views(views@), list@.len()),
            decreases n - k,
        {
            let c = self.child(k);
            let cs = c.channels();
            let pos = positions_of(&list, &cs);
            proof {
                assert forall|j: int| 0 <= j < pos@.len() implies (#[trigger] pos@[j]) < list@.len() by {
                    assert(cs@.contains(cs@[j]));
                    lemma_child_channels_in_container(*self, k as int, cs@[j]);
                    lemma_first_index(list@, cs@[j]);
                }
            }
            let ghost before = views@;
            views.push(StackChild { span: ms[k], channels: pos });
            proof {
                assert(stack_views(views@) =~= stack_views(before).push(views@[k as int]@));
                assert(stack_views(views@) =~= stack_child_views(*self, ms@).take(k + 1));
                assert forall|i: int, j: int|
                    0 <= i < stack_views(views@).len() && 0 <= j < stack_views(
                        views@,
                    )[i].channels.len() implies (#[trigger] stack_views(views@)[i].channels[j])
                    < list@.len() by {
                    if i < k {
                        assert(stack_views(views@)[i] == stack_views(before)[i]);
                    }
                }
            }
            k += 1;
        }
        assert(stack_views(views@) =~= stack_child_views(*self, ms@));
        (views, list.len())
    }

    /// The range each child gets when the content of the element gets
    /// `range`.
    pub fn arrange_children(&self, range: TimeRange<T>) -> (res: Vec<TimeRange<T>>)
        ensures
            res@ == child_ranges(*self, range),
    {
        match &self.variant {
            Variant::Repeat(child, count, spacing) => {
                let m = child.measure();
                let res = arrange_repeat(range.start, *count, m, *spacing);
                assert(res@ =~= child_ranges(*self, range));
                res
            },
            Variant::Stack(_, dir) => {
                let ms = self.child_measures();
                proof {
                    lemma_child_measures_len(*self, 0);
                }
                let (views, n) = self.stack_views_exec(&ms);
                let (_, timings) = measure_stack(&views, n, *dir);
                let res = arrange_stack(range, &timings, *dir);
                proof {
                    let layout = stack_layout(*self, ms@, *dir);
                    assert(stack_views(views@).len() == views@.len());
                    assert(stack_child_views(*self, ms@).len() == ms@.len());
                    assert(views@.len() == ms@.len());
                    assert forall|i: int| 0 <= i < ms@.len() implies res@[i] == child_ranges(
                        *self,
                        range,
                    )[i] by {
                        assert(stack_views(views@)[i] == stack_child_views(*self, ms@)[i]);
                        assert(views@[i].span == ms@[i]);
                        assert(timings@[i] == (TimeRange {
                            start: layout.0[processing_index(ms@.len(), i, *dir)],
                            span: ms@[i],
                        }));
                    }
                }
                assert(res@ =~= child_ranges(*self, range));
                res
            },
            Variant::Absolute(entries) => {
                let ms = self.child_measures();
                proof {
                    lemma_child_measures_len(*self, 0);
                }
                let mut children: Vec<AbsoluteChild<T>> = Vec::new();
                let mut k: usize = 0;
                while k < entries.len()
                    invariant
                        k <= entries@.len(),
                        ms@.len() == entries@.len(),
                        children@ == absolute_children(entries@, ms@).take(k as int),
                    decreases entries@.len() - k,
                {
                    children.push(AbsoluteChild { offset: entries[k].time, duration: ms[k] });
                    k += 1;
                    assert(children@ =~= absolute_children(entries@, ms@).take(k as int));
                }
                assert(children@ =~= absolute_children(entries@, ms@));
                let res = arrange_absolute(range, &children);
                assert(res@ =~= child_ranges(*self, range));
                res
            },
            Variant::Grid(entries, cols) => {
                let ms = self.child_measures();
                proof {
                    lemma_child_measures_len(*self, 0);
                }
                let mut children: Vec<GridChild<T>> = Vec::new();
                let mut arranged: Vec<GridArrangeChild<T>> = Vec::new();
                let mut k: usize = 0;
                while k < entries.len()
                    invariant
                        k <= entries@.len(),
                        ms@.len() == entries@.len(),
                        children@ == grid_children(entries@, ms@).take(k as int),
                        arranged@.len() == k,
                        forall|i: int|
                            0 <= i < k ==> #[trigger] arranged@[i] == (GridArrangeChild {
                                column: entries@[i].column,
                                span: entries@[i].span,
                                alignment: entries@[i].element.common@.alignment,
                                duration: ms@[i],
                            }),
                    decreases entries@.len() - k,
                {
                    let entry = &entries[k];
                    children.push(
                        GridChild { duration: ms[k], column: entry.column, span: entry.span },
                    );
                    arranged.push(
                        GridArrangeChild {
                            column: entry.column,
                            span: entry.span,
                            alignment: entry.element.common.alignment(),
                            duration: ms[k],
                        },
                    );
                    k += 1;
                    assert(children@ =~= grid_children(entries@, ms@).take(k as int));
                }
                assert(children@ =~= grid_children(entries@, ms@));
                let columns = grid_columns_exec(cols);
                let measured = measure_grid(&children, &columns);
                let res = arrange_grid(range, &columns, measured.column_sizes, &arranged);
                assert(res@ =~= child_ranges(*self, range));
                res
            },
            _ => {
                let res: Vec<TimeRange<T>> = Vec::new();
                assert(res@ =~= child_ranges(*self, range));
                res
            },
        }
    }

}

/// Law of the channels an element occupies: a pulse and an oscillator
/// instruction occupy the one channel they name; a phase swap occupies both
/// channels it names and no other; a barrier the channels it lists; a
/// repeat those of its child; a stack, absolute or grid container every
/// channel of each child and no other, each once.
pub proof fn lemma_element_channels<T>(e: Element<T>)
    ensures
        e.variant matches Variant::Play(p) ==> channels(e) == seq![p@.channel_id],
        e.variant matches Variant::Osc(o) ==> channels(e) == seq![o.channel_id],
        e.variant matches Variant::SwapPhase(a, b) ==> channels(e).contains(a) && channels(e).contains(b)
            && forall|c: usize| #[trigger] channels(e).contains(c) ==> c == a || c == b,
        e.variant matches Variant::Barrier(v) ==> channels(e) == v@,
        e.variant matches Variant::Repeat(child, _, _) ==> channels(e) == channels(*child),
        e.variant is Stack || e.variant is Absolute || e.variant is Grid ==> {
            &&& channels(e).no_duplicates()
            &&& forall|c: usize|
                #[trigger] channels(e).contains(c) <==> exists|k: int|
                    0 <= k < child_count(e) && #[trigger] channels(child_at(e, k)).contains(c)
        },
{
    match e.variant {
        Variant::SwapPhase(a, b) => {
            assert(channels(e)[0] == a);
            assert(channels(e)[1] == b);
        },
        Variant::Stack(..) | Variant::Absolute(..) | Variant::Grid(..) => {
            let rows = child_channels(e, 0);
            lemma_merged_channels(rows);
            lemma_child_channels_len(e, 0);
            assert(channels(e) == merged_channels(rows));
            assert forall|c: usize| #[trigger] channels(e).contains(c) <==> exists|k: int|
                0 <= k < child_count(e) && #[trigger] channels(child_at(e, k)).contains(c) by {
                if channels(e).contains(c) {
                    let i = choose|i: int| 0 <= i < rows.len() && #[trigger] rows[i].contains(c);
                    lemma_child_channels_at(e, 0, i);
                    assert(channels(child_at(e, i)).contains(c));
                }
                if exists|k: int| 0 <= k < child_count(e) && #[trigger] channels(child_at(e, k)).contains(c) {
                    let k = choose|k: int|
                        0 <= k < child_count(e) && #[trigger] channels(child_at(e, k)).contains(c);
                    lemma_child_channels_at(e, 0, k);
                    assert(rows[k].contains(c));
                }
            }
        },
        _ => {},
    }
}

/// Law of the stack element: a child that the stack places after another
/// child with which it shares a channel starts no earlier than that child
/// ends. The starts are those of the stack's own layout, in the order the
/// children are placed (from the last child for a backward stack).
pub proof fn lemma_stack_children_wait<T: Divisible>(e: Element<T>)
    requires
        e.variant is Stack,
        channels(e).len() <= usize::MAX,
    ensures
        ({
            let ms = child_measures(e, 0);
            let dir = e.variant->Stack_1;
            let n = child_count(e);
            let starts = stack_layout(e, ms, dir).0;
            forall|i: int, j: int, c: usize|
                #![trigger starts[i], starts[j], channels(child_at(e, processing_index(n, i, dir))).contains(c), channels(child_at(e, processing_index(n, j, dir))).contains(c)]
                0 <= i < j < n && channels(child_at(e, processing_index(n, i, dir))).contains(c)
                    && channels(child_at(e, processing_index(n, j, dir))).contains(c)
                    ==> starts[i].spec_plus(measure(child_at(e, processing_index(n, i, dir)))).spec_leq(
                    starts[j],
                )
        }),
{
    let ms = child_measures(e, 0);
    let dir = e.variant->Stack_1;
    let n = child_count(e);
    let list = channels(e);
    let nc = list.len();
    lemma_child_measures_len(e, 0);
    lemma_element_channels(e);
    let base = stack_child_views(e, ms);
    let views = processing_order(base, dir);
    assert(views.len() == n);
    assert forall|i: int| 0 <= i < n implies #[trigger] views[i] == base[processing_index(n, i, dir)] by {}
    assert forall|i: int| 0 <= i < n implies ms[i] == measure(child_at(e, i)) by {
        lemma_child_measures_at(e, 0, i);
    }
    assert(spans_not_negative(views)) by {
        assert forall|i: int| 0 <= i < views.len() implies T::spec_zero().spec_leq(#[trigger] views[i].span) by {
            let k = processing_index(n, i, dir);
            lemma_child_measures_at(e, 0, k);
            let ch = child_at(e, k);
            lemma_measure_not_negative(ch.common@, content_measure(ch));
        }
    }
    assert(channels_valid(views, nc)) by {
        assert forall|i: int, j: int| 0 <= i < views.len() && 0 <= j < views[i].channels.len() implies (
        #[trigger] views[i].channels[j]) < nc by {
            let k = processing_index(n, i, dir);
            let cs = channels(child_at(e, k));
            assert(cs.contains(cs[j]));
            assert(list.contains(cs[j]));
            lemma_first_index(list, cs[j]);
        }
    }
    lemma_stack_no_overlap(nc, views);
    let starts = stack_run(nc, views).0;
    assert forall|i: int, j: int, c: usize|
        0 <= i < j < n && channels(child_at(e, processing_index(n, i, dir))).contains(c) && channels(
            child_at(e, processing_index(n, j, dir)),
        ).contains(c) implies starts[i].spec_plus(measure(child_at(e, processing_index(n, i, dir)))).spec_leq(
        starts[j],
    ) by {
        let ki = processing_index(n, i, dir);
        let kj = processing_index(n, j, dir);
        let ci = channels(child_at(e, ki));
        let cj = channels(child_at(e, kj));
        lemma_child_measures_at(e, 0, ki);
        assert(list.contains(c));
        lemma_first_index(list, c);
        let p = first_index(list, c) as usize;
        if nc > 0 {
            let a = choose|a: int| 0 <= a < ci.len() && ci[a] == c;
            let b = choose|b: int| 0 <= b < cj.len() && cj[b] == c;
            assert(views[i].channels[a] == p);
            assert(views[j].channels[b] == p);
            assert(occupied(nc, views[i].channels).contains(p));
            assert(occupied(nc, views[j].channels).contains(p));
        }
        assert(shares_channel(nc, views[i].channels, views[j].channels));
        assert(starts[i] == stack_run(nc, views).0[i]);
    }
}

} // verus!
