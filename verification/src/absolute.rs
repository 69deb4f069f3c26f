//! Layout of an absolute container: each child starts at a fixed offset from
//! the start of the container.
use vstd::prelude::*;

use crate::scalar::{max, spec_max, Additive, Ordered};
use crate::schedule::TimeRange;

verus! {

/// What the absolute layout reads of a child: its offset from the start of
/// the container and the duration it needs.
#[derive(Debug, Clone, Copy)]
pub struct AbsoluteChild<T> {
    pub offset: T,
    pub duration: T,
}

/// The end of the latest child, the last of equal ones; zero without
/// children.
pub open spec fn latest_end<T: Ordered>(children: Seq<AbsoluteChild<T>>) -> T
    decreases children.len(),
{
    if children.len() == 0 {
        T::spec_zero()
    } else if children.len() == 1 {
        children[0].offset.spec_plus(children[0].duration)
    } else {
        spec_max(
            latest_end(children.drop_last()),
            children.last().offset.spec_plus(children.last().duration),
        )
    }
}

/// A check that an offset of a child is finite.
#[derive(Debug, Clone, Copy, PartialEq, Eq)]
pub enum OffsetError<T> {
    /// The offset is infinite or undefined.
    InvalidTime(T),
}

impl<T: Ordered> AbsoluteChild<T> {
    /// A child that needs `duration`, at the start of the container.
    pub fn new(duration: T) -> (res: Self)
        ensures
            res == (AbsoluteChild { offset: T::spec_zero(), duration }),
    {
        AbsoluteChild { offset: T::zero(), duration }
    }

    /// The same child at offset `time`, refused unless the time is finite.
    pub fn with_time(self, time: T) -> (res: Result<Self, OffsetError<T>>)
        ensures
            time.spec_is_finite() ==> res == Ok::<Self, OffsetError<T>>(
                AbsoluteChild { offset: time, duration: self.duration },
            ),
            !time.spec_is_finite() ==> res == Err::<Self, OffsetError<T>>(
                OffsetError::InvalidTime(time),
            ),
    {
        if time.is_finite() {
            Ok(AbsoluteChild { offset: time, duration: self.duration })
        } else {
            Err(OffsetError::InvalidTime(time))
        }
    }
}

/// The duration of an absolute container: the latest end of a child, zero
/// without children.
pub fn measure_absolute<T: Ordered>(children: &[AbsoluteChild<T>]) -> (res: T)
    ensures
        res == latest_end(children@),
{
    if children.len() == 0 {
        return T::zero();
    }
    let mut acc = children[0].offset.plus(children[0].duration);
    let mut i: usize = 1;
    assert(children@.take(1).drop_last() =~= Seq::<AbsoluteChild<T>>::empty());
    while i < children.len()
        invariant
            1 <= i <= children@.len(),
            acc == latest_end(children@.take(i as int)),
        decreases children@.len() - i,
    {
        let c = children[i];
        acc = max(acc, c.offset.plus(c.duration));
        assert(children@.take(i + 1).drop_last() =~= children@.take(i as int));
        i += 1;
    }
    assert(children@.take(children@.len() as int) =~= children@);
    acc
}

/// Where each child lands when the container gets `time_range`: at the start
/// of the range plus its offset, with the duration it needs.
pub fn arrange_absolute<T: Ordered>(time_range: TimeRange<T>, children: &[AbsoluteChild<T>]) -> (res:
    Vec<TimeRange<T>>)
    ensures
        res@.len() == children@.len(),
        forall|i: int|
            0 <= i < children@.len() ==> (#[trigger] res@[i]) == (TimeRange {
                start: time_range.start.spec_plus(children@[i].offset),
                span: children@[i].duration,
            }),
{
    let mut res: Vec<TimeRange<T>> = Vec::new();
    let mut i: usize = 0;
    while i < children.len()
        invariant
            i <= children@.len(),
            res@.len() == i,
            forall|j: int|
                0 <= j < i ==> (#[trigger] res@[j]) == (TimeRange {
                    start: time_range.start.spec_plus(children@[j].offset),
                    span: children@[j].duration,
                }),
        decreases children@.len() - i,
    {
        let c = children[i];
        res.push(TimeRange { start: time_range.start.plus(c.offset), span: c.duration });
        i += 1;
    }
    res
}

/// Law of the absolute layout: the container lasts at least as long as the
/// end of each child.
pub proof fn lemma_absolute_covers_children<T: Ordered>(children: Seq<AbsoluteChild<T>>, i: int)
    requires
        0 <= i < children.len(),
    ensures
        children[i].offset.spec_plus(children[i].duration).spec_leq(latest_end(children)),
    decreases children.len(),
{
    let e = children[i].offset.spec_plus(children[i].duration);
    if children.len() == 1 {
        T::lemma_total_order(e, e, e);
    } else {
        let prev = children.drop_last();
        let a = latest_end(prev);
        let b = children.last().offset.spec_plus(children.last().duration);
        if i == children.len() - 1 {
            T::lemma_total_order(b, a, a);
        } else {
            assert(prev[i] == children[i]);
            lemma_absolute_covers_children(prev, i);
            T::lemma_total_order(e, a, b);
        }
    }
}

/// Law of the absolute layout: a container with children lasts until the
/// end of one of them.
pub proof fn lemma_absolute_ends_with_a_child<T: Ordered>(children: Seq<AbsoluteChild<T>>)
    requires
        children.len() > 0,
    ensures
        exists|i: int|
            0 <= i < children.len() && children[i].offset.spec_plus(children[i].duration)
                == latest_end(children),
    decreases children.len(),
{
    let last = children.len() - 1;
    if children.len() == 1 {
        assert(children[0].offset.spec_plus(children[0].duration) == latest_end(children));
    } else {
        let prev = children.drop_last();
        lemma_absolute_ends_with_a_child(prev);
        let a = latest_end(prev);
        let b = children.last().offset.spec_plus(children.last().duration);
        if a.spec_leq(b) {
            assert(children[last].offset.spec_plus(children[last].duration) == latest_end(children));
        } else {
            let i = choose|i: int|
                0 <= i < prev.len() && prev[i].offset.spec_plus(prev[i].duration) == latest_end(prev);
            assert(prev[i] == children[i]);
        }
    }
}

} // verus!
