//! Timing rules shared by all schedule elements: margins, duration limits,
//! alignment and the measure of an element from the measure of its content.
use vstd::prelude::*;

use crate::scalar::{max, min, spec_max, spec_min, Additive, Ordered};

verus! {

/// Alignment of an element inside the span its parent gives it.
#[derive(Debug, Clone, Copy, PartialEq, Eq, Structural)]
pub enum Alignment {
    End,
    Start,
    Center,
    Stretch,
}

/// Order in which a stack lays out its children.
#[derive(Debug, Clone, Copy, PartialEq, Eq, Structural)]
pub enum Direction {
    /// Children are placed from the last to the first, as late as possible.
    Backward,
    /// Children are placed from the first to the last, as early as possible.
    Forward,
}

/// A span of time starting at `start`.
#[derive(Debug, Clone, Copy)]
pub struct TimeRange<T> {
    pub start: T,
    pub span: T,
}

/// Lower and upper limit of a duration.
#[derive(Debug, Clone, Copy)]
pub struct MinMax<T> {
    pub min: T,
    pub max: T,
}

impl<T: Ordered> MinMax<T> {
    /// `value` cut to at most `max`, then raised to at least `min`.
    pub open spec fn spec_clamp(self, value: T) -> T {
        spec_max(spec_min(value, self.max), self.min)
    }

    /// Limits `min` and `max`.
    pub fn new(min: T, max: T) -> (res: Self)
        ensures
            res.min == min,
            res.max == max,
    {
        MinMax { min, max }
    }

    /// `value` cut to at most `max`, then raised to at least `min`; `min`
    /// wins when the limits conflict.
    pub fn clamp(&self, value: T) -> (res: T)
        ensures
            res == self.spec_clamp(value),
    {
        max(min(value, self.max), self.min)
    }
}

/// What an element's common properties hold.
#[verifier::ext_equal]
pub struct ElementCommonView<T> {
    pub margin: (T, T),
    pub alignment: Alignment,
    pub phantom: bool,
    pub duration: Option<T>,
    pub max_duration: T,
    pub min_duration: T,
}

/// Properties that every schedule element has: margins before and after,
/// alignment in the parent, whether it is a phantom that adds nothing to the
/// waveforms, and limits on its duration.
#[derive(Debug, Clone, Copy)]
pub struct ElementCommon<T> {
    margin_before: T,
    margin_after: T,
    alignment: Alignment,
    phantom: bool,
    duration: Option<T>,
    max_duration: T,
    min_duration: T,
}

/// A builder of [`ElementCommon`] that checks the values on `build`.
#[derive(Debug, Clone, Copy)]
pub struct ElementCommonBuilder<T>(ElementCommon<T>);

/// A value that [`ElementCommonBuilder::validate`] refuses.
#[derive(Debug, Clone, Copy, PartialEq, Eq)]
pub enum CommonError<T> {
    /// A margin is not finite: the margins before and after.
    InvalidMargin(T, T),
    /// The duration is not finite or is negative.
    InvalidDuration(T),
    /// The minimum duration is not finite or is negative.
    InvalidMinDuration(T),
    /// The maximum duration is negative.
    InvalidMaxDuration(T),
}

impl<T> View for ElementCommon<T> {
    type V = ElementCommonView<T>;

    closed spec fn view(&self) -> ElementCommonView<T> {
        ElementCommonView {
            margin: (self.margin_before, self.margin_after),
            alignment: self.alignment,
            phantom: self.phantom,
            duration: self.duration,
            max_duration: self.max_duration,
            min_duration: self.min_duration,
        }
    }
}

impl<T> View for ElementCommonBuilder<T> {
    type V = ElementCommonView<T>;

    closed spec fn view(&self) -> ElementCommonView<T> {
        self.0@
    }
}

impl<T: Ordered> ElementCommonView<T> {
    /// The limits of the duration before the duration itself is applied.
    pub open spec fn limits(self) -> MinMax<T> {
        MinMax { min: self.min_duration, max: self.max_duration }
    }

    /// The limits of the inner span: the duration, if set, clamped into the
    /// limits; otherwise the limits themselves.
    pub open spec fn spec_min_max_duration(self) -> MinMax<T> {
        let limits = self.limits();
        MinMax {
            min: limits.spec_clamp(
                match self.duration {
                    Some(d) => d,
                    None => T::spec_zero(),
                },
            ),
            max: limits.spec_clamp(
                match self.duration {
                    Some(d) => d,
                    None => T::spec_infinity(),
                },
            ),
        }
    }

    /// The sum of both margins.
    pub open spec fn spec_total_margin(self) -> T {
        self.margin.0.spec_plus(self.margin.1)
    }

    /// The range that the content of the element gets out of the range the
    /// element gets.
    pub open spec fn spec_inner_time_range(self, range: TimeRange<T>) -> TimeRange<T> {
        TimeRange {
            start: range.start.spec_plus(self.margin.0),
            span: self.spec_min_max_duration().spec_clamp(range.span.spec_minus(self.spec_total_margin())),
        }
    }

    /// The duration an element needs, margins included, when its content
    /// needs `inner`.
    pub open spec fn spec_measure(self, inner: T) -> T {
        spec_max(self.spec_min_max_duration().spec_clamp(inner).spec_plus(self.spec_total_margin()), T::spec_zero())
    }

    /// The checks of [`ElementCommonBuilder::validate`] pass.
    pub open spec fn is_valid(self) -> bool {
        &&& self.margin.0.spec_is_finite() && self.margin.1.spec_is_finite()
        &&& self.duration matches Some(d) ==> d.spec_is_finite() && T::spec_zero().spec_leq(d)
        &&& self.min_duration.spec_is_finite() && T::spec_zero().spec_leq(self.min_duration)
        &&& T::spec_zero().spec_leq(self.max_duration)
    }

    /// The error that [`ElementCommonBuilder::validate`] reports, the first
    /// failed check in the order margin, duration, minimum, maximum.
    pub open spec fn first_error(self) -> Option<CommonError<T>> {
        if !(self.margin.0.spec_is_finite() && self.margin.1.spec_is_finite()) {
            Some(CommonError::InvalidMargin(self.margin.0, self.margin.1))
        } else if self.duration matches Some(d) && !(d.spec_is_finite() && T::spec_zero().spec_leq(d)) {
            Some(CommonError::InvalidDuration(self.duration.unwrap()))
        } else if !(self.min_duration.spec_is_finite() && T::spec_zero().spec_leq(self.min_duration)) {
            Some(CommonError::InvalidMinDuration(self.min_duration))
        } else if !T::spec_zero().spec_leq(self.max_duration) {
            Some(CommonError::InvalidMaxDuration(self.max_duration))
        } else {
            None
        }
    }
}

impl<T: Ordered> ElementCommon<T> {
    /// Margins before and after the element.
    pub fn margin(&self) -> (res: (T, T))
        ensures
            res == self@.margin,
    {
        (self.margin_before, self.margin_after)
    }

    /// Alignment of the element in its parent.
    pub fn alignment(&self) -> (res: Alignment)
        ensures
            res == self@.alignment,
    {
        self.alignment
    }

    /// Whether the element adds nothing to the waveforms.
    pub fn phantom(&self) -> (res: bool)
        ensures
            res == self@.phantom,
    {
        self.phantom
    }

    /// The fixed duration of the element, if any.
    pub fn duration(&self) -> (res: Option<T>)
        ensures
            res == self@.duration,
    {
        self.duration
    }

    /// The upper limit of the duration.
    pub fn max_duration(&self) -> (res: T)
        ensures
            res == self@.max_duration,
    {
        self.max_duration
    }

    /// The lower limit of the duration.
    pub fn min_duration(&self) -> (res: T)
        ensures
            res == self@.min_duration,
    {
        self.min_duration
    }

    /// The limits of the inner span: the duration, if set, clamped into the
    /// limits; otherwise the limits themselves.
    pub fn min_max_duration(&self) -> (res: MinMax<T>)
        ensures
            res == self@.spec_min_max_duration(),
    {
        let limits = MinMax::new(self.min_duration, self.max_duration);
        let hi = match self.duration {
            Some(d) => d,
            None => T::infinity(),
        };
        let lo = match self.duration {
            Some(d) => d,
            None => T::zero(),
        };
        MinMax::new(limits.clamp(lo), limits.clamp(hi))
    }

    /// The sum of both margins.
    pub fn total_margin(&self) -> (res: T)
        ensures
            res == self@.spec_total_margin(),
    {
        self.margin_before.plus(self.margin_after)
    }

    /// The range that the content of the element gets: the margins are cut
    /// off and the rest is clamped into the duration limits.
    pub fn inner_time_range(&self, time_range: TimeRange<T>) -> (res: TimeRange<T>)
        ensures
            res == self@.spec_inner_time_range(time_range),
    {
        let min_max = self.min_max_duration();
        let inner_start = time_range.start.plus(self.margin_before);
        let inner_span = min_max.clamp(time_range.span.minus(self.total_margin()));
        TimeRange { start: inner_start, span: inner_span }
    }

    /// The duration the element needs, margins included, when its content
    /// needs `inner_duration`; never negative.
    pub fn measure(&self, inner_duration: T) -> (res: T)
        ensures
            res == self@.spec_measure(inner_duration),
    {
        let min_max = self.min_max_duration();
        let duration = min_max.clamp(inner_duration).plus(self.total_margin());
        max(duration, T::zero())
    }
}

impl<T: Ordered> ElementCommonBuilder<T> {
    /// A builder with no margins, end alignment, no phantom, no fixed
    /// duration, no upper limit and a lower limit of zero.
    pub fn new() -> (res: Self)
        ensures
            res@ == (ElementCommonView {
                margin: (T::spec_zero(), T::spec_zero()),
                alignment: Alignment::End,
                phantom: false,
                duration: None,
                max_duration: T::spec_infinity(),
                min_duration: T::spec_zero(),
            }),
    {
        ElementCommonBuilder(
            ElementCommon {
                margin_before: T::zero(),
                margin_after: T::zero(),
                alignment: Alignment::End,
                phantom: false,
                duration: None,
                max_duration: T::infinity(),
                min_duration: T::zero(),
            },
        )
    }

    /// Set the margins.
    pub fn margin(&mut self, margin: (T, T)) -> (res: &mut Self)
        ensures
            (*res)@ == (ElementCommonView { margin, ..old(self)@ }),
            *final(self) == *final(res),
    {
        self.0.margin_before = margin.0;
        self.0.margin_after = margin.1;
        self
    }

    /// Set the alignment.
    pub fn alignment(&mut self, alignment: Alignment) -> (res: &mut Self)
        ensures
            (*res)@ == (ElementCommonView { alignment, ..old(self)@ }),
            *final(self) == *final(res),
    {
        self.0.alignment = alignment;
        self
    }

    /// Set whether the element is a phantom.
    pub fn phantom(&mut self, phantom: bool) -> (res: &mut Self)
        ensures
            (*res)@ == (ElementCommonView { phantom, ..old(self)@ }),
            *final(self) == *final(res),
    {
        self.0.phantom = phantom;
        self
    }

    /// Set the fixed duration.
    pub fn duration(&mut self, duration: Option<T>) -> (res: &mut Self)
        ensures
            (*res)@ == (ElementCommonView { duration, ..old(self)@ }),
            *final(self) == *final(res),
    {
        self.0.duration = duration;
        self
    }

    /// Set the upper limit of the duration.
    pub fn max_duration(&mut self, max_duration: T) -> (res: &mut Self)
        ensures
            (*res)@ == (ElementCommonView { max_duration, ..old(self)@ }),
            *final(self) == *final(res),
    {
        self.0.max_duration = max_duration;
        self
    }

    /// Set the lower limit of the duration.
    pub fn min_duration(&mut self, min_duration: T) -> (res: &mut Self)
        ensures
            (*res)@ == (ElementCommonView { min_duration, ..old(self)@ }),
            *final(self) == *final(res),
    {
        self.0.min_duration = min_duration;
        self
    }

    /// Check the values: finite margins, a finite duration that is not
    /// negative, a finite lower limit that is not negative, and an upper
    /// limit that is not negative.
    pub fn validate(&self) -> (res: Result<(), CommonError<T>>)
        ensures
            res is Ok <==> self@.is_valid(),
            res matches Err(e) ==> self@.first_error() == Some(e),
    {
        let v = &self.0;
        if !(v.margin_before.is_finite() && v.margin_after.is_finite()) {
            return Err(CommonError::InvalidMargin(v.margin_before, v.margin_after));
        }
        if let Some(d) = v.duration {
            if !(d.is_finite() && T::zero().leq(d)) {
                return Err(CommonError::InvalidDuration(d));
            }
        }
        if !(v.min_duration.is_finite() && T::zero().leq(v.min_duration)) {
            return Err(CommonError::InvalidMinDuration(v.min_duration));
        }
        if !T::zero().leq(v.max_duration) {
            return Err(CommonError::InvalidMaxDuration(v.max_duration));
        }
        Ok(())
    }

    /// The checked properties.
    pub fn build(&self) -> (res: Result<ElementCommon<T>, CommonError<T>>)
        ensures
            res is Ok <==> self@.is_valid(),
            res matches Ok(c) ==> c@ == self@,
            res matches Err(e) ==> self@.first_error() == Some(e),
    {
        self.validate()?;
        Ok(self.0)
    }
}

/// Clamping never goes below the lower limit; it stays within both limits
/// when they do not conflict, and leaves a value within them as it is.
pub proof fn lemma_clamp_bounds<T: Ordered>(limits: MinMax<T>, value: T)
    ensures
        limits.min.spec_leq(limits.spec_clamp(value)),
        limits.min.spec_leq(limits.max) ==> limits.spec_clamp(value).spec_leq(limits.max),
        limits.min.spec_leq(value) && value.spec_leq(limits.max) ==> limits.spec_clamp(value)
            == value,
{
    T::lemma_total_order(value, limits.max, limits.min);
    T::lemma_total_order(limits.min, value, limits.max);
    T::lemma_total_order(limits.max, value, limits.min);
    T::lemma_total_order(limits.min, limits.max, value);
    T::lemma_total_order(value, limits.min, limits.max);
}

/// The duration limits take priority in the documented order: the minimum
/// duration always holds, the maximum duration holds unless it conflicts with
/// the minimum, and a duration that lies within both fixes the inner span
/// whatever span the parent gives.
pub proof fn lemma_duration_priority<T: Ordered>(c: ElementCommonView<T>, range: TimeRange<T>)
    ensures
        c.min_duration.spec_leq(c.spec_inner_time_range(range).span),
        c.min_duration.spec_leq(c.max_duration) ==> c.spec_inner_time_range(range).span.spec_leq(
            c.max_duration,
        ),
        c.duration matches Some(d) ==> (c.min_duration.spec_leq(d) && d.spec_leq(c.max_duration)
            ==> c.spec_inner_time_range(range).span == d),
{
    let limits = c.limits();
    let mm = c.spec_min_max_duration();
    let lo_in = match c.duration {
        Some(d) => d,
        None => T::spec_zero(),
    };
    let hi_in = match c.duration {
        Some(d) => d,
        None => T::spec_infinity(),
    };
    lemma_clamp_bounds(limits, lo_in);
    lemma_clamp_bounds(limits, hi_in);
    let v = range.span.spec_minus(c.spec_total_margin());
    lemma_clamp_bounds(mm, v);
    T::lemma_total_order(c.min_duration, mm.min, mm.spec_clamp(v));
    T::lemma_total_order(mm.spec_clamp(v), mm.max, c.max_duration);
    T::lemma_total_order(lo_in, T::spec_zero(), T::spec_infinity());
    T::lemma_total_order(c.min_duration, c.max_duration, T::spec_infinity());
    if c.min_duration.spec_leq(c.max_duration) {
        // Both limits of the inner span lie within [min, max]; the inner span
        // lies between them.
        T::lemma_total_order(mm.min, mm.max, c.max_duration);
        T::lemma_total_order(c.min_duration, T::spec_zero(), c.max_duration);
        T::lemma_total_order(T::spec_zero(), c.max_duration, T::spec_infinity());
        T::lemma_total_order(c.min_duration, c.max_duration, hi_in);
        T::lemma_total_order(lo_in, hi_in, c.max_duration);
        T::lemma_total_order(c.min_duration, lo_in, hi_in);
        T::lemma_total_order(lo_in, c.max_duration, hi_in);
        T::lemma_total_order(T::spec_zero(), c.min_duration, c.max_duration);
        T::lemma_total_order(mm.min, lo_in, mm.max);
        T::lemma_total_order(mm.min, c.max_duration, mm.max);
    }
}

/// An element never measures negative.
pub proof fn lemma_measure_not_negative<T: Ordered>(c: ElementCommonView<T>, inner: T)
    ensures
        T::spec_zero().spec_leq(c.spec_measure(inner)),
{
    let v = c.spec_min_max_duration().spec_clamp(inner).spec_plus(c.spec_total_margin());
    T::lemma_total_order(T::spec_zero(), v, T::spec_zero());
}

} // verus!
