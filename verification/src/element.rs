//! The leaves of a schedule, the repeat container and the channels a
//! container spans: the checks their constructors make and the time each
//! needs.
use vstd::prelude::*;

use crate::scalar::{Additive, Divisible, Ordered};

verus! {

/// A value that a constructor of an element refuses.
#[derive(Debug, Clone, Copy, PartialEq, Eq)]
pub enum ElementError<T> {
    /// The amplitude is not finite.
    InvalidAmplitude(T),
    /// The width is not finite or is negative.
    InvalidWidth(T),
    /// The plateau is not finite or is negative.
    InvalidPlateau(T),
    /// The drag coefficient is not finite.
    InvalidDragCoef(T),
    /// The frequency is not finite.
    InvalidFrequency(T),
    /// The phase is not finite.
    InvalidPhase(T),
    /// The spacing of a repeat is not finite.
    InvalidSpacing(T),
}

/// `value` is finite and not negative.
pub open spec fn finite_not_negative<T: Ordered>(value: T) -> bool {
    value.spec_is_finite() && T::spec_zero().spec_leq(value)
}

/// A pulse on one channel: an optional shape, an amplitude, the width of
/// its edges and a plateau between them, a drag coefficient, a frequency
/// and a phase of its own; a flexible pulse stretches its plateau to the
/// time it gets.
#[derive(Debug, Clone)]
pub struct Play<C, S, T> {
    channel_id: C,
    shape_id: Option<S>,
    amplitude: T,
    width: T,
    plateau: T,
    drag_coef: T,
    frequency: T,
    phase: T,
    flexible: bool,
}

/// What a [`Play`] holds.
pub struct PlayView<C, S, T> {
    pub channel_id: C,
    pub shape_id: Option<S>,
    pub amplitude: T,
    pub width: T,
    pub plateau: T,
    pub drag_coef: T,
    pub frequency: T,
    pub phase: T,
    pub flexible: bool,
}

impl<C, S, T> View for Play<C, S, T> {
    type V = PlayView<C, S, T>;

    closed spec fn view(&self) -> PlayView<C, S, T> {
        PlayView {
            channel_id: self.channel_id,
            shape_id: self.shape_id,
            amplitude: self.amplitude,
            width: self.width,
            plateau: self.plateau,
            drag_coef: self.drag_coef,
            frequency: self.frequency,
            phase: self.phase,
            flexible: self.flexible,
        }
    }
}

impl<C, S, T: Ordered> PlayView<C, S, T> {
    /// The time the pulse needs: its width when flexible, width and plateau
    /// otherwise.
    pub open spec fn spec_measure(self) -> T {
        if self.flexible {
            self.width
        } else {
            self.width.spec_plus(self.plateau)
        }
    }
}

impl<C, S, T: Ordered> Play<C, S, T> {
    /// A pulse on `channel_id` with no plateau, drag, frequency or phase;
    /// refused unless the amplitude is finite and the width finite and not
    /// negative.
    pub fn new(channel_id: C, shape_id: Option<S>, amplitude: T, width: T) -> (res: Result<
        Self,
        ElementError<T>,
    >)
        ensures
            !amplitude.spec_is_finite() ==> res == Err::<Self, ElementError<T>>(
                ElementError::InvalidAmplitude(amplitude),
            ),
            amplitude.spec_is_finite() && !finite_not_negative(width) ==> res == Err::<
                Self,
                ElementError<T>,
            >(ElementError::InvalidWidth(width)),
            amplitude.spec_is_finite() && finite_not_negative(width) ==> (res matches Ok(p) && p@
                == (PlayView {
                channel_id,
                shape_id,
                amplitude,
                width,
                plateau: T::spec_zero(),
                drag_coef: T::spec_zero(),
                frequency: T::spec_zero(),
                phase: T::spec_zero(),
                flexible: false,
            })),
    {
        if !amplitude.is_finite() {
            return Err(ElementError::InvalidAmplitude(amplitude));
        }
        if !(width.is_finite() && T::zero().leq(width)) {
            return Err(ElementError::InvalidWidth(width));
        }
        Ok(Play {
            channel_id,
            shape_id,
            amplitude,
            width,
            plateau: T::zero(),
            drag_coef: T::zero(),
            frequency: T::zero(),
            phase: T::zero(),
            flexible: false,
        })
    }

    /// The same pulse with `plateau`, refused unless finite and not negative.
    pub fn with_plateau(self, plateau: T) -> (res: Result<Self, ElementError<T>>)
        ensures
            !finite_not_negative(plateau) ==> res == Err::<Self, ElementError<T>>(
                ElementError::InvalidPlateau(plateau),
            ),
            finite_not_negative(plateau) ==> (res matches Ok(p) && p@ == (PlayView { plateau, ..self@ })),
    {
        if !(plateau.is_finite() && T::zero().leq(plateau)) {
            return Err(ElementError::InvalidPlateau(plateau));
        }
        Ok(Play { plateau, ..self })
    }

    /// The same pulse with `drag_coef`, refused unless finite.
    pub fn with_drag_coef(self, drag_coef: T) -> (res: Result<Self, ElementError<T>>)
        ensures
            !drag_coef.spec_is_finite() ==> res == Err::<Self, ElementError<T>>(
                ElementError::InvalidDragCoef(drag_coef),
            ),
            drag_coef.spec_is_finite() ==> (res matches Ok(p) && p@ == (PlayView { drag_coef, ..self@ })),
    {
        if !drag_coef.is_finite() {
            return Err(ElementError::InvalidDragCoef(drag_coef));
        }
        Ok(Play { drag_coef, ..self })
    }

    /// The same pulse with `frequency`, refused unless finite.
    pub fn with_frequency(self, frequency: T) -> (res: Result<Self, ElementError<T>>)
        ensures
            !frequency.spec_is_finite() ==> res == Err::<Self, ElementError<T>>(
                ElementError::InvalidFrequency(frequency),
            ),
            frequency.spec_is_finite() ==> (res matches Ok(p) && p@ == (PlayView { frequency, ..self@ })),
    {
        if !frequency.is_finite() {
            return Err(ElementError::InvalidFrequency(frequency));
        }
        Ok(Play { frequency, ..self })
    }

    /// The same pulse with `phase`, refused unless finite.
    pub fn with_phase(self, phase: T) -> (res: Result<Self, ElementError<T>>)
        ensures
            !phase.spec_is_finite() ==> res == Err::<Self, ElementError<T>>(
                ElementError::InvalidPhase(phase),
            ),
            phase.spec_is_finite() ==> (res matches Ok(p) && p@ == (PlayView { phase, ..self@ })),
    {
        if !phase.is_finite() {
            return Err(ElementError::InvalidPhase(phase));
        }
        Ok(Play { phase, ..self })
    }

    /// The same pulse, flexible or not.
    pub fn with_flexible(self, flexible: bool) -> (res: Self)
        ensures
            res@ == (PlayView { flexible, ..self@ }),
    {
        Play { flexible, ..self }
    }

    /// The same pulse with its channel and shape named otherwise.
    pub fn with_ids<C2, S2>(self, channel_id: C2, shape_id: Option<S2>) -> (res: Play<C2, S2, T>)
        ensures
            res@ == (PlayView {
                channel_id,
                shape_id,
                amplitude: self@.amplitude,
                width: self@.width,
                plateau: self@.plateau,
                drag_coef: self@.drag_coef,
                frequency: self@.frequency,
                phase: self@.phase,
                flexible: self@.flexible,
            }),
    {
        Play {
            channel_id,
            shape_id,
            amplitude: self.amplitude,
            width: self.width,
            plateau: self.plateau,
            drag_coef: self.drag_coef,
            frequency: self.frequency,
            phase: self.phase,
            flexible: self.flexible,
        }
    }

    /// The channel the pulse plays on.
    pub fn channel_id(&self) -> (res: &C)
        ensures
            *res == self@.channel_id,
    {
        &self.channel_id
    }

    /// The shape of the edges, if any.
    pub fn shape_id(&self) -> (res: &Option<S>)
        ensures
            *res == self@.shape_id,
    {
        &self.shape_id
    }

    /// The amplitude.
    pub fn amplitude(&self) -> (res: T)
        ensures
            res == self@.amplitude,
    {
        self.amplitude
    }

    /// The width of the edges.
    pub fn width(&self) -> (res: T)
        ensures
            res == self@.width,
    {
        self.width
    }

    /// The plateau.
    pub fn plateau(&self) -> (res: T)
        ensures
            res == self@.plateau,
    {
        self.plateau
    }

    /// The drag coefficient.
    pub fn drag_coef(&self) -> (res: T)
        ensures
            res == self@.drag_coef,
    {
        self.drag_coef
    }

    /// The frequency of the pulse itself.
    pub fn frequency(&self) -> (res: T)
        ensures
            res == self@.frequency,
    {
        self.frequency
    }

    /// The phase of the pulse itself.
    pub fn phase(&self) -> (res: T)
        ensures
            res == self@.phase,
    {
        self.phase
    }

    /// Whether the plateau stretches to the time the pulse gets.
    pub fn flexible(&self) -> (res: bool)
        ensures
            res == self@.flexible,
    {
        self.flexible
    }

    /// The time the pulse needs: its width when flexible, width and plateau
    /// otherwise.
    pub fn measure(&self) -> (res: T)
        ensures
            res == self@.spec_measure(),
    {
        if self.flexible {
            self.width
        } else {
            self.width.plus(self.plateau)
        }
    }
}

/// What an instruction on a channel's oscillator does.
#[derive(Debug, Clone, Copy, PartialEq, Eq)]
pub enum OscKind {
    /// Add to the phase.
    ShiftPhase,
    /// Set the phase.
    SetPhase,
    /// Add to the frequency.
    ShiftFreq,
    /// Set the frequency.
    SetFreq,
}

/// An instruction on the oscillator of one channel, with the phase or
/// frequency it uses; it takes no time.
#[derive(Debug, Clone)]
pub struct OscInstruction<C, T> {
    pub kind: OscKind,
    pub channel_id: C,
    pub value: T,
}

impl<C, T: Ordered> OscInstruction<C, T> {
    /// An instruction of `kind` on `channel_id` with `value`, refused unless
    /// the value is finite.
    pub fn new(kind: OscKind, channel_id: C, value: T) -> (res: Result<Self, ElementError<T>>)
        ensures
            value.spec_is_finite() ==> (res matches Ok(i) && i == (OscInstruction {
                kind,
                channel_id,
                value,
            })),
            !value.spec_is_finite() ==> res == Err::<Self, ElementError<T>>(
                match kind {
                    OscKind::ShiftPhase | OscKind::SetPhase => ElementError::InvalidPhase(value),
                    _ => ElementError::InvalidFrequency(value),
                },
            ),
    {
        if !value.is_finite() {
            return Err(
                match kind {
                    OscKind::ShiftPhase | OscKind::SetPhase => ElementError::InvalidPhase(value),
                    _ => ElementError::InvalidFrequency(value),
                },
            );
        }
        Ok(OscInstruction { kind, channel_id, value })
    }
}

/// The time a repeat needs: `count` copies of the child, with `spacing`
/// between each two; zero when there is no copy.
pub open spec fn spec_measure_repeat<T: Divisible>(count: usize, child: T, spacing: T) -> T {
    if count == 0 {
        T::spec_zero()
    } else {
        let n = T::spec_from_count(count);
        child.spec_times(n).spec_plus(spacing.spec_times(n.spec_minus(T::spec_from_count(1))))
    }
}

/// The time a repeat needs: `count` copies of a child that needs `child`,
/// with `spacing` between each two.
pub fn measure_repeat<T: Divisible>(count: usize, child: T, spacing: T) -> (res: T)
    ensures
        res == spec_measure_repeat(count, child, spacing),
{
    if count == 0 {
        return T::zero();
    }
    let n = T::from_count(count);
    child.times(n).plus(spacing.times(n.minus(T::from_count(1))))
}

/// Where copy `i` of a repeat that gets `range` starts: after `i` copies of
/// the child, each followed by the spacing.
pub open spec fn repeat_start<T: Divisible>(range_start: T, child: T, spacing: T, i: usize) -> T {
    range_start.spec_plus(child.spec_plus(spacing).spec_times(T::spec_from_count(i)))
}

/// The ranges of the `count` copies of the child of a repeat that starts at
/// `start`, each as long as the child needs.
pub fn arrange_repeat<T: Divisible>(start: T, count: usize, child: T, spacing: T) -> (res: Vec<
    crate::schedule::TimeRange<T>,
>)
    ensures
        res@.len() == count,
        forall|i: int|
            0 <= i < count ==> (#[trigger] res@[i]) == (crate::schedule::TimeRange {
                start: repeat_start(start, child, spacing, i as usize),
                span: child,
            }),
{
    let offset_per_repeat = child.plus(spacing);
    let mut res: Vec<crate::schedule::TimeRange<T>> = Vec::new();
    let mut i: usize = 0;
    while i < count
        invariant
            i <= count,
            offset_per_repeat == child.spec_plus(spacing),
            res@.len() == i,
            forall|k: int|
                0 <= k < i ==> (#[trigger] res@[k]) == (crate::schedule::TimeRange {
                    start: repeat_start(start, child, spacing, k as usize),
                    span: child,
                }),
        decreases count - i,
    {
        let offset = offset_per_repeat.times(T::from_count(i));
        res.push(crate::schedule::TimeRange { start: start.plus(offset), span: child });
        i += 1;
    }
    res
}

/// The spacing of a repeat, refused unless finite.
pub fn check_spacing<T: Ordered>(spacing: T) -> (res: Result<T, ElementError<T>>)
    ensures
        spacing.spec_is_finite() ==> res == Ok::<T, ElementError<T>>(spacing),
        !spacing.spec_is_finite() ==> res == Err::<T, ElementError<T>>(
            ElementError::InvalidSpacing(spacing),
        ),
{
    if spacing.is_finite() {
        Ok(spacing)
    } else {
        Err(ElementError::InvalidSpacing(spacing))
    }
}

/// The channels of a container: every channel that a child names, each
/// once, in the order they first appear.
pub open spec fn merged_channels(ids: Seq<Seq<usize>>) -> Seq<usize>
    decreases ids.len(),
{
    if ids.len() == 0 {
        Seq::empty()
    } else {
        add_new(merged_channels(ids.drop_last()), ids.last())
    }
}

/// `acc` followed by the elements of `s` that are not yet in it, each once.
pub open spec fn add_new(acc: Seq<usize>, s: Seq<usize>) -> Seq<usize>
    decreases s.len(),
{
    if s.len() == 0 {
        acc
    } else {
        let prev = add_new(acc, s.drop_last());
        if prev.contains(s.last()) {
            prev
        } else {
            prev.push(s.last())
        }
    }
}

/// The channels met so far while merging, in a `hashbrown` hash set.
#[verifier::external_body]
pub struct ChannelSet {
    set: hashbrown::HashSet<usize>,
}

/// What a [`ChannelSet`] holds.
pub uninterp spec fn channel_set_contents(s: ChannelSet) -> Set<usize>;

/// No channel.
pub open spec fn no_channel() -> Set<usize> {
    Set::empty()
}

/// `hashbrown::HashSet::new`: a set that holds nothing.
#[verifier::external_body]
fn channel_set_new() -> (res: ChannelSet)
    ensures
        channel_set_contents(res) == no_channel(),
{
    ChannelSet { set: hashbrown::HashSet::new() }
}

/// `hashbrown::HashSet::insert`: `c` is in the set afterwards; the result
/// tells whether it was new.
#[verifier::external_body]
fn channel_set_insert(s: &mut ChannelSet, c: usize) -> (res: bool)
    ensures
        channel_set_contents(*final(s)) == channel_set_contents(*old(s)).insert(c),
        res == !channel_set_contents(*old(s)).contains(c),
{
    s.set.insert(c)
}

/// The channels that the children of a container name, each once.
pub fn merge_channel_ids(ids: &Vec<Vec<usize>>) -> (res: Vec<usize>)
    ensures
        res@ == merged_channels(ids@.map_values(|v: Vec<usize>| v@)),
{
    let ghost all = ids@.map_values(|v: Vec<usize>| v@);
    let mut seen = channel_set_new();
    let mut res: Vec<usize> = Vec::new();
    let mut i: usize = 0;
    while i < ids.len()
        invariant
            i <= ids@.len(),
            all == ids@.map_values(|v: Vec<usize>| v@),
            res@ == merged_channels(all.take(i as int)),
            channel_set_contents(seen) == res@.to_set(),
        decreases ids@.len() - i,
    {
        let row = &ids[i];
        let ghost base = res@;
        let mut j: usize = 0;
        while j < row.len()
            invariant
                j <= row@.len(),
                res@ == add_new(base, row@.take(j as int)),
                channel_set_contents(seen) == res@.to_set(),
            decreases row@.len() - j,
        {
            let c = row[j];
            let ghost before = res@;
            let fresh = channel_set_insert(&mut seen, c);
            if fresh {
                res.push(c);
            }
            proof {
                assert(row@.take(j + 1).drop_last() =~= row@.take(j as int));
                assert(before.to_set().contains(c) == before.contains(c));
                if fresh {
                    assert(res@.to_set() =~= before.to_set().insert(c)) by {
                        assert forall|x: usize| res@.to_set().contains(x) == before.to_set().insert(
                            c,
                        ).contains(x) by {
                            if res@.contains(x) && x != c {
                                let k = choose|k: int| 0 <= k < res@.len() && res@[k] == x;
                                assert(before[k] == x);
                            }
                            if before.contains(x) {
                                let k = choose|k: int| 0 <= k < before.len() && before[k] == x;
                                assert(res@[k] == x);
                            }
                            if x == c {
                                assert(res@[before.len() as int] == c);
                            }
                        }
                    }
                } else {
                    assert(before.to_set().insert(c) =~= before.to_set());
                }
            }
            j += 1;
        }
        assert(row@.take(row@.len() as int) =~= row@);
        assert(all.take(i + 1).drop_last() =~= all.take(i as int));
        assert(all[i as int] == row@);
        i += 1;
    }
    assert(all.take(ids@.len() as int) =~= all);
    res
}

/// `add_new` keeps `acc` in front, adds only elements of `s`, keeps every
/// element of `s`, and repeats nothing when `acc` repeats nothing.
proof fn lemma_add_new(acc: Seq<usize>, s: Seq<usize>)
    ensures
        add_new(acc, s).len() >= acc.len(),
        forall|k: int| 0 <= k < acc.len() ==> #[trigger] add_new(acc, s)[k] == acc[k],
        forall|c: usize| #[trigger] add_new(acc, s).contains(c) <==> (acc.contains(c) || s.contains(c)),
        acc.no_duplicates() ==> add_new(acc, s).no_duplicates(),
    decreases s.len(),
{
    if s.len() > 0 {
        let prev = add_new(acc, s.drop_last());
        lemma_add_new(acc, s.drop_last());
        let x = s.last();
        assert forall|c: usize| #[trigger] add_new(acc, s).contains(c) <==> (acc.contains(c)
            || s.contains(c)) by {
            if s.drop_last().contains(c) {
                let k = choose|k: int| 0 <= k < s.drop_last().len() && s.drop_last()[k] == c;
                assert(s[k] == c);
            }
            if s.contains(c) && c != x {
                let k = choose|k: int| 0 <= k < s.len() && s[k] == c;
                assert(s.drop_last()[k] == c);
            }
            if c == x {
                assert(s[s.len() - 1] == c);
            }
            if !prev.contains(x) {
                assert(prev.push(x)[prev.len() as int] == x);
                if prev.push(x).contains(c) && c != x {
                    let k = choose|k: int| 0 <= k < prev.push(x).len() && prev.push(x)[k] == c;
                    assert(prev[k] == c);
                }
                if prev.contains(c) {
                    let k = choose|k: int| 0 <= k < prev.len() && prev[k] == c;
                    assert(prev.push(x)[k] == c);
                }
            }
        }
    }
}

/// Law of `merge_channel_ids`: every channel that a child names is in the
/// merged list, nothing else is, and no channel appears twice.
pub proof fn lemma_merged_channels(ids: Seq<Seq<usize>>)
    ensures
        merged_channels(ids).no_duplicates(),
        forall|c: usize|
            #[trigger] merged_channels(ids).contains(c) <==> exists|i: int|
                0 <= i < ids.len() && #[trigger] ids[i].contains(c),
    decreases ids.len(),
{
    if ids.len() > 0 {
        let prev = ids.drop_last();
        lemma_merged_channels(prev);
        lemma_add_new(merged_channels(prev), ids.last());
        assert forall|c: usize| #[trigger] merged_channels(ids).contains(c) <==> exists|i: int|
            0 <= i < ids.len() && #[trigger] ids[i].contains(c) by {
            if merged_channels(prev).contains(c) {
                let i = choose|i: int| 0 <= i < prev.len() && #[trigger] prev[i].contains(c);
                assert(ids[i] == prev[i]);
            }
            if ids.last().contains(c) {
                assert(ids[ids.len() - 1].contains(c));
            }
            if exists|i: int| 0 <= i < ids.len() && #[trigger] ids[i].contains(c) {
                let i = choose|i: int| 0 <= i < ids.len() && #[trigger] ids[i].contains(c);
                if i < ids.len() - 1 {
                    assert(prev[i] == ids[i]);
                }
            }
        }
    }
}

} // verus!
