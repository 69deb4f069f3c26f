//! The decisions the executor makes while it walks an arranged schedule:
//! the state of each channel's oscillator, whether an element got enough
//! time, and the plateau and envelope of a pulse.
use vstd::prelude::*;

use crate::scalar::{
    congruent, i32_modulus, i64_modulus, lemma_congruent_ops, lemma_i32_wrapping, lemma_i64_wrapping,
    Additive, Ordered, Scalar, Ticks,
};

verus! {

/// The oscillator of a channel: its base frequency, the frequency shift
/// that the schedule added, and the phase at time zero.
#[derive(Debug, Clone, Copy)]
pub struct OscState<T> {
    pub base_freq: T,
    pub delta_freq: T,
    pub phase: T,
}

impl<T: Scalar> OscState<T> {
    /// The frequency the oscillator runs at.
    pub open spec fn spec_total_freq(self) -> T {
        self.base_freq.spec_plus(self.delta_freq)
    }

    /// The phase of the oscillator at `time`.
    pub open spec fn spec_phase_at(self, time: T) -> T {
        self.phase.spec_plus(self.spec_total_freq().spec_times(time))
    }

    /// The oscillator after its frequency shift grows by `delta_freq` at
    /// `time`.
    pub open spec fn spec_shift_freq(self, delta_freq: T, time: T) -> Self {
        OscState {
            base_freq: self.base_freq,
            delta_freq: self.delta_freq.spec_plus(delta_freq),
            phase: self.phase.spec_plus(delta_freq.spec_negate().spec_times(time)),
        }
    }

    /// The oscillator after its frequency shift is set to `freq` at `time`.
    pub open spec fn spec_set_freq(self, freq: T, time: T) -> Self {
        OscState {
            base_freq: self.base_freq,
            delta_freq: freq,
            phase: self.phase.spec_plus(freq.spec_minus(self.delta_freq).spec_negate().spec_times(time)),
        }
    }

    /// The oscillator after its phase is set to `phase` at `time`.
    pub open spec fn spec_set_phase(self, phase: T, time: T) -> Self {
        OscState {
            base_freq: self.base_freq,
            delta_freq: self.delta_freq,
            phase: phase.spec_minus(self.delta_freq.spec_times(time)),
        }
    }

    /// The two oscillators after their phases are exchanged at `time`.
    pub open spec fn spec_swap_phase(self, other: Self, time: T) -> (Self, Self) {
        let delta = self.spec_total_freq().spec_minus(other.spec_total_freq());
        (
            OscState { phase: other.phase.spec_minus(delta.spec_times(time)), ..self },
            OscState { phase: self.phase.spec_plus(delta.spec_times(time)), ..other },
        )
    }

    /// An oscillator at `base_freq` with no shift and zero phase.
    pub fn new(base_freq: T) -> (res: Self)
        ensures
            res == (OscState { base_freq, delta_freq: T::spec_zero(), phase: T::spec_zero() }),
    {
        OscState { base_freq, delta_freq: T::zero(), phase: T::zero() }
    }

    /// The frequency the oscillator runs at: base plus shift.
    pub fn total_freq(&self) -> (res: T)
        ensures
            res == self.spec_total_freq(),
    {
        self.base_freq.plus(self.delta_freq)
    }

    /// The phase of the oscillator at `time`.
    pub fn phase_at(&self, time: T) -> (res: T)
        ensures
            res == self.spec_phase_at(time),
    {
        self.phase.plus(self.total_freq().times(time))
    }

    /// The same oscillator seen from `time` on: its phase at time zero is
    /// the phase this one has at `time`.
    pub fn with_time_shift(&self, time: T) -> (res: Self)
        ensures
            res == (OscState {
                base_freq: self.base_freq,
                delta_freq: self.delta_freq,
                phase: self.spec_phase_at(time),
            }),
    {
        OscState { base_freq: self.base_freq, delta_freq: self.delta_freq, phase: self.phase_at(time) }
    }

    /// Shift the frequency by `delta_freq` at `time`; the phase is moved so
    /// that the phase at `time` does not jump.
    pub fn shift_freq(&mut self, delta_freq: T, time: T)
        ensures
            *final(self) == old(self).spec_shift_freq(delta_freq, time),
    {
        let delta_phase = delta_freq.negate().times(time);
        self.delta_freq = self.delta_freq.plus(delta_freq);
        self.phase = self.phase.plus(delta_phase);
    }

    /// Set the frequency shift to `freq` at `time`; the phase is moved so
    /// that the phase at `time` does not jump.
    pub fn set_freq(&mut self, freq: T, time: T)
        ensures
            *final(self) == old(self).spec_set_freq(freq, time),
    {
        let delta_freq = freq.minus(self.delta_freq);
        let delta_phase = delta_freq.negate().times(time);
        self.delta_freq = freq;
        self.phase = self.phase.plus(delta_phase);
    }

    /// Add `delta_phase` to the phase.
    pub fn shift_phase(&mut self, delta_phase: T)
        ensures
            final(self).base_freq == old(self).base_freq,
            final(self).delta_freq == old(self).delta_freq,
            final(self).phase == old(self).phase.spec_plus(delta_phase),
    {
        self.phase = self.phase.plus(delta_phase);
    }

    /// Set the phase to `phase` at `time`, in the frame that turns with the
    /// base frequency.
    pub fn set_phase(&mut self, phase: T, time: T)
        ensures
            *final(self) == old(self).spec_set_phase(phase, time),
    {
        self.phase = phase.minus(self.delta_freq.times(time));
    }

    /// Exchange the phases of two oscillators at `time`.
    pub fn swap_phase(&mut self, other: &mut Self, time: T)
        ensures
            (*final(self), *final(other)) == old(self).spec_swap_phase(*old(other), time),
    {
        let delta_freq = self.total_freq().minus(other.total_freq());
        let phase1 = self.phase;
        let phase2 = other.phase;
        self.phase = phase2.minus(delta_freq.times(time));
        other.phase = phase1.plus(delta_freq.times(time));
    }
}

/// Why the executor stops.
#[derive(Debug, Clone, Copy, PartialEq, Eq)]
pub enum ExecError<T> {
    /// A pulse would have a negative plateau.
    NegativePlateau(T),
    /// An element needs more time than its parent gives it, beyond the
    /// tolerance.
    NotEnoughDuration { required: T, available: T },
}

/// Refuse an element that needs more than `available` plus the tolerance.
pub fn check_duration<T: Ordered>(required: T, available: T, time_tolerance: T) -> (res: Result<
    (),
    ExecError<T>,
>)
    ensures
        required.spec_leq(available.spec_plus(time_tolerance)) ==> res == Ok::<(), ExecError<T>>(()),
        !required.spec_leq(available.spec_plus(time_tolerance)) ==> res == Err::<(), ExecError<T>>(
            ExecError::NotEnoughDuration { required, available },
        ),
{
    if !required.leq(available.plus(time_tolerance)) {
        return Err(ExecError::NotEnoughDuration { required, available });
    }
    Ok(())
}

/// The plateau of a pulse: what is left of the span after the rising and
/// falling `width` when the pulse is flexible, its own plateau otherwise;
/// refused when negative.
pub fn play_plateau<T: Ordered>(flexible: bool, span: T, width: T, plateau: T) -> (res: Result<
    T,
    ExecError<T>,
>)
    ensures
        ({
            let p = if flexible {
                span.spec_minus(width)
            } else {
                plateau
            };
            &&& T::spec_zero().spec_leq(p) ==> res == Ok::<T, ExecError<T>>(p)
            &&& !T::spec_zero().spec_leq(p) ==> res == Err::<T, ExecError<T>>(
                ExecError::NegativePlateau(p),
            )
        }),
{
    let p = if flexible {
        span.minus(width)
    } else {
        plateau
    };
    if !T::zero().leq(p) {
        return Err(ExecError::NegativePlateau(p));
    }
    Ok(p)
}

/// The envelope of a pulse: an optional shape for the rising and falling
/// edges of total `width`, and a flat `plateau` between them.
#[derive(Debug, Clone, Copy, PartialEq, Eq, Hash)]
pub struct Envelope<S, T> {
    shape: Option<S>,
    width: T,
    plateau: T,
}

impl<S: Clone, T: Ordered> Envelope<S, T> {
    /// The shape of the edges, if any.
    pub closed spec fn spec_shape(self) -> Option<S> {
        self.shape
    }

    /// The total width of the edges.
    pub closed spec fn spec_width(self) -> T {
        self.width
    }

    /// The length of the flat part.
    pub closed spec fn spec_plateau(self) -> T {
        self.plateau
    }

    /// The envelope that [`Envelope::new`] builds.
    pub closed spec fn spec_new(shape: Option<S>, width: T, plateau: T) -> Self {
        let p = if shape is None {
            plateau.spec_plus(width)
        } else {
            plateau
        };
        let w = if shape is None {
            T::spec_zero()
        } else {
            width
        };
        let zero_width = w.spec_leq(T::spec_zero()) && T::spec_zero().spec_leq(w);
        Envelope {
            shape: if zero_width {
                None
            } else {
                shape
            },
            width: w,
            plateau: p,
        }
    }

    /// An envelope in its normal form: without a shape the edges are flat,
    /// so their width joins the plateau; with zero width the shape plays no
    /// part and is dropped.
    pub fn new(shape: Option<S>, width: T, plateau: T) -> (res: Self)
        ensures
            ({
                let p = if shape is None {
                    plateau.spec_plus(width)
                } else {
                    plateau
                };
                let w = if shape is None {
                    T::spec_zero()
                } else {
                    width
                };
                let zero_width = w.spec_leq(T::spec_zero()) && T::spec_zero().spec_leq(w);
                &&& res == Self::spec_new(shape, width, plateau)
                &&& res.spec_plateau() == p
                &&& res.spec_width() == w
                &&& res.spec_shape() == if zero_width {
                    None
                } else {
                    shape
                }
            }),
    {
        let mut width = width;
        let mut plateau = plateau;
        if shape.is_none() {
            plateau = plateau.plus(width);
            width = T::zero();
        }
        let shape = if width.leq(T::zero()) && T::zero().leq(width) {
            None
        } else {
            shape
        };
        Envelope { shape, width, plateau }
    }

    /// The shape of the edges, if any.
    pub fn shape(&self) -> (res: &Option<S>)
        ensures
            *res == self.spec_shape(),
    {
        &self.shape
    }

    /// The total width of the edges.
    pub fn width(&self) -> (res: T)
        ensures
            res == self.spec_width(),
    {
        self.width
    }

    /// The length of the flat part.
    pub fn plateau(&self) -> (res: T)
        ensures
            res == self.spec_plateau(),
    {
        self.plateau
    }
}

/// `x` is a tick count that `i64` holds, so that arithmetic giving `x` does
/// not saturate.
pub open spec fn in_tick_range(x: int) -> bool {
    i64::MIN <= x <= i64::MAX
}

/// Reading the phase of `s` at `t` saturates nowhere.
pub open spec fn phase_at_exact(s: OscState<Ticks>, t: Ticks) -> bool {
    let f = s.base_freq.0 + s.delta_freq.0;
    in_tick_range(f) && in_tick_range(f * t.0) && in_tick_range(s.phase.0 + f * t.0)
}

/// Shifting the frequency of `s` by `v` at `t`, and reading the phase at `t`
/// before and after, saturates nowhere.
pub open spec fn shift_freq_exact(s: OscState<Ticks>, v: Ticks, t: Ticks) -> bool {
    let n = 0 - v.0;
    &&& in_tick_range(s.delta_freq.0 + v.0)
    &&& in_tick_range(n)
    &&& in_tick_range(n * t.0)
    &&& in_tick_range(s.phase.0 + n * t.0)
    &&& phase_at_exact(s, t)
    &&& phase_at_exact(s.spec_shift_freq(v, t), t)
}

/// Setting the frequency shift of `s` to `v` at `t`, and reading the phase
/// at `t` before and after, saturates nowhere.
pub open spec fn set_freq_exact(s: OscState<Ticks>, v: Ticks, t: Ticks) -> bool {
    let df = v.0 - s.delta_freq.0;
    let n = 0 - df;
    &&& in_tick_range(df)
    &&& in_tick_range(n)
    &&& in_tick_range(n * t.0)
    &&& in_tick_range(s.phase.0 + n * t.0)
    &&& phase_at_exact(s, t)
    &&& phase_at_exact(s.spec_set_freq(v, t), t)
}

/// Setting the phase of `s` to `v` at `t`, and reading the phase at `t`
/// after, saturates nowhere.
pub open spec fn set_phase_exact(s: OscState<Ticks>, v: Ticks, t: Ticks) -> bool {
    &&& in_tick_range(s.delta_freq.0 * t.0)
    &&& in_tick_range(v.0 - s.delta_freq.0 * t.0)
    &&& in_tick_range(s.base_freq.0 * t.0)
    &&& in_tick_range(v.0 + s.base_freq.0 * t.0)
    &&& phase_at_exact(s.spec_set_phase(v, t), t)
}

/// Swapping the phases of `a` and `b` at `t`, and reading both phases at
/// `t` before and after, saturates nowhere.
pub open spec fn swap_phase_exact(a: OscState<Ticks>, b: OscState<Ticks>, t: Ticks) -> bool {
    let fa = a.base_freq.0 + a.delta_freq.0;
    let fb = b.base_freq.0 + b.delta_freq.0;
    let delta = fa - fb;
    &&& in_tick_range(fa)
    &&& in_tick_range(fb)
    &&& in_tick_range(delta)
    &&& in_tick_range(delta * t.0)
    &&& in_tick_range(b.phase.0 - delta * t.0)
    &&& in_tick_range(a.phase.0 + delta * t.0)
    &&& phase_at_exact(a, t)
    &&& phase_at_exact(b, t)
    &&& phase_at_exact(a.spec_swap_phase(b, t).0, t)
    &&& phase_at_exact(a.spec_swap_phase(b, t).1, t)
}

/// Law of the oscillator on tick counts, for each operation whose
/// arithmetic saturates nowhere: changing the frequency at `time` leaves the
/// phase at `time` as it was; setting the phase at `time` makes the phase
/// at `time`, in the frame that turns with the base frequency, the phase
/// set; swapping phases at `time` exchanges the two phases at `time`.
pub proof fn lemma_osc_phase_continuity(
    a: OscState<Ticks>,
    b: OscState<Ticks>,
    value: Ticks,
    time: Ticks,
)
    ensures
        shift_freq_exact(a, value, time) ==> a.spec_shift_freq(value, time).spec_phase_at(time)
            == a.spec_phase_at(time),
        set_freq_exact(a, value, time) ==> a.spec_set_freq(value, time).spec_phase_at(time)
            == a.spec_phase_at(time),
        set_phase_exact(a, value, time) ==> a.spec_set_phase(value, time).spec_phase_at(time)
            == value.spec_plus(a.base_freq.spec_times(time)),
        set_phase_exact(a, value, time) ==> a.spec_set_phase(value, time).delta_freq.spec_times(
            time,
        ).spec_plus(a.spec_set_phase(value, time).phase) == value,
        swap_phase_exact(a, b, time) ==> a.spec_swap_phase(b, time).0.spec_phase_at(time)
            == b.spec_phase_at(time),
        swap_phase_exact(a, b, time) ==> a.spec_swap_phase(b, time).1.spec_phase_at(time)
            == a.spec_phase_at(time),
{
    let t = time.0 as int;
    let ab = a.base_freq.0 as int;
    let ad = a.delta_freq.0 as int;
    let bb = b.base_freq.0 as int;
    let bd = b.delta_freq.0 as int;
    let v = value.0 as int;
    assert(((ab + ad) + v) * t == (ab + ad) * t + v * t) by (nonlinear_arith);
    assert((ab + v) * t == (ab + ad) * t + (v - ad) * t) by (nonlinear_arith);
    assert(ad * t + ab * t == (ab + ad) * t) by (nonlinear_arith);
    assert((0 - v) * t == -(v * t)) by (nonlinear_arith);
    assert((0 - (v - ad)) * t == -((v - ad) * t)) by (nonlinear_arith);
    assert(((ab + ad) - (bb + bd)) * t == (ab + ad) * t - (bb + bd) * t) by (nonlinear_arith);
}

/// Each wrapping `i64` operation on values congruent to `x` and `y` gives a
/// value congruent to the exact result.
proof fn lemma_i64_congruent_step(a: i64, b: i64, x: int, y: int)
    requires
        congruent(a as int, x, i64_modulus()),
        congruent(b as int, y, i64_modulus()),
    ensures
        congruent(a.spec_plus(b) as int, x + y, i64_modulus()),
        congruent(a.spec_minus(b) as int, x - y, i64_modulus()),
        congruent(a.spec_times(b) as int, x * y, i64_modulus()),
{
    lemma_i64_wrapping(a, b);
    lemma_congruent_ops(a as int, x, b as int, y, i64_modulus());
}

/// Law of the oscillator on wrapping `i64` values, for every input:
/// changing the frequency at `time` leaves the phase at `time` as it was;
/// setting the phase at `time` makes the phase at `time`, in the frame that
/// turns with the base frequency, the phase set; swapping phases at `time`
/// exchanges the two phases at `time`.
pub proof fn lemma_osc_phase_continuity_i64(a: OscState<i64>, b: OscState<i64>, value: i64, time: i64)
    ensures
        a.spec_shift_freq(value, time).spec_phase_at(time) == a.spec_phase_at(time),
        a.spec_set_freq(value, time).spec_phase_at(time) == a.spec_phase_at(time),
        a.spec_set_phase(value, time).spec_phase_at(time) == value.spec_plus(
            a.base_freq.spec_times(time),
        ),
        a.spec_set_phase(value, time).delta_freq.spec_times(time).spec_plus(
            a.spec_set_phase(value, time).phase,
        ) == value,
        a.spec_swap_phase(b, time).0.spec_phase_at(time) == b.spec_phase_at(time),
        a.spec_swap_phase(b, time).1.spec_phase_at(time) == a.spec_phase_at(time),
{
    let t = time as int;
    let ab = a.base_freq as int;
    let ad = a.delta_freq as int;
    let ap = a.phase as int;
    let bb = b.base_freq as int;
    let bd = b.delta_freq as int;
    let bp = b.phase as int;
    let v = value as int;
    let zero: i64 = 0;
    // The phase of `a` at `time`.
    let f0 = a.base_freq.spec_plus(a.delta_freq);
    lemma_i64_congruent_step(a.base_freq, a.delta_freq, ab, ad);
    lemma_i64_congruent_step(f0, time, ab + ad, t);
    let m0 = f0.spec_times(time);
    lemma_i64_congruent_step(a.phase, m0, ap, (ab + ad) * t);
    let r0 = a.spec_phase_at(time);
    // Shifting the frequency.
    lemma_i64_congruent_step(zero, value, 0, v);
    let n1 = value.spec_negate();
    lemma_i64_congruent_step(n1, time, 0 - v, t);
    lemma_i64_congruent_step(a.phase, n1.spec_times(time), ap, (0 - v) * t);
    lemma_i64_congruent_step(a.delta_freq, value, ad, v);
    let s1 = a.spec_shift_freq(value, time);
    lemma_i64_congruent_step(a.base_freq, s1.delta_freq, ab, ad + v);
    lemma_i64_congruent_step(s1.spec_total_freq(), time, ab + (ad + v), t);
    lemma_i64_congruent_step(s1.phase, s1.spec_total_freq().spec_times(time), ap + (0 - v) * t, (ab + (
    ad + v)) * t);
    assert(ap + (0 - v) * t + (ab + (ad + v)) * t == ap + (ab + ad) * t) by (nonlinear_arith);
    lemma_i64_wrapping(s1.spec_phase_at(time), r0);
    // Setting the frequency.
    lemma_i64_congruent_step(value, a.delta_freq, v, ad);
    let df = value.spec_minus(a.delta_freq);
    lemma_i64_congruent_step(zero, df, 0, v - ad);
    lemma_i64_congruent_step(df.spec_negate(), time, 0 - (v - ad), t);
    lemma_i64_congruent_step(a.phase, df.spec_negate().spec_times(time), ap, (0 - (v - ad)) * t);
    let s2 = a.spec_set_freq(value, time);
    lemma_i64_congruent_step(a.base_freq, value, ab, v);
    lemma_i64_congruent_step(s2.spec_total_freq(), time, ab + v, t);
    lemma_i64_congruent_step(s2.phase, s2.spec_total_freq().spec_times(time), ap + (0 - (v - ad)) * t, (
    ab + v) * t);
    assert(ap + (0 - (v - ad)) * t + (ab + v) * t == ap + (ab + ad) * t) by (nonlinear_arith);
    lemma_i64_wrapping(s2.spec_phase_at(time), r0);
    // Setting the phase.
    lemma_i64_congruent_step(a.delta_freq, time, ad, t);
    let dt = a.delta_freq.spec_times(time);
    lemma_i64_congruent_step(value, dt, v, ad * t);
    let s3 = a.spec_set_phase(value, time);
    lemma_i64_congruent_step(s3.phase, m0, v - ad * t, (ab + ad) * t);
    lemma_i64_congruent_step(a.base_freq, time, ab, t);
    lemma_i64_congruent_step(value, a.base_freq.spec_times(time), v, ab * t);
    assert(v - ad * t + (ab + ad) * t == v + ab * t) by (nonlinear_arith);
    lemma_i64_wrapping(s3.spec_phase_at(time), value.spec_plus(a.base_freq.spec_times(time)));
    lemma_i64_congruent_step(dt, s3.phase, ad * t, v - ad * t);
    lemma_i64_wrapping(dt.spec_plus(s3.phase), value);
    // Swapping phases.
    let fb = b.base_freq.spec_plus(b.delta_freq);
    lemma_i64_congruent_step(b.base_freq, b.delta_freq, bb, bd);
    lemma_i64_congruent_step(f0, fb, ab + ad, bb + bd);
    let delta = f0.spec_minus(fb);
    lemma_i64_congruent_step(delta, time, (ab + ad) - (bb + bd), t);
    let dl = delta.spec_times(time);
    let dlv = ((ab + ad) - (bb + bd)) * t;
    lemma_i64_congruent_step(b.phase, dl, bp, dlv);
    lemma_i64_congruent_step(a.phase, dl, ap, dlv);
    let (s4, s5) = a.spec_swap_phase(b, time);
    lemma_i64_congruent_step(s4.phase, m0, bp - dlv, (ab + ad) * t);
    lemma_i64_congruent_step(fb, time, bb + bd, t);
    lemma_i64_congruent_step(b.phase, fb.spec_times(time), bp, (bb + bd) * t);
    lemma_i64_congruent_step(s5.phase, fb.spec_times(time), ap + dlv, (bb + bd) * t);
    assert(bp - ((ab + ad) - (bb + bd)) * t + (ab + ad) * t == bp + (bb + bd) * t) by (nonlinear_arith);
    assert(ap + ((ab + ad) - (bb + bd)) * t + (bb + bd) * t == ap + (ab + ad) * t) by (nonlinear_arith);
    lemma_i64_wrapping(s4.spec_phase_at(time), b.spec_phase_at(time));
    lemma_i64_wrapping(s5.spec_phase_at(time), r0);
}

/// Each wrapping `i32` operation on values congruent to `x` and `y` gives a
/// value congruent to the exact result.
proof fn lemma_i32_congruent_step(a: i32, b: i32, x: int, y: int)
    requires
        congruent(a as int, x, i32_modulus()),
        congruent(b as int, y, i32_modulus()),
    ensures
        congruent(a.spec_plus(b) as int, x + y, i32_modulus()),
        congruent(a.spec_minus(b) as int, x - y, i32_modulus()),
        congruent(a.spec_times(b) as int, x * y, i32_modulus()),
{
    lemma_i32_wrapping(a, b);
    lemma_congruent_ops(a as int, x, b as int, y, i32_modulus());
}

/// Law of the oscillator on wrapping `i32` values, for every input:
/// changing the frequency at `time` leaves the phase at `time` as it was;
/// setting the phase at `time` makes the phase at `time`, in the frame that
/// turns with the base frequency, the phase set; swapping phases at `time`
/// exchanges the two phases at `time`.
pub proof fn lemma_osc_phase_continuity_i32(a: OscState<i32>, b: OscState<i32>, value: i32, time: i32)
    ensures
        a.spec_shift_freq(value, time).spec_phase_at(time) == a.spec_phase_at(time),
        a.spec_set_freq(value, time).spec_phase_at(time) == a.spec_phase_at(time),
        a.spec_set_phase(value, time).spec_phase_at(time) == value.spec_plus(
            a.base_freq.spec_times(time),
        ),
        a.spec_set_phase(value, time).delta_freq.spec_times(time).spec_plus(
            a.spec_set_phase(value, time).phase,
        ) == value,
        a.spec_swap_phase(b, time).0.spec_phase_at(time) == b.spec_phase_at(time),
        a.spec_swap_phase(b, time).1.spec_phase_at(time) == a.spec_phase_at(time),
{
    let t = time as int;
    let ab = a.base_freq as int;
    let ad = a.delta_freq as int;
    let ap = a.phase as int;
    let bb = b.base_freq as int;
    let bd = b.delta_freq as int;
    let bp = b.phase as int;
    let v = value as int;
    let zero: i32 = 0;
    // The phase of `a` at `time`.
    let f0 = a.base_freq.spec_plus(a.delta_freq);
    lemma_i32_congruent_step(a.base_freq, a.delta_freq, ab, ad);
    lemma_i32_congruent_step(f0, time, ab + ad, t);
    let m0 = f0.spec_times(time);
    lemma_i32_congruent_step(a.phase, m0, ap, (ab + ad) * t);
    let r0 = a.spec_phase_at(time);
    // Shifting the frequency.
    lemma_i32_congruent_step(zero, value, 0, v);
    let n1 = value.spec_negate();
    lemma_i32_congruent_step(n1, time, 0 - v, t);
    lemma_i32_congruent_step(a.phase, n1.spec_times(time), ap, (0 - v) * t);
    lemma_i32_congruent_step(a.delta_freq, value, ad, v);
    let s1 = a.spec_shift_freq(value, time);
    lemma_i32_congruent_step(a.base_freq, s1.delta_freq, ab, ad + v);
    lemma_i32_congruent_step(s1.spec_total_freq(), time, ab + (ad + v), t);
    lemma_i32_congruent_step(s1.phase, s1.spec_total_freq().spec_times(time), ap + (0 - v) * t, (ab + (
    ad + v)) * t);
    assert(ap + (0 - v) * t + (ab + (ad + v)) * t == ap + (ab + ad) * t) by (nonlinear_arith);
    lemma_i32_wrapping(s1.spec_phase_at(time), r0);
    // Setting the frequency.
    lemma_i32_congruent_step(value, a.delta_freq, v, ad);
    let df = value.spec_minus(a.delta_freq);
    lemma_i32_congruent_step(zero, df, 0, v - ad);
    lemma_i32_congruent_step(df.spec_negate(), time, 0 - (v - ad), t);
    lemma_i32_congruent_step(a.phase, df.spec_negate().spec_times(time), ap, (0 - (v - ad)) * t);
    let s2 = a.spec_set_freq(value, time);
    lemma_i32_congruent_step(a.base_freq, value, ab, v);
    lemma_i32_congruent_step(s2.spec_total_freq(), time, ab + v, t);
    lemma_i32_congruent_step(s2.phase, s2.spec_total_freq().spec_times(time), ap + (0 - (v - ad)) * t, (
    ab + v) * t);
    assert(ap + (0 - (v - ad)) * t + (ab + v) * t == ap + (ab + ad) * t) by (nonlinear_arith);
    lemma_i32_wrapping(s2.spec_phase_at(time), r0);
    // Setting the phase.
    lemma_i32_congruent_step(a.delta_freq, time, ad, t);
    let dt = a.delta_freq.spec_times(time);
    lemma_i32_congruent_step(value, dt, v, ad * t);
    let s3 = a.spec_set_phase(value, time);
    lemma_i32_congruent_step(s3.phase, m0, v - ad * t, (ab + ad) * t);
    lemma_i32_congruent_step(a.base_freq, time, ab, t);
    lemma_i32_congruent_step(value, a.base_freq.spec_times(time), v, ab * t);
    assert(v - ad * t + (ab + ad) * t == v + ab * t) by (nonlinear_arith);
    lemma_i32_wrapping(s3.spec_phase_at(time), value.spec_plus(a.base_freq.spec_times(time)));
    lemma_i32_congruent_step(dt, s3.phase, ad * t, v - ad * t);
    lemma_i32_wrapping(dt.spec_plus(s3.phase), value);
    // Swapping phases.
    let fb = b.base_freq.spec_plus(b.delta_freq);
    lemma_i32_congruent_step(b.base_freq, b.delta_freq, bb, bd);
    lemma_i32_congruent_step(f0, fb, ab + ad, bb + bd);
    let delta = f0.spec_minus(fb);
    lemma_i32_congruent_step(delta, time, (ab + ad) - (bb + bd), t);
    let dl = delta.spec_times(time);
    let dlv = ((ab + ad) - (bb + bd)) * t;
    lemma_i32_congruent_step(b.phase, dl, bp, dlv);
    lemma_i32_congruent_step(a.phase, dl, ap, dlv);
    let (s4, s5) = a.spec_swap_phase(b, time);
    lemma_i32_congruent_step(s4.phase, m0, bp - dlv, (ab + ad) * t);
    lemma_i32_congruent_step(fb, time, bb + bd, t);
    lemma_i32_congruent_step(b.phase, fb.spec_times(time), bp, (bb + bd) * t);
    lemma_i32_congruent_step(s5.phase, fb.spec_times(time), ap + dlv, (bb + bd) * t);
    assert(bp - ((ab + ad) - (bb + bd)) * t + (ab + ad) * t == bp + (bb + bd) * t) by (nonlinear_arith);
    assert(ap + ((ab + ad) - (bb + bd)) * t + (bb + bd) * t == ap + (ab + ad) * t) by (nonlinear_arith);
    lemma_i32_wrapping(s4.spec_phase_at(time), b.spec_phase_at(time));
    lemma_i32_wrapping(s5.spec_phase_at(time), r0);
}

} // verus!
