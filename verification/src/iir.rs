//! Infinite impulse response filters built from second order sections.
//!
//! A section is described by one row of an `sos` array in the format of
//! `scipy.signal.sosfilt`: `[b0, b1, b2, a0, a1, a2]`, with `a0` taken to be
//! one. Sections run in transposed direct form II.
use vstd::prelude::*;

use crate::scalar::{Additive, Scalar};

verus! {

/// Errors when building a filter from an `sos` array.
#[derive(Debug, Clone, Copy, PartialEq, Eq)]
pub enum Error {
    /// A row of the `sos` array does not hold six values.
    InvalidSosFormat,
}

/// Coefficients of one second order section.
#[derive(Debug, Clone, Copy)]
pub struct BiquadCoefficients<T> {
    pub b0: T,
    pub b1: T,
    pub b2: T,
    pub a1: T,
    pub a2: T,
}

/// One second order section with its two delay registers.
#[derive(Debug, Clone, Copy)]
pub struct Biquad<T> {
    pub coefficients: BiquadCoefficients<T>,
    pub s1: T,
    pub s2: T,
}

/// A cascade of second order sections, run one after another.
#[derive(Debug)]
pub struct Iir<T> {
    pub biquads: Vec<Biquad<T>>,
}

/// A cascade of `N` second order sections run as a pipeline.
///
/// At every step each section works on the output that the section before it
/// produced one step earlier, so the sections are independent of each other
/// within a step. The output of the pipeline lags its input by `N` steps.
#[derive(Debug)]
pub struct IirPipeline<T, const N: usize> {
    pub b0: [T; N],
    pub b1: [T; N],
    pub b2: [T; N],
    pub a1: [T; N],
    pub a2: [T; N],
    pub s1: [T; N],
    pub s2: [T; N],
    pub y: [T; N],
}

/// The delay registers of a section in their initial state.
pub open spec fn zero_state<T: Scalar>() -> (T, T) {
    (T::spec_zero(), T::spec_zero())
}

/// One step of a section: from the registers `s` and the input `x`, the
/// output and the new registers.
pub open spec fn biquad_step<T: Scalar>(c: BiquadCoefficients<T>, s: (T, T), x: T) -> (T, (T, T)) {
    let y = c.b0.spec_times(x).spec_plus(s.0);
    let s1 = c.b1.spec_times(x).spec_minus(c.a1.spec_times(y)).spec_plus(s.1);
    let s2 = c.b2.spec_times(x).spec_minus(c.a2.spec_times(y));
    (y, (s1, s2))
}

/// One step of the first `k` sections of a cascade: the output of section
/// `k - 1` and the new registers of sections `0 .. k`.
pub open spec fn cascade_step<T: Scalar>(
    cs: Seq<BiquadCoefficients<T>>,
    ss: Seq<(T, T)>,
    x: T,
    k: nat,
) -> (T, Seq<(T, T)>)
    decreases k,
{
    if k == 0 {
        (x, Seq::empty())
    } else {
        let (y, prev) = cascade_step(cs, ss, x, (k - 1) as nat);
        let (z, s) = biquad_step(cs[k - 1], ss[k - 1], y);
        (z, prev.push(s))
    }
}

/// A whole cascade run over the signal `xs`: the output signal and the final
/// registers.
pub open spec fn cascade_filter<T: Scalar>(
    cs: Seq<BiquadCoefficients<T>>,
    ss: Seq<(T, T)>,
    xs: Seq<T>,
) -> (Seq<T>, Seq<(T, T)>)
    decreases xs.len(),
{
    if xs.len() == 0 {
        (Seq::empty(), ss)
    } else {
        let (ys, mid) = cascade_filter(cs, ss, xs.drop_last());
        let (y, last) = cascade_step(cs, mid, xs.last(), cs.len());
        (ys.push(y), last)
    }
}

/// The input of section `i` in a pipeline step: the new sample for the first
/// section, the previous output of section `i - 1` for the others.
pub open spec fn pipeline_input<T>(ys: Seq<T>, x: T, i: int) -> T {
    if i == 0 {
        x
    } else {
        ys[i - 1]
    }
}

/// One pipeline step from the registers `ss`, the section outputs `ys` and the
/// input `x`: the output of the step (the previous output of the last
/// section), the new registers and the new section outputs.
pub open spec fn pipeline_step<T: Scalar>(
    cs: Seq<BiquadCoefficients<T>>,
    ss: Seq<(T, T)>,
    ys: Seq<T>,
    x: T,
) -> (T, Seq<(T, T)>, Seq<T>) {
    (
        ys.last(),
        Seq::new(cs.len(), |i: int| biquad_step(cs[i], ss[i], pipeline_input(ys, x, i)).1),
        Seq::new(cs.len(), |i: int| biquad_step(cs[i], ss[i], pipeline_input(ys, x, i)).0),
    )
}

/// A pipeline run over the samples `xs`: the outputs of every step, the final
/// registers and the final section outputs.
pub open spec fn pipeline_run<T: Scalar>(
    cs: Seq<BiquadCoefficients<T>>,
    ss: Seq<(T, T)>,
    ys: Seq<T>,
    xs: Seq<T>,
) -> (Seq<T>, Seq<(T, T)>, Seq<T>)
    decreases xs.len(),
{
    if xs.len() == 0 {
        (Seq::empty(), ss, ys)
    } else {
        let (outs, ss1, ys1) = pipeline_run(cs, ss, ys, xs.drop_last());
        let (o, ss2, ys2) = pipeline_step(cs, ss1, ys1, xs.last());
        (outs.push(o), ss2, ys2)
    }
}

/// `n` zeros.
pub open spec fn zeros<T: Scalar>(n: nat) -> Seq<T> {
    Seq::new(n, |i: int| T::spec_zero())
}

impl<T: Scalar> Biquad<T> {
    /// A section with the given coefficients and cleared registers.
    pub fn new(coefficients: BiquadCoefficients<T>) -> (res: Self)
        ensures
            res.coefficients == coefficients,
            (res.s1, res.s2) == zero_state::<T>(),
    {
        Biquad { coefficients, s1: T::zero(), s2: T::zero() }
    }

    /// A section with cleared registers read from one `sos` row.
    pub fn from_sos_row(row: &[T]) -> (res: Result<Self, Error>)
        ensures
            res is Ok <==> row@.len() == 6,
            res matches Ok(b) ==> b.coefficients == sos_row_coefficients(row@) && (b.s1, b.s2)
                == zero_state::<T>(),
            res matches Err(e) ==> e == Error::InvalidSosFormat,
    {
        let c = BiquadCoefficients::from_sos_row(row)?;
        Ok(Self::new(c))
    }

    /// Clear the registers.
    pub fn reset(&mut self)
        ensures
            final(self).coefficients == old(self).coefficients,
            (final(self).s1, final(self).s2) == zero_state::<T>(),
    {
        self.s1 = T::zero();
        self.s2 = T::zero();
    }

    /// Feed one sample through the section and return its output.
    pub fn run(&mut self, x: T) -> (y: T)
        ensures
            final(self).coefficients == old(self).coefficients,
            (y, (final(self).s1, final(self).s2)) == biquad_step(
                old(self).coefficients,
                (old(self).s1, old(self).s2),
                x,
            ),
    {
        let c = self.coefficients;
        let y = c.b0.times(x).plus(self.s1);
        self.s1 = c.b1.times(x).minus(c.a1.times(y)).plus(self.s2);
        self.s2 = c.b2.times(x).minus(c.a2.times(y));
        y
    }
}

impl<T: Scalar> Iir<T> {
    /// The coefficients of the sections, in order.
    pub open spec fn coefficients(self) -> Seq<BiquadCoefficients<T>> {
        self.biquads@.map_values(|b: Biquad<T>| b.coefficients)
    }

    /// The registers of the sections, in order.
    pub open spec fn states(self) -> Seq<(T, T)> {
        self.biquads@.map_values(|b: Biquad<T>| (b.s1, b.s2))
    }

    /// A cascade with cleared registers read from the rows of `sos`.
    pub fn from_sos(sos: &Vec<Vec<T>>) -> (res: Result<Self, Error>)
        ensures
            res is Ok <==> sos_valid(sos@),
            res matches Ok(iir) ==> iir.coefficients() == sos_coefficients(sos@) && iir.states()
                == zero_states::<T>(sos@.len()),
            res matches Err(e) ==> e == Error::InvalidSosFormat,
    {
        let mut biquads: Vec<Biquad<T>> = Vec::new();
        let n = sos.len();
        let mut i: usize = 0;
        while i < n
            invariant
                n == sos@.len(),
                i <= n,
                biquads@.len() == i,
                forall|j: int| 0 <= j < i ==> (#[trigger] sos@[j])@.len() == 6,
                forall|j: int|
                    0 <= j < i ==> (#[trigger] biquads@[j]).coefficients == sos_row_coefficients(
                        sos@[j]@,
                    ) && (biquads@[j].s1, biquads@[j].s2) == zero_state::<T>(),
            decreases n - i,
        {
            let b = Biquad::from_sos_row(sos[i].as_slice())?;
            biquads.push(b);
            i += 1;
        }
        let iir = Iir { biquads };
        assert(iir.coefficients() =~= sos_coefficients(sos@));
        assert(iir.states() =~= zero_states::<T>(sos@.len()));
        Ok(iir)
    }

    /// Clear the registers of every section.
    pub fn reset(&mut self)
        ensures
            final(self).coefficients() == old(self).coefficients(),
            final(self).states() == Seq::new(old(self).biquads@.len(), |i: int| zero_state::<T>()),
    {
        let n = self.biquads.len();
        let mut i: usize = 0;
        while i < n
            invariant
                n == self.biquads@.len(),
                i <= n,
                self.coefficients() == old(self).coefficients(),
                forall|j: int| 0 <= j < i ==> (#[trigger] self.biquads@[j].s1, self.biquads@[j].s2) == zero_state::<T>(),
            decreases n - i,
        {
            self.biquads[i].reset();
            i += 1;
        }
        assert(self.states() =~= Seq::new(old(self).biquads@.len(), |i: int| zero_state::<T>()));
    }

    /// Feed one sample through every section in order and return the output
    /// of the last one.
    pub fn run(&mut self, x: T) -> (y: T)
        ensures
            final(self).coefficients() == old(self).coefficients(),
            (y, final(self).states()) == cascade_step(
                old(self).coefficients(),
                old(self).states(),
                x,
                old(self).biquads@.len(),
            ),
    {
        let ghost cs = self.coefficients();
        let ghost ss = self.states();
        let n = self.biquads.len();
        let mut y = x;
        let mut i: usize = 0;
        while i < n
            invariant
                n == self.biquads@.len(),
                i <= n,
                cs.len() == n,
                ss.len() == n,
                self.coefficients() == cs,
                (y, self.states().take(i as int)) == cascade_step(cs, ss, x, i as nat),
                forall|j: int| i <= j < n ==> #[trigger] self.states()[j] == ss[j],
            decreases n - i,
        {
            let ghost prev_states = self.states();
            let ghost prev_y = y;
            assert(ss[i as int] == prev_states[i as int]);
            assert(cs[i as int] == self.biquads@[i as int].coefficients);
            y = self.biquads[i].run(y);
            assert((y, self.states()[i as int]) == biquad_step(cs[i as int], ss[i as int], prev_y));
            assert(self.states() =~= prev_states.update(i as int, (self.biquads@[i as int].s1, self.biquads@[i as int].s2)));
            assert(self.coefficients() =~= cs);
            assert(self.states().take(i + 1) =~= prev_states.take(i as int).push(self.states()[i as int]));
            i += 1;
        }
        assert(self.states().take(n as int) =~= self.states());
        y
    }

    /// Filter the signal in place, one sample after another.
    pub fn filter_inplace(&mut self, x: &mut [T])
        ensures
            final(self).coefficients() == old(self).coefficients(),
            (final(x)@, final(self).states()) == cascade_filter(
                old(self).coefficients(),
                old(self).states(),
                old(x)@,
            ),
    {
        let ghost cs = self.coefficients();
        let ghost ss = self.states();
        let ghost xs = x@;
        let n = x.len();
        let mut i: usize = 0;
        while i < n
            invariant
                n == x@.len(),
                xs.len() == n,
                i <= n,
                self.coefficients() == cs,
                cs.len() == self.biquads@.len(),
                (x@.take(i as int), self.states()) == cascade_filter(cs, ss, xs.take(i as int)),
                forall|j: int| i <= j < n ==> #[trigger] x@[j] == xs[j],
            decreases n - i,
        {
            let ghost prev = x@;
            let v = x[i];
            let y = self.run(v);
            x[i] = y;
            assert(xs.take(i + 1).drop_last() =~= xs.take(i as int));
            assert(x@.take(i + 1) =~= prev.take(i as int).push(y));
            i += 1;
        }
        assert(xs.take(n as int) =~= xs);
        assert(x@.take(n as int) =~= x@);
    }
}

impl<T: Scalar, const N: usize> IirPipeline<T, N> {
    /// The coefficients of the sections, in order.
    pub open spec fn coefficients(self) -> Seq<BiquadCoefficients<T>> {
        Seq::new(
            N as nat,
            |i: int|
                BiquadCoefficients {
                    b0: self.b0[i],
                    b1: self.b1[i],
                    b2: self.b2[i],
                    a1: self.a1[i],
                    a2: self.a2[i],
                },
        )
    }

    /// The registers of the sections, in order.
    pub open spec fn states(self) -> Seq<(T, T)> {
        Seq::new(N as nat, |i: int| (self.s1[i], self.s2[i]))
    }

    /// The last output of each section.
    pub open spec fn outputs(self) -> Seq<T> {
        self.y@
    }

    /// A cleared pipeline read from the rows of `sos`, which must hold `N`
    /// rows.
    pub fn from_sos(sos: &Vec<Vec<T>>) -> (res: Result<Self, Error>)
        requires
            sos@.len() == N,
        ensures
            res is Ok <==> sos_valid(sos@),
            res matches Ok(p) ==> p.coefficients() == sos_coefficients(sos@) && p.states()
                == zero_states::<T>(N as nat) && p.outputs() == zeros::<T>(N as nat),
            res matches Err(e) ==> e == Error::InvalidSosFormat,
    {
        let mut p = IirPipeline {
            b0: [T::zero(); N],
            b1: [T::zero(); N],
            b2: [T::zero(); N],
            a1: [T::zero(); N],
            a2: [T::zero(); N],
            s1: [T::zero(); N],
            s2: [T::zero(); N],
            y: [T::zero(); N],
        };
        let mut i: usize = 0;
        while i < N
            invariant
                sos@.len() == N,
                i <= N,
                forall|j: int| 0 <= j < i ==> (#[trigger] sos@[j])@.len() == 6,
                forall|j: int|
                    0 <= j < i ==> #[trigger] p.coefficients()[j] == sos_row_coefficients(sos@[j]@),
                forall|j: int| 0 <= j < N ==> #[trigger] p.s1@[j] == T::spec_zero(),
                forall|j: int| 0 <= j < N ==> #[trigger] p.s2@[j] == T::spec_zero(),
                forall|j: int| 0 <= j < N ==> #[trigger] p.y@[j] == T::spec_zero(),
            decreases N - i,
        {
            let c = BiquadCoefficients::from_sos_row(sos[i].as_slice())?;
            let ghost prev = p.coefficients();
            p.b0[i] = c.b0;
            p.b1[i] = c.b1;
            p.b2[i] = c.b2;
            p.a1[i] = c.a1;
            p.a2[i] = c.a2;
            assert(p.coefficients() =~= prev.update(i as int, c));
            i += 1;
        }
        assert(p.coefficients() =~= sos_coefficients(sos@));
        assert(p.states() =~= zero_states::<T>(N as nat));
        assert(p.outputs() =~= zeros::<T>(N as nat));
        Ok(p)
    }

    /// Clear the registers and the section outputs.
    pub fn reset(&mut self)
        ensures
            final(self).coefficients() == old(self).coefficients(),
            final(self).states() == Seq::new(N as nat, |i: int| zero_state::<T>()),
            final(self).outputs() == zeros::<T>(N as nat),
    {
        let mut i: usize = 0;
        while i < N
            invariant
                i <= N,
                self.coefficients() == old(self).coefficients(),
                forall|j: int| 0 <= j < i ==> #[trigger] self.s1@[j] == T::spec_zero(),
                forall|j: int| 0 <= j < i ==> #[trigger] self.s2@[j] == T::spec_zero(),
                forall|j: int| 0 <= j < i ==> #[trigger] self.y@[j] == T::spec_zero(),
            decreases N - i,
        {
            self.s1[i] = T::zero();
            self.s2[i] = T::zero();
            self.y[i] = T::zero();
            i += 1;
        }
        assert(self.states() =~= Seq::new(N as nat, |i: int| zero_state::<T>()));
        assert(self.outputs() =~= zeros::<T>(N as nat));
    }

    /// Feed one sample into the pipeline and return the output of the last
    /// section from the previous step.
    pub fn run(&mut self, x: T) -> (res: T)
        requires
            N > 0,
        ensures
            final(self).coefficients() == old(self).coefficients(),
            (res, final(self).states(), final(self).outputs()) == pipeline_step(
                old(self).coefficients(),
                old(self).states(),
                old(self).outputs(),
                x,
            ),
    {
        let ghost cs = self.coefficients();
        let ghost ss = self.states();
        let ghost ys = self.outputs();
        let res = self.y[N - 1];
        let mut i: usize = N;
        while i > 0
            invariant
                i <= N,
                cs.len() == N,
                ss.len() == N,
                ys.len() == N,
                self.coefficients() == cs,
                forall|j: int| 0 <= j < i ==> #[trigger] self.states()[j] == ss[j],
                forall|j: int| 0 <= j < i ==> #[trigger] self.outputs()[j] == ys[j],
                forall|j: int|
                    i <= j < N ==> #[trigger] self.states()[j] == biquad_step(
                        cs[j],
                        ss[j],
                        pipeline_input(ys, x, j),
                    ).1,
                forall|j: int|
                    i <= j < N ==> #[trigger] self.outputs()[j] == biquad_step(
                        cs[j],
                        ss[j],
                        pipeline_input(ys, x, j),
                    ).0,
            decreases i,
        {
            i -= 1;
            assert(self.states()[i as int] == ss[i as int]);
            assert(cs[i as int].b0 == self.b0@[i as int]);
            let input = if i == 0 {
                x
            } else {
                assert(self.outputs()[i - 1] == ys[i - 1]);
                self.y[i - 1]
            };
            assert(input == pipeline_input(ys, x, i as int));
            let yi = self.b0[i].times(input).plus(self.s1[i]);
            let s1 = self.b1[i].times(input).minus(self.a1[i].times(yi)).plus(self.s2[i]);
            let s2 = self.b2[i].times(input).minus(self.a2[i].times(yi));
            assert((yi, (s1, s2)) == biquad_step(cs[i as int], ss[i as int], input));
            let ghost prev_states = self.states();
            let ghost prev_outputs = self.outputs();
            self.s1[i] = s1;
            self.s2[i] = s2;
            self.y[i] = yi;
            assert(self.coefficients() =~= cs);
            assert(self.states() =~= prev_states.update(i as int, (s1, s2)));
            assert(self.outputs() =~= prev_outputs.update(i as int, yi));
        }
        let ghost step = pipeline_step(cs, ss, ys, x);
        assert(self.states() =~= step.1);
        assert(self.outputs() =~= step.2);
        res
    }

    /// Filter the signal in place. The signal is followed by `N` zeros so that
    /// the lag of the pipeline is flushed out; sample `i` of the result is the
    /// output of step `i + N`.
    pub fn filter_inplace(&mut self, signal: &mut [T])
        requires
            N > 0,
            old(signal)@.len() + N <= usize::MAX,
        ensures
            final(self).coefficients() == old(self).coefficients(),
            ({
                let (outs, ss, ys) = pipeline_run(
                    old(self).coefficients(),
                    old(self).states(),
                    old(self).outputs(),
                    old(signal)@ + zeros::<T>(N as nat),
                );
                &&& final(signal)@ == outs.skip(N as int)
                &&& final(self).states() == ss
                &&& final(self).outputs() == ys
            }),
    {
        let ghost cs = self.coefficients();
        let ghost ss = self.states();
        let ghost ys = self.outputs();
        let ghost xs = signal@;
        let ghost padded = xs + zeros::<T>(N as nat);
        let len = signal.len();
        let total = len + N;
        let mut i: usize = 0;
        while i < total
            invariant
                len == signal@.len(),
                xs.len() == len,
                total == len + N,
                padded == xs + zeros::<T>(N as nat),
                N > 0,
                i <= total,
                self.coefficients() == cs,
                ({
                    let (outs, ss1, ys1) = pipeline_run(cs, ss, ys, padded.take(i as int));
                    &&& outs.len() == i
                    &&& self.states() == ss1
                    &&& self.outputs() == ys1
                    &&& forall|k: int| 0 <= k < len && k + N < i ==> #[trigger] signal@[k] == outs[k + N]
                }),
                forall|k: int| 0 <= k < len && k + N >= i ==> #[trigger] signal@[k] == xs[k],
            decreases total - i,
        {
            let ghost before = pipeline_run(cs, ss, ys, padded.take(i as int));
            let v = if i < len {
                signal[i]
            } else {
                T::zero()
            };
            assert(v == padded[i as int]);
            let out = self.run(v);
            assert(padded.take(i + 1).drop_last() =~= padded.take(i as int));
            if i >= N {
                signal[i - N] = out;
            }
            i += 1;
        }
        assert(padded.take(total as int) =~= padded);
        let ghost fin = pipeline_run(cs, ss, ys, padded);
        assert(signal@ =~= fin.0.skip(N as int));
    }
}

/// The coefficients that an `sos` row `[b0, b1, b2, a0, a1, a2]` describes.
pub open spec fn sos_row_coefficients<T>(row: Seq<T>) -> BiquadCoefficients<T> {
    BiquadCoefficients { b0: row[0], b1: row[1], b2: row[2], a1: row[4], a2: row[5] }
}

/// Every row of the `sos` array holds six values.
pub open spec fn sos_valid<T>(sos: Seq<Vec<T>>) -> bool {
    forall|i: int| 0 <= i < sos.len() ==> (#[trigger] sos[i])@.len() == 6
}

/// The coefficients of the sections that the `sos` array describes.
pub open spec fn sos_coefficients<T>(sos: Seq<Vec<T>>) -> Seq<BiquadCoefficients<T>> {
    Seq::new(sos.len(), |i: int| sos_row_coefficients(sos[i]@))
}

/// `n` sections with cleared registers.
pub open spec fn zero_states<T: Scalar>(n: nat) -> Seq<(T, T)> {
    Seq::new(n, |i: int| zero_state::<T>())
}

impl<T: Copy> BiquadCoefficients<T> {
    /// Read the coefficients from one `sos` row.
    pub fn from_sos_row(row: &[T]) -> (res: Result<Self, Error>)
        ensures
            res is Ok <==> row@.len() == 6,
            res matches Ok(c) ==> c == sos_row_coefficients(row@),
            res matches Err(e) ==> e == Error::InvalidSosFormat,
    {
        if row.len() != 6 {
            return Err(Error::InvalidSosFormat);
        }
        Ok(BiquadCoefficients { b0: row[0], b1: row[1], b2: row[2], a1: row[4], a2: row[5] })
    }
}

/// A single section run over the signal `xs` from the registers `s`: the output
/// signal and the final registers.
pub open spec fn section_filter<T: Scalar>(c: BiquadCoefficients<T>, s: (T, T), xs: Seq<T>) -> (
    Seq<T>,
    (T, T),
)
    decreases xs.len(),
{
    if xs.len() == 0 {
        (Seq::empty(), s)
    } else {
        let (ys, mid) = section_filter(c, s, xs.drop_last());
        let (y, last) = biquad_step(c, mid, xs.last());
        (ys.push(y), last)
    }
}

/// The signal that enters section `k` when the whole signal `xs` is first run
/// through sections `0 .. k`, each from its registers in `ss`.
pub open spec fn section_chain<T: Scalar>(
    cs: Seq<BiquadCoefficients<T>>,
    ss: Seq<(T, T)>,
    xs: Seq<T>,
    k: nat,
) -> Seq<T>
    decreases k,
{
    if k == 0 {
        xs
    } else {
        section_filter(cs[k - 1], ss[k - 1], section_chain(cs, ss, xs, (k - 1) as nat)).0
    }
}

/// A section with cleared registers maps a zero input to a zero output and
/// keeps its registers cleared.
pub proof fn lemma_biquad_step_zero<T: Scalar>(c: BiquadCoefficients<T>)
    ensures
        biquad_step(c, zero_state::<T>(), T::spec_zero()) == (T::spec_zero(), zero_state::<T>()),
{
    T::lemma_zero_arith();
    T::lemma_times_zero(c.b0);
    T::lemma_times_zero(c.b1);
    T::lemma_times_zero(c.b2);
    T::lemma_times_zero(c.a1);
    T::lemma_times_zero(c.a2);
}

/// A section's output never depends on later input: filtering a prefix gives
/// the prefix of the output.
pub proof fn lemma_section_filter_prefix<T: Scalar>(
    c: BiquadCoefficients<T>,
    s: (T, T),
    xs: Seq<T>,
    m: int,
)
    requires
        0 <= m <= xs.len(),
    ensures
        section_filter(c, s, xs).0.len() == xs.len(),
        section_filter(c, s, xs.take(m)).0 == section_filter(c, s, xs).0.take(m),
    decreases xs.len(),
{
    if xs.len() == 0 {
        assert(xs.take(m) =~= xs);
    } else if m == xs.len() {
        assert(xs.take(m) =~= xs);
        lemma_section_filter_prefix(c, s, xs.drop_last(), m - 1);
        assert(section_filter(c, s, xs).0.take(m) =~= section_filter(c, s, xs).0);
    } else {
        lemma_section_filter_prefix(c, s, xs.drop_last(), m);
        assert(xs.drop_last().take(m) =~= xs.take(m));
        let prev = section_filter(c, s, xs.drop_last()).0;
        assert(section_filter(c, s, xs).0.take(m) =~= prev.take(m));
    }
}

/// Every signal in a chain is as long as the input, and chaining a prefix of
/// the input gives the prefix of each signal.
pub proof fn lemma_section_chain_prefix<T: Scalar>(
    cs: Seq<BiquadCoefficients<T>>,
    ss: Seq<(T, T)>,
    xs: Seq<T>,
    k: nat,
    m: int,
)
    requires
        k <= cs.len(),
        k <= ss.len(),
        0 <= m <= xs.len(),
    ensures
        section_chain(cs, ss, xs, k).len() == xs.len(),
        section_chain(cs, ss, xs.take(m), k) == section_chain(cs, ss, xs, k).take(m),
    decreases k,
{
    if k == 0 {
    } else {
        let k1 = (k - 1) as nat;
        lemma_section_chain_prefix(cs, ss, xs, k1, m);
        let full = section_chain(cs, ss, xs, k1);
        lemma_section_filter_prefix(cs[k1 as int], ss[k1 as int], full, m);
    }
}

/// One cascade step after a run of the cascade over `xs` extends each signal
/// of the chain by one sample.
proof fn lemma_cascade_step_extends_chain<T: Scalar>(
    cs: Seq<BiquadCoefficients<T>>,
    ss: Seq<(T, T)>,
    xs: Seq<T>,
    x: T,
    mid: Seq<(T, T)>,
    k: nat,
)
    requires
        ss.len() == cs.len(),
        mid.len() == cs.len(),
        k <= cs.len(),
        forall|j: int|
            0 <= j < cs.len() ==> #[trigger] mid[j] == section_filter(
                cs[j],
                ss[j],
                section_chain(cs, ss, xs, j as nat),
            ).1,
    ensures
        section_chain(cs, ss, xs.push(x), k) == section_chain(cs, ss, xs, k).push(
            cascade_step(cs, mid, x, k).0,
        ),
        cascade_step(cs, mid, x, k).1.len() == k,
        forall|j: int|
            0 <= j < k ==> #[trigger] cascade_step(cs, mid, x, k).1[j] == section_filter(
                cs[j],
                ss[j],
                section_chain(cs, ss, xs.push(x), j as nat),
            ).1,
    decreases k,
{
    if k == 0 {
    } else {
        let k1 = (k - 1) as nat;
        lemma_cascade_step_extends_chain(cs, ss, xs, x, mid, k1);
        let ext = section_chain(cs, ss, xs.push(x), k1);
        let old_chain = section_chain(cs, ss, xs, k1);
        assert(ext.drop_last() =~= old_chain);
        assert(mid[k1 as int] == section_filter(cs[k1 as int], ss[k1 as int], old_chain).1);
        let step = cascade_step(cs, mid, x, k);
        let prev = cascade_step(cs, mid, x, k1);
        assert forall|j: int| 0 <= j < k implies #[trigger] step.1[j] == section_filter(
            cs[j],
            ss[j],
            section_chain(cs, ss, xs.push(x), j as nat),
        ).1 by {
            if j < k1 {
                assert(step.1[j] == prev.1[j]);
            }
        }
    }
}

/// A cascade run is the same as running the whole signal through the first
/// section, the result through the second, and so on.
pub proof fn lemma_cascade_filter_is_chain<T: Scalar>(
    cs: Seq<BiquadCoefficients<T>>,
    ss: Seq<(T, T)>,
    xs: Seq<T>,
)
    requires
        ss.len() == cs.len(),
    ensures
        cascade_filter(cs, ss, xs).0 == section_chain(cs, ss, xs, cs.len()),
        cascade_filter(cs, ss, xs).1.len() == cs.len(),
        forall|j: int|
            0 <= j < cs.len() ==> #[trigger] cascade_filter(cs, ss, xs).1[j] == section_filter(
                cs[j],
                ss[j],
                section_chain(cs, ss, xs, j as nat),
            ).1,
    decreases xs.len(),
{
    if xs.len() == 0 {
        assert forall|j: int| 0 <= j < cs.len() implies #[trigger] cascade_filter(cs, ss, xs).1[j]
            == section_filter(cs[j], ss[j], section_chain(cs, ss, xs, j as nat)).1 by {
            lemma_section_chain_prefix(cs, ss, xs, j as nat, 0);
        }
        lemma_section_chain_prefix(cs, ss, xs, cs.len(), 0);
        assert(section_chain(cs, ss, xs, cs.len()) =~= Seq::<T>::empty());
    } else {
        let init = xs.drop_last();
        let x = xs.last();
        lemma_cascade_filter_is_chain(cs, ss, init);
        let mid = cascade_filter(cs, ss, init).1;
        lemma_cascade_step_extends_chain(cs, ss, init, x, mid, cs.len());
        assert(init.push(x) =~= xs);
    }
}

/// One pipeline step of section `i`, which sees its input signal `u` delayed
/// by `i` steps and had seen `t1` steps so far.
proof fn lemma_pipeline_section_step<T: Scalar>(
    c: BiquadCoefficients<T>,
    u: Seq<T>,
    next: Seq<T>,
    s: (T, T),
    input: T,
    i: int,
    t1: int,
)
    requires
        0 <= i,
        0 <= t1 < u.len(),
        next == section_filter(c, zero_state::<T>(), u).0,
        s == if t1 >= i {
            section_filter(c, zero_state::<T>(), u.take(t1 - i)).1
        } else {
            zero_state::<T>()
        },
        input == if t1 >= i {
            u[t1 - i]
        } else {
            T::spec_zero()
        },
    ensures
        biquad_step(c, s, input).1 == if t1 + 1 >= i {
            section_filter(c, zero_state::<T>(), u.take(t1 + 1 - i)).1
        } else {
            zero_state::<T>()
        },
        biquad_step(c, s, input).0 == if t1 + 1 >= i + 1 {
            next[t1 - i]
        } else {
            T::spec_zero()
        },
{
    if t1 >= i {
        let xs = u.take(t1 + 1 - i);
        assert(xs.drop_last() =~= u.take(t1 - i));
        assert(xs.last() == u[t1 - i]);
        lemma_section_filter_prefix(c, zero_state::<T>(), u, t1 + 1 - i);
        let full = section_filter(c, zero_state::<T>(), xs);
        assert(full.0.last() == biquad_step(c, s, input).0);
        assert(full.0 == next.take(t1 + 1 - i));
    } else {
        lemma_biquad_step_zero(c);
        if t1 + 1 == i {
            assert(u.take(0) =~= Seq::<T>::empty());
        }
    }
}

/// The state of a pipeline that started cleared, after `t` steps over the
/// signal `p`, in terms of the chain of `p`.
proof fn lemma_pipeline_run_state<T: Scalar>(cs: Seq<BiquadCoefficients<T>>, p: Seq<T>, t: int)
    requires
        cs.len() > 0,
        0 <= t <= p.len(),
    ensures
        ({
            let n = cs.len();
            let zs = Seq::new(n, |i: int| zero_state::<T>());
            let (outs, ss, ys) = pipeline_run(cs, zs, zeros::<T>(n), p.take(t));
            &&& outs.len() == t
            &&& ss.len() == n
            &&& ys.len() == n
            &&& forall|i: int|
                0 <= i < n ==> #[trigger] ss[i] == if t >= i {
                    section_filter(cs[i], zero_state::<T>(), section_chain(cs, zs, p, i as nat).take(t - i)).1
                } else {
                    zero_state::<T>()
                }
            &&& forall|i: int|
                0 <= i < n ==> #[trigger] ys[i] == if t >= i + 1 {
                    section_chain(cs, zs, p, (i + 1) as nat)[t - 1 - i]
                } else {
                    T::spec_zero()
                }
            &&& forall|k: int|
                0 <= k < t ==> #[trigger] outs[k] == if k >= n {
                    section_chain(cs, zs, p, n)[k - n]
                } else {
                    T::spec_zero()
                }
        }),
    decreases t,
{
    let n = cs.len();
    let zs = Seq::new(n, |i: int| zero_state::<T>());
    assert forall|i: nat| i <= n implies #[trigger] section_chain(cs, zs, p, i).len() == p.len() by {
        lemma_section_chain_prefix(cs, zs, p, i, 0);
    }
    if t == 0 {
        assert(p.take(0) =~= Seq::<T>::empty());
        let (outs, ss, ys) = pipeline_run(cs, zs, zeros::<T>(n), p.take(t));
        assert forall|i: int| 0 <= i < n implies #[trigger] ss[i] == if t >= i {
            section_filter(cs[i], zero_state::<T>(), section_chain(cs, zs, p, i as nat).take(t - i)).1
        } else {
            zero_state::<T>()
        } by {
            if i == 0 {
                assert(section_chain(cs, zs, p, 0).take(0) =~= Seq::<T>::empty());
            }
        }
        assert(outs.len() == 0);
        assert(ss.len() == n);
        assert(ys.len() == n);
        assert(forall|i: int| 0 <= i < n ==> #[trigger] ys[i] == T::spec_zero());
    } else {
        let t1 = t - 1;
        lemma_pipeline_run_state(cs, p, t1);
        assert(p.take(t).drop_last() =~= p.take(t1));
        let (outs1, ss1, ys1) = pipeline_run(cs, zs, zeros::<T>(n), p.take(t1));
        let x = p[t1];
        assert(p.take(t).last() == x);
        let (outs, ss, ys) = pipeline_run(cs, zs, zeros::<T>(n), p.take(t));
        assert(ss == Seq::new(n, |i: int| biquad_step(cs[i], ss1[i], pipeline_input(ys1, x, i)).1));
        assert(ys == Seq::new(n, |i: int| biquad_step(cs[i], ss1[i], pipeline_input(ys1, x, i)).0));
        assert forall|i: int|
            #![trigger ss[i]]
            #![trigger ys[i]]
            0 <= i < n implies ss[i] == (if t >= i {
            section_filter(cs[i], zero_state::<T>(), section_chain(cs, zs, p, i as nat).take(t - i)).1
        } else {
            zero_state::<T>()
        }) && ys[i] == (if t >= i + 1 {
            section_chain(cs, zs, p, (i + 1) as nat)[t - 1 - i]
        } else {
            T::spec_zero()
        }) by {
            lemma_section_chain_prefix(cs, zs, p, i as nat, 0);
            lemma_pipeline_section_step(
                cs[i],
                section_chain(cs, zs, p, i as nat),
                section_chain(cs, zs, p, (i + 1) as nat),
                ss1[i],
                pipeline_input(ys1, x, i),
                i,
                t1,
            );
        }
        assert forall|k: int| 0 <= k < t implies #[trigger] outs[k] == if k >= n {
            section_chain(cs, zs, p, n)[k - n]
        } else {
            T::spec_zero()
        } by {
            if k < t1 {
                assert(outs[k] == outs1[k]);
            } else {
                assert(outs[k] == ys1.last());
                assert(ys1.last() == ys1[n - 1]);
            }
        }
        assert(outs.len() == t);
        assert(ss.len() == n);
        assert(ys.len() == n);
    }
}

/// A pipeline that starts cleared produces, after its lag of `N` steps, exactly
/// what the cascade of the same sections produces from cleared registers.
pub proof fn lemma_pipeline_matches_cascade<T: Scalar>(cs: Seq<BiquadCoefficients<T>>, xs: Seq<T>)
    requires
        cs.len() > 0,
    ensures
        pipeline_run(
            cs,
            Seq::new(cs.len(), |i: int| zero_state::<T>()),
            zeros::<T>(cs.len()),
            xs + zeros::<T>(cs.len()),
        ).0.skip(cs.len() as int) == cascade_filter(
            cs,
            Seq::new(cs.len(), |i: int| zero_state::<T>()),
            xs,
        ).0,
{
    let n = cs.len();
    let zs = Seq::new(n, |i: int| zero_state::<T>());
    let p = xs + zeros::<T>(n);
    let len = p.len() as int;
    lemma_pipeline_run_state(cs, p, len);
    assert(p.take(len) =~= p);
    let outs = pipeline_run(cs, zs, zeros::<T>(n), p).0;
    lemma_cascade_filter_is_chain(cs, zs, xs);
    lemma_section_chain_prefix(cs, zs, p, n, xs.len() as int);
    assert(p.take(xs.len() as int) =~= xs);
    let chain = section_chain(cs, zs, p, n);
    assert(outs.skip(n as int) =~= chain.take(xs.len() as int)) by {
        assert forall|k: int| 0 <= k < xs.len() implies #[trigger] outs.skip(n as int)[k] == chain.take(
            xs.len() as int,
        )[k] by {
            assert(outs[k + n] == chain[k]);
        }
    }
}

/// `out` holds the rows of `rows`, each run through the cascade that `sos`
/// describes from cleared registers.
pub open spec fn rows_filtered<T: Scalar>(
    sos: Seq<Vec<T>>,
    rows: Seq<Vec<T>>,
    out: Seq<Vec<T>>,
) -> bool {
    &&& out.len() == rows.len()
    &&& forall|r: int|
        0 <= r < rows.len() ==> (#[trigger] out[r])@ == cascade_filter(
            sos_coefficients(sos),
            zero_states::<T>(sos.len()),
            rows[r]@,
        ).0
}

/// Filter every row of `signal` with the `N` sections of `sos`, run as a
/// pipeline.
pub fn specialized_filter<T: Scalar, const N: usize>(signal: &mut Vec<Vec<T>>, sos: &Vec<Vec<T>>) -> (res:
    Result<(), Error>)
    requires
        N > 0,
        sos@.len() == N,
        forall|r: int| 0 <= r < old(signal)@.len() ==> (#[trigger] old(signal)@[r])@.len() + N <= usize::MAX,
    ensures
        res is Ok <==> sos_valid(sos@),
        res is Ok ==> rows_filtered(sos@, old(signal)@, final(signal)@),
        res matches Err(e) ==> e == Error::InvalidSosFormat && final(signal)@ == old(signal)@,
{
    let mut iir = IirPipeline::<T, N>::from_sos(sos)?;
    let ghost cs = sos_coefficients(sos@);
    let ghost rows = signal@;
    let n = signal.len();
    let mut r: usize = 0;
    while r < n
        invariant
            N > 0,
            sos@.len() == N,
            n == signal@.len(),
            rows.len() == n,
            r <= n,
            iir.coefficients() == cs,
            cs == sos_coefficients(sos@),
            forall|k: int| 0 <= k < n ==> (#[trigger] rows[k])@.len() + N <= usize::MAX,
            forall|k: int| r <= k < n ==> #[trigger] signal@[k] == rows[k],
            forall|k: int|
                0 <= k < r ==> (#[trigger] signal@[k])@ == cascade_filter(
                    cs,
                    zero_states::<T>(N as nat),
                    rows[k]@,
                ).0,
        decreases n - r,
    {
        iir.reset();
        let ghost before = signal@;
        iir.filter_inplace(signal[r].as_mut_slice());
        proof {
            assert(iir.coefficients().len() == N);
            lemma_pipeline_matches_cascade(cs, rows[r as int]@);
            assert(zero_states::<T>(N as nat) == Seq::new(cs.len(), |i: int| zero_state::<T>()));
            assert forall|k: int| 0 <= k < n && k != r implies #[trigger] signal@[k] == before[k] by {
            }
        }
        r += 1;
    }
    Ok(())
}

/// Filter every row of `signal` with the sections of `sos`, run one after
/// another.
pub fn fallback_filter<T: Scalar>(signal: &mut Vec<Vec<T>>, sos: &Vec<Vec<T>>) -> (res: Result<(), Error>)
    ensures
        res is Ok <==> sos_valid(sos@),
        res is Ok ==> rows_filtered(sos@, old(signal)@, final(signal)@),
        res matches Err(e) ==> e == Error::InvalidSosFormat && final(signal)@ == old(signal)@,
{
    let mut iir = Iir::from_sos(sos)?;
    let ghost cs = sos_coefficients(sos@);
    assert(iir.coefficients().len() == iir.biquads@.len());
    let ghost rows = signal@;
    let n = signal.len();
    let mut r: usize = 0;
    while r < n
        invariant
            n == signal@.len(),
            rows.len() == n,
            r <= n,
            iir.coefficients() == cs,
            iir.biquads@.len() == sos@.len(),
            cs == sos_coefficients(sos@),
            forall|k: int| r <= k < n ==> #[trigger] signal@[k] == rows[k],
            forall|k: int|
                0 <= k < r ==> (#[trigger] signal@[k])@ == cascade_filter(
                    cs,
                    zero_states::<T>(sos@.len()),
                    rows[k]@,
                ).0,
        decreases n - r,
    {
        iir.reset();
        let ghost before = signal@;
        iir.filter_inplace(signal[r].as_mut_slice());
        proof {
            assert(iir.coefficients().len() == sos@.len());
            assert forall|k: int| 0 <= k < n && k != r implies #[trigger] signal@[k] == before[k] by {
            }
        }
        r += 1;
    }
    Ok(())
}

/// Filter every row of `signal` with the sections of `sos`. Up to four
/// sections run as a pipeline, more as a plain cascade; both give the same
/// result.
pub fn iir_filter_inplace<T: Scalar>(signal: &mut Vec<Vec<T>>, sos: &Vec<Vec<T>>) -> (res: Result<
    (),
    Error,
>)
    requires
        forall|r: int| 0 <= r < old(signal)@.len() ==> (#[trigger] old(signal)@[r])@.len() + 4 <= usize::MAX,
    ensures
        res is Ok <==> sos_valid(sos@),
        res is Ok ==> rows_filtered(sos@, old(signal)@, final(signal)@),
        res matches Err(e) ==> e == Error::InvalidSosFormat && final(signal)@ == old(signal)@,
{
    let n = sos.len();
    if n == 0 {
        proof {
            lemma_empty_cascade_is_identity(old(signal)@);
            assert(sos_coefficients(sos@) =~= Seq::<BiquadCoefficients<T>>::empty());
        }
        Ok(())
    } else if n == 1 {
        specialized_filter::<T, 1>(signal, sos)
    } else if n == 2 {
        specialized_filter::<T, 2>(signal, sos)
    } else if n == 3 {
        specialized_filter::<T, 3>(signal, sos)
    } else if n == 4 {
        specialized_filter::<T, 4>(signal, sos)
    } else {
        fallback_filter(signal, sos)
    }
}

/// A cascade without sections leaves the signal as it is.
proof fn lemma_empty_cascade_is_identity<T: Scalar>(rows: Seq<Vec<T>>)
    ensures
        forall|r: int|
            0 <= r < rows.len() ==> (#[trigger] rows[r])@ == cascade_filter(
                Seq::<BiquadCoefficients<T>>::empty(),
                zero_states::<T>(0),
                rows[r]@,
            ).0,
{
    assert forall|r: int| 0 <= r < rows.len() implies (#[trigger] rows[r])@ == cascade_filter(
        Seq::<BiquadCoefficients<T>>::empty(),
        zero_states::<T>(0),
        rows[r]@,
    ).0 by {
        lemma_cascade_filter_is_chain(Seq::<BiquadCoefficients<T>>::empty(), zero_states::<T>(0), rows[r]@);
    }
}

} // verus!
