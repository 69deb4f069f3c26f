//! Execution of a schedule tree: every element that is not a phantom, with
//! the range the layout gives it, changes the oscillators of its channels
//! or adds a pulse, parents before children; the first error stops it.
use vstd::prelude::*;

use crate::element::{OscKind, PlayView};
use crate::executor::{
    check_duration, lemma_osc_phase_continuity, play_plateau, swap_phase_exact, Envelope, ExecError,
    OscState,
};
use crate::scalar::{Additive, Divisible, Ordered, Scalar, Ticks};
use crate::schedule::TimeRange;
use crate::tree::{
    child_at, child_count, child_measures, child_ranges, content_measure, lemma_child_decreases,
    measure, Element, Variant,
};

verus! {

/// What the executor is told besides the schedule: how many shapes there
/// are, how much an element may exceed the time it gets, and whether it may
/// exceed it at all.
#[derive(Debug, Clone, Copy)]
pub struct RunConfig<T> {
    pub n_shapes: usize,
    pub time_tolerance: T,
    pub allow_oversize: bool,
}

/// A pulse to add to the pulse list of `channel`.
#[derive(Debug, Clone, Copy)]
pub struct PulseEvent<T> {
    pub channel: usize,
    pub envelope: Envelope<usize, T>,
    pub global_freq: T,
    pub local_freq: T,
    pub time: T,
    pub amplitude: T,
    pub drag_coef: T,
    pub phase: T,
}

/// Why the execution of a schedule stops.
#[derive(Debug, Clone, Copy, PartialEq, Eq)]
pub enum RunError<T> {
    /// An element names a channel the executor does not have.
    ChannelNotFound(usize),
    /// A phase swap names two channels and the executor lacks one of them.
    ChannelPairNotFound(usize, usize),
    /// A pulse names a shape the executor does not have.
    ShapeNotFound(usize),
    /// A pulse would have a negative plateau.
    NegativePlateau(T),
    /// An element needs more time than it gets, beyond the tolerance.
    NotEnoughDuration { required: T, available: T },
}

/// The oscillators of the channels and the pulses added so far.
#[verifier::ext_equal]
pub struct RunState<T> {
    pub oscs: Seq<OscState<T>>,
    pub events: Seq<PulseEvent<T>>,
}

/// The oscillator after an instruction of `kind` with `value` at `time`.
pub open spec fn osc_apply<T: Scalar>(osc: OscState<T>, kind: OscKind, value: T, time: T) -> OscState<T> {
    match kind {
        OscKind::ShiftPhase => OscState { phase: osc.phase.spec_plus(value), ..osc },
        OscKind::SetPhase => osc.spec_set_phase(value, time),
        OscKind::ShiftFreq => osc.spec_shift_freq(value, time),
        OscKind::SetFreq => osc.spec_set_freq(value, time),
    }
}

/// A pulse played in the range `r`: the shape must exist, the plateau must
/// not be negative and the channel must exist, in that order; the pulse
/// runs at the channel's total frequency.
pub open spec fn play_step<T: Divisible>(
    cfg: RunConfig<T>,
    st: RunState<T>,
    p: PlayView<usize, usize, T>,
    r: TimeRange<T>,
) -> Result<RunState<T>, RunError<T>> {
    let plateau = if p.flexible {
        r.span.spec_minus(p.width)
    } else {
        p.plateau
    };
    if p.shape_id matches Some(s) && s >= cfg.n_shapes {
        Err(RunError::ShapeNotFound(p.shape_id->0))
    } else if !T::spec_zero().spec_leq(plateau) {
        Err(RunError::NegativePlateau(plateau))
    } else if p.channel_id >= st.oscs.len() {
        Err(RunError::ChannelNotFound(p.channel_id))
    } else {
        Ok(
            RunState {
                oscs: st.oscs,
                events: st.events.push(
                    PulseEvent {
                        channel: p.channel_id,
                        envelope: Envelope::spec_new(p.shape_id, p.width, plateau),
                        global_freq: st.oscs[p.channel_id as int].spec_total_freq(),
                        local_freq: p.frequency,
                        time: r.start,
                        amplitude: p.amplitude,
                        drag_coef: p.drag_coef,
                        phase: p.phase,
                    },
                ),
            },
        )
    }
}

/// What one element does in the range `r` its content gets, before its
/// children: refuse it when it needs more time than it gets (unless that is
/// allowed), then play its pulse or change its channels' oscillators.
pub open spec fn node_step<T: Divisible>(
    cfg: RunConfig<T>,
    st: RunState<T>,
    e: Element<T>,
    r: TimeRange<T>,
) -> Result<RunState<T>, RunError<T>> {
    let required = content_measure(e);
    if !cfg.allow_oversize && !required.spec_leq(r.span.spec_plus(cfg.time_tolerance)) {
        Err(RunError::NotEnoughDuration { required, available: r.span })
    } else {
        match e.variant {
            Variant::Play(p) => play_step(cfg, st, p@, r),
            Variant::Osc(o) => if o.channel_id >= st.oscs.len() {
                Err(RunError::ChannelNotFound(o.channel_id))
            } else {
                Ok(
                    RunState {
                        oscs: st.oscs.update(
                            o.channel_id as int,
                            osc_apply(st.oscs[o.channel_id as int], o.kind, o.value, r.start),
                        ),
                        events: st.events,
                    },
                )
            },
            Variant::SwapPhase(a, b) => if a == b {
                Ok(st)
            } else if a >= st.oscs.len() || b >= st.oscs.len() {
                Err(RunError::ChannelPairNotFound(a, b))
            } else {
                let swapped = st.oscs[a as int].spec_swap_phase(st.oscs[b as int], r.start);
                Ok(
                    RunState {
                        oscs: st.oscs.update(a as int, swapped.0).update(b as int, swapped.1),
                        events: st.events,
                    },
                )
            },
            _ => Ok(st),
        }
    }
}

/// Run element `e` that gets `range`: nothing for a phantom; otherwise the
/// element itself in the range its content gets, then its children in
/// order in the ranges the layout gives them.
pub open spec fn run_element<T: Divisible>(
    cfg: RunConfig<T>,
    st: RunState<T>,
    e: Element<T>,
    range: TimeRange<T>,
) -> Result<RunState<T>, RunError<T>>
    decreases e, 1nat, 0nat,
{
    if e.common@.phantom {
        Ok(st)
    } else {
        let r = e.common@.spec_inner_time_range(range);
        match node_step(cfg, st, e, r) {
            Err(x) => Err(x),
            Ok(st1) => run_children(cfg, st1, e, child_ranges(e, r), 0),
        }
    }
}

/// Run the children of `e` from child `k` on, each in its range.
pub open spec fn run_children<T: Divisible>(
    cfg: RunConfig<T>,
    st: RunState<T>,
    e: Element<T>,
    ranges: Seq<TimeRange<T>>,
    k: nat,
) -> Result<RunState<T>, RunError<T>>
    decreases e, 0nat, child_count(e) - k,
{
    if k >= child_count(e) {
        Ok(st)
    } else {
        proof {
            lemma_child_decreases(e, k as int);
        }
        match run_element(cfg, st, child_at(e, k as int), ranges[k as int]) {
            Err(x) => Err(x),
            Ok(st2) => run_children(cfg, st2, e, ranges, k + 1),
        }
    }
}

/// Run a whole schedule: the root gets the time it needs, from zero.
pub open spec fn run_schedule<T: Divisible>(
    cfg: RunConfig<T>,
    st: RunState<T>,
    root: Element<T>,
) -> Result<RunState<T>, RunError<T>> {
    run_element(cfg, st, root, TimeRange { start: T::spec_zero(), span: measure(root) })
}

/// `b` extends `a`: it keeps the same channels and every pulse of `a`, in
/// order, at its front.
pub open spec fn extends<T>(a: RunState<T>, b: RunState<T>) -> bool {
    &&& b.oscs.len() == a.oscs.len()
    &&& b.events.len() >= a.events.len()
    &&& b.events.take(a.events.len() as int) == a.events
}

proof fn lemma_extends_refl<T>(a: RunState<T>)
    ensures
        extends(a, a),
{
    assert(a.events.take(a.events.len() as int) =~= a.events);
}

proof fn lemma_extends_trans<T>(a: RunState<T>, b: RunState<T>, c: RunState<T>)
    requires
        extends(a, b),
        extends(b, c),
    ensures
        extends(a, c),
{
    assert(c.events.take(a.events.len() as int) =~= c.events.take(b.events.len() as int).take(
        a.events.len() as int,
    ));
}

/// One element keeps the channels and the pulses already added.
proof fn lemma_node_step_extends<T: Divisible>(
    cfg: RunConfig<T>,
    st: RunState<T>,
    e: Element<T>,
    r: TimeRange<T>,
)
    ensures
        node_step(cfg, st, e, r) matches Ok(st2) ==> extends(st, st2),
{
    if node_step(cfg, st, e, r) is Ok {
        let st2 = node_step(cfg, st, e, r)->Ok_0;
        assert(st2.events.take(st.events.len() as int) =~= st.events);
    }
}

/// Law of execution: running an element never changes the set of channels
/// and never removes or changes a pulse already added; new pulses come
/// after the old ones.
pub proof fn lemma_run_extends<T: Divisible>(
    cfg: RunConfig<T>,
    st: RunState<T>,
    e: Element<T>,
    range: TimeRange<T>,
)
    ensures
        run_element(cfg, st, e, range) matches Ok(st2) ==> extends(st, st2),
    decreases e, 1nat, 0nat,
{
    if !e.common@.phantom {
        let r = e.common@.spec_inner_time_range(range);
        lemma_node_step_extends(cfg, st, e, r);
        if node_step(cfg, st, e, r) is Ok {
            let st1 = node_step(cfg, st, e, r)->Ok_0;
            lemma_run_children_extends(cfg, st1, e, child_ranges(e, r), 0);
            if run_children(cfg, st1, e, child_ranges(e, r), 0) is Ok {
                lemma_extends_trans(st, st1, run_children(cfg, st1, e, child_ranges(e, r), 0)->Ok_0);
            }
        }
    } else {
        assert(st.events.take(st.events.len() as int) =~= st.events);
    }
}

proof fn lemma_run_children_extends<T: Divisible>(
    cfg: RunConfig<T>,
    st: RunState<T>,
    e: Element<T>,
    ranges: Seq<TimeRange<T>>,
    k: nat,
)
    ensures
        run_children(cfg, st, e, ranges, k) matches Ok(st2) ==> extends(st, st2),
    decreases e, 0nat, child_count(e) - k,
{
    if k >= child_count(e) {
        assert(st.events.take(st.events.len() as int) =~= st.events);
    } else {
        lemma_child_decreases(e, k as int);
        lemma_run_extends(cfg, st, child_at(e, k as int), ranges[k as int]);
        if run_element(cfg, st, child_at(e, k as int), ranges[k as int]) is Ok {
            let st2 = run_element(cfg, st, child_at(e, k as int), ranges[k as int])->Ok_0;
            lemma_run_children_extends(cfg, st2, e, ranges, k + 1);
            if run_children(cfg, st2, e, ranges, k + 1) is Ok {
                lemma_extends_trans(st, st2, run_children(cfg, st2, e, ranges, k + 1)->Ok_0);
            }
        }
    }
}

/// Law of execution: a phantom element, with everything under it, adds
/// nothing to the waveforms and leaves every oscillator as it was.
pub proof fn lemma_phantom_adds_nothing<T: Divisible>(
    cfg: RunConfig<T>,
    st: RunState<T>,
    e: Element<T>,
    range: TimeRange<T>,
)
    requires
        e.common@.phantom,
    ensures
        run_element(cfg, st, e, range) == Ok::<RunState<T>, RunError<T>>(st),
{
}

/// Runs schedules on a set of channels.
pub struct Runner<T> {
    config: RunConfig<T>,
    oscs: Vec<OscState<T>>,
    events: Vec<PulseEvent<T>>,
}

impl<T> View for Runner<T> {
    type V = RunState<T>;

    closed spec fn view(&self) -> RunState<T> {
        RunState { oscs: self.oscs@, events: self.events@ }
    }
}

impl<T: Divisible> Runner<T> {
    /// The configuration the runner was made with.
    pub closed spec fn config(&self) -> RunConfig<T> {
        self.config
    }

    /// A runner for the channels whose oscillators are `oscs`, with no pulse
    /// yet.
    pub fn new(config: RunConfig<T>, oscs: Vec<OscState<T>>) -> (res: Self)
        ensures
            res.config() == config,
            res@ == (RunState { oscs: oscs@, events: Seq::<PulseEvent<T>>::empty() }),
    {
        let res = Runner { config, oscs, events: Vec::new() };
        assert(res@ =~= (RunState { oscs: oscs@, events: Seq::<PulseEvent<T>>::empty() }));
        res
    }

    /// The oscillators of the channels.
    pub fn states(&self) -> (res: &Vec<OscState<T>>)
        ensures
            res@ == self@.oscs,
    {
        &self.oscs
    }

    /// The pulses added, in the order they were added.
    pub fn into_events(self) -> (res: Vec<PulseEvent<T>>)
        ensures
            res@ == self@.events,
    {
        self.events
    }

    /// Run a whole schedule: the root gets the time it needs, from zero.
    /// On success the state is the one [`run_schedule`] gives; on failure the
    /// error is the one it gives. Either way the channels stay the same and
    /// the pulses added before stay at the front.
    pub fn execute(&mut self, root: &Element<T>) -> (res: Result<(), RunError<T>>)
        ensures
            final(self).config() == old(self).config(),
            extends(old(self)@, final(self)@),
            match run_schedule(old(self).config(), old(self)@, *root) {
                Ok(st) => res is Ok && final(self)@ == st,
                Err(x) => res == Err::<(), RunError<T>>(x),
            },
    {
        let span = root.measure();
        self.run_element(root, TimeRange { start: T::zero(), span })
    }

    /// Run element `e` that gets `range`.
    fn run_element(&mut self, e: &Element<T>, range: TimeRange<T>) -> (res: Result<(), RunError<T>>)
        ensures
            final(self).config() == old(self).config(),
            extends(old(self)@, final(self)@),
            match run_element(old(self).config(), old(self)@, *e, range) {
                Ok(st) => res is Ok && final(self)@ == st,
                Err(x) => res == Err::<(), RunError<T>>(x),
            },
        decreases e,
    {
        proof {
            lemma_extends_refl(self@);
        }
        if e.common.phantom() {
            return Ok(());
        }
        let r = e.common.inner_time_range(range);
        match self.node_step(e, r) {
            Err(x) => {
                return Err(x);
            },
            Ok(()) => {},
        }
        proof {
            lemma_node_step_extends(self.config(), old(self)@, *e, r);
        }
        let ghost cfg = self.config();
        let ghost st1 = self@;
        let ranges = e.arrange_children(r);
        let n = e.child_count();
        proof {
            crate::tree::lemma_child_ranges_len(*e, r);
        }
        assert(run_element(old(self).config(), old(self)@, *e, range) == run_children(
            cfg,
            st1,
            *e,
            ranges@,
            0,
        ));
        let mut k: usize = 0;
        while k < n
            invariant
                k <= n,
                n == child_count(*e),
                ranges@ == child_ranges(*e, r),
                ranges@.len() == n,
                self.config() == cfg,
                cfg == old(self).config(),
                extends(old(self)@, self@),
                run_element(old(self).config(), old(self)@, *e, range) == run_children(
                    cfg,
                    st1,
                    *e,
                    ranges@,
                    0,
                ),
                run_children(cfg, st1, *e, ranges@, 0) == run_children(cfg, self@, *e, ranges@, k as nat),
            decreases n - k,
        {
            proof {
                lemma_child_decreases(*e, k as int);
            }
            let c = e.child(k);
            let ghost before = self@;
            match self.run_element(c, ranges[k]) {
                Err(x) => {
                    proof {
                        lemma_extends_trans(old(self)@, before, self@);
                    }
                    return Err(x);
                },
                Ok(()) => {},
            }
            proof {
                lemma_extends_trans(old(self)@, before, self@);
            }
            k += 1;
        }
        Ok(())
    }

    /// What element `e` itself does in the range `r` its content gets.
    fn node_step(&mut self, e: &Element<T>, r: TimeRange<T>) -> (res: Result<(), RunError<T>>)
        ensures
            final(self).config() == old(self).config(),
            res is Err ==> final(self)@ == old(self)@,
            match node_step(old(self).config(), old(self)@, *e, r) {
                Ok(st) => res is Ok && final(self)@ == st,
                Err(x) => res == Err::<(), RunError<T>>(x),
            },
    {
        let required = e.content_measure();
        if !self.config.allow_oversize {
            match check_duration(required, r.span, self.config.time_tolerance) {
                Ok(()) => {},
                Err(_) => {
                    return Err(RunError::NotEnoughDuration { required, available: r.span });
                },
            }
        }
        match &e.variant {
            Variant::Play(p) => {
                match p.shape_id() {
                    Some(s) => {
                        if *s >= self.config.n_shapes {
                            return Err(RunError::ShapeNotFound(*s));
                        }
                    },
                    None => {},
                }
                let plateau = match play_plateau(p.flexible(), r.span, p.width(), p.plateau()) {
                    Ok(v) => v,
                    Err(ExecError::NegativePlateau(v)) => {
                        return Err(RunError::NegativePlateau(v));
                    },
                    Err(ExecError::NotEnoughDuration { required, available }) => {
                        return Err(RunError::NotEnoughDuration { required, available });
                    },
                };
                let ch = *p.channel_id();
                if ch >= self.oscs.len() {
                    return Err(RunError::ChannelNotFound(ch));
                }
                let envelope = Envelope::new(*p.shape_id(), p.width(), plateau);
                let global_freq = self.oscs[ch].total_freq();
                self.events.push(
                    PulseEvent {
                        channel: ch,
                        envelope,
                        global_freq,
                        local_freq: p.frequency(),
                        time: r.start,
                        amplitude: p.amplitude(),
                        drag_coef: p.drag_coef(),
                        phase: p.phase(),
                    },
                );
                Ok(())
            },
            Variant::Osc(o) => {
                let ch = o.channel_id;
                if ch >= self.oscs.len() {
                    return Err(RunError::ChannelNotFound(ch));
                }
                let mut osc = self.oscs[ch];
                match o.kind {
                    OscKind::ShiftPhase => osc.shift_phase(o.value),
                    OscKind::SetPhase => osc.set_phase(o.value, r.start),
                    OscKind::ShiftFreq => osc.shift_freq(o.value, r.start),
                    OscKind::SetFreq => osc.set_freq(o.value, r.start),
                }
                self.oscs.set(ch, osc);
                Ok(())
            },
            Variant::SwapPhase(a, b) => {
                let a = *a;
                let b = *b;
                if a == b {
                    return Ok(());
                }
                if a >= self.oscs.len() || b >= self.oscs.len() {
                    return Err(RunError::ChannelPairNotFound(a, b));
                }
                let mut x = self.oscs[a];
                let mut y = self.oscs[b];
                x.swap_phase(&mut y, r.start);
                self.oscs.set(a, x);
                self.oscs.set(b, y);
                Ok(())
            },
            _ => Ok(()),
        }
    }
}

/// Law of the duration check: an element whose content needs no more than
/// the span it gets plus the time tolerance, or any element when oversize is
/// allowed, is never refused for want of time; when oversize is not allowed
/// and it needs more, it is refused with what it needs and the span it got.
pub proof fn lemma_duration_tolerance<T: Divisible>(
    cfg: RunConfig<T>,
    st: RunState<T>,
    e: Element<T>,
    r: TimeRange<T>,
)
    ensures
        cfg.allow_oversize || content_measure(e).spec_leq(r.span.spec_plus(cfg.time_tolerance))
            ==> !(node_step(cfg, st, e, r) matches Err(RunError::NotEnoughDuration { .. })),
        !cfg.allow_oversize && !content_measure(e).spec_leq(r.span.spec_plus(cfg.time_tolerance))
            ==> node_step(cfg, st, e, r) == Err::<RunState<T>, RunError<T>>(
            RunError::NotEnoughDuration { required: content_measure(e), available: r.span },
        ),
{
}

/// Law of the oscillator instructions: an instruction element that is not a
/// phantom runs, in the range its content gets, exactly when its duration
/// check passes and its channel exists. It then adds no pulse and changes
/// no other channel; the base frequency stays; shifting the frequency adds
/// the value to the frequency shift and moves the phase so that the phase at
/// the start does not jump; setting the frequency makes the shift the value,
/// moving the phase likewise; shifting the phase adds the value to it;
/// setting the phase makes it the value at the start, in the frame of the
/// base frequency.
pub proof fn lemma_osc_instruction<T: Divisible>(
    cfg: RunConfig<T>,
    st: RunState<T>,
    e: Element<T>,
    range: TimeRange<T>,
)
    requires
        e.variant is Osc,
        !e.common@.phantom,
    ensures
        ({
            let o = e.variant->Osc_0;
            let c = o.channel_id as int;
            let r = e.common@.spec_inner_time_range(range);
            let old = st.oscs[c];
            let t = r.start;
            &&& run_element(cfg, st, e, range) is Ok <==> (cfg.allow_oversize || content_measure(
                e,
            ).spec_leq(r.span.spec_plus(cfg.time_tolerance))) && o.channel_id < st.oscs.len()
            &&& run_element(cfg, st, e, range) matches Ok(st2) ==> {
                let new = st2.oscs[c];
                &&& st2.events == st.events
                &&& st2.oscs.len() == st.oscs.len()
                &&& forall|j: int| 0 <= j < st.oscs.len() && j != c ==> #[trigger] st2.oscs[j] == st.oscs[j]
                &&& new.base_freq == old.base_freq
                &&& o.kind == OscKind::ShiftFreq ==> new.delta_freq == old.delta_freq.spec_plus(o.value)
                    && new.phase == old.phase.spec_plus(o.value.spec_negate().spec_times(t))
                &&& o.kind == OscKind::SetFreq ==> new.delta_freq == o.value && new.phase
                    == old.phase.spec_plus(o.value.spec_minus(old.delta_freq).spec_negate().spec_times(t))
                &&& o.kind == OscKind::ShiftPhase ==> new.delta_freq == old.delta_freq && new.phase
                    == old.phase.spec_plus(o.value)
                &&& o.kind == OscKind::SetPhase ==> new.delta_freq == old.delta_freq && new.phase
                    == o.value.spec_minus(old.delta_freq.spec_times(t))
            }
        }),
{
    let r = e.common@.spec_inner_time_range(range);
    assert(child_count(e) == 0);
    if node_step(cfg, st, e, r) is Ok {
        let st1 = node_step(cfg, st, e, r)->Ok_0;
        assert(run_children(cfg, st1, e, child_ranges(e, r), 0) == Ok::<RunState<T>, RunError<T>>(st1));
    }
}

/// Law of the phase swap on tick counts: a swap element that is not a
/// phantom, naming two distinct channels, runs in the range its content
/// gets exactly when its duration check passes and both channels exist. It
/// then adds no pulse, changes no other channel and keeps both channels'
/// frequencies; when the arithmetic saturates nowhere, the two channels'
/// phases at the start of the range are exchanged.
pub proof fn lemma_swap_instruction(
    cfg: RunConfig<Ticks>,
    st: RunState<Ticks>,
    e: Element<Ticks>,
    range: TimeRange<Ticks>,
)
    requires
        e.variant is SwapPhase,
        !e.common@.phantom,
        e.variant->SwapPhase_0 != e.variant->SwapPhase_1,
    ensures
        ({
            let a = e.variant->SwapPhase_0;
            let b = e.variant->SwapPhase_1;
            let r = e.common@.spec_inner_time_range(range);
            let t = r.start;
            &&& run_element(cfg, st, e, range) is Ok <==> (cfg.allow_oversize || content_measure(
                e,
            ).spec_leq(r.span.spec_plus(cfg.time_tolerance))) && a < st.oscs.len() && b
                < st.oscs.len()
            &&& run_element(cfg, st, e, range) matches Ok(st2) ==> {
                &&& st2.events == st.events
                &&& st2.oscs.len() == st.oscs.len()
                &&& forall|j: int|
                    0 <= j < st.oscs.len() && j != a && j != b ==> #[trigger] st2.oscs[j] == st.oscs[j]
                &&& st2.oscs[a as int].base_freq == st.oscs[a as int].base_freq
                &&& st2.oscs[a as int].delta_freq == st.oscs[a as int].delta_freq
                &&& st2.oscs[b as int].base_freq == st.oscs[b as int].base_freq
                &&& st2.oscs[b as int].delta_freq == st.oscs[b as int].delta_freq
                &&& swap_phase_exact(st.oscs[a as int], st.oscs[b as int], t) ==> {
                    &&& st2.oscs[a as int].spec_phase_at(t) == st.oscs[b as int].spec_phase_at(t)
                    &&& st2.oscs[b as int].spec_phase_at(t) == st.oscs[a as int].spec_phase_at(t)
                }
            }
        }),
{
    let r = e.common@.spec_inner_time_range(range);
    assert(child_count(e) == 0);
    if node_step(cfg, st, e, r) is Ok {
        let st1 = node_step(cfg, st, e, r)->Ok_0;
        assert(run_children(cfg, st1, e, child_ranges(e, r), 0) == Ok::<RunState<Ticks>, RunError<Ticks>>(st1));
        let a = e.variant->SwapPhase_0;
        let b = e.variant->SwapPhase_1;
        lemma_osc_phase_continuity(st.oscs[a as int], st.oscs[b as int], Ticks(0), r.start);
    }
}

/// Law of the pulses: a pulse element that is not a phantom, with its
/// duration check passed, is refused when its shape does not exist, then
/// when its plateau (what the range leaves after the edges, for a flexible
/// pulse) is negative, then when its channel does not exist. Otherwise it
/// changes no oscillator and adds exactly one pulse after those already
/// there: on its channel, at the start of its range, at the channel's base
/// plus shifted frequency, with the pulse's own frequency, amplitude, drag
/// and phase, and the envelope of its shape, width and plateau.
pub proof fn lemma_play_instruction<T: Divisible>(
    cfg: RunConfig<T>,
    st: RunState<T>,
    e: Element<T>,
    range: TimeRange<T>,
)
    requires
        e.variant is Play,
        !e.common@.phantom,
    ensures
        ({
            let p = e.variant->Play_0@;
            let r = e.common@.spec_inner_time_range(range);
            let plateau = if p.flexible {
                r.span.spec_minus(p.width)
            } else {
                p.plateau
            };
            let duration_ok = cfg.allow_oversize || content_measure(e).spec_leq(
                r.span.spec_plus(cfg.time_tolerance),
            );
            let res = run_element(cfg, st, e, range);
            &&& duration_ok && (p.shape_id matches Some(s) && s >= cfg.n_shapes) ==> res == Err::<
                RunState<T>,
                RunError<T>,
            >(RunError::ShapeNotFound(p.shape_id->0))
            &&& duration_ok && !(p.shape_id matches Some(s) && s >= cfg.n_shapes) && !T::spec_zero().spec_leq(
                plateau,
            ) ==> res == Err::<RunState<T>, RunError<T>>(RunError::NegativePlateau(plateau))
            &&& duration_ok && !(p.shape_id matches Some(s) && s >= cfg.n_shapes) && T::spec_zero().spec_leq(
                plateau,
            ) && p.channel_id >= st.oscs.len() ==> res == Err::<RunState<T>, RunError<T>>(
                RunError::ChannelNotFound(p.channel_id),
            )
            &&& res is Ok <==> duration_ok && !(p.shape_id matches Some(s) && s >= cfg.n_shapes)
                && T::spec_zero().spec_leq(plateau) && p.channel_id < st.oscs.len()
            &&& res matches Ok(st2) ==> {
                let ev = st2.events.last();
                let osc = st.oscs[p.channel_id as int];
                &&& st2.oscs == st.oscs
                &&& st2.events.len() == st.events.len() + 1
                &&& st2.events.take(st.events.len() as int) == st.events
                &&& ev.channel == p.channel_id
                &&& ev.time == r.start
                &&& ev.global_freq == osc.base_freq.spec_plus(osc.delta_freq)
                &&& ev.local_freq == p.frequency
                &&& ev.amplitude == p.amplitude
                &&& ev.drag_coef == p.drag_coef
                &&& ev.phase == p.phase
                &&& ev.envelope == Envelope::spec_new(p.shape_id, p.width, plateau)
            }
        }),
{
    let r = e.common@.spec_inner_time_range(range);
    assert(child_count(e) == 0);
    if node_step(cfg, st, e, r) is Ok {
        let st1 = node_step(cfg, st, e, r)->Ok_0;
        assert(run_children(cfg, st1, e, child_ranges(e, r), 0) == Ok::<RunState<T>, RunError<T>>(st1));
        assert(st1.events.take(st.events.len() as int) =~= st.events);
    }
}

/// Law of the elements that only hold others or time: a barrier, a repeat,
/// a stack, an absolute or grid container, and a phase swap of a channel
/// with itself, once its duration check passes, changes no oscillator and
/// adds no pulse of its own.
pub proof fn lemma_structural_step<T: Divisible>(
    cfg: RunConfig<T>,
    st: RunState<T>,
    e: Element<T>,
    r: TimeRange<T>,
)
    requires
        (!(e.variant is Play) && !(e.variant is Osc) && !(e.variant is SwapPhase)) || (e.variant is SwapPhase
            && e.variant->SwapPhase_0 == e.variant->SwapPhase_1),
        cfg.allow_oversize || content_measure(e).spec_leq(r.span.spec_plus(cfg.time_tolerance)),
    ensures
        node_step(cfg, st, e, r) == Ok::<RunState<T>, RunError<T>>(st),
{
}

} // verus!
