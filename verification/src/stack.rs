//! Layout of a stack: children are placed one after another on the channels
//! they use, as close as possible, without changing the order of children
//! that share a channel.
use vstd::prelude::*;

use crate::scalar::{max, spec_max, Additive, Ordered};
use crate::schedule::{Direction, TimeRange};

verus! {

/// What the stack layout reads of a child: its duration and the indices of
/// its channels in the list of the stack's channels. A child without
/// channels occupies all of them.
#[derive(Debug, Clone)]
pub struct StackChild<T> {
    pub span: T,
    pub channels: Vec<usize>,
}

/// What a [`StackChild`] holds.
pub struct StackChildView<T> {
    pub span: T,
    pub channels: Seq<usize>,
}

impl<T: Copy> View for StackChild<T> {
    type V = StackChildView<T>;

    open spec fn view(&self) -> StackChildView<T> {
        StackChildView { span: self.span, channels: self.channels@ }
    }
}

/// The views of `children`.
pub open spec fn stack_views<T: Copy>(children: Seq<StackChild<T>>) -> Seq<StackChildView<T>> {
    children.map_values(|c: StackChild<T>| c@)
}

/// The largest of the values present at the indices `idx` of `usage`, the
/// last of equal ones; `None` when no value is present.
pub open spec fn max_present<T: Ordered>(usage: Seq<Option<T>>, idx: Seq<usize>) -> Option<T>
    decreases idx.len(),
{
    if idx.len() == 0 {
        None
    } else {
        let prev = max_present(usage, idx.drop_last());
        match (prev, usage[idx.last() as int]) {
            (None, v) => v,
            (p, None) => p,
            (Some(a), Some(b)) => Some(spec_max(a, b)),
        }
    }
}

/// The indices `0 .. n`.
pub open spec fn all_indices(n: nat) -> Seq<usize> {
    Seq::new(n, |i: int| i as usize)
}

/// The channels a child occupies: its own, or all of them when it names none.
pub open spec fn occupied(n: nat, channels: Seq<usize>) -> Seq<usize> {
    if channels.len() == 0 {
        all_indices(n)
    } else {
        channels
    }
}

/// The time at which the channels that a child occupies are all free.
pub open spec fn usage_of<T: Ordered>(usage: Seq<Option<T>>, n: nat, channels: Seq<usize>) -> T {
    match max_present(usage, occupied(n, channels)) {
        Some(v) => v,
        None => T::spec_zero(),
    }
}

/// The state of the layout of a stack with `n` channels: with no channels a
/// single end time, otherwise the end time of each channel that has been
/// used.
#[verifier::ext_equal]
pub struct StackState<T> {
    pub n: nat,
    pub single: T,
    pub usage: Seq<Option<T>>,
}

impl<T: Ordered> StackState<T> {
    /// The state before any child is placed.
    pub open spec fn initial(n: nat) -> StackState<T> {
        StackState { n, single: T::spec_zero(), usage: Seq::new(n, |i: int| None) }
    }

    /// The time at which all of `channels` are free.
    pub open spec fn usage(self, channels: Seq<usize>) -> T {
        if self.n == 0 {
            self.single
        } else {
            usage_of(self.usage, self.n, channels)
        }
    }

    /// The state after `channels` are used until `end`.
    pub open spec fn update(self, end: T, channels: Seq<usize>) -> StackState<T> {
        if self.n == 0 {
            StackState { n: self.n, single: end, usage: self.usage }
        } else {
            let targets = occupied(self.n, channels);
            StackState {
                n: self.n,
                single: self.single,
                usage: Seq::new(
                    self.n,
                    |c: int|
                        if targets.contains(c as usize) {
                            Some(end)
                        } else {
                            self.usage[c]
                        },
                ),
            }
        }
    }

    /// The latest end time of any channel, zero when none was used.
    pub open spec fn max_usage(self) -> T {
        self.usage(Seq::empty())
    }

    /// Place one child of duration `span` on `channels`: its start time and
    /// the new state.
    pub open spec fn step(self, span: T, channels: Seq<usize>) -> (T, StackState<T>) {
        let start = self.usage(channels);
        (start, self.update(start.spec_plus(span), channels))
    }
}

/// Place the children in the order given: their start times and the final
/// state.
pub open spec fn stack_run<T: Ordered>(n: nat, children: Seq<StackChildView<T>>) -> (
    Seq<T>,
    StackState<T>,
)
    decreases children.len(),
{
    if children.len() == 0 {
        (Seq::empty(), StackState::initial(n))
    } else {
        let (starts, st) = stack_run(n, children.drop_last());
        let (start, next) = st.step(children.last().span, children.last().channels);
        (starts.push(start), next)
    }
}

/// The children in the order the layout visits them.
pub open spec fn processing_order<T>(children: Seq<StackChildView<T>>, direction: Direction) -> Seq<
    StackChildView<T>,
> {
    match direction {
        Direction::Forward => children,
        Direction::Backward => children.reverse(),
    }
}

/// The position in the processing order of the child at index `i`.
pub open spec fn processing_index(len: nat, i: int, direction: Direction) -> int {
    match direction {
        Direction::Forward => i,
        Direction::Backward => len - 1 - i,
    }
}

/// Every channel a child names is a channel of the stack.
pub open spec fn channels_valid<T>(children: Seq<StackChildView<T>>, n: nat) -> bool {
    forall|i: int, j: int|
        0 <= i < children.len() && 0 <= j < children[i].channels.len() ==> (
        #[trigger] children[i].channels[j]) < n
}

/// Two children of a stack with `n` channels occupy a common channel; with
/// no channels at all, every two children do.
pub open spec fn shares_channel(n: nat, a: Seq<usize>, b: Seq<usize>) -> bool {
    n == 0 || exists|c: usize| occupied(n, a).contains(c) && occupied(n, b).contains(c)
}

/// No child has a negative duration.
pub open spec fn spans_not_negative<T: Ordered>(children: Seq<StackChildView<T>>) -> bool {
    forall|i: int| 0 <= i < children.len() ==> T::spec_zero().spec_leq(#[trigger] children[i].span)
}

/// The channels of a stack that are in use, each mapped to the child whose
/// end frees it, in a `hashbrown` hash map.
#[verifier::external_body]
pub struct ChannelUsage {
    map: hashbrown::HashMap<usize, usize>,
}

/// What a [`ChannelUsage`] holds: each used channel and the child whose end
/// frees it.
pub uninterp spec fn usage_contents(m: ChannelUsage) -> Map<usize, usize>;

/// No channel in use.
pub open spec fn no_usage() -> Map<usize, usize> {
    Map::empty()
}

/// `hashbrown::HashMap::new`: a map that holds nothing.
#[verifier::external_body]
fn usage_new() -> (res: ChannelUsage)
    ensures
        usage_contents(res) == no_usage(),
{
    ChannelUsage { map: hashbrown::HashMap::new() }
}

/// `hashbrown::HashMap::insert`: `channel` maps to `child` afterwards, in
/// place of anything it mapped to before; the other entries stay.
#[verifier::external_body]
fn usage_insert(m: &mut ChannelUsage, channel: usize, child: usize)
    ensures
        usage_contents(*final(m)) == usage_contents(*old(m)).insert(channel, child),
{
    m.map.insert(channel, child);
}

/// `hashbrown::HashMap::get`: the child `channel` maps to, if it maps to
/// one.
#[verifier::external_body]
fn usage_get(m: &ChannelUsage, channel: usize) -> (res: Option<usize>)
    ensures
        res == if usage_contents(*m).dom().contains(channel) {
            Some(usage_contents(*m)[channel])
        } else {
            None
        },
{
    m.map.get(&channel).copied()
}

/// `hashbrown::HashMap::values`: the children the map holds, in an order the
/// map chooses; each appears for each channel that maps to it.
#[verifier::external_body]
fn usage_values(m: &ChannelUsage) -> (res: Vec<usize>)
    ensures
        res@.to_set() == usage_contents(*m).values(),
{
    m.map.values().copied().collect()
}

/// The state of a stack's layout while its children are placed, one after
/// another: with no channels a single end time, otherwise the used channels,
/// each mapped to the placed end that frees it.
pub struct StackHelper<T> {
    n: usize,
    single: T,
    ends: Vec<T>,
    usage: ChannelUsage,
}

/// The end time of each channel of `n`: the end that the channel maps to,
/// none when it maps to none.
pub open spec fn usage_seq<T>(n: nat, contents: Map<usize, usize>, ends: Seq<T>) -> Seq<Option<T>> {
    Seq::new(
        n,
        |c: int|
            if contents.dom().contains(c as usize) {
                Some(ends[contents[c as usize] as int])
            } else {
                None
            },
    )
}

impl<T> View for StackHelper<T> {
    type V = StackState<T>;

    closed spec fn view(&self) -> StackState<T> {
        StackState {
            n: self.n as nat,
            single: self.single,
            usage: usage_seq(self.n as nat, usage_contents(self.usage), self.ends@),
        }
    }
}

impl<T> StackHelper<T> {
    /// Every used channel is a channel of the stack and maps to a placed end.
    pub closed spec fn wf(&self) -> bool {
        forall|c: usize|
            #[trigger] usage_contents(self.usage).dom().contains(c) ==> c < self.n
                && usage_contents(self.usage)[c] < self.ends@.len()
    }
}

/// Every index in `channels` is below `n`.
pub open spec fn indices_below(channels: Seq<usize>, n: nat) -> bool {
    forall|j: int| 0 <= j < channels.len() ==> (#[trigger] channels[j]) < n
}

/// The later of an optional time and a time, the time when there is none
/// before.
fn max_with<T: Ordered>(acc: Option<T>, v: Option<T>) -> (res: Option<T>)
    ensures
        res == match (acc, v) {
            (None, v) => v,
            (p, None) => p,
            (Some(a), Some(b)) => Some(spec_max(a, b)),
        },
{
    match (acc, v) {
        (None, v) => v,
        (p, None) => p,
        (Some(a), Some(b)) => Some(max(a, b)),
    }
}

/// The two largest present values agree when each value present in one is
/// present in the other.
proof fn lemma_same_present_same_max<T: Ordered>(
    u1: Seq<Option<T>>,
    i1: Seq<usize>,
    u2: Seq<Option<T>>,
    i2: Seq<usize>,
)
    requires
        forall|k: int|
            0 <= k < i1.len() && u1[#[trigger] i1[k] as int] is Some ==> exists|j: int|
                0 <= j < i2.len() && u2[#[trigger] i2[j] as int] == u1[i1[k] as int],
        forall|j: int|
            0 <= j < i2.len() && u2[#[trigger] i2[j] as int] is Some ==> exists|k: int|
                0 <= k < i1.len() && u1[#[trigger] i1[k] as int] == u2[i2[j] as int],
    ensures
        max_present(u1, i1) == max_present(u2, i2),
{
    lemma_max_present_witness(u1, i1);
    lemma_max_present_witness(u2, i2);
    match (max_present(u1, i1), max_present(u2, i2)) {
        (Some(m1), Some(m2)) => {
            let k = choose|k: int| 0 <= k < i1.len() && u1[#[trigger] i1[k] as int] == Some(m1);
            let j = choose|j: int| 0 <= j < i2.len() && u2[#[trigger] i2[j] as int] == u1[i1[k] as int];
            lemma_max_present_bounds(u2, i2, j);
            let j2 = choose|j: int| 0 <= j < i2.len() && u2[#[trigger] i2[j] as int] == Some(m2);
            let k2 = choose|k: int| 0 <= k < i1.len() && u1[#[trigger] i1[k] as int] == u2[i2[j2] as int];
            lemma_max_present_bounds(u1, i1, k2);
            T::lemma_total_order(m1, m2, m1);
        },
        (Some(m1), None) => {
            let k = choose|k: int| 0 <= k < i1.len() && u1[#[trigger] i1[k] as int] == Some(m1);
            let j = choose|j: int| 0 <= j < i2.len() && u2[#[trigger] i2[j] as int] == u1[i1[k] as int];
        },
        (None, Some(m2)) => {
            let j = choose|j: int| 0 <= j < i2.len() && u2[#[trigger] i2[j] as int] == Some(m2);
            let k = choose|k: int| 0 <= k < i1.len() && u1[#[trigger] i1[k] as int] == u2[i2[j] as int];
        },
        (None, None) => {},
    }
}

impl<T: Ordered> StackHelper<T> {
    /// A layout of a stack with `n_channels` channels where nothing is placed
    /// yet.
    pub fn new(n_channels: usize) -> (res: Self)
        ensures
            res.wf(),
            res@ == StackState::<T>::initial(n_channels as nat),
    {
        let res = StackHelper { n: n_channels, single: T::zero(), ends: Vec::new(), usage: usage_new() };
        assert(res@ =~= StackState::<T>::initial(n_channels as nat));
        res
    }

    /// The time at which all of `channels` are free; all channels when
    /// `channels` is empty.
    pub fn get_usage(&self, channels: &[usize]) -> (res: T)
        requires
            self.wf(),
            indices_below(channels@, self@.n),
        ensures
            res == self@.usage(channels@),
    {
        if self.n == 0 {
            return self.single;
        }
        let ghost u = self@.usage;
        let ghost contents = usage_contents(self.usage);
        let m = if channels.len() == 0 {
            let children = usage_values(&self.usage);
            let ghost u2 = Seq::new(children@.len(), |k: int| Some(self.ends@[children@[k] as int]));
            let ghost i2 = all_indices(children@.len());
            let mut acc: Option<T> = None;
            let mut i: usize = 0;
            while i < children.len()
                invariant
                    self.wf(),
                    i <= children@.len(),
                    u2 == Seq::new(children@.len(), |k: int| Some(self.ends@[children@[k] as int])),
                    children@.to_set() == usage_contents(self.usage).values(),
                    acc == max_present(u2, all_indices(i as nat)),
                decreases children@.len() - i,
            {
                let v = children[i];
                assert(children@.to_set().contains(v));
                assert(usage_contents(self.usage).contains_value(v));
                let t = self.ends[v];
                acc = max_with(acc, Some(t));
                assert(all_indices((i + 1) as nat).drop_last() =~= all_indices(i as nat));
                i += 1;
            }
            proof {
                let i1 = all_indices(self.n as nat);
                assert forall|k: int| 0 <= k < i1.len() && u[#[trigger] i1[k] as int] is Some implies exists|j: int|
                    0 <= j < i2.len() && u2[#[trigger] i2[j] as int] == u[i1[k] as int] by {
                    let c = i1[k];
                    assert(c as int == k);
                    assert(contents.dom().contains(c));
                    assert(contents.contains_value(contents[c]));
                    assert(contents.values().contains(contents[c]));
                    assert(children@.to_set().contains(contents[c]));
                    let j = choose|j: int| 0 <= j < children@.len() && children@[j] == contents[c];
                    assert(i2[j] as int == j);
                }
                assert forall|j: int| 0 <= j < i2.len() && u2[#[trigger] i2[j] as int] is Some implies exists|k: int|
                    0 <= k < i1.len() && u[#[trigger] i1[k] as int] == u2[i2[j] as int] by {
                    assert(i2[j] as int == j);
                    assert(children@.to_set().contains(children@[j]));
                    assert(contents.values().contains(children@[j]));
                    let c = choose|c: usize| contents.dom().contains(c) && contents[c] == children@[j];
                    assert(i1[c as int] == c);
                }
                lemma_same_present_same_max(u, i1, u2, i2);
                assert(all_indices(children@.len()) == i2);
            }
            acc
        } else {
            let mut acc: Option<T> = None;
            let mut i: usize = 0;
            while i < channels.len()
                invariant
                    self.wf(),
                    u == self@.usage,
                    i <= channels@.len(),
                    indices_below(channels@, self@.n),
                    acc == max_present(u, channels@.take(i as int)),
                decreases channels@.len() - i,
            {
                let c = channels[i];
                let v = match usage_get(&self.usage, c) {
                    Some(k) => Some(self.ends[k]),
                    None => None,
                };
                acc = max_with(acc, v);
                assert(channels@.take(i + 1).drop_last() =~= channels@.take(i as int));
                i += 1;
            }
            assert(channels@.take(channels@.len() as int) =~= channels@);
            acc
        };
        match m {
            Some(v) => v,
            None => T::zero(),
        }
    }

    /// Mark `channels`, or all channels when it is empty, as used until `end`.
    pub fn update_usage(&mut self, end: T, channels: &[usize])
        requires
            old(self).wf(),
            indices_below(channels@, old(self)@.n),
        ensures
            final(self).wf(),
            final(self)@ == old(self)@.update(end, channels@),
    {
        if self.n == 0 {
            self.single = end;
            assert(self@ =~= old(self)@.update(end, channels@));
            return;
        }
        let ghost old_contents = usage_contents(self.usage);
        let ghost targets = occupied(self.n as nat, channels@);
        self.ends.push(end);
        let child = self.ends.len() - 1;
        let n = self.n;
        let count = if channels.len() == 0 { n } else { channels.len() };
        let mut i: usize = 0;
        while i < count
            invariant
                self.n == n,
                n == old(self).n,
                self.single == old(self).single,
                n > 0,
                count == targets.len(),
                targets == occupied(n as nat, channels@),
                indices_below(channels@, n as nat),
                self.ends@ == old(self).ends@.push(end),
                child == old(self).ends@.len(),
                i <= count,
                self.wf(),
                usage_contents(self.usage) == old_contents.union_prefer_right(Map::new(
                    |c: usize| targets.take(i as int).contains(c),
                    |c: usize| child,
                )),
            decreases count - i,
        {
            let c = if channels.len() == 0 { i } else { channels[i] };
            assert(targets[i as int] == c);
            let ghost before = usage_contents(self.usage);
            usage_insert(&mut self.usage, c, child);
            proof {
                assert forall|d: usize| #[trigger] targets.take(i + 1).contains(d) <==> (targets.take(
                    i as int,
                ).contains(d) || d == c) by {
                    let prev = targets.take(i as int);
                    let next = targets.take(i + 1);
                    if prev.contains(d) {
                        let k = choose|k: int| 0 <= k < prev.len() && prev[k] == d;
                        assert(next[k] == d);
                    }
                    if d == c {
                        assert(next[i as int] == d);
                    }
                    if next.contains(d) && d != c {
                        let k = choose|k: int| 0 <= k < next.len() && next[k] == d;
                        assert(k != i);
                        assert(prev[k] == d);
                    }
                }
                assert(usage_contents(self.usage) =~= old_contents.union_prefer_right(Map::new(
                    |d: usize| targets.take(i + 1).contains(d),
                    |d: usize| child,
                )));
                assert(c < n) by {
                    if channels.len() > 0 {
                        assert(channels@[i as int] < n);
                    }
                }
            }
            i += 1;
        }
        proof {
            assert(targets.take(count as int) =~= targets);
            let contents = usage_contents(self.usage);
            assert(contents =~= old_contents.union_prefer_right(Map::new(
                |d: usize| targets.contains(d),
                |d: usize| child,
            )));
            let expected = old(self)@.update(end, channels@);
            assert(expected.usage =~= Seq::new(
                n as nat,
                |c: int|
                    if targets.contains(c as usize) {
                        Some(end)
                    } else {
                        old(self)@.usage[c]
                    },
            ));
            assert forall|c: int| 0 <= c < n implies #[trigger] self@.usage[c] == expected.usage[c] by {
                let cu = c as usize;
                if targets.contains(cu) {
                    assert(contents.dom().contains(cu));
                    assert(contents[cu] == child);
                    assert(self.ends@[child as int] == end);
                } else {
                    if old_contents.dom().contains(cu) {
                        assert(contents.dom().contains(cu));
                        assert(contents[cu] == old_contents[cu]);
                        assert(old_contents[cu] < old(self).ends@.len());
                        assert(self.ends@[old_contents[cu] as int] == old(self).ends@[old_contents[cu] as int]);
                    } else {
                        assert(!contents.dom().contains(cu));
                    }
                }
            }
            assert(self@.usage =~= expected.usage);
            assert(self@ =~= expected);
        }
    }

    /// The latest end time of any channel; zero when none was used.
    pub fn into_max_usage(self) -> (res: T)
        requires
            self.wf(),
        ensures
            res == self@.max_usage(),
    {
        self.get_usage(&[])
    }
}

/// The duration of a stack and where each child starts inside it.
///
/// The children are placed in the order of `direction`, each at the first
/// time at which all channels it occupies are free (a child that names no
/// channel occupies all of them); the timings come back in the order of
/// `children`. A start is counted from the beginning of the stack when the
/// direction is forward and from its end when it is backward.
pub fn measure_stack<T: Ordered>(
    children: &[StackChild<T>],
    n_channels: usize,
    direction: Direction,
) -> (res: (T, Vec<TimeRange<T>>))
    requires
        channels_valid(stack_views(children@), n_channels as nat),
    ensures
        res.0 == stack_run(n_channels as nat, processing_order(stack_views(children@), direction)).1.max_usage(),
        res.1@.len() == children@.len(),
        forall|i: int|
            0 <= i < children@.len() ==> (#[trigger] res.1@[i]) == (TimeRange {
                start: stack_run(n_channels as nat, processing_order(stack_views(children@), direction)).0[
                    processing_index(children@.len(), i, direction)],
                span: children@[i].span,
            }),
{
    let len = children.len();
    let ghost order = processing_order(stack_views(children@), direction);
    let ghost n = n_channels as nat;
    let mut helper = StackHelper::<T>::new(n_channels);
    let mut collected: Vec<TimeRange<T>> = Vec::new();
    let mut k: usize = 0;
    while k < len
        invariant
            len == children@.len(),
            order == processing_order(stack_views(children@), direction),
            n == n_channels as nat,
            channels_valid(stack_views(children@), n),
            k <= len,
            helper@ == stack_run(n, order.take(k as int)).1,
            helper.wf(),
            collected@.len() == k,
            forall|j: int|
                0 <= j < k ==> (#[trigger] collected@[j]) == (TimeRange {
                    start: stack_run(n, order.take(k as int)).0[j],
                    span: order[j].span,
                }),
        decreases len - k,
    {
        let idx = match direction {
            Direction::Forward => k,
            Direction::Backward => len - 1 - k,
        };
        let child = &children[idx];
        assert(order[k as int] == children@[idx as int]@);
        proof {
            lemma_stack_run_len(n, order.take(k as int));
        }
        assert(indices_below(child.channels@, helper@.n)) by {
            assert forall|j: int| 0 <= j < child.channels@.len() implies (
            #[trigger] child.channels@[j]) < helper@.n by {
                assert(stack_views(children@)[idx as int].channels[j] < n);
            }
        }
        let start = helper.get_usage(child.channels.as_slice());
        helper.update_usage(start.plus(child.span), child.channels.as_slice());
        collected.push(TimeRange { start, span: child.span });
        proof {
            let prev = order.take(k as int);
            let next = order.take(k + 1);
            assert(next.drop_last() =~= prev);
            assert(next.last() == order[k as int]);
        }
        k += 1;
    }
    let ghost all = stack_run(n, order);
    assert(order.take(len as int) =~= order);
    let timings = match direction {
        Direction::Forward => collected,
        Direction::Backward => {
            let mut rev: Vec<TimeRange<T>> = Vec::new();
            let mut j: usize = 0;
            while j < len
                invariant
                    j <= len,
                    len == collected@.len(),
                    rev@.len() == j,
                    forall|i: int|
                        0 <= i < j ==> (#[trigger] rev@[i]) == collected@[len - 1 - i],
                decreases len - j,
            {
                rev.push(collected[len - 1 - j]);
                j += 1;
            }
            rev
        },
    };
    proof {
        assert forall|i: int| 0 <= i < len implies (#[trigger] timings@[i]) == (TimeRange {
            start: all.0[processing_index(len as nat, i, direction)],
            span: children@[i].span,
        }) by {
            let p = processing_index(len as nat, i, direction);
            assert(order[p] == children@[i]@);
        }
    }
    (helper.into_max_usage(), timings)
}

/// Where a child with `timing` inside the stack lands when the stack gets
/// `range`: counted from the start of the range when the direction is
/// forward, from its end when it is backward.
pub open spec fn arranged_start<T: Ordered>(
    range: TimeRange<T>,
    timing: TimeRange<T>,
    direction: Direction,
) -> T {
    match direction {
        Direction::Forward => range.start.spec_plus(timing.start),
        Direction::Backward => range.start.spec_plus(range.span).spec_minus(timing.start).spec_minus(
            timing.span,
        ),
    }
}

/// The ranges of the children of a stack that gets `time_range`, from the
/// timings that [`measure_stack`] gave.
pub fn arrange_stack<T: Ordered>(
    time_range: TimeRange<T>,
    timings: &[TimeRange<T>],
    direction: Direction,
) -> (res: Vec<TimeRange<T>>)
    ensures
        res@.len() == timings@.len(),
        forall|i: int|
            0 <= i < timings@.len() ==> (#[trigger] res@[i]) == (TimeRange {
                start: arranged_start(time_range, timings@[i], direction),
                span: timings@[i].span,
            }),
{
    let mut res: Vec<TimeRange<T>> = Vec::new();
    let mut i: usize = 0;
    while i < timings.len()
        invariant
            i <= timings@.len(),
            res@.len() == i,
            forall|j: int|
                0 <= j < i ==> (#[trigger] res@[j]) == (TimeRange {
                    start: arranged_start(time_range, timings@[j], direction),
                    span: timings@[j].span,
                }),
        decreases timings@.len() - i,
    {
        let t = timings[i];
        let start = match direction {
            Direction::Forward => time_range.start.plus(t.start),
            Direction::Backward => time_range.start.plus(time_range.span).minus(t.start).minus(
                t.span,
            ),
        };
        res.push(TimeRange { start, span: t.span });
        i += 1;
    }
    res
}

/// `stack_run` gives one start per child and keeps the number of channels.
pub proof fn lemma_stack_run_len<T: Ordered>(n: nat, children: Seq<StackChildView<T>>)
    ensures
        stack_run(n, children).0.len() == children.len(),
        stack_run(n, children).1.n == n,
        stack_run(n, children).1.usage.len() == n,
    decreases children.len(),
{
    if children.len() > 0 {
        lemma_stack_run_len(n, children.drop_last());
    }
}

/// The end of the child at `i` in `children`, placed at `starts[i]`.
pub open spec fn end_at<T: Ordered>(starts: Seq<T>, children: Seq<StackChildView<T>>, i: int) -> T {
    starts[i].spec_plus(children[i].span)
}

/// In state `st`, every channel that `channels` occupies is used until `end`
/// or later.
pub open spec fn covered<T: Ordered>(st: StackState<T>, channels: Seq<usize>, end: T) -> bool {
    if st.n == 0 {
        end.spec_leq(st.single)
    } else {
        forall|c: usize|
            #[trigger] occupied(st.n, channels).contains(c) ==> st.usage[c as int] is Some
                && end.spec_leq(st.usage[c as int]->0)
    }
}

/// The largest present value is present, and at least every value present.
proof fn lemma_max_present_bounds<T: Ordered>(usage: Seq<Option<T>>, idx: Seq<usize>, k: int)
    requires
        0 <= k < idx.len(),
        usage[idx[k] as int] is Some,
    ensures
        max_present(usage, idx) is Some,
        usage[idx[k] as int]->0.spec_leq(max_present(usage, idx)->0),
    decreases idx.len(),
{
    let prev = idx.drop_last();
    let v = usage[idx[k] as int]->0;
    if k == idx.len() - 1 {
        match max_present(usage, prev) {
            None => {
                T::lemma_total_order(v, v, v);
            },
            Some(a) => {
                T::lemma_total_order(v, a, a);
            },
        }
    } else {
        lemma_max_present_bounds(usage, prev, k);
        let a = max_present(usage, prev)->0;
        match usage[idx.last() as int] {
            None => {},
            Some(b) => {
                T::lemma_total_order(v, a, b);
            },
        }
    }
}

/// The entries of `occupied` are channels of the stack.
proof fn lemma_occupied_below(n: nat, channels: Seq<usize>, c: usize)
    requires
        indices_below(channels, n),
        occupied(n, channels).contains(c),
    ensures
        c < n,
{
    let occ = occupied(n, channels);
    let k = choose|k: int| 0 <= k < occ.len() && occ[k] == c;
    if channels.len() > 0 {
        assert(channels[k] == c);
    }
}

/// Law of the stack layout: in the order the children are placed, a child
/// starts no earlier than every earlier child that shares a channel with it
/// ends, so such children never overlap; and every child ends no later than
/// the stack's duration.
pub proof fn lemma_stack_no_overlap<T: Ordered>(n: nat, children: Seq<StackChildView<T>>)
    requires
        channels_valid(children, n),
        spans_not_negative(children),
    ensures
        forall|i: int, j: int|
            #![trigger stack_run(n, children).0[i], stack_run(n, children).0[j]]
            0 <= i < j < children.len() && shares_channel(
                n,
                children[i].channels,
                children[j].channels,
            ) ==> end_at(stack_run(n, children).0, children, i).spec_leq(
                stack_run(n, children).0[j],
            ),
        forall|i: int|
            0 <= i < children.len() ==> end_at(stack_run(n, children).0, children, i).spec_leq(
                #[trigger] stack_run(n, children).1.max_usage(),
            ),
{
    lemma_stack_run_covers(n, children);
    let (starts, st) = stack_run(n, children);
    assert forall|i: int| 0 <= i < children.len() implies end_at(starts, children, i).spec_leq(
        #[trigger] stack_run(n, children).1.max_usage(),
    ) by {
        let e = end_at(starts, children, i);
        assert(covered(st, children[i].channels, e));
        if n > 0 {
            let occ = occupied(n, children[i].channels);
            assert(occ.len() > 0);
            let c = occ[0];
            assert(occ.contains(c));
            assert(indices_below(children[i].channels, n)) by {
                assert forall|j: int| 0 <= j < children[i].channels.len() implies (
                #[trigger] children[i].channels[j]) < n by {}
            }
            lemma_occupied_below(n, children[i].channels, c);
            let all = all_indices(n);
            assert(all[c as int] == c);
            lemma_max_present_bounds(st.usage, all, c as int);
            T::lemma_total_order(e, st.usage[c as int]->0, max_present(st.usage, all)->0);
        }
    }
}

/// What `stack_run` keeps while children are placed: every placed child is
/// covered by the state, and children that share a channel do not overlap.
proof fn lemma_stack_run_covers<T: Ordered>(n: nat, children: Seq<StackChildView<T>>)
    requires
        channels_valid(children, n),
        spans_not_negative(children),
    ensures
        stack_run(n, children).0.len() == children.len(),
        stack_run(n, children).1.n == n,
        stack_run(n, children).1.usage.len() == n,
        forall|i: int|
            0 <= i < children.len() ==> #[trigger] covered(
                stack_run(n, children).1,
                children[i].channels,
                end_at(stack_run(n, children).0, children, i),
            ),
        forall|i: int, j: int|
            #![trigger stack_run(n, children).0[i], stack_run(n, children).0[j]]
            0 <= i < j < children.len() && shares_channel(
                n,
                children[i].channels,
                children[j].channels,
            ) ==> end_at(stack_run(n, children).0, children, i).spec_leq(
                stack_run(n, children).0[j],
            ),
    decreases children.len(),
{
    lemma_stack_run_len(n, children);
    if children.len() == 0 {
        return;
    }
    let prefix = children.drop_last();
    assert forall|i: int, j: int|
        0 <= i < prefix.len() && 0 <= j < prefix[i].channels.len() implies (
        #[trigger] prefix[i].channels[j]) < n by {
        assert(prefix[i] == children[i]);
    }
    assert forall|i: int| 0 <= i < prefix.len() implies T::spec_zero().spec_leq(
        #[trigger] prefix[i].span,
    ) by {
        assert(prefix[i] == children[i]);
    }
    lemma_stack_run_covers(n, prefix);
    let (starts0, st0) = stack_run(n, prefix);
    let (starts, st) = stack_run(n, children);
    let last = children.len() - 1;
    let ch = children[last].channels;
    let span = children[last].span;
    let start = st0.usage(ch);
    let end = start.spec_plus(span);
    assert(starts == starts0.push(start));
    assert(st == st0.update(end, ch));
    assert(indices_below(ch, n)) by {
        assert forall|j: int| 0 <= j < ch.len() implies (#[trigger] ch[j]) < n by {}
    }
    T::lemma_plus_monotone(start, span);
    // earlier children that share a channel with the last one end before it starts
    assert forall|i: int| 0 <= i < last && shares_channel(n, children[i].channels, ch) implies end_at(
        starts,
        children,
        i,
    ).spec_leq(start) by {
        assert(prefix[i] == children[i]);
        assert(starts[i] == starts0[i]);
        let e = end_at(starts, children, i);
        assert(e == end_at(starts0, prefix, i));
        assert(covered(st0, prefix[i].channels, e));
        if n > 0 {
            let c = choose|c: usize|
                occupied(n, children[i].channels).contains(c) && occupied(n, ch).contains(c);
            assert(occupied(n, children[i].channels).contains(c));
            let occ = occupied(n, ch);
            let k = choose|k: int| 0 <= k < occ.len() && occ[k] == c;
            lemma_max_present_bounds(st0.usage, occ, k);
            T::lemma_total_order(e, st0.usage[c as int]->0, start);
        }
    }
    assert forall|i: int, j: int|
        0 <= i < j < children.len() && shares_channel(
            n,
            children[i].channels,
            children[j].channels,
        ) implies #[trigger] end_at(starts, children, i).spec_leq(starts[j]) by {
        if j < last {
            assert(prefix[i] == children[i] && prefix[j] == children[j]);
            assert(starts0[i] == starts[i] && starts0[j] == starts[j]);
            assert(end_at(starts0, prefix, i) == end_at(starts, children, i));
            assert(end_at(starts0, prefix, i).spec_leq(starts0[j]));
        } else {
            assert(j == last);
        }
    }
    assert forall|i: int| 0 <= i < children.len() implies #[trigger] covered(
        st,
        children[i].channels,
        end_at(starts, children, i),
    ) by {
        let e = end_at(starts, children, i);
        if i == last {
            T::lemma_total_order(end, end, end);
            if n > 0 {
                assert forall|c: usize| #[trigger] occupied(n, ch).contains(c) implies st.usage[c as int] is Some
                    && end.spec_leq(st.usage[c as int]->0) by {
                    lemma_occupied_below(n, ch, c);
                }
            }
        } else {
            assert(prefix[i] == children[i]);
            assert(starts[i] == starts0[i]);
            assert(e == end_at(starts0, prefix, i));
            assert(covered(st0, prefix[i].channels, e));
            let chi = children[i].channels;
            assert(indices_below(chi, n)) by {
                assert forall|j: int| 0 <= j < chi.len() implies (#[trigger] chi[j]) < n by {}
            }
            if n == 0 {
                assert(shares_channel(n, chi, ch));
                T::lemma_total_order(e, start, end);
            } else {
                assert forall|c: usize| #[trigger] occupied(n, chi).contains(c) implies st.usage[c as int] is Some
                    && e.spec_leq(st.usage[c as int]->0) by {
                    lemma_occupied_below(n, chi, c);
                    if occupied(n, ch).contains(c) {
                        assert(shares_channel(n, chi, ch));
                        T::lemma_total_order(e, start, end);
                    }
                }
            }
        }
    }
}

/// The largest present value is one of the present values; with none
/// present, there is none.
proof fn lemma_max_present_witness<T: Ordered>(usage: Seq<Option<T>>, idx: Seq<usize>)
    ensures
        max_present(usage, idx) is None ==> forall|k: int|
            0 <= k < idx.len() ==> usage[#[trigger] idx[k] as int] is None,
        max_present(usage, idx) is Some ==> exists|k: int|
            0 <= k < idx.len() && usage[#[trigger] idx[k] as int] == max_present(usage, idx),
    decreases idx.len(),
{
    if idx.len() > 0 {
        let prev = idx.drop_last();
        lemma_max_present_witness(usage, prev);
        let last = idx.len() - 1;
        match (max_present(usage, prev), usage[idx.last() as int]) {
            (None, v) => {
                assert forall|k: int| 0 <= k < idx.len() && k != last implies usage[#[trigger] idx[k] as int]
                    is None by {
                    assert(prev[k] == idx[k]);
                }
                if v is Some {
                    assert(usage[idx[last] as int] == max_present(usage, idx));
                }
            },
            (Some(a), None) => {
                let k = choose|k: int| 0 <= k < prev.len() && usage[#[trigger] prev[k] as int] == Some(a);
                assert(idx[k] == prev[k]);
            },
            (Some(a), Some(b)) => {
                if a.spec_leq(b) {
                    assert(usage[idx[last] as int] == max_present(usage, idx));
                } else {
                    let k = choose|k: int|
                        0 <= k < prev.len() && usage[#[trigger] prev[k] as int] == Some(a);
                    assert(idx[k] == prev[k]);
                }
            },
        }
    }
}

/// In state `st` after placing `children` at `starts`, each channel is
/// unused exactly when no child occupies it, and otherwise free from the end
/// of a child that occupies it; without channels, the single end time is
/// zero before any child and the end of the last child after.
spec fn usage_witnessed<T: Ordered>(
    st: StackState<T>,
    children: Seq<StackChildView<T>>,
    starts: Seq<T>,
) -> bool {
    if st.n == 0 {
        if children.len() == 0 {
            st.single == T::spec_zero()
        } else {
            st.single == end_at(starts, children, children.len() - 1)
        }
    } else {
        forall|c: usize| c < st.n ==> #[trigger] channel_witnessed(st, children, starts, c)
    }
}

/// Channel `c` is unused exactly when no child occupies it, and otherwise
/// free from the end of a child that occupies it.
spec fn channel_witnessed<T: Ordered>(
    st: StackState<T>,
    children: Seq<StackChildView<T>>,
    starts: Seq<T>,
    c: usize,
) -> bool {
    &&& (st.usage[c as int] is None <==> !exists|i: int|
        0 <= i < children.len() && #[trigger] occupied(st.n, children[i].channels).contains(c))
    &&& (st.usage[c as int] is Some ==> exists|i: int|
        0 <= i < children.len() && #[trigger] occupied(st.n, children[i].channels).contains(c)
            && st.usage[c as int]->0 == end_at(starts, children, i))
}

/// Child `j` starts at the end of an earlier child that shares a channel
/// with it, or at zero when no earlier child shares one.
pub open spec fn placed_tight<T: Ordered>(
    n: nat,
    children: Seq<StackChildView<T>>,
    starts: Seq<T>,
    j: int,
) -> bool {
    (exists|i: int|
        0 <= i < j && shares_channel(n, children[i].channels, children[j].channels) && end_at(
            starts,
            children,
            i,
        ) == starts[j]) || (starts[j] == T::spec_zero() && forall|i: int|
        0 <= i < j ==> !shares_channel(n, children[i].channels, children[j].channels))
}

/// The children without the last one still name only channels of the stack.
proof fn lemma_prefix_valid<T>(n: nat, children: Seq<StackChildView<T>>)
    requires
        channels_valid(children, n),
        children.len() > 0,
    ensures
        channels_valid(children.drop_last(), n),
        indices_below(children.last().channels, n),
{
    let prefix = children.drop_last();
    assert forall|i: int, j: int|
        0 <= i < prefix.len() && 0 <= j < prefix[i].channels.len() implies (
        #[trigger] prefix[i].channels[j]) < n by {
        assert(prefix[i] == children[i]);
    }
    let ch = children.last().channels;
    assert forall|j: int| 0 <= j < ch.len() implies (#[trigger] ch[j]) < n by {
        assert(children[children.len() - 1].channels[j] < n);
    }
}

/// The last child is placed as early as the children before it allow.
proof fn lemma_tight_last<T: Ordered>(n: nat, children: Seq<StackChildView<T>>)
    requires
        channels_valid(children, n),
        children.len() > 0,
        usage_witnessed(
            stack_run(n, children.drop_last()).1,
            children.drop_last(),
            stack_run(n, children.drop_last()).0,
        ),
    ensures
        placed_tight(n, children, stack_run(n, children).0, children.len() - 1),
{
    let prefix = children.drop_last();
    lemma_prefix_valid(n, children);
    lemma_stack_run_len(n, prefix);
    let (starts0, st0) = stack_run(n, prefix);
    let starts = stack_run(n, children).0;
    let last = children.len() - 1;
    let ch = children[last].channels;
    let start = st0.usage(ch);
    assert(starts == starts0.push(start));
    if n == 0 {
        if last > 0 {
            assert(shares_channel(n, children[last - 1].channels, ch));
            assert(prefix[last - 1] == children[last - 1]);
            assert(starts[last - 1] == starts0[last - 1]);
            assert(end_at(starts, children, last - 1) == starts[last]);
        }
    } else {
        let occ = occupied(n, ch);
        lemma_max_present_witness(st0.usage, occ);
        match max_present(st0.usage, occ) {
            None => {
                assert forall|i: int| 0 <= i < last implies !shares_channel(
                    n,
                    children[i].channels,
                    ch,
                ) by {
                    if shares_channel(n, children[i].channels, ch) {
                        let c = choose|c: usize|
                            occupied(n, children[i].channels).contains(c) && occupied(
                                n,
                                ch,
                            ).contains(c);
                        let k = choose|k: int| 0 <= k < occ.len() && occ[k] == c;
                        lemma_occupied_below(n, ch, c);
                        assert(channel_witnessed(st0, prefix, starts0, c));
                        assert(st0.usage[occ[k] as int] is None);
                        assert(prefix[i] == children[i]);
                        assert(occupied(n, prefix[i].channels).contains(c));
                    }
                }
            },
            Some(m) => {
                let k = choose|k: int|
                    0 <= k < occ.len() && st0.usage[#[trigger] occ[k] as int] == Some(m);
                let c = occ[k];
                assert(occ.contains(c));
                lemma_occupied_below(n, ch, c);
                assert(channel_witnessed(st0, prefix, starts0, c));
                let i = choose|i: int|
                    0 <= i < prefix.len() && #[trigger] occupied(n, prefix[i].channels).contains(c)
                        && st0.usage[c as int]->0 == end_at(starts0, prefix, i);
                assert(prefix[i] == children[i]);
                assert(starts[i] == starts0[i]);
                assert(shares_channel(n, children[i].channels, ch));
                assert(end_at(starts, children, i) == starts[last]);
            },
        }
    }
}

/// Placing the last child keeps every channel witnessed.
proof fn lemma_witness_step<T: Ordered>(n: nat, children: Seq<StackChildView<T>>)
    requires
        channels_valid(children, n),
        children.len() > 0,
        usage_witnessed(
            stack_run(n, children.drop_last()).1,
            children.drop_last(),
            stack_run(n, children.drop_last()).0,
        ),
    ensures
        usage_witnessed(stack_run(n, children).1, children, stack_run(n, children).0),
{
    let prefix = children.drop_last();
    lemma_prefix_valid(n, children);
    lemma_stack_run_len(n, prefix);
    let (starts0, st0) = stack_run(n, prefix);
    let (starts, st) = stack_run(n, children);
    let last = children.len() - 1;
    let ch = children[last].channels;
    let start = st0.usage(ch);
    let end = start.spec_plus(children[last].span);
    assert(starts == starts0.push(start));
    assert(st == st0.update(end, ch));
    assert(end_at(starts, children, last) == end);
    if n > 0 {
        assert forall|c: usize| c < n implies #[trigger] channel_witnessed(st, children, starts, c) by {
            assert(st.n == n);
            if occupied(n, ch).contains(c) {
                assert(st.usage[c as int] == Some(end));
                assert(occupied(st.n, children[last].channels).contains(c));
                assert(exists|i: int|
                    0 <= i < children.len() && #[trigger] occupied(
                        st.n,
                        children[i].channels,
                    ).contains(c) && st.usage[c as int]->0 == end_at(starts, children, i));
            } else {
                assert(st.usage[c as int] == st0.usage[c as int]);
                assert(channel_witnessed(st0, prefix, starts0, c));
                if st0.usage[c as int] is Some {
                    let i = choose|i: int|
                        0 <= i < prefix.len() && #[trigger] occupied(
                            n,
                            prefix[i].channels,
                        ).contains(c) && st0.usage[c as int]->0 == end_at(starts0, prefix, i);
                    assert(prefix[i] == children[i]);
                    assert(starts[i] == starts0[i]);
                    assert(end_at(starts, children, i) == end_at(starts0, prefix, i));
                    assert(occupied(st.n, children[i].channels).contains(c));
                } else {
                    assert forall|i: int| 0 <= i < children.len() implies !#[trigger] occupied(
                        st.n,
                        children[i].channels,
                    ).contains(c) by {
                        if i < last {
                            assert(prefix[i] == children[i]);
                        }
                    }
                }
            }
        }
    }
}

/// The children before the last keep their placement.
proof fn lemma_tight_prefix<T: Ordered>(n: nat, children: Seq<StackChildView<T>>)
    requires
        children.len() > 0,
        forall|j: int|
            0 <= j < children.len() - 1 ==> #[trigger] placed_tight(
                n,
                children.drop_last(),
                stack_run(n, children.drop_last()).0,
                j,
            ),
    ensures
        forall|j: int|
            0 <= j < children.len() - 1 ==> #[trigger] placed_tight(
                n,
                children,
                stack_run(n, children).0,
                j,
            ),
{
    let prefix = children.drop_last();
    lemma_stack_run_len(n, prefix);
    let starts0 = stack_run(n, prefix).0;
    let starts = stack_run(n, children).0;
    let last = children.len() - 1;
    assert(starts == starts0.push(stack_run(n, prefix).1.usage(children[last].channels)));
    assert forall|j: int| 0 <= j < last implies #[trigger] placed_tight(n, children, starts, j) by {
        assert(placed_tight(n, prefix, starts0, j));
        assert(prefix[j] == children[j]);
        assert(starts[j] == starts0[j]);
        if exists|i: int|
            0 <= i < j && shares_channel(n, prefix[i].channels, prefix[j].channels) && end_at(
                starts0,
                prefix,
                i,
            ) == starts0[j] {
            let i = choose|i: int|
                0 <= i < j && shares_channel(n, prefix[i].channels, prefix[j].channels) && end_at(
                    starts0,
                    prefix,
                    i,
                ) == starts0[j];
            assert(prefix[i] == children[i]);
            assert(starts[i] == starts0[i]);
            assert(end_at(starts, children, i) == end_at(starts0, prefix, i));
        } else {
            assert forall|i: int| 0 <= i < j implies !shares_channel(
                n,
                children[i].channels,
                children[j].channels,
            ) by {
                assert(prefix[i] == children[i]);
            }
        }
    }
}

/// Placement keeps the channels witnessed and every child tight.
proof fn lemma_stack_tight_inner<T: Ordered>(n: nat, children: Seq<StackChildView<T>>)
    requires
        channels_valid(children, n),
    ensures
        forall|j: int|
            0 <= j < children.len() ==> #[trigger] placed_tight(
                n,
                children,
                stack_run(n, children).0,
                j,
            ),
        usage_witnessed(stack_run(n, children).1, children, stack_run(n, children).0),
    decreases children.len(),
{
    lemma_stack_run_len(n, children);
    if children.len() == 0 {
        return;
    }
    lemma_prefix_valid(n, children);
    lemma_stack_tight_inner(n, children.drop_last());
    lemma_tight_last(n, children);
    lemma_witness_step(n, children);
    lemma_tight_prefix(n, children);
}

/// Law of the stack layout: each child is placed as early as the children
/// placed before it allow. It starts at the end of an earlier child that
/// shares a channel with it, or at zero when no earlier child does; and the
/// stack lasts until the end of one of its children, or zero without
/// children.
pub proof fn lemma_stack_tight<T: Ordered>(n: nat, children: Seq<StackChildView<T>>)
    requires
        channels_valid(children, n),
        n <= usize::MAX,
    ensures
        forall|j: int|
            0 <= j < children.len() ==> #[trigger] placed_tight(
                n,
                children,
                stack_run(n, children).0,
                j,
            ),
        children.len() == 0 ==> stack_run(n, children).1.max_usage() == T::spec_zero(),
        children.len() > 0 ==> exists|i: int|
            0 <= i < children.len() && end_at(stack_run(n, children).0, children, i)
                == #[trigger] stack_run(n, children).1.max_usage(),
{
    lemma_stack_tight_inner(n, children);
    lemma_stack_run_len(n, children);
    let (starts, st) = stack_run(n, children);
    if n > 0 {
        let all = all_indices(n);
        lemma_max_present_witness(st.usage, all);
        if children.len() == 0 {
            assert forall|k: int| 0 <= k < all.len() implies st.usage[#[trigger] all[k] as int]
                is None by {
                assert(all[k] as int == k);
            }
        }
        match max_present(st.usage, all) {
            Some(m) => {
                let k = choose|k: int|
                    0 <= k < all.len() && st.usage[#[trigger] all[k] as int] == max_present(
                        st.usage,
                        all,
                    );
                let c = all[k];
                assert(channel_witnessed(st, children, starts, c));
                let i = choose|i: int|
                    0 <= i < children.len() && #[trigger] occupied(
                        st.n,
                        children[i].channels,
                    ).contains(c) && st.usage[c as int]->0 == end_at(starts, children, i);
                assert(end_at(starts, children, i) == st.max_usage());
            },
            None => {
                if children.len() > 0 {
                    let occ = occupied(n, children[0].channels);
                    let c = occ[0];
                    assert(occ.contains(c));
                    lemma_prefix_valid(n, children.take(1));
                    assert(children.take(1).last() == children[0]);
                    lemma_occupied_below(n, children[0].channels, c);
                    assert(channel_witnessed(st, children, starts, c));
                    assert(all[c as int] == c);
                }
            },
        }
    } else if children.len() > 0 {
        assert(end_at(starts, children, children.len() - 1) == st.max_usage());
    }
}

} // verus!
