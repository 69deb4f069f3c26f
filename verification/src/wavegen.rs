//! The order in which a sampled channel is processed.
use vstd::prelude::*;

verus! {

/// A processing step applied to the waveform of a channel after sampling.
#[derive(Debug, Clone, Copy, PartialEq, Eq, Structural)]
pub enum PostStep {
    /// Mix I and Q with the channel's IQ matrix.
    Iq,
    /// Add the channel's offset.
    Offset,
    /// Run the channel's IIR filter.
    Iir,
    /// Run the channel's FIR filter.
    Fir,
}

/// The step when the channel has it, nothing otherwise.
pub open spec fn step_if(has: bool, step: PostStep) -> Seq<PostStep> {
    if has {
        seq![step]
    } else {
        Seq::empty()
    }
}

/// The steps a channel's waveform goes through after sampling: the IQ
/// matrix first, and only on a complex channel (a real channel ignores it);
/// then the offset before the filters when the offset is to be filtered too,
/// after them otherwise; the IIR filter before the FIR one.
pub open spec fn spec_post_steps(
    is_real: bool,
    has_iq: bool,
    has_offset: bool,
    has_iir: bool,
    has_fir: bool,
    filter_offset: bool,
) -> Seq<PostStep> {
    let filters = step_if(has_iir, PostStep::Iir) + step_if(has_fir, PostStep::Fir);
    let offset = step_if(has_offset, PostStep::Offset);
    step_if(has_iq && !is_real, PostStep::Iq) + if filter_offset {
        offset + filters
    } else {
        filters + offset
    }
}

fn push_if(steps: &mut Vec<PostStep>, has: bool, step: PostStep)
    ensures
        final(steps)@ == old(steps)@ + step_if(has, step),
{
    if has {
        steps.push(step);
    }
    assert(final(steps)@ =~= old(steps)@ + step_if(has, step));
}

/// The steps a channel's waveform goes through after sampling, in order.
/// A real channel never gets the IQ step, whether it has a matrix or not.
pub fn post_process_steps(
    is_real: bool,
    has_iq: bool,
    has_offset: bool,
    has_iir: bool,
    has_fir: bool,
    filter_offset: bool,
) -> (res: Vec<PostStep>)
    ensures
        res@ == spec_post_steps(is_real, has_iq, has_offset, has_iir, has_fir, filter_offset),
        is_real ==> !res@.contains(PostStep::Iq),
{
    let mut steps: Vec<PostStep> = Vec::new();
    push_if(&mut steps, has_iq && !is_real, PostStep::Iq);
    if filter_offset {
        push_if(&mut steps, has_offset, PostStep::Offset);
        push_if(&mut steps, has_iir, PostStep::Iir);
        push_if(&mut steps, has_fir, PostStep::Fir);
    } else {
        push_if(&mut steps, has_iir, PostStep::Iir);
        push_if(&mut steps, has_fir, PostStep::Fir);
        push_if(&mut steps, has_offset, PostStep::Offset);
    }
    assert(steps@ =~= spec_post_steps(is_real, has_iq, has_offset, has_iir, has_fir, filter_offset));
    proof {
        if is_real && steps@.contains(PostStep::Iq) {
            let i = choose|i: int| 0 <= i < steps@.len() && steps@[i] == PostStep::Iq;
            assert(steps@[i] == PostStep::Iq);
        }
    }
    steps
}

/// A channel configuration that does not fit together.
#[derive(Debug, Clone, Copy, PartialEq, Eq)]
pub enum ChannelConfigError {
    /// The offset does not have one value per component: one for a real
    /// channel, two for a complex one.
    OffsetLength { is_real: bool, len: usize },
}

/// The number of components of a channel's waveform: one for a real
/// channel, two (I and Q) for a complex one.
pub open spec fn spec_components(is_real: bool) -> nat {
    if is_real {
        1
    } else {
        2
    }
}

/// Check a channel configuration: an offset, when there is one, has one
/// value per component of the waveform. An IQ matrix is accepted on any
/// channel; a real channel ignores it (see `post_process_steps`).
pub fn check_channel_config(is_real: bool, offset_len: Option<usize>) -> (res: Result<
    (),
    ChannelConfigError,
>)
    ensures
        res == match offset_len {
            Some(len) => if len != spec_components(is_real) {
                Err(ChannelConfigError::OffsetLength { is_real, len })
            } else {
                Ok(())
            },
            None => Ok::<(), ChannelConfigError>(()),
        },
{
    if let Some(len) = offset_len {
        let expected: usize = if is_real {
            1
        } else {
            2
        };
        if len != expected {
            return Err(ChannelConfigError::OffsetLength { is_real, len });
        }
    }
    Ok(())
}

/// A crosstalk matrix whose shape does not match its channel names.
#[derive(Debug, Clone, Copy, PartialEq, Eq)]
pub enum CrosstalkError {
    /// The matrix is not square with one row and one column per name.
    SizeMismatch { rows: usize, cols: usize, names: usize },
}

/// Check that a crosstalk matrix of `rows` by `cols` has one row and one
/// column for each of its `names` channel names.
pub fn check_crosstalk_size(rows: usize, cols: usize, names: usize) -> (res: Result<
    (),
    CrosstalkError,
>)
    ensures
        rows == names && cols == names ==> res == Ok::<(), CrosstalkError>(()),
        !(rows == names && cols == names) ==> res == Err::<(), CrosstalkError>(
            CrosstalkError::SizeMismatch { rows, cols, names },
        ),
{
    if rows == names && cols == names {
        Ok(())
    } else {
        Err(CrosstalkError::SizeMismatch { rows, cols, names })
    }
}

/// A pulse that does not lie inside its channel's waveform.
#[derive(Debug, Clone, Copy, PartialEq, Eq)]
pub enum PulseBoundsError {
    /// The first sample of the pulse lies at or past the end of the
    /// waveform.
    StartOutOfBounds { start: usize, length: usize },
    /// The pulse runs past the end of the waveform.
    EndOutOfBounds { start: usize, pulse_len: usize, length: usize },
}

/// Check that a pulse of `pulse_len` samples from sample `start` fits in a
/// waveform of `length` samples; the start is checked first, and must lie
/// inside the waveform even for an empty pulse.
pub fn check_pulse_bounds(start: usize, pulse_len: usize, length: usize) -> (res: Result<
    (),
    PulseBoundsError,
>)
    ensures
        start >= length ==> res == Err::<(), PulseBoundsError>(
            PulseBoundsError::StartOutOfBounds { start, length },
        ),
        start < length && start + pulse_len > length ==> res == Err::<(), PulseBoundsError>(
            PulseBoundsError::EndOutOfBounds { start, pulse_len, length },
        ),
        start < length && start + pulse_len <= length ==> res == Ok::<(), PulseBoundsError>(()),
{
    if start >= length {
        return Err(PulseBoundsError::StartOutOfBounds { start, length });
    }
    if length - start < pulse_len {
        return Err(PulseBoundsError::EndOutOfBounds { start, pulse_len, length });
    }
    Ok(())
}

} // verus!
