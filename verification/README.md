# bosing

Waveform generation for superconducting circuits: a schedule of pulses and
oscillator instructions, laid out in time by stacks, absolute containers,
grids and repeats, is executed into per-channel pulse lists, which are then
sampled, filtered and mixed into waveforms.

## Layout

- `src/` is the verified library. Its arithmetic is generic over the traits
  of `scalar.rs`, so that every contract is stated over the operations they
  name; `Ticks` is an integer instance of them.
  - `schedule.rs`: margins, duration limits and alignment of an element.
  - `element.rs`: pulses, oscillator instructions, repeats and the channels
    of a container.
  - `stack.rs`, `absolute.rs`, `grid.rs`, `grid/helper.rs`: the layouts.
  - `tree.rs`: a schedule as a tree, its channels, measure and arrangement.
  - `runner.rs`: execution of a tree into oscillator states and pulses.
  - `executor.rs`: the oscillator of a channel, the envelope of a pulse and
    the checks made during execution.
  - `iir.rs`, `fir.rs`: the IIR filter sections and the FIR buffer size.
  - `wavegen.rs`: the order of post-processing and the bounds of a pulse in
    a waveform.
  - `util.rs`: pre-order traversal.
- `app/` holds what works in floating point on `ndarray` waveforms (pulse
  shapes, sampling, the FIR filter with SIMD) and the tables that map channel
  and shape names to the library's indices.
- `tests/` runs the library on concrete values, with `f64` and `Ticks`.
