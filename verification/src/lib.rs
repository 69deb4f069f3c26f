//! Verified core of the bosing waveform generator: the layout of a schedule
//! in time, its execution into oscillator states and pulses, and the filter
//! arithmetic applied to the sampled waveforms.

pub mod absolute;
pub mod element;
pub mod executor;
pub mod fir;
pub mod grid;
pub mod iir;
pub mod runner;
pub mod scalar;
pub mod schedule;
pub mod stack;
pub mod tree;
pub mod util;
pub mod wavegen;
