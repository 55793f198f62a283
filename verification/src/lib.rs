//! Pitch detection for a monophonic signal by bitstream autocorrelation.
//!
//! A window of fixed-point samples is binarized by a hysteresis zero-crossing
//! detector, packed into a bitstream, and searched for the lag at which the
//! stream is most similar to a shifted copy of itself.  Octave errors are
//! corrected by inspecting sub-periods, and the integer lag is refined to an
//! exact rational period from the zero crossings of the original samples.

pub mod bits;
pub mod bitstream;
pub mod config;
pub mod note;
pub mod pitch;
pub mod zero_cross;
