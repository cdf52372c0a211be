//! Weighted random sampling over a fixed set of choices.
//!
//! A [`Sampler`] holds an ordered list of choices, each with a non-negative
//! integer weight, and answers random-draw queries against that distribution:
//! single draws with replacement, fixed-count draw sequences, and draws of
//! several distinct choices without replacement.  Randomness is supplied by
//! the caller through the [`RandomSource`] trait, so every draw is a pure
//! function of the sampler and of the values the source hands back.

#![verifier::loop_isolation(false)]

pub mod distribution;
pub mod sampler;
pub mod source;

pub use sampler::ConstructionError;
pub use sampler::DrawError;
pub use sampler::Sampler;
pub use source::RandomSource;
pub use source::ScriptedSource;
pub use source::ThreadRngSource;
