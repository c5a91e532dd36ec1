//! Verified core of an FM tracker: the score model, the quantized note
//! scheduler, the voice allocator and the delay-line storage used by the
//! audio effects.

pub mod song;
pub mod voices;
pub mod scheduler;
pub mod delay;
pub mod synth;
