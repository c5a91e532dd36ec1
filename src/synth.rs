use vstd::prelude::*;

verus! {

/// Channels on the bus that the operators of a voice share.
pub const NUM_CHANNELS: usize = 8;

/// Most operators an instrument holds.
pub const MAX_OPERATORS: usize = 8;

/// Samples an instrument renders ahead in one block.
pub const HOLD_BUFFER_SIZE: usize = 256;

/// The shape of the wave an operator plays.
#[derive(Clone, Copy, Debug, PartialEq, Eq, Structural)]
pub enum WaveType {
    Sine,
    Square,
    Triangle,
    Sawtooth,
}

/// How a receive from a channel moves an operator's phase. The channel
/// value is always scaled by the receive level and the time step; for
/// frequency modulation it is also scaled by the note's frequency.
#[derive(Clone, Copy, Debug, PartialEq, Eq, Structural)]
pub enum ReceiveKind {
    /// Plain receiving, for feedback or for combining signals.
    Normal,
    /// Frequency modulation.
    Modulate,
    /// Vibrato; it acts as `Normal` does.
    Vibrato,
}

impl ReceiveKind {
    /// Whether a receive of this kind is scaled by the note's frequency.
    pub fn scales_with_frequency(&self) -> (r: bool)
        ensures
            r == (*self is Modulate),
    {
        match self {
            ReceiveKind::Modulate => true,
            ReceiveKind::Normal | ReceiveKind::Vibrato => false,
        }
    }
}

/// Whether `count` operators leave room for one more in an instrument.
pub fn has_room_for_operator(count: usize) -> (r: bool)
    ensures
        r == (count < MAX_OPERATORS),
{
    count < MAX_OPERATORS
}

} // verus!
