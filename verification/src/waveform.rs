use vstd::prelude::*;

verus! {

/// Oscillator shapes an operator can produce.
#[derive(Debug, Clone, Copy, PartialEq, Eq, Structural)]
pub enum Waveform {
    Sine,
    Square,
    Sawtooth,
    SawtoothSmooth,
    Triangle,
    Noise,
    Input,
}

/// The shape that follows `w` when cycling forward.
///
/// The six audible shapes form a ring; `Input` is outside the ring and
/// enters it at `Noise`.
pub open spec fn next_waveform(w: Waveform) -> Waveform {
    match w {
        Waveform::Noise => Waveform::Sine,
        Waveform::Sine => Waveform::Square,
        Waveform::Square => Waveform::Sawtooth,
        Waveform::Sawtooth => Waveform::SawtoothSmooth,
        Waveform::SawtoothSmooth => Waveform::Triangle,
        Waveform::Triangle => Waveform::Noise,
        Waveform::Input => Waveform::Noise,
    }
}

/// The shape that precedes `w` when cycling backward.
pub open spec fn previous_waveform(w: Waveform) -> Waveform {
    match w {
        Waveform::Noise => Waveform::Triangle,
        Waveform::Sine => Waveform::Noise,
        Waveform::Square => Waveform::Sine,
        Waveform::Sawtooth => Waveform::Square,
        Waveform::SawtoothSmooth => Waveform::Sawtooth,
        Waveform::Triangle => Waveform::SawtoothSmooth,
        Waveform::Input => Waveform::Noise,
    }
}

/// The shape a host names by the number `code`. A number that names no
/// shape stands for the sine.
pub open spec fn waveform_of_code(code: u8) -> Waveform {
    match code {
        0 => Waveform::Sine,
        1 => Waveform::Triangle,
        2 => Waveform::Square,
        3 => Waveform::Sawtooth,
        4 => Waveform::Noise,
        5 => Waveform::Input,
        _ => Waveform::Sine,
    }
}

impl Waveform {
    /// Computes [`waveform_of_code`].
    pub fn from_code(code: u8) -> (waveform: Self)
        ensures
            waveform == waveform_of_code(code),
    {
        match code {
            0 => Waveform::Sine,
            1 => Waveform::Triangle,
            2 => Waveform::Square,
            3 => Waveform::Sawtooth,
            4 => Waveform::Noise,
            5 => Waveform::Input,
            _ => Waveform::Sine,
        }
    }
}

/// Holds the shape selected for one operator.
#[derive(Debug, Clone, Copy)]
pub struct WaveformGenerator {
    pub waveform: Waveform,
}

impl WaveformGenerator {
    /// A generator that holds the shape `waveform`.
    pub fn new(waveform: Waveform) -> (generator: Self)
        ensures
            generator.waveform == waveform,
    {
        Self { waveform }
    }

    /// Steps the selected shape one place forward in the ring.
    pub fn get_next_waveform(&mut self)
        ensures
            final(self).waveform == next_waveform(old(self).waveform),
    {
        self.waveform = match self.waveform {
            Waveform::Noise => Waveform::Sine,
            Waveform::Sine => Waveform::Square,
            Waveform::Square => Waveform::Sawtooth,
            Waveform::Sawtooth => Waveform::SawtoothSmooth,
            Waveform::SawtoothSmooth => Waveform::Triangle,
            Waveform::Triangle => Waveform::Noise,
            Waveform::Input => Waveform::Noise,
        };
    }

    /// Steps the selected shape one place backward in the ring.
    pub fn get_previous_waveform(&mut self)
        ensures
            final(self).waveform == previous_waveform(old(self).waveform),
    {
        self.waveform = match self.waveform {
            Waveform::Noise => Waveform::Triangle,
            Waveform::Sine => Waveform::Noise,
            Waveform::Square => Waveform::Sine,
            Waveform::Sawtooth => Waveform::Square,
            Waveform::SawtoothSmooth => Waveform::Sawtooth,
            Waveform::Triangle => Waveform::SawtoothSmooth,
            Waveform::Input => Waveform::Noise,
        };
    }

    /// Selects the shape `waveform`.
    pub fn set_waveform(&mut self, waveform: Waveform)
        ensures
            final(self).waveform == waveform,
    {
        self.waveform = waveform;
    }

    /// The selected shape.
    pub fn get_waveform(&self) -> (waveform: Waveform)
        ensures
            waveform == self.waveform,
    {
        self.waveform
    }
}

/// Stepping forward and then backward returns to the starting shape, and so
/// does stepping backward and then forward, for every shape in the ring.
pub proof fn lemma_cycle_round_trip(w: Waveform)
    requires
        w != Waveform::Input,
    ensures
        previous_waveform(next_waveform(w)) == w,
        next_waveform(previous_waveform(w)) == w,
{
}

} // verus!
