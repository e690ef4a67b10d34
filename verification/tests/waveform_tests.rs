use rustfmsynth::operator::{CycleDirection, Operator};
use rustfmsynth::waveform::{Waveform, WaveformGenerator};

#[test]
fn waveform_cycles_forward_through_the_ring() {
    let mut generator = WaveformGenerator::new(Waveform::Sine);
    let expected = [
        Waveform::Square,
        Waveform::Sawtooth,
        Waveform::SawtoothSmooth,
        Waveform::Triangle,
        Waveform::Noise,
        Waveform::Sine,
    ];
    for shape in expected {
        generator.get_next_waveform();
        assert_eq!(generator.get_waveform(), shape);
    }
}

#[test]
fn waveform_cycles_backward_through_the_ring() {
    let mut generator = WaveformGenerator::new(Waveform::Sine);
    let expected = [
        Waveform::Noise,
        Waveform::Triangle,
        Waveform::SawtoothSmooth,
        Waveform::Sawtooth,
        Waveform::Square,
        Waveform::Sine,
    ];
    for shape in expected {
        generator.get_previous_waveform();
        assert_eq!(generator.get_waveform(), shape);
    }
}

#[test]
fn input_waveform_enters_the_ring_at_noise() {
    let mut forward = WaveformGenerator::new(Waveform::Input);
    forward.get_next_waveform();
    assert_eq!(forward.get_waveform(), Waveform::Noise);
    let mut backward = WaveformGenerator::new(Waveform::Input);
    backward.get_previous_waveform();
    assert_eq!(backward.get_waveform(), Waveform::Noise);
}

#[test]
fn forward_then_backward_returns() {
    for shape in [
        Waveform::Sine,
        Waveform::Square,
        Waveform::Sawtooth,
        Waveform::SawtoothSmooth,
        Waveform::Triangle,
        Waveform::Noise,
    ] {
        let mut generator = WaveformGenerator::new(shape);
        generator.get_next_waveform();
        generator.get_previous_waveform();
        assert_eq!(generator.get_waveform(), shape);
    }
}

#[test]
fn set_waveform_replaces_the_shape() {
    let mut generator = WaveformGenerator::new(Waveform::Sine);
    generator.set_waveform(Waveform::Triangle);
    assert_eq!(generator.get_waveform(), Waveform::Triangle);
    assert_eq!(generator.waveform, Waveform::Triangle);
}

#[test]
fn waveform_codes_of_the_host() {
    assert_eq!(Waveform::from_code(0), Waveform::Sine);
    assert_eq!(Waveform::from_code(1), Waveform::Triangle);
    assert_eq!(Waveform::from_code(2), Waveform::Square);
    assert_eq!(Waveform::from_code(3), Waveform::Sawtooth);
    assert_eq!(Waveform::from_code(4), Waveform::Noise);
    assert_eq!(Waveform::from_code(5), Waveform::Input);
    assert_eq!(Waveform::from_code(6), Waveform::Sine);
    assert_eq!(Waveform::from_code(255), Waveform::Sine);
}

#[test]
fn operator_cycles_its_generator() {
    let mut operator = Operator::new();
    assert_eq!(operator.waveform_generator.get_waveform(), Waveform::Sine);
    operator.cycle_waveform(CycleDirection::Forward);
    assert_eq!(operator.waveform_generator.get_waveform(), Waveform::Square);
    operator.cycle_waveform(CycleDirection::Backward);
    operator.cycle_waveform(CycleDirection::Backward);
    assert_eq!(operator.waveform_generator.get_waveform(), Waveform::Noise);
    operator.set_waveform(Waveform::Input);
    assert_eq!(operator.waveform_generator.get_waveform(), Waveform::Input);
}
