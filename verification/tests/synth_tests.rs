use rustfmsynth::filter::FilterType;
use rustfmsynth::note::{NoteEvent, NoteSource};
use rustfmsynth::operator::{CycleDirection, OperatorEvent};
use rustfmsynth::plan::AlgorithmError;
use rustfmsynth::reverb::ReverbType;
use rustfmsynth::synth::{EffectSlot, Synth, SynthConfig};
use rustfmsynth::waveform::Waveform;

fn on(note: u8, source: NoteSource) -> NoteEvent {
    NoteEvent::new(note, 100, true, source).unwrap()
}

fn off(note: u8, source: NoteSource) -> NoteEvent {
    NoteEvent::new(note, 0, false, source).unwrap()
}

fn pool(max_voices: usize, operators_per_voice: usize) -> Synth {
    Synth::new(SynthConfig { max_voices, operators_per_voice })
}

#[test]
fn default_config_is_eight_voices_over_four_operators() {
    let config = SynthConfig::default();
    assert_eq!(config, SynthConfig { max_voices: 8, operators_per_voice: 4 });
    let synth = Synth::new(config);
    assert_eq!(synth.voices.len(), 8);
    assert_eq!(synth.operators.len(), 4);
    assert_eq!(synth.algorithm.length(), 1);
    assert_eq!(synth.effects, vec![None, None, None]);
    assert_eq!(synth.buffer_size, 1024);
    assert!(synth.voices.iter().all(|v| !v.active && v.node_count == 1));
}

#[test]
fn voice_stealing() {
    let mut synth = pool(4, 1);
    for (i, note) in [60u8, 62, 64, 65].iter().enumerate() {
        assert_eq!(synth.note_on(&on(*note, NoteSource::Midi)), Some(i));
    }
    assert_eq!(synth.find_free_voice(), None);
    assert_eq!(synth.note_on(&on(67, NoteSource::Midi)), Some(0));
    assert_eq!(synth.voices.iter().filter(|v| v.active).count(), 4);
    let notes: Vec<u8> = synth.voices.iter().map(|v| v.note_number).collect();
    assert_eq!(notes, vec![67, 62, 64, 65]);
    assert_eq!(synth.voices[0].samples_elapsed_since_trigger, 0);
    assert!(!synth.voices[0].releasing);
}

#[test]
fn note_on_takes_the_first_free_voice() {
    let mut synth = pool(3, 1);
    synth.note_on(&on(60, NoteSource::Midi));
    synth.note_on(&on(62, NoteSource::Midi));
    let mut first = synth.voices[0];
    first.reset();
    synth.voices[0] = first;
    assert_eq!(synth.find_free_voice(), Some(0));
    assert_eq!(synth.note_on(&on(64, NoteSource::Midi)), Some(0));
    assert_eq!(synth.find_free_voice(), Some(2));
    assert_eq!(synth.steal_voice(), 0);
}

#[test]
fn empty_pool_takes_no_note() {
    let mut synth = pool(0, 1);
    assert_eq!(synth.note_on(&on(60, NoteSource::Midi)), None);
    synth.note_off(&off(60, NoteSource::Midi));
    assert!(synth.voices.is_empty());
}

#[test]
fn note_off_releases_matching_voices_only() {
    let mut synth = pool(4, 1);
    synth.note_on(&on(60, NoteSource::Midi));
    synth.note_on(&on(60, NoteSource::Keyboard));
    synth.note_on(&on(61, NoteSource::Midi));
    synth.note_on(&on(60, NoteSource::Midi));
    synth.process_voice(3, 32, false, false);
    synth.note_off(&off(60, NoteSource::Midi));
    let releasing: Vec<bool> = synth.voices.iter().map(|v| v.releasing).collect();
    assert_eq!(releasing, vec![true, false, false, true]);
    assert_eq!(synth.voices[0].note_off_sample_index, Some(0));
    assert_eq!(synth.voices[3].note_off_sample_index, Some(32));
    assert_eq!(synth.voices[1].note_off_sample_index, None);
}

#[test]
fn note_events_are_applied_in_arrival_order() {
    let mut synth = pool(2, 1);
    synth.process_note_events(&[
        on(60, NoteSource::Midi),
        off(60, NoteSource::Midi),
        on(60, NoteSource::Midi),
    ]);
    assert!(synth.voices[0].active && synth.voices[0].releasing);
    assert!(synth.voices[1].active && !synth.voices[1].releasing);
    let mut other = pool(2, 1);
    other.process_note_events(&[
        off(60, NoteSource::Midi),
        on(60, NoteSource::Midi),
        on(60, NoteSource::Midi),
    ]);
    assert!(other.voices.iter().all(|v| v.active && !v.releasing));
}

#[test]
fn set_algorithm_resizes_every_voice() {
    let mut synth = pool(3, 2);
    synth.note_on(&on(60, NoteSource::Midi));
    assert_eq!(synth.set_algorithm(&vec![vec![0, 0, 1], vec![1, 1, 0]]), Ok(()));
    assert_eq!(synth.algorithm.length(), 3);
    assert!(synth.voices.iter().all(|v| v.node_count == 3));
    assert!(synth.voices[0].active);
    assert_eq!(
        synth.set_algorithm(&vec![vec![0, 0, 0], vec![1, 1, 0]]),
        Err(AlgorithmError::NoCarriers)
    );
    assert_eq!(synth.set_algorithm(&vec![vec![0, 1]]), Err(AlgorithmError::ShapeMismatch));
    assert_eq!(synth.algorithm.length(), 3);
    assert!(synth.voices.iter().all(|v| v.node_count == 3));
}

#[test]
fn operator_settings_ignore_unknown_operators() {
    let mut synth = pool(1, 2);
    synth.set_operator_waveform(1, Waveform::Square);
    synth.set_operator_waveform(2, Waveform::Noise);
    assert_eq!(synth.operators[0].waveform_generator.get_waveform(), Waveform::Sine);
    assert_eq!(synth.operators[1].waveform_generator.get_waveform(), Waveform::Square);
    assert_eq!(synth.set_operator_filter(0, FilterType::Comb), Some(0));
    assert_eq!(synth.set_operator_filter(0, FilterType::PitchedComb), Some(1));
    assert_eq!(synth.set_operator_filter(0, FilterType::Comb), Some(0));
    assert_eq!(synth.set_operator_filter(5, FilterType::Comb), None);
    assert_eq!(synth.remove_operator_filter(0, FilterType::Comb), Some(0));
    assert_eq!(synth.remove_operator_filter(0, FilterType::Comb), None);
    assert_eq!(synth.remove_operator_filter(9, FilterType::PitchedComb), None);
    assert_eq!(synth.operators[0].filters, vec![FilterType::PitchedComb]);
    assert!(synth.operators[1].filters.is_empty());
}

#[test]
fn cycle_event_steps_every_operator() {
    let mut synth = pool(1, 3);
    synth.set_operator_waveform(1, Waveform::Triangle);
    synth.process_operator_events(&OperatorEvent::CycleWaveform {
        direction: CycleDirection::Forward,
    });
    let shapes: Vec<Waveform> =
        synth.operators.iter().map(|o| o.waveform_generator.get_waveform()).collect();
    assert_eq!(shapes, vec![Waveform::Square, Waveform::Noise, Waveform::Square]);
    synth.process_operator_events(&OperatorEvent::CycleWaveform {
        direction: CycleDirection::Backward,
    });
    let shapes: Vec<Waveform> =
        synth.operators.iter().map(|o| o.waveform_generator.get_waveform()).collect();
    assert_eq!(shapes, vec![Waveform::Sine, Waveform::Triangle, Waveform::Sine]);
}

#[test]
fn effect_slots_are_set_and_cleared() {
    let mut synth = pool(1, 1);
    synth.set_effect_reverb(EffectSlot::Two);
    assert_eq!(synth.effects, vec![None, Some(ReverbType::FDN), None]);
    synth.set_effect_reverb(EffectSlot::from_number(3));
    synth.remove_effect(EffectSlot::from_number(2));
    assert_eq!(synth.effects, vec![None, None, Some(ReverbType::FDN)]);
    assert_eq!(EffectSlot::from_number(0), EffectSlot::One);
    assert_eq!(EffectSlot::from_number(1), EffectSlot::One);
    assert_eq!(EffectSlot::from_number(17), EffectSlot::One);
    assert_eq!(EffectSlot::Three.index(), 2);
}

#[test]
fn inactive_voice_is_not_rendered() {
    let mut synth = pool(2, 1);
    synth.note_on(&on(60, NoteSource::Midi));
    assert!(synth.process_voice(0, 64, false, false));
    assert!(!synth.process_voice(1, 64, false, false));
    assert_eq!(synth.voices[0].samples_elapsed_since_trigger, 64);
    assert_eq!(synth.voices[1].samples_elapsed_since_trigger, 0);
    synth.set_buffer_size(256);
    assert_eq!(synth.buffer_size, 256);
}
