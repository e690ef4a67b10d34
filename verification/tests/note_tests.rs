use rustfmsynth::input::{control_key_transition, decode_midi_message, key_transition};
use rustfmsynth::note::{NoteError, NoteEvent, NoteSource};
use rustfmsynth::operator::{CycleDirection, OperatorEvent};
use rustfmsynth::voice::effective_velocity;

#[test]
fn note_event_accepts_the_full_range() {
    let event = NoteEvent::new(127, 127, true, NoteSource::Midi).unwrap();
    assert_eq!(event.note_number, 127);
    assert_eq!(event.velocity, 127);
    assert!(event.is_on);
    assert_eq!(event.source, NoteSource::Midi);
    assert!(NoteEvent::new(0, 0, false, NoteSource::Keyboard).is_ok());
}

#[test]
fn note_event_refuses_out_of_range_numbers() {
    assert_eq!(
        NoteEvent::new(128, 10, true, NoteSource::Midi),
        Err(NoteError::NoteOutOfRange)
    );
    assert_eq!(
        NoteEvent::new(10, 128, true, NoteSource::Midi),
        Err(NoteError::VelocityOutOfRange)
    );
    assert_eq!(
        NoteEvent::new(200, 200, true, NoteSource::Midi),
        Err(NoteError::NoteOutOfRange)
    );
}

#[test]
fn midi_note_on_and_off_are_decoded() {
    assert_eq!(
        decode_midi_message(0x90, 69, 100),
        Some(NoteEvent { note_number: 69, velocity: 100, is_on: true, source: NoteSource::Midi })
    );
    assert_eq!(
        decode_midi_message(0x93, 60, 0),
        Some(NoteEvent { note_number: 60, velocity: 0, is_on: false, source: NoteSource::Midi })
    );
    assert_eq!(
        decode_midi_message(0x8F, 60, 64),
        Some(NoteEvent { note_number: 60, velocity: 0, is_on: false, source: NoteSource::Midi })
    );
}

#[test]
fn other_midi_messages_are_ignored() {
    assert_eq!(decode_midi_message(0xB0, 7, 100), None);
    assert_eq!(decode_midi_message(0xE0, 0, 64), None);
    assert_eq!(decode_midi_message(0x90, 200, 10), None);
    assert_eq!(decode_midi_message(0x90, 10, 200), None);
    assert_eq!(decode_midi_message(0x80, 128, 0), None);
}

#[test]
fn keys_send_events_on_edges_only() {
    assert_eq!(key_transition(false, false, 60), None);
    assert_eq!(key_transition(true, true, 60), None);
    assert_eq!(
        key_transition(false, true, 60),
        Some(NoteEvent { note_number: 60, velocity: 100, is_on: true, source: NoteSource::Keyboard })
    );
    assert_eq!(
        key_transition(true, false, 60),
        Some(NoteEvent { note_number: 60, velocity: 0, is_on: false, source: NoteSource::Keyboard })
    );
    assert_eq!(key_transition(false, true, 128), None);
}

#[test]
fn control_keys_ask_for_one_step_when_pressed() {
    assert_eq!(
        control_key_transition(false, true, CycleDirection::Backward),
        Some(OperatorEvent::CycleWaveform { direction: CycleDirection::Backward })
    );
    assert_eq!(control_key_transition(true, true, CycleDirection::Forward), None);
    assert_eq!(control_key_transition(true, false, CycleDirection::Forward), None);
    assert_eq!(control_key_transition(false, false, CycleDirection::Forward), None);
}

#[test]
fn velocity_is_held_in_range_or_fixed() {
    assert_eq!(effective_velocity(0, true), 1);
    assert_eq!(effective_velocity(64, true), 64);
    assert_eq!(effective_velocity(127, true), 127);
    assert_eq!(effective_velocity(200, true), 127);
    assert_eq!(effective_velocity(3, false), 100);
}
