use vstd::prelude::*;
use crate::note::{checked_event, NoteEvent, NoteSource};
use crate::operator::{CycleDirection, OperatorEvent};

verus! {

/// Velocity of a note played on the computer keyboard.
pub const KEYBOARD_VELOCITY: u8 = 100;

/// The note event a three-byte MIDI message stands for, if it stands for
/// one: a note-on message with a velocity above zero triggers the note, a
/// note-off message or a note-on message with velocity zero releases it.
/// The channel of the message is ignored. A message whose note or velocity
/// is out of range stands for nothing.
pub open spec fn midi_event(status: u8, data1: u8, data2: u8) -> Option<NoteEvent> {
    if status & 0xF0 == 0x90 && data2 > 0 {
        match checked_event(data1, data2, true, NoteSource::Midi) {
            Ok(event) => Some(event),
            Err(_) => None,
        }
    } else if status & 0xF0 == 0x80 || (status & 0xF0 == 0x90 && data2 == 0) {
        match checked_event(data1, 0, false, NoteSource::Midi) {
            Ok(event) => Some(event),
            Err(_) => None,
        }
    } else {
        None
    }
}

/// Computes [`midi_event`].
pub fn decode_midi_message(status: u8, data1: u8, data2: u8) -> (event: Option<NoteEvent>)
    ensures
        event == midi_event(status, data1, data2),
{
    let note_on = status & 0xF0 == 0x90 && data2 > 0;
    let note_off = (status & 0xF0 == 0x80) || (status & 0xF0 == 0x90 && data2 == 0);
    let result = if note_on {
        NoteEvent::new(data1, data2, true, NoteSource::Midi)
    } else if note_off {
        NoteEvent::new(data1, 0, false, NoteSource::Midi)
    } else {
        return None;
    };
    match result {
        Ok(event) => Some(event),
        Err(_) => None,
    }
}

/// The note event that follows from the state of a key of the computer
/// keyboard: a key that went down triggers its note, a key that went up
/// releases it, a key that did not move does nothing.
pub open spec fn key_event(was_pressed: bool, is_pressed: bool, note: u8) -> Option<NoteEvent> {
    if is_pressed == was_pressed {
        None
    } else if is_pressed {
        match checked_event(note, KEYBOARD_VELOCITY, true, NoteSource::Keyboard) {
            Ok(event) => Some(event),
            Err(_) => None,
        }
    } else {
        match checked_event(note, 0, false, NoteSource::Keyboard) {
            Ok(event) => Some(event),
            Err(_) => None,
        }
    }
}

/// Computes [`key_event`].
pub fn key_transition(was_pressed: bool, is_pressed: bool, note: u8) -> (event: Option<NoteEvent>)
    ensures
        event == key_event(was_pressed, is_pressed, note),
{
    if is_pressed == was_pressed {
        return None;
    }
    let result = if is_pressed {
        NoteEvent::new(note, KEYBOARD_VELOCITY, true, NoteSource::Keyboard)
    } else {
        NoteEvent::new(note, 0, false, NoteSource::Keyboard)
    };
    match result {
        Ok(event) => Some(event),
        Err(_) => None,
    }
}

/// The request that follows from the state of a control key: the key
/// going down asks for one step in its direction.
pub fn control_key_transition(was_pressed: bool, is_pressed: bool, direction: CycleDirection) -> (event:
    Option<OperatorEvent>)
    ensures
        event == if is_pressed && !was_pressed {
            Some(OperatorEvent::CycleWaveform { direction })
        } else {
            None
        },
{
    if is_pressed && !was_pressed {
        Some(OperatorEvent::CycleWaveform { direction })
    } else {
        None
    }
}

} // verus!
