use vstd::prelude::*;

verus! {

/// Largest note number and largest velocity of a note event.
pub const MAX_NOTE_VALUE: u8 = 127;

/// Where a note event comes from. Events of different sources never cancel
/// each other.
#[derive(Debug, Clone, Copy, PartialEq, Eq, Structural)]
pub enum NoteSource {
    Keyboard,
    Midi,
}

/// Why a note event was refused.
#[derive(Debug, Clone, Copy, PartialEq, Eq, Structural)]
pub enum NoteError {
    /// The note number is above [`MAX_NOTE_VALUE`].
    NoteOutOfRange,
    /// The velocity is above [`MAX_NOTE_VALUE`].
    VelocityOutOfRange,
}

/// A key going down or up.
#[derive(Debug, Clone, Copy, PartialEq, Eq, Structural)]
pub struct NoteEvent {
    pub note_number: u8,
    pub velocity: u8,
    pub is_on: bool,
    pub source: NoteSource,
}

/// What [`NoteEvent::new`] returns for the given arguments.
pub open spec fn checked_event(
    note_number: u8,
    velocity: u8,
    is_on: bool,
    source: NoteSource,
) -> Result<NoteEvent, NoteError> {
    if note_number > MAX_NOTE_VALUE {
        Err(NoteError::NoteOutOfRange)
    } else if velocity > MAX_NOTE_VALUE {
        Err(NoteError::VelocityOutOfRange)
    } else {
        Ok(NoteEvent { note_number, velocity, is_on, source })
    }
}

impl NoteEvent {
    /// Both numbers of the event are within range.
    pub open spec fn wf(&self) -> bool {
        self.note_number <= MAX_NOTE_VALUE && self.velocity <= MAX_NOTE_VALUE
    }

    /// Builds an event. A note number or a velocity above
    /// [`MAX_NOTE_VALUE`] is refused; when both are, the note number is
    /// named.
    pub fn new(note_number: u8, velocity: u8, is_on: bool, source: NoteSource) -> (result: Result<
        Self,
        NoteError,
    >)
        ensures
            result == checked_event(note_number, velocity, is_on, source),
            result is Ok ==> result->Ok_0.wf(),
    {
        if note_number > MAX_NOTE_VALUE {
            Err(NoteError::NoteOutOfRange)
        } else if velocity > MAX_NOTE_VALUE {
            Err(NoteError::VelocityOutOfRange)
        } else {
            Ok(NoteEvent { note_number, velocity, is_on, source })
        }
    }
}

} // verus!
