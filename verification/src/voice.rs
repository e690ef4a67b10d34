use vstd::prelude::*;
use crate::algorithm::Algorithm;
use crate::note::{NoteEvent, NoteSource};

verus! {

/// The life cycle of one voice of the pool: whether it sounds, which note
/// it plays, and where in time it is, counted in samples.
#[derive(Debug, Clone, Copy, PartialEq, Eq, Structural)]
pub struct Voice {
    /// Is the voice playing a note?
    pub active: bool,
    /// Has the note been released?
    pub releasing: bool,
    pub note_number: u8,
    pub note_velocity: u8,
    pub note_source: Option<NoteSource>,
    /// Samples rendered since the note was triggered.
    pub samples_elapsed_since_trigger: u64,
    /// The sample at which the note was released.
    pub note_off_sample_index: Option<u64>,
    /// The number of plan nodes the voice keeps state for.
    pub node_count: usize,
}

/// Velocity that stands for every note when the loudness of a voice does
/// not follow the velocity of its note.
pub const FIXED_VELOCITY: u8 = 100;

/// The velocity from which the loudness of a voice is derived: the
/// velocity of the note, held between 1 and 127, when the voice is
/// sensitive to velocity, and [`FIXED_VELOCITY`] when it is not.
pub fn effective_velocity(velocity: u8, velocity_sensitive: bool) -> (effective: u8)
    ensures
        effective == if !velocity_sensitive {
            FIXED_VELOCITY
        } else if velocity < 1 {
            1u8
        } else if velocity > 127 {
            127u8
        } else {
            velocity
        },
{
    if !velocity_sensitive {
        FIXED_VELOCITY
    } else if velocity < 1 {
        1
    } else if velocity > 127 {
        127
    } else {
        velocity
    }
}

/// The silent voice that keeps state for `node_count` plan nodes.
pub open spec fn idle_voice(node_count: usize) -> Voice {
    Voice {
        active: false,
        releasing: false,
        note_number: 0,
        note_velocity: 0,
        note_source: None,
        samples_elapsed_since_trigger: 0,
        note_off_sample_index: None,
        node_count,
    }
}

/// The voice right after it was triggered by `event`.
pub open spec fn triggered_voice(node_count: usize, event: NoteEvent) -> Voice {
    Voice {
        active: true,
        note_number: event.note_number,
        note_velocity: event.velocity,
        note_source: Some(event.source),
        ..idle_voice(node_count)
    }
}

/// The voice after its note was released: the first release fixes the
/// sample of the release, a later one changes nothing.
pub open spec fn released_voice(voice: Voice) -> Voice {
    if voice.releasing {
        voice
    } else {
        Voice {
            releasing: true,
            note_off_sample_index: Some(voice.samples_elapsed_since_trigger),
            ..voice
        }
    }
}

/// The voice after one block of `block_len` samples. A voice whose
/// envelopes had run out before the block is reset and renders nothing.
/// Otherwise the block is rendered and time advances by its length; a
/// released voice whose envelopes have run out by then is reset.
pub open spec fn voice_after_block(
    voice: Voice,
    block_len: usize,
    finished_before: bool,
    finished_after: bool,
) -> Voice {
    if finished_before {
        idle_voice(voice.node_count)
    } else if voice.releasing && finished_after {
        idle_voice(voice.node_count)
    } else {
        Voice {
            samples_elapsed_since_trigger: (voice.samples_elapsed_since_trigger
                + block_len) as u64,
            ..voice
        }
    }
}

impl Voice {
    /// The invariant of the type: a voice is releasing exactly when the
    /// sample of its release is known, and that sample is not in the
    /// future.
    pub open spec fn wf(&self) -> bool {
        &&& self.releasing == self.note_off_sample_index.is_some()
        &&& self.note_off_sample_index matches Some(off) ==> off
            <= self.samples_elapsed_since_trigger
    }

    /// A silent voice.
    pub fn new(num_nodes: usize) -> (voice: Self)
        ensures
            voice == idle_voice(num_nodes),
            voice.wf(),
    {
        Voice {
            active: false,
            releasing: false,
            note_number: 0,
            note_velocity: 0,
            note_source: None,
            samples_elapsed_since_trigger: 0,
            note_off_sample_index: None,
            node_count: num_nodes,
        }
    }

    /// Silences the voice and forgets its note.
    pub fn reset(&mut self)
        ensures
            *final(self) == idle_voice(old(self).node_count),
            final(self).wf(),
    {
        self.active = false;
        self.releasing = false;
        self.note_number = 0;
        self.note_velocity = 0;
        self.note_source = None;
        self.samples_elapsed_since_trigger = 0;
        self.note_off_sample_index = None;
    }

    /// Triggers the voice for `note_event`. Whatever it played before is
    /// cut off.
    pub fn activate(&mut self, note_event: &NoteEvent)
        ensures
            *final(self) == triggered_voice(old(self).node_count, *note_event),
            final(self).wf(),
    {
        self.reset();
        self.active = true;
        self.note_number = note_event.note_number;
        self.note_source = Some(note_event.source);
        self.note_velocity = note_event.velocity;
    }

    /// Starts the release of the note.
    pub fn release(&mut self)
        requires
            old(self).wf(),
        ensures
            *final(self) == released_voice(*old(self)),
            final(self).wf(),
    {
        if !self.releasing {
            self.releasing = true;
            self.note_off_sample_index = Some(self.samples_elapsed_since_trigger);
        }
    }

    /// Sizes the voice for the plan of `algorithm`. The voice keeps its
    /// note; the state of every plan node starts afresh.
    pub fn update_algorithm(&mut self, algorithm: &Algorithm)
        ensures
            *final(self) == (Voice { node_count: algorithm@.plan.len() as usize, ..*old(self) }),
            final(self).wf() == old(self).wf(),
    {
        self.node_count = algorithm.length();
    }

    /// Whether `event` releases this voice: the voice sounds or is being
    /// released, and plays the note of the event from the same source.
    pub open spec fn matches_release(&self, event: NoteEvent) -> bool {
        &&& self.active || self.releasing
        &&& self.note_number == event.note_number
        &&& self.note_source == Some(event.source)
    }

    /// Computes [`Voice::matches_release`].
    pub fn is_released_by(&self, event: &NoteEvent) -> (matched: bool)
        ensures
            matched == self.matches_release(*event),
    {
        let same_source = match self.note_source {
            Some(source) => match (source, event.source) {
                (NoteSource::Keyboard, NoteSource::Keyboard) => true,
                (NoteSource::Midi, NoteSource::Midi) => true,
                _ => false,
            },
            None => false,
        };
        (self.active || self.releasing) && self.note_number == event.note_number && same_source
    }

    /// Accounts for one block of `block_len` samples and says whether the
    /// block is to be rendered. `finished_before` tells whether the
    /// envelopes of all carriers had run out at the start of the block,
    /// `finished_after` whether they have at its end.
    pub fn process(&mut self, block_len: usize, finished_before: bool, finished_after: bool) -> (rendered:
        bool)
        requires
            old(self).wf(),
            old(self).samples_elapsed_since_trigger + block_len <= u64::MAX,
        ensures
            *final(self) == voice_after_block(
                *old(self),
                block_len,
                finished_before,
                finished_after,
            ),
            final(self).wf(),
            rendered == !finished_before,
    {
        if finished_before {
            self.reset();
            return false;
        }
        self.samples_elapsed_since_trigger = self.samples_elapsed_since_trigger + block_len as u64;
        if self.releasing && finished_after {
            self.reset();
        }
        true
    }
}

/// Releasing a voice right after it was triggered fixes the release at
/// sample zero, and the voice returns to silence with the first block
/// after which its envelopes have run out.
pub proof fn lemma_trigger_release_silence(
    node_count: usize,
    event: NoteEvent,
    block_len: usize,
)
    ensures
        released_voice(triggered_voice(node_count, event)).note_off_sample_index == Some(0u64),
        voice_after_block(
            released_voice(triggered_voice(node_count, event)),
            block_len,
            false,
            true,
        ) == idle_voice(node_count),
{
}

/// While a voice sounds, every block advances its clock by exactly the
/// length of the block and leaves the sample of the release where it is.
pub proof fn lemma_block_advances_clock(voice: Voice, block_len: usize)
    requires
        voice.wf(),
        voice.samples_elapsed_since_trigger + block_len <= u64::MAX,
    ensures
        voice_after_block(voice, block_len, false, false).samples_elapsed_since_trigger
            == voice.samples_elapsed_since_trigger + block_len,
        voice_after_block(voice, block_len, false, false).note_off_sample_index
            == voice.note_off_sample_index,
        voice_after_block(voice, block_len, false, false).wf(),
{
}

} // verus!
