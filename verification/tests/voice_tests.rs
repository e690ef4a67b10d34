use rustfmsynth::algorithm::Algorithm;
use rustfmsynth::note::{NoteEvent, NoteSource};
use rustfmsynth::voice::Voice;

fn on(note: u8, source: NoteSource) -> NoteEvent {
    NoteEvent::new(note, 100, true, source).unwrap()
}

fn off(note: u8, source: NoteSource) -> NoteEvent {
    NoteEvent::new(note, 0, false, source).unwrap()
}

#[test]
fn new_voice_is_silent() {
    let voice = Voice::new(3);
    assert!(!voice.active);
    assert!(!voice.releasing);
    assert_eq!(voice.note_source, None);
    assert_eq!(voice.samples_elapsed_since_trigger, 0);
    assert_eq!(voice.note_off_sample_index, None);
    assert_eq!(voice.node_count, 3);
}

#[test]
fn activate_seeds_the_note_and_restarts_the_clock() {
    let mut voice = Voice::new(2);
    voice.activate(&on(69, NoteSource::Midi));
    assert!(voice.process(48, false, false));
    voice.release();
    voice.activate(&NoteEvent::new(60, 90, true, NoteSource::Keyboard).unwrap());
    assert!(voice.active);
    assert!(!voice.releasing);
    assert_eq!(voice.note_number, 60);
    assert_eq!(voice.note_velocity, 90);
    assert_eq!(voice.note_source, Some(NoteSource::Keyboard));
    assert_eq!(voice.samples_elapsed_since_trigger, 0);
    assert_eq!(voice.note_off_sample_index, None);
    assert_eq!(voice.node_count, 2);
}

#[test]
fn release_fixes_the_sample_once() {
    let mut voice = Voice::new(1);
    voice.activate(&on(69, NoteSource::Midi));
    voice.process(100, false, false);
    voice.release();
    assert!(voice.releasing);
    assert_eq!(voice.note_off_sample_index, Some(100));
    voice.process(50, false, false);
    voice.release();
    assert_eq!(voice.note_off_sample_index, Some(100));
    assert_eq!(voice.samples_elapsed_since_trigger, 150);
}

#[test]
fn clock_advances_by_the_block_length() {
    let mut voice = Voice::new(1);
    voice.activate(&on(69, NoteSource::Midi));
    for _ in 0..10 {
        assert!(voice.process(256, false, false));
    }
    assert_eq!(voice.samples_elapsed_since_trigger, 2560);
    assert!(voice.process(0, false, true));
    assert_eq!(voice.samples_elapsed_since_trigger, 2560);
    assert!(voice.active);
}

#[test]
fn note_off_envelope_completion_retires_the_voice() {
    // Release of 0.2 s after a note-off at 0.5 s, at 48000 samples per
    // second: the envelopes have run out from sample 33600 on.
    let block = 480usize;
    let release_end = 33_600u64;
    let mut voice = Voice::new(1);
    voice.activate(&on(69, NoteSource::Midi));
    let mut rendered_blocks = 0u64;
    loop {
        if voice.samples_elapsed_since_trigger == 24_000 {
            voice.release();
        }
        let start = voice.samples_elapsed_since_trigger;
        let before = voice.releasing && start >= release_end;
        let after = voice.releasing && start + block as u64 >= release_end;
        let rendered = voice.process(block, before, after);
        if !voice.active {
            assert!(rendered);
            break;
        }
        rendered_blocks += 1;
        assert!(rendered_blocks < 1000);
    }
    assert_eq!(rendered_blocks, 69);
    assert_eq!(voice, Voice::new(1));
}

#[test]
fn finished_voice_renders_nothing() {
    let mut voice = Voice::new(4);
    voice.activate(&on(69, NoteSource::Midi));
    voice.release();
    assert!(!voice.process(64, true, true));
    assert_eq!(voice, Voice::new(4));
}

#[test]
fn immediate_release_then_silence() {
    let mut voice = Voice::new(1);
    voice.activate(&on(69, NoteSource::Midi));
    voice.release();
    assert_eq!(voice.note_off_sample_index, Some(0));
    assert!(voice.process(128, false, true));
    assert!(!voice.active);
    assert_eq!(voice.samples_elapsed_since_trigger, 0);
}

#[test]
fn release_is_matched_by_note_and_source() {
    let mut voice = Voice::new(1);
    voice.activate(&on(60, NoteSource::Keyboard));
    assert!(voice.is_released_by(&off(60, NoteSource::Keyboard)));
    assert!(!voice.is_released_by(&off(60, NoteSource::Midi)));
    assert!(!voice.is_released_by(&off(61, NoteSource::Keyboard)));
    assert!(!Voice::new(1).is_released_by(&off(0, NoteSource::Keyboard)));
}

#[test]
fn update_algorithm_sizes_the_voice_for_the_plan() {
    let mut voice = Voice::new(1);
    voice.activate(&on(60, NoteSource::Midi));
    voice.update_algorithm(&Algorithm::default_fanout_feedback(4).unwrap());
    assert_eq!(voice.node_count, 6);
    assert!(voice.active);
    assert_eq!(voice.note_number, 60);
}
