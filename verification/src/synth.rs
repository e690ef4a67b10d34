use vstd::prelude::*;
use crate::algorithm::{after_set_matrix, Algorithm, combined_model, combined_refusal};
use crate::filter::{chain_with, chain_without, FilterType, place_of};
use crate::note::NoteEvent;
use crate::operator::{cycled, Operator, OperatorEvent};
use crate::plan::AlgorithmError;
use crate::reverb::ReverbType;
use crate::voice::{released_voice, triggered_voice, Voice, voice_after_block};
use crate::waveform::Waveform;

verus! {

/// Number of effect slots behind the voice mix.
pub const EFFECT_SLOTS: usize = 3;

/// Size of the voice pool and of the operator table.
#[derive(Debug, Clone, Copy, PartialEq, Eq, Structural)]
pub struct SynthConfig {
    pub max_voices: usize,
    pub operators_per_voice: usize,
}

impl Default for SynthConfig {
    /// Eight voices over four operators.
    fn default() -> (config: Self)
        ensures
            config == (SynthConfig { max_voices: 8, operators_per_voice: 4 }),
    {
        SynthConfig { max_voices: 8, operators_per_voice: 4 }
    }
}

/// One of the effect slots behind the voice mix.
#[derive(Debug, Clone, Copy, PartialEq, Eq, Structural)]
pub enum EffectSlot {
    One,
    Two,
    Three,
}

impl EffectSlot {
    /// The position of the slot, counted from zero.
    pub open spec fn position(self) -> int {
        match self {
            EffectSlot::One => 0,
            EffectSlot::Two => 1,
            EffectSlot::Three => 2,
        }
    }

    /// The slot a host names by `number`: 2 and 3 name the second and the
    /// third slot, every other number the first.
    pub fn from_number(number: usize) -> (slot: Self)
        ensures
            slot == match number {
                2 => EffectSlot::Two,
                3 => EffectSlot::Three,
                _ => EffectSlot::One,
            },
    {
        match number {
            2 => EffectSlot::Two,
            3 => EffectSlot::Three,
            _ => EffectSlot::One,
        }
    }

    /// Computes [`EffectSlot::position`].
    pub fn index(self) -> (i: usize)
        ensures
            i == self.position(),
    {
        match self {
            EffectSlot::One => 0,
            EffectSlot::Two => 1,
            EffectSlot::Three => 2,
        }
    }
}

/// The control state of the engine: the operator table, the modulation
/// graph with its plan, the voice pool and the effect slots.
pub struct Synth {
    pub voices: Vec<Voice>,
    pub config: SynthConfig,
    pub algorithm: Algorithm,
    pub operators: Vec<Operator>,
    pub effects: Vec<Option<ReverbType>>,
    pub buffer_size: usize,
}

/// The first voice of the pool that plays no note, or the size of the pool
/// when every voice plays.
pub open spec fn first_free(voices: Seq<Voice>) -> int
    decreases voices.len(),
{
    if voices.len() == 0 {
        0
    } else if !voices[0].active {
        0
    } else {
        1 + first_free(voices.drop_first())
    }
}

/// The first free voice is free, every voice before it plays, and when
/// every voice plays there is none.
pub proof fn lemma_first_free(voices: Seq<Voice>)
    ensures
        0 <= first_free(voices) <= voices.len(),
        first_free(voices) < voices.len() ==> !voices[first_free(voices)].active,
        forall|i: int| 0 <= i < first_free(voices) ==> (#[trigger] voices[i]).active,
    decreases voices.len(),
{
    if voices.len() > 0 && voices[0].active {
        let rest = voices.drop_first();
        lemma_first_free(rest);
        assert forall|i: int| 0 <= i < first_free(voices) implies (#[trigger] voices[i]).active by {
            if i > 0 {
                assert(rest[i - 1].active);
            }
        }
    }
}

/// The voice that takes the next note: the first free one, or voice 0,
/// which is stolen, when none is free.
pub open spec fn next_voice(voices: Seq<Voice>) -> int {
    if first_free(voices) < voices.len() {
        first_free(voices)
    } else {
        0
    }
}

/// The pool after `event` has triggered a note.
pub open spec fn pool_after_note_on(voices: Seq<Voice>, event: NoteEvent) -> Seq<Voice> {
    if voices.len() == 0 {
        voices
    } else {
        voices.update(
            next_voice(voices),
            triggered_voice(voices[next_voice(voices)].node_count, event),
        )
    }
}

/// The pool after `event` has released a note: every voice the event
/// matches is released, the others stay as they are.
pub open spec fn pool_after_note_off(voices: Seq<Voice>, event: NoteEvent) -> Seq<Voice> {
    Seq::new(
        voices.len(),
        |i: int|
            if voices[i].matches_release(event) {
                released_voice(voices[i])
            } else {
                voices[i]
            },
    )
}

/// The pool after one note event.
pub open spec fn pool_after_event(voices: Seq<Voice>, event: NoteEvent) -> Seq<Voice> {
    if event.is_on {
        pool_after_note_on(voices, event)
    } else {
        pool_after_note_off(voices, event)
    }
}

/// The pool after the first `k` of a list of note events, taken in the
/// order of the list.
pub open spec fn pool_after_events(voices: Seq<Voice>, events: Seq<NoteEvent>, k: int) -> Seq<Voice>
    decreases k,
{
    if k <= 0 {
        voices
    } else {
        pool_after_event(pool_after_events(voices, events, k - 1), events[k - 1])
    }
}

/// The number of voices among the first `k` that play a note.
pub open spec fn active_count(voices: Seq<Voice>, k: int) -> nat
    decreases k,
{
    if k <= 0 {
        0
    } else {
        active_count(voices, k - 1) + if voices[k - 1].active {
            1nat
        } else {
            0nat
        }
    }
}

/// When the first `k` voices all play, `k` voices play among them.
pub proof fn lemma_active_count_all(voices: Seq<Voice>, k: int)
    requires
        0 <= k <= voices.len(),
        forall|i: int| 0 <= i < k ==> (#[trigger] voices[i]).active,
    ensures
        active_count(voices, k) == k,
    decreases k,
{
    if k > 0 {
        lemma_active_count_all(voices, k - 1);
    }
}

/// Replacing one voice changes the number of playing voices by at most
/// one, according to whether the old and the new voice play.
pub proof fn lemma_active_count_update(voices: Seq<Voice>, at: int, voice: Voice, k: int)
    requires
        0 <= at < voices.len(),
        0 <= k <= voices.len(),
    ensures
        active_count(voices.update(at, voice), k) == active_count(voices, k) + if at < k
            && voice.active && !voices[at].active {
            1int
        } else if at < k && !voice.active && voices[at].active {
            -1int
        } else {
            0int
        },
    decreases k,
{
    if k > 0 {
        lemma_active_count_update(voices, at, voice, k - 1);
    }
}

/// A note triggered on a full pool leaves the pool full: the note takes
/// the place of the note of voice 0, and every other voice plays on.
pub proof fn lemma_stealing_keeps_pool_full(voices: Seq<Voice>, event: NoteEvent)
    requires
        voices.len() > 0,
        forall|i: int| 0 <= i < voices.len() ==> (#[trigger] voices[i]).active,
    ensures
        next_voice(voices) == 0,
        pool_after_note_on(voices, event)[0] == triggered_voice(voices[0].node_count, event),
        forall|i: int|
            1 <= i < voices.len() ==> #[trigger] pool_after_note_on(voices, event)[i] == voices[i],
        active_count(pool_after_note_on(voices, event), voices.len() as int) == voices.len(),
{
    lemma_first_free(voices);
    if first_free(voices) < voices.len() {
        assert(voices[first_free(voices)].active);
    }
    let after = pool_after_note_on(voices, event);
    assert forall|i: int| 0 <= i < after.len() implies (#[trigger] after[i]).active by {
        if i > 0 {
            assert(voices[i].active);
        }
    }
    lemma_active_count_all(after, voices.len() as int);
}

/// A note triggered on a pool with a free voice brings one more voice to
/// sound and disturbs no voice that plays.
pub proof fn lemma_note_on_takes_free_voice(voices: Seq<Voice>, event: NoteEvent)
    requires
        first_free(voices) < voices.len(),
    ensures
        active_count(pool_after_note_on(voices, event), voices.len() as int) == active_count(
            voices,
            voices.len() as int,
        ) + 1,
        forall|i: int|
            0 <= i < voices.len() && (#[trigger] voices[i]).active ==> pool_after_note_on(
                voices,
                event,
            )[i] == voices[i],
{
    lemma_first_free(voices);
    let at = first_free(voices);
    lemma_active_count_update(
        voices,
        at,
        triggered_voice(voices[at].node_count, event),
        voices.len() as int,
    );
}

/// The table `after` is the table `before` except for operator `at`,
/// which now has the given shape and filter chain.
pub open spec fn only_operator_changed(
    before: Seq<Operator>,
    after: Seq<Operator>,
    at: int,
    waveform: Waveform,
    chain: Seq<FilterType>,
) -> bool {
    &&& after.len() == before.len()
    &&& 0 <= at < before.len()
    &&& after[at].waveform_generator.waveform == waveform
    &&& after[at].chain() == chain
    &&& forall|i: int| 0 <= i < before.len() && i != at ==> #[trigger] after[i] == before[i]
}

/// The pool in which every voice is sized for a plan of `node_count` nodes.
pub open spec fn resized_pool(voices: Seq<Voice>, node_count: usize) -> Seq<Voice> {
    Seq::new(voices.len(), |i: int| Voice { node_count, ..voices[i] })
}

impl Synth {
    /// The invariant of the type: the algorithm is well formed and
    /// connects the operators of the table, every operator and every
    /// voice is well formed, every voice is sized for the plan, and there
    /// are [`EFFECT_SLOTS`] effect slots.
    pub open spec fn wf(&self) -> bool {
        &&& self.algorithm.wf()
        &&& self.algorithm@.connections.len() == self.operators@.len()
        &&& forall|i: int| 0 <= i < self.operators@.len() ==> (#[trigger] self.operators@[i]).wf()
        &&& forall|i: int|
            0 <= i < self.voices@.len() ==> (#[trigger] self.voices@[i]).wf()
                && self.voices@[i].node_count == self.algorithm@.plan.len()
        &&& self.effects@.len() == EFFECT_SLOTS
    }

    /// An engine with `config.operators_per_voice` sine operators, of
    /// which operator 0 is heard, `config.max_voices` silent voices and
    /// empty effect slots.
    pub fn new(config: SynthConfig) -> (synth: Self)
        ensures
            synth.wf(),
            synth.config == config,
            synth.voices@.len() == config.max_voices,
            synth.operators@.len() == config.operators_per_voice,
            synth.algorithm@ == crate::algorithm::simple_model(config.operators_per_voice as int),
            forall|i: int| 0 <= i < synth.voices@.len() ==> !(#[trigger] synth.voices@[i]).active,
            forall|i: int| 0 <= i < synth.effects@.len() ==> (#[trigger] synth.effects@[i]) is None,
            synth.buffer_size == 1024,
    {
        let mut operators: Vec<Operator> = Vec::new();
        let mut i: usize = 0;
        while i < config.operators_per_voice
            invariant
                i <= config.operators_per_voice,
                operators@.len() == i,
                forall|k: int| 0 <= k < i ==> (#[trigger] operators@[k]).wf(),
            decreases config.operators_per_voice - i,
        {
            operators.push(Operator::new());
            i += 1;
        }
        let algorithm = Algorithm::simple(config.operators_per_voice);
        let node_count = algorithm.length();
        let mut voices: Vec<Voice> = Vec::new();
        let mut v: usize = 0;
        while v < config.max_voices
            invariant
                v <= config.max_voices,
                voices@.len() == v,
                forall|k: int|
                    0 <= k < v ==> (#[trigger] voices@[k]).wf() && voices@[k].node_count
                        == node_count && !voices@[k].active,
            decreases config.max_voices - v,
        {
            voices.push(Voice::new(node_count));
            v += 1;
        }
        let mut effects: Vec<Option<ReverbType>> = Vec::new();
        effects.push(None);
        effects.push(None);
        effects.push(None);
        Synth { voices, config, algorithm, operators, effects, buffer_size: 1024 }
    }

    /// The first voice that plays no note.
    pub fn find_free_voice(&self) -> (found: Option<usize>)
        ensures
            match found {
                Some(i) => i == first_free(self.voices@) && i < self.voices@.len(),
                None => first_free(self.voices@) == self.voices@.len(),
            },
    {
        let mut i: usize = 0;
        proof {
            lemma_first_free(self.voices@);
        }
        while i < self.voices.len()
            invariant
                i <= self.voices@.len(),
                forall|k: int| 0 <= k < i ==> (#[trigger] self.voices@[k]).active,
            decreases self.voices@.len() - i,
        {
            if !self.voices[i].active {
                proof {
                    lemma_first_free(self.voices@);
                    let wanted = first_free(self.voices@);
                    if wanted < i {
                        assert(self.voices@[wanted].active);
                    }
                }
                return Some(i);
            }
            i += 1;
        }
        proof {
            lemma_first_free(self.voices@);
            let wanted = first_free(self.voices@);
            if wanted < self.voices@.len() {
                assert(self.voices@[wanted].active);
            }
        }
        None
    }

    /// The voice that gives way when no voice is free: voice 0.
    pub fn steal_voice(&self) -> (victim: usize)
        ensures
            victim == 0,
    {
        0
    }

    /// Triggers a note on the first free voice, or on voice 0 when none
    /// is free, and returns the voice that took it. An engine without
    /// voices takes no note.
    pub fn note_on(&mut self, event: &NoteEvent) -> (taken: Option<usize>)
        requires
            old(self).wf(),
        ensures
            final(self).wf(),
            final(self).voices@ == pool_after_note_on(old(self).voices@, *event),
            match taken {
                Some(i) => old(self).voices@.len() > 0 && i == next_voice(old(self).voices@),
                None => old(self).voices@.len() == 0,
            },
            final(self).algorithm == old(self).algorithm,
            final(self).operators == old(self).operators,
            final(self).effects == old(self).effects,
            final(self).config == old(self).config,
            final(self).buffer_size == old(self).buffer_size,
    {
        if self.voices.len() == 0 {
            return None;
        }
        let chosen = match self.find_free_voice() {
            Some(i) => i,
            None => self.steal_voice(),
        };
        let mut voice = self.voices[chosen];
        voice.activate(event);
        self.voices.set(chosen, voice);
        Some(chosen)
    }

    /// Releases every voice that plays the note of `event` from the source
    /// of `event`.
    pub fn note_off(&mut self, event: &NoteEvent)
        requires
            old(self).wf(),
        ensures
            final(self).wf(),
            final(self).voices@ == pool_after_note_off(old(self).voices@, *event),
            final(self).algorithm == old(self).algorithm,
            final(self).operators == old(self).operators,
            final(self).effects == old(self).effects,
            final(self).config == old(self).config,
            final(self).buffer_size == old(self).buffer_size,
    {
        let mut i: usize = 0;
        let ghost wanted = pool_after_note_off(old(self).voices@, *event);
        while i < self.voices.len()
            invariant
                i <= self.voices@.len(),
                self.voices@.len() == old(self).voices@.len(),
                old(self).wf(),
                wanted == pool_after_note_off(old(self).voices@, *event),
                forall|k: int| 0 <= k < i ==> self.voices@[k] == wanted[k],
                forall|k: int|
                    i <= k < self.voices@.len() ==> self.voices@[k] == old(self).voices@[k],
                self.algorithm == old(self).algorithm,
                self.operators == old(self).operators,
                self.effects == old(self).effects,
                self.config == old(self).config,
                self.buffer_size == old(self).buffer_size,
            decreases self.voices@.len() - i,
        {
            let mut voice = self.voices[i];
            proof {
                assert(old(self).voices@[i as int].wf());
            }
            if voice.is_released_by(event) {
                voice.release();
                self.voices.set(i, voice);
            }
            i += 1;
        }
        proof {
            assert(self.voices@ =~= wanted);
            assert forall|k: int| 0 <= k < self.voices@.len() implies (#[trigger] self.voices@[k]).wf()
                && self.voices@[k].node_count == self.algorithm@.plan.len() by {
                assert(old(self).voices@[k].wf());
            }
        }
    }

    /// Sizes every voice for the current plan.
    fn update_voice_algorithm(&mut self)
        requires
            old(self).algorithm.wf(),
            forall|i: int| 0 <= i < old(self).voices@.len() ==> (#[trigger] old(self).voices@[i]).wf(),
        ensures
            final(self).voices@ == resized_pool(
                old(self).voices@,
                old(self).algorithm@.plan.len() as usize,
            ),
            forall|i: int|
                0 <= i < final(self).voices@.len() ==> (#[trigger] final(self).voices@[i]).wf(),
            final(self).algorithm == old(self).algorithm,
            final(self).operators == old(self).operators,
            final(self).effects == old(self).effects,
            final(self).config == old(self).config,
            final(self).buffer_size == old(self).buffer_size,
    {
        let mut i: usize = 0;
        let ghost wanted = resized_pool(old(self).voices@, old(self).algorithm@.plan.len() as usize);
        while i < self.voices.len()
            invariant
                i <= self.voices@.len(),
                self.voices@.len() == old(self).voices@.len(),
                wanted == resized_pool(
                    old(self).voices@,
                    old(self).algorithm@.plan.len() as usize,
                ),
                forall|k: int| 0 <= k < i ==> self.voices@[k] == wanted[k],
                forall|k: int|
                    i <= k < self.voices@.len() ==> self.voices@[k] == old(self).voices@[k],
                forall|k: int|
                    0 <= k < old(self).voices@.len() ==> (#[trigger] old(self).voices@[k]).wf(),
                self.algorithm == old(self).algorithm,
                self.operators == old(self).operators,
                self.effects == old(self).effects,
                self.config == old(self).config,
                self.buffer_size == old(self).buffer_size,
            decreases self.voices@.len() - i,
        {
            let mut voice = self.voices[i];
            voice.update_algorithm(&self.algorithm);
            self.voices.set(i, voice);
            i += 1;
        }
        proof {
            assert(self.voices@ =~= wanted);
            assert forall|k: int| 0 <= k < self.voices@.len() implies (#[trigger] self.voices@[k]).wf() by {
                assert(old(self).voices@[k].wf());
            }
        }
    }

    /// Hands a combined table of connections and carriers to the
    /// algorithm. An accepted table replaces the plan, and every voice is
    /// sized for the new plan; a refused one changes nothing.
    pub fn set_algorithm(&mut self, combined_matrix: &[Vec<u32>]) -> (result: Result<
        (),
        AlgorithmError,
    >)
        requires
            old(self).wf(),
        ensures
            final(self).wf(),
            final(self).algorithm@ == after_set_matrix(
                old(self).algorithm@,
                combined_model(combined_matrix@),
            ),
            match combined_refusal(
                combined_model(combined_matrix@),
                old(self).operators@.len() as int,
            ) {
                Some(reason) => result == Err::<(), AlgorithmError>(reason) && final(self).voices
                    == old(self).voices,
                None => result is Ok && final(self).voices@ == resized_pool(
                    old(self).voices@,
                    final(self).algorithm@.plan.len() as usize,
                ),
            },
            final(self).operators == old(self).operators,
            final(self).effects == old(self).effects,
            final(self).config == old(self).config,
            final(self).buffer_size == old(self).buffer_size,
    {
        match self.algorithm.set_matrix(combined_matrix) {
            Ok(()) => {
                proof {
                    self.algorithm.lemma_plan_fits();
                    assert(self.algorithm@.connections.len() == old(self).operators@.len());
                    assert forall|i: int| 0 <= i < self.voices@.len() implies (#[trigger] self.voices@[i]).wf() by {
                        assert(old(self).voices@[i].wf());
                    }
                }
                self.update_voice_algorithm();
                Ok(())
            },
            Err(reason) => Err(reason),
        }
    }

    /// Sets the shape of operator `op_index`. An index that names no
    /// operator changes nothing.
    pub fn set_operator_waveform(&mut self, op_index: usize, waveform: Waveform)
        requires
            old(self).wf(),
        ensures
            final(self).wf(),
            op_index < old(self).operators@.len() ==> only_operator_changed(
                old(self).operators@,
                final(self).operators@,
                op_index as int,
                waveform,
                old(self).operators@[op_index as int].chain(),
            ),
            op_index >= old(self).operators@.len() ==> final(self).operators == old(self).operators,
            final(self).algorithm == old(self).algorithm,
            final(self).voices == old(self).voices,
            final(self).effects == old(self).effects,
            final(self).config == old(self).config,
            final(self).buffer_size == old(self).buffer_size,
    {
        if op_index < self.operators.len() {
            let ghost before = self.operators@;
            self.operators[op_index].set_waveform(waveform);
            proof {
                assert forall|i: int| 0 <= i < self.operators@.len() implies (#[trigger] self.operators@[i]).wf() by {
                    assert(before[i].wf());
                }
            }
        }
    }

    /// Records that operator `op_index` has a filter of kind
    /// `filter_type` and returns the place of that filter in the chain of
    /// the operator. An index that names no operator changes nothing.
    pub fn set_operator_filter(&mut self, op_index: usize, filter_type: FilterType) -> (place:
        Option<usize>)
        requires
            old(self).wf(),
        ensures
            final(self).wf(),
            op_index < old(self).operators@.len() ==> place == Some(
                place_of(old(self).operators@[op_index as int].chain(), filter_type) as usize,
            ) && only_operator_changed(
                old(self).operators@,
                final(self).operators@,
                op_index as int,
                old(self).operators@[op_index as int].waveform_generator.waveform,
                chain_with(old(self).operators@[op_index as int].chain(), filter_type),
            ),
            op_index >= old(self).operators@.len() ==> place is None && final(self).operators
                == old(self).operators,
            final(self).algorithm == old(self).algorithm,
            final(self).voices == old(self).voices,
            final(self).effects == old(self).effects,
            final(self).config == old(self).config,
            final(self).buffer_size == old(self).buffer_size,
    {
        if op_index < self.operators.len() {
            let ghost before = self.operators@;
            proof {
                assert(before[op_index as int].wf());
            }
            let place = self.operators[op_index].set_filter(filter_type);
            proof {
                assert forall|i: int| 0 <= i < self.operators@.len() implies (#[trigger] self.operators@[i]).wf() by {
                    assert(before[i].wf());
                }
            }
            Some(place)
        } else {
            None
        }
    }

    /// Records that operator `op_index` has no filter of kind
    /// `filter_type` any more and returns the place the filter had, if
    /// there was one. An index that names no operator changes nothing.
    pub fn remove_operator_filter(&mut self, op_index: usize, filter_type: FilterType) -> (place:
        Option<usize>)
        requires
            old(self).wf(),
        ensures
            final(self).wf(),
            op_index < old(self).operators@.len() ==> only_operator_changed(
                old(self).operators@,
                final(self).operators@,
                op_index as int,
                old(self).operators@[op_index as int].waveform_generator.waveform,
                chain_without(old(self).operators@[op_index as int].chain(), filter_type),
            ) && match place {
                Some(at) => at == place_of(
                    old(self).operators@[op_index as int].chain(),
                    filter_type,
                ) && old(self).operators@[op_index as int].chain().contains(filter_type),
                None => !old(self).operators@[op_index as int].chain().contains(filter_type),
            },
            op_index >= old(self).operators@.len() ==> place is None && final(self).operators
                == old(self).operators,
            final(self).algorithm == old(self).algorithm,
            final(self).voices == old(self).voices,
            final(self).effects == old(self).effects,
            final(self).config == old(self).config,
            final(self).buffer_size == old(self).buffer_size,
    {
        if op_index < self.operators.len() {
            let ghost before = self.operators@;
            proof {
                assert(before[op_index as int].wf());
            }
            let place = self.operators[op_index].remove_filter(filter_type);
            proof {
                assert forall|i: int| 0 <= i < self.operators@.len() implies (#[trigger] self.operators@[i]).wf() by {
                    assert(before[i].wf());
                }
            }
            place
        } else {
            None
        }
    }

    /// Applies a request to every operator of the table.
    pub fn process_operator_events(&mut self, event: &OperatorEvent)
        requires
            old(self).wf(),
        ensures
            final(self).wf(),
            final(self).operators@.len() == old(self).operators@.len(),
            forall|i: int|
                0 <= i < old(self).operators@.len() ==> (#[trigger] final(self).operators@[i]).waveform_generator.waveform == cycled(
                    old(self).operators@[i].waveform_generator.waveform,
                    event->direction,
                ) && final(self).operators@[i].chain() == old(self).operators@[i].chain(),
            final(self).algorithm == old(self).algorithm,
            final(self).voices == old(self).voices,
            final(self).effects == old(self).effects,
            final(self).config == old(self).config,
            final(self).buffer_size == old(self).buffer_size,
    {
        match event {
            OperatorEvent::CycleWaveform { direction } => {
                let mut i: usize = 0;
                while i < self.operators.len()
                    invariant
                        i <= self.operators@.len(),
                        self.operators@.len() == old(self).operators@.len(),
                        event->direction == *direction,
                        forall|k: int|
                            0 <= k < i ==> (#[trigger] self.operators@[k]).waveform_generator.waveform
                                == cycled(
                                old(self).operators@[k].waveform_generator.waveform,
                                *direction,
                            ) && self.operators@[k].chain() == old(self).operators@[k].chain(),
                        forall|k: int|
                            i <= k < self.operators@.len() ==> self.operators@[k] == old(self).operators@[k],
                        self.algorithm == old(self).algorithm,
                        self.voices == old(self).voices,
                        self.effects == old(self).effects,
                        self.config == old(self).config,
                        self.buffer_size == old(self).buffer_size,
                    decreases self.operators@.len() - i,
                {
                    self.operators[i].cycle_waveform(*direction);
                    i += 1;
                }
                proof {
                    assert forall|k: int| 0 <= k < self.operators@.len() implies (#[trigger] self.operators@[k]).wf() by {
                        assert(old(self).operators@[k].wf());
                    }
                }
            },
        }
    }

    /// Sets the number of samples that one block may hold.
    pub fn set_buffer_size(&mut self, buffer_size: usize)
        ensures
            final(self).buffer_size == buffer_size,
            final(self).algorithm == old(self).algorithm,
            final(self).operators == old(self).operators,
            final(self).voices == old(self).voices,
            final(self).effects == old(self).effects,
            final(self).config == old(self).config,
    {
        self.buffer_size = buffer_size;
    }

    /// Records that a reverb sits in `slot`, in place of whatever sat
    /// there.
    pub fn set_effect_reverb(&mut self, slot: EffectSlot)
        requires
            old(self).wf(),
        ensures
            final(self).wf(),
            final(self).effects@ == old(self).effects@.update(
                slot.position(),
                Some(ReverbType::FDN),
            ),
            final(self).algorithm == old(self).algorithm,
            final(self).operators == old(self).operators,
            final(self).voices == old(self).voices,
            final(self).config == old(self).config,
            final(self).buffer_size == old(self).buffer_size,
    {
        self.effects.set(slot.index(), Some(ReverbType::FDN));
    }

    /// Records that `slot` is empty.
    pub fn remove_effect(&mut self, slot: EffectSlot)
        requires
            old(self).wf(),
        ensures
            final(self).wf(),
            final(self).effects@ == old(self).effects@.update(slot.position(), None),
            final(self).algorithm == old(self).algorithm,
            final(self).operators == old(self).operators,
            final(self).voices == old(self).voices,
            final(self).config == old(self).config,
            final(self).buffer_size == old(self).buffer_size,
    {
        self.effects.set(slot.index(), None);
    }

    /// Accounts for one block of voice `voice_index` and says whether the
    /// block is to be rendered: a voice that plays no note, or whose
    /// envelopes had run out before the block, renders nothing.
    pub fn process_voice(
        &mut self,
        voice_index: usize,
        block_len: usize,
        finished_before: bool,
        finished_after: bool,
    ) -> (rendered: bool)
        requires
            old(self).wf(),
            voice_index < old(self).voices@.len(),
            old(self).voices@[voice_index as int].samples_elapsed_since_trigger + block_len
                <= u64::MAX,
        ensures
            final(self).wf(),
            old(self).voices@[voice_index as int].active ==> rendered == !finished_before && final(self).voices@ == old(self).voices@.update(
                voice_index as int,
                voice_after_block(
                    old(self).voices@[voice_index as int],
                    block_len,
                    finished_before,
                    finished_after,
                ),
            ),
            !old(self).voices@[voice_index as int].active ==> !rendered && final(self).voices
                == old(self).voices,
            final(self).algorithm == old(self).algorithm,
            final(self).operators == old(self).operators,
            final(self).effects == old(self).effects,
            final(self).config == old(self).config,
            final(self).buffer_size == old(self).buffer_size,
    {
        let mut voice = self.voices[voice_index];
        if !voice.active {
            return false;
        }
        proof {
            assert(old(self).voices@[voice_index as int].wf());
        }
        let rendered = voice.process(block_len, finished_before, finished_after);
        self.voices.set(voice_index, voice);
        proof {
            assert forall|k: int| 0 <= k < self.voices@.len() implies (#[trigger] self.voices@[k]).wf()
                && self.voices@[k].node_count == self.algorithm@.plan.len() by {
                assert(old(self).voices@[k].wf());
            }
        }
        rendered
    }

    /// Applies the note events that arrived since the last block, in the
    /// order in which they arrived.
    pub fn process_note_events(&mut self, events: &[NoteEvent])
        requires
            old(self).wf(),
        ensures
            final(self).wf(),
            final(self).voices@ == pool_after_events(
                old(self).voices@,
                events@,
                events@.len() as int,
            ),
            final(self).algorithm == old(self).algorithm,
            final(self).operators == old(self).operators,
            final(self).effects == old(self).effects,
            final(self).config == old(self).config,
            final(self).buffer_size == old(self).buffer_size,
    {
        let mut k: usize = 0;
        while k < events.len()
            invariant
                k <= events@.len(),
                self.wf(),
                self.voices@ == pool_after_events(old(self).voices@, events@, k as int),
                self.algorithm == old(self).algorithm,
                self.operators == old(self).operators,
                self.effects == old(self).effects,
                self.config == old(self).config,
                self.buffer_size == old(self).buffer_size,
            decreases events@.len() - k,
        {
            let event = events[k];
            if event.is_on {
                self.note_on(&event);
            } else {
                self.note_off(&event);
            }
            k += 1;
        }
    }
}

} // verus!
