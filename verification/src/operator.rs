use vstd::prelude::*;
use crate::filter::{
    chain_with, chain_without, FilterType, lemma_chain_stays_distinct, lemma_place_of, place_of,
};
use crate::waveform::{next_waveform, previous_waveform, Waveform, WaveformGenerator};

verus! {

/// The direction in which the shape of an operator is stepped.
#[derive(Clone, Copy, Debug, PartialEq, Eq, Structural)]
pub enum CycleDirection {
    Forward,
    Backward,
}

/// A request that applies to every operator of the engine.
#[derive(Clone, Copy, Debug, PartialEq, Eq, Structural)]
pub enum OperatorEvent {
    CycleWaveform { direction: CycleDirection },
}

/// The shape that follows `w` in direction `direction`.
pub open spec fn cycled(w: Waveform, direction: CycleDirection) -> Waveform {
    match direction {
        CycleDirection::Forward => next_waveform(w),
        CycleDirection::Backward => previous_waveform(w),
    }
}

/// The discrete settings of one operator: its shape and the kinds of its
/// filters, in the order in which the filters are applied.
#[derive(Debug)]
pub struct Operator {
    pub waveform_generator: WaveformGenerator,
    pub filters: Vec<FilterType>,
}

impl Operator {
    /// The kinds of the filters, in the order in which they are applied.
    pub open spec fn chain(&self) -> Seq<FilterType> {
        self.filters@
    }

    /// The invariant of the type: no kind of filter occurs twice.
    pub open spec fn wf(&self) -> bool {
        self.chain().no_duplicates()
    }

    /// A sine operator without filters.
    pub fn new() -> (operator: Self)
        ensures
            operator.wf(),
            operator.waveform_generator.waveform == Waveform::Sine,
            operator.chain() == Seq::<FilterType>::empty(),
    {
        Operator { waveform_generator: WaveformGenerator::new(Waveform::Sine), filters: Vec::new() }
    }

    /// Steps the shape one place in the given direction.
    pub fn cycle_waveform(&mut self, direction: CycleDirection)
        ensures
            final(self).waveform_generator.waveform == cycled(
                old(self).waveform_generator.waveform,
                direction,
            ),
            final(self).chain() == old(self).chain(),
    {
        match direction {
            CycleDirection::Forward => {
                self.waveform_generator.get_next_waveform();
            },
            CycleDirection::Backward => {
                self.waveform_generator.get_previous_waveform();
            },
        }
    }

    /// Sets the shape.
    pub fn set_waveform(&mut self, waveform: Waveform)
        ensures
            final(self).waveform_generator.waveform == waveform,
            final(self).chain() == old(self).chain(),
    {
        self.waveform_generator.set_waveform(waveform);
    }

    /// Finds the place of the filter of kind `kind`.
    fn find_filter(&self, kind: FilterType) -> (place: usize)
        ensures
            place == place_of(self.chain(), kind),
    {
        let mut place: usize = 0;
        proof {
            lemma_place_of(self.filters@, kind);
        }
        while place < self.filters.len() && !filter_type_eq(self.filters[place], kind)
            invariant
                place <= self.filters@.len(),
                forall|i: int| 0 <= i < place ==> self.filters@[i] != kind,
            decreases self.filters@.len() - place,
        {
            place += 1;
        }
        proof {
            lemma_place_of(self.filters@, kind);
            let wanted = place_of(self.filters@, kind);
            if wanted < place {
                assert(self.filters@[wanted] == kind);
            }
            if place < wanted {
                assert(self.filters@[place as int] == kind);
            }
        }
        place
    }

    /// Records that a filter of kind `filter_type` is set and returns its
    /// place in the chain: the place of the filter of that kind that it
    /// replaces, or the end of the chain.
    pub fn set_filter(&mut self, filter_type: FilterType) -> (place: usize)
        requires
            old(self).wf(),
        ensures
            final(self).wf(),
            final(self).chain() == chain_with(old(self).chain(), filter_type),
            place == place_of(old(self).chain(), filter_type),
            final(self).chain()[place as int] == filter_type,
            final(self).waveform_generator == old(self).waveform_generator,
    {
        let place = self.find_filter(filter_type);
        proof {
            lemma_place_of(self.filters@, filter_type);
            lemma_chain_stays_distinct(self.filters@, filter_type);
        }
        if place == self.filters.len() {
            self.filters.push(filter_type);
        }
        place
    }

    /// Records that the filter of kind `filter_type` is removed and
    /// returns the place it had, if there was one.
    pub fn remove_filter(&mut self, filter_type: FilterType) -> (place: Option<usize>)
        requires
            old(self).wf(),
        ensures
            final(self).wf(),
            final(self).chain() == chain_without(old(self).chain(), filter_type),
            !final(self).chain().contains(filter_type),
            match place {
                Some(at) => at == place_of(old(self).chain(), filter_type) && old(
                    self,
                ).chain().contains(filter_type),
                None => !old(self).chain().contains(filter_type),
            },
            final(self).waveform_generator == old(self).waveform_generator,
    {
        let place = self.find_filter(filter_type);
        proof {
            lemma_place_of(self.filters@, filter_type);
            lemma_chain_stays_distinct(self.filters@, filter_type);
        }
        if place == self.filters.len() {
            None
        } else {
            self.filters.remove(place);
            Some(place)
        }
    }
}

/// Whether two kinds of filter are the same.
pub fn filter_type_eq(a: FilterType, b: FilterType) -> (same: bool)
    ensures
        same == (a == b),
{
    match (a, b) {
        (FilterType::LowPassBiquad, FilterType::LowPassBiquad) => true,
        (FilterType::Comb, FilterType::Comb) => true,
        (FilterType::PitchedComb, FilterType::PitchedComb) => true,
        _ => false,
    }
}

} // verus!
