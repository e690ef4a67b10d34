use vstd::prelude::*;

verus! {

/// What a host offers to play the engine: a stream that can be started
/// and stopped.
pub trait AudioBackend {
    fn start(&mut self);

    fn stop(&mut self);
}

} // verus!
