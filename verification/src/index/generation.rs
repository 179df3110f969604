//! The generation that a partition serves, and how a new one takes its place.
use crate::index::IndexGeneration;
use std::sync::Arc;
use vstd::prelude::*;

verus! {

/// The generations that are ever put into a handle.
pub uninterp spec fn generations(handle: GenerationHandle) -> Set<IndexGeneration>;

/// Holds the generation that is served. Whoever has acquired a generation
/// keeps it while another one is swapped in.
///
/// The place itself is an `arc_swap::ArcSwap`. What it holds changes through
/// shared references, so which generation `acquire` gives depends on what
/// other threads have swapped in by then; the contracts say of it that it is
/// one of those that are put in, all of which are well-formed, but not which.
#[verifier::external_body]
pub struct GenerationHandle {
    current: arc_swap::ArcSwap<IndexGeneration>,
}

impl GenerationHandle {
    /// `arc_swap::ArcSwapAny::from_pointee`: a place that holds `initial`.
    #[verifier::external_body]
    pub fn new(initial: IndexGeneration) -> (r: Self)
        requires
            initial.wf(),
        ensures
            generations(r).contains(initial),
    {
        GenerationHandle { current: arc_swap::ArcSwap::from_pointee(initial) }
    }

    /// `arc_swap::ArcSwapAny::load_full`: the generation that is held at the
    /// moment, shared. It is one that `new` or `swap` put in, and those are
    /// well-formed.
    #[verifier::external_body]
    pub fn acquire(&self) -> (r: Arc<IndexGeneration>)
        ensures
            r.wf(),
            generations(*self).contains(*r),
    {
        self.current.load_full()
    }

    /// `arc_swap::ArcSwapAny::store`: puts in another generation, atomically.
    /// What was acquired before stays as it is. That `next` is what `acquire`
    /// gives from then on is left unsaid, as other threads may put in more.
    #[verifier::external_body]
    pub fn swap(&self, next: IndexGeneration)
        requires
            next.wf(),
    {
        self.current.store(Arc::new(next));
    }
}

} // verus!
