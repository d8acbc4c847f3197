use vstd::prelude::*;

verus! {

/// Top-level states of the embedding application's view flow.
#[derive(Debug, Clone, Eq, PartialEq, Hash)]
pub enum AppState {
    MainMenu,
    SequenceOverview,
    Overview,
    SequenceView,
    ChromosomeView,
    GeneView,
    ProteinView,
}

} // verus!
