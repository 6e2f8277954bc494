use vstd::prelude::*;

verus! {

/// Lifecycle of the windowing engine: how much trailing context is held back.
///
/// Transitions are monotonic: `Start` to `Middle` to `End`; no state is
/// revisited once left.
pub enum State<T> {
    /// No history collected yet; the initial state of every engine.
    Start,
    /// The held-back items, oldest first. While the engine is well formed this
    /// buffer holds between 1 and `N - 1` items.
    Middle(Vec<T>),
    /// Terminal: no further windows will ever be produced.
    End,
}

} // verus!
