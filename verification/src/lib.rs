use vstd::prelude::*;

pub mod iter;
pub mod source;
pub mod state;

pub use iter::Iter;
pub use source::Source;
pub use source::VecSource;
pub use state::State;

verus! {

/// Capability an item type must supply: a fixed sentinel ("bumper") value,
/// used to pad windows before the first and after the last real item.
pub trait Iterable: Sized {
    /// The bumper value, as a mathematical constant.
    spec fn bumper_spec() -> Self;

    /// Produce the bumper value; side-effect-free, same value every time.
    fn bumper_item() -> (r: Self)
        ensures
            r == Self::bumper_spec(),
    ;
}

impl Iterable for char {
    open spec fn bumper_spec() -> char {
        '_'
    }

    fn bumper_item() -> (r: char) {
        '_'
    }
}

} // verus!
