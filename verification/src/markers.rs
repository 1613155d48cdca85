use vstd::prelude::*;

verus! {

/// A cell's occupant state: marked by the first side (`X`), by the second
/// side (`O`), or not marked at all.
#[derive(Clone, Copy, PartialEq, Eq, Structural, Debug)]
pub enum Markers {
    X,
    O,
    NotMarked,
}

} // verus!
