use vstd::prelude::*;

verus! {

/// A color tag for one unit of liquid. Equality is structural identity;
/// colors carry no ordering.
#[derive(Clone, Copy, Debug, PartialEq, Eq, Structural)]
pub enum Color {
    Red,
    Green,
    Blue,
    Yellow,
    Cyan,
    Magenta,
    Pink,
    Violet,
    Orange,
    LightGreen,
    Brown,
    DarkBlue,
}

} // verus!
