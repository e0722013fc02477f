//! Small helper types.
use vstd::prelude::*;

verus! {

/// Zero, one or two values.
#[derive(Debug, Clone, Copy, PartialEq, Eq)]
pub enum Split<T> {
    /// Nothing.
    Zero,
    /// One value.
    One(T),
    /// Two values, in order.
    Two(T, T),
}

impl<T> Split<T> {
    /// The values in order.
    pub open spec fn view(self) -> Seq<T> {
        match self {
            Split::Zero => seq![],
            Split::One(a) => seq![a],
            Split::Two(a, b) => seq![a, b],
        }
    }

}

} // verus!
