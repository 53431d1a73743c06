//! The per-node color tag shared by both tree variants.

use vstd::prelude::*;

verus! {

/// A two-valued tag recorded on every node.
///
/// It is assigned once, when the node is created, and never mutated
/// afterwards: a tree's root is black and every freshly attached child gets
/// the opposite of its parent's color. Nothing else is maintained about it.
#[derive(Clone, Copy, Debug, PartialEq, Eq, Structural)]
pub enum Color {
    Red,
    Black,
}

/// The other color: what a freshly attached child of a `c`-colored node gets.
pub open spec fn opposite(c: Color) -> Color {
    match c {
        Color::Red => Color::Black,
        Color::Black => Color::Red,
    }
}

/// Executable counterpart of [`opposite`].
pub fn flip(c: Color) -> (r: Color)
    ensures
        r == opposite(c),
{
    match c {
        Color::Red => Color::Black,
        Color::Black => Color::Red,
    }
}

} // verus!
