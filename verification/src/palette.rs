//! The color palette of the block-graphics cells: the eight base
//! terminal colors, and pixels that pair two of them per character
//! cell.

use vstd::prelude::*;

verus! {

/// The eight base terminal colors.
#[derive(Clone, Copy, PartialEq, Eq, Structural, Debug)]
pub enum Color {
    Black,
    Red,
    Green,
    Yellow,
    Blue,
    Magenta,
    Cyan,
    White,
}

/// Two colors sharing one character cell: the first fills the upper
/// half, the second the lower.
#[derive(Clone, Copy, PartialEq, Eq, Structural, Debug)]
pub struct ColorPair(pub Color, pub Color);

/// One block-graphics pixel: a literal character over a color pair,
/// or the bare pair of half-cell colors.
#[derive(Clone, Copy, PartialEq, Eq, Structural, Debug)]
pub enum Pixel {
    Char(ColorPair, char),
    Pair(ColorPair),
}

impl Pixel {
    /// The color in slot `index` of a pair pixel: slot 0 holds the
    /// upper half's color, slot 1 the lower's. Indexing a character
    /// pixel, or a slot past the pair, is a caller error and is ruled
    /// out here rather than detected at run time.
    pub fn index(&self, index: usize) -> (c: Color)
        requires
            self is Pair,
            index < 2,
        ensures
            index == 0 ==> c == self->Pair_0.0,
            index == 1 ==> c == self->Pair_0.1,
    {
        let cp = match self {
            Pixel::Pair(cp) => *cp,
            Pixel::Char(cp, _) => {
                proof {
                    assert(false);
                }
                *cp
            },
        };
        let ColorPair(c1, c2) = cp;
        if index == 0 {
            c1
        } else {
            c2
        }
    }
}

} // verus!
