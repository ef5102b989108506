use vstd::prelude::*;

verus! {

/// What a grid cell is.
#[derive(Clone, Copy, Debug, PartialEq, Eq, Structural)]
pub enum PointState {
    Passage,
    Wall,
}

/// An opaque colour, one byte per channel.
#[derive(Clone, Copy, Debug, PartialEq, Eq, Structural)]
pub struct Color {
    pub r: u8,
    pub g: u8,
    pub b: u8,
    pub a: u8,
}

impl Color {
    /// A fully opaque colour.
    pub fn from_rgb(r: u8, g: u8, b: u8) -> (c: Color)
        ensures
            c == (Color { r, g, b, a: 255 }),
    {
        Color { r, g, b, a: 255 }
    }

    /// The four channels in the order red, green, blue, alpha.
    pub fn to_array(&self) -> (a: [u8; 4])
        ensures
            a@ == seq![self.r, self.g, self.b, self.a],
    {
        [self.r, self.g, self.b, self.a]
    }
}

/// A presentation tag laid over a cell. It never changes what the cell is.
#[derive(Clone, Copy, Debug, PartialEq, Eq, Structural)]
pub enum VisualIndicator {
    Searching,
    Match,
    SolvePath,
    Start,
    End,
    Custom(Color),
}

} // verus!
