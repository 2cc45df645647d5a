use vstd::prelude::*;

verus! {

/// The colours that the menu paints with.
#[derive(Clone, Copy, Debug, PartialEq, Eq, Structural)]
pub enum Color {
    Black,
    PolycountGray,
}

impl Color {
    /// The colour as a `0x00BBGGRR` value.
    pub open spec fn rgb(self) -> u32 {
        match self {
            Color::Black => 0x0000_0000,
            Color::PolycountGray => 0x0020_2020,
        }
    }

    /// The colour as a `0x00BBGGRR` value, as GDI colour references and
    /// solid brushes take it.
    pub fn value(&self) -> (r: u32)
        ensures
            r == self.rgb(),
    {
        match self {
            Color::Black => 0x0000_0000,
            Color::PolycountGray => 0x0020_2020,
        }
    }
}

/// How the items of a menu look.
#[derive(Clone, Copy, Debug, PartialEq, Eq, Structural)]
pub struct Style {
    pub height: i32,
    pub width: i32,
    pub roundness_radius: i32,
    pub label_color: Color,
    pub color: Color,
}

} // verus!
