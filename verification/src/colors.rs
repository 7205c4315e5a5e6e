//! Display colours.

use vstd::prelude::*;
use vstd::std_specs::convert::FromSpecImpl;

verus! {

/// A colour in red, green, blue and alpha; the alpha says how far the thing
/// lets light through.
#[derive(Copy, Clone, Debug, PartialEq, Eq, Hash, Structural)]
pub struct Color {
    pub red: usize,
    pub green: usize,
    pub blue: usize,
    pub alpha: usize,
}

/// The colour that a packed number stands for: red in the lowest byte, then
/// green, then blue, and no alpha.
pub open spec fn spec_unpack(u: u32) -> Color {
    Color {
        red: (u & 0xff) as usize,
        green: ((u >> 8) & 0xff) as usize,
        blue: ((u >> 16) & 0xff) as usize,
        alpha: 0,
    }
}

impl From<u32> for Color {
    fn from(u: u32) -> (c: Color) {
        Color {
            red: (u & 0xff) as usize,
            green: ((u >> 8) & 0xff) as usize,
            blue: ((u >> 16) & 0xff) as usize,
            alpha: 0,
        }
    }
}

impl FromSpecImpl<u32> for Color {
    open spec fn obeys_from_spec() -> bool {
        true
    }

    open spec fn from_spec(u: u32) -> Color {
        spec_unpack(u)
    }
}

impl Color {
    /// The colour packed into one number, red first: what is left of
    /// `red * 65536 + green * 256 + blue` in 32 bits.
    pub open spec fn spec_as_u32(&self) -> int {
        (self.red * 65536 + self.green * 256 + self.blue) % 0x1_0000_0000
    }

    pub fn new(red: usize, green: usize, blue: usize, alpha: usize) -> (c: Color)
        ensures
            c == (Color { red, green, blue, alpha }),
    {
        Color { red, green, blue, alpha }
    }

    /// Packs the colour into one number, red first.
    pub fn as_u32(&self) -> (rgb: u32)
        ensures
            rgb == self.spec_as_u32(),
            self.red < 256 && self.green < 256 && self.blue < 256 ==> rgb == self.red * 65536
                + self.green * 256 + self.blue,
    {
        let r: u128 = self.red as u128;
        let g: u128 = self.green as u128;
        let b: u128 = self.blue as u128;
        let packed: u128 = r * 65536 + g * 256 + b;
        (packed % 0x1_0000_0000) as u32
    }

    /// Every channel but alpha divided by `by`.
    pub fn darken(&self, by: usize) -> (c: Color)
        requires
            by > 0,
        ensures
            c == (Color {
                red: self.red / by,
                green: self.green / by,
                blue: self.blue / by,
                alpha: self.alpha,
            }),
    {
        Color {
            red: self.red / by,
            green: self.green / by,
            blue: self.blue / by,
            alpha: self.alpha,
        }
    }
}

} // verus!
