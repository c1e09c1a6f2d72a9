//! Validated RGB colors, carried as opaque payload by the tiling core.

use vstd::prelude::*;

use crate::error::Error;

verus! {

/// A color with red, green, and blue components, each in the range
/// 0 to 255 inclusive.
#[derive(Clone, Copy, Debug)]
pub struct Color {
    red: i32,
    green: i32,
    blue: i32,
}

impl Color {
    /// True when every component lies in the valid range 0 to 255.
    pub closed spec fn wf(self) -> bool {
        0 <= self.red <= 255 && 0 <= self.green <= 255 && 0 <= self.blue <= 255
    }

    pub closed spec fn spec_red(self) -> i32 {
        self.red
    }

    pub closed spec fn spec_green(self) -> i32 {
        self.green
    }

    pub closed spec fn spec_blue(self) -> i32 {
        self.blue
    }

    /// Returns a new color, validating that each component is in the range
    /// 0 to 255 inclusive.
    pub fn new(red: i32, green: i32, blue: i32) -> (r: Result<Color, Error>)
        ensures
            (0 <= red <= 255 && 0 <= green <= 255 && 0 <= blue <= 255) <==> r is Ok,
            r matches Ok(c) ==> c.spec_red() == red && c.spec_green() == green
                && c.spec_blue() == blue && c.wf(),
            r matches Err(e) ==> e == Error::InvalidColor,
    {
        if red < 0 || red > 255 || green < 0 || green > 255 || blue < 0 || blue > 255 {
            return Err(Error::InvalidColor);
        }
        Ok(Color { red, green, blue })
    }

    /// Returns the red component.
    pub fn red(&self) -> (r: i32)
        ensures
            r == self.spec_red(),
    {
        self.red
    }

    /// Returns the green component.
    pub fn green(&self) -> (r: i32)
        ensures
            r == self.spec_green(),
    {
        self.green
    }

    /// Returns the blue component.
    pub fn blue(&self) -> (r: i32)
        ensures
            r == self.spec_blue(),
    {
        self.blue
    }
}

} // verus!
