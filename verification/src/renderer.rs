//! What the layout hands to drawing.
use vstd::prelude::*;

use crate::element::{Colour, Dimensions, Position};

verus! {

/// A rectangle to draw: where an element was placed, the size it was given,
/// and its colour.
#[derive(Clone, Copy)]
pub struct ElementRectangle {
    pub position: Position,
    pub size: Dimensions<u64>,
    pub colour: Colour,
}

/// A rectangle in screen pixels with the y axis pointing up: its lower left
/// corner and its size.
#[derive(Clone, Copy, Debug, PartialEq, Eq, Structural)]
pub struct ScreenRectangle {
    pub x: i128,
    pub y: i128,
    pub width: i128,
    pub height: i128,
}

impl ElementRectangle {
    /// The rectangle on a screen `screen_height` high, with the y axis turned
    /// to point up: the lower edge lies `screen_height - y - height` above the
    /// bottom of the screen.
    pub fn to_screen(&self, screen_height: u64) -> (r: ScreenRectangle)
        requires
            self.position.x is Some,
            self.position.y is Some,
        ensures
            r == (ScreenRectangle {
                x: self.position.x->Some_0 as i128,
                y: (screen_height - self.position.y->Some_0 - self.size.height) as i128,
                width: self.size.width as i128,
                height: self.size.height as i128,
            }),
    {
        let x = self.position.x.unwrap() as i128;
        let y = screen_height as i128 - self.position.y.unwrap() as i128 - self.size.height as i128;
        ScreenRectangle { x, y, width: self.size.width as i128, height: self.size.height as i128 }
    }
}

} // verus!
