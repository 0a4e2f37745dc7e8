//! Colours as red, green, blue and opacity, each from 0 to 255.

use vstd::prelude::*;

verus! {

/// A colour as red, green, blue and opacity.
#[derive(Debug, Clone, Copy, PartialEq, Eq, Structural)]
pub struct Color {
    pub r: u8,
    pub g: u8,
    pub b: u8,
    pub a: u8,
}

/// The eight bits of `value` from the bit `shift` on.
pub open spec fn channel(value: u32, shift: u32) -> u8 {
    ((value >> shift) & 0xff) as u8
}

fn channel_of(value: u32, shift: u32) -> (byte: u8)
    requires
        shift < 32,
    ensures
        byte == channel(value, shift),
{
    assert((value >> shift) & 0xff <= 0xff) by (bit_vector);
    ((value >> shift) & 0xff) as u8
}

impl Color {
    /// The colour that `value` writes as `0xRRGGBB`, without any
    /// transparency. What stands above the 24 bits is left out.
    pub fn from_rgb(value: u32) -> (color: Self)
        ensures
            color == (Color {
                r: channel(value, 16),
                g: channel(value, 8),
                b: channel(value, 0),
                a: 0xff,
            }),
    {
        Self {
            r: channel_of(value, 16),
            g: channel_of(value, 8),
            b: channel_of(value, 0),
            a: 0xff,
        }
    }
}

impl From<crate::event::Color> for Color {
    /// The colour of a calendar, which is written as `0xRRGGBBAA`, without
    /// any transparency.
    fn from(value: crate::event::Color) -> (color: Self) {
        let value: u32 = value.value();
        Self {
            r: channel_of(value, 24),
            g: channel_of(value, 16),
            b: channel_of(value, 8),
            a: 0xff,
        }
    }
}

impl vstd::std_specs::convert::FromSpecImpl<crate::event::Color> for Color {
    open spec fn obeys_from_spec() -> bool {
        true
    }

    open spec fn from_spec(value: crate::event::Color) -> Color {
        Color { r: channel(value@, 24), g: channel(value@, 16), b: channel(value@, 8), a: 0xff }
    }
}

} // verus!
