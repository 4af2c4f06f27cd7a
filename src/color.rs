//! An 8-bit RGB colour and its PPM text.
use vstd::prelude::*;
use vstd::string::StringExecFns;
use crate::text::{padded_decimal, push_padded_decimal};

verus! {

/// One pixel of the output image, one byte per channel.
#[derive(Clone, Copy, Debug, PartialEq, Eq, Structural)]
pub struct Color {
    pub red: u8,
    pub green: u8,
    pub blue: u8,
}

/// The largest value of a channel.
pub const CHANNEL_MAX: u8 = 255;

/// A channel level clamped to the range of a byte.
pub open spec fn clamp_level(level: int) -> u8 {
    if level < 0 {
        0
    } else if level > 255 {
        255
    } else {
        level as u8
    }
}

/// The PPM text of one pixel: each channel right-aligned to three columns,
/// separated by single spaces.
pub open spec fn color_text(c: Color) -> Seq<char> {
    padded_decimal(c.red as nat, 3) + seq![' '] + padded_decimal(c.green as nat, 3) + seq![' ']
        + padded_decimal(c.blue as nat, 3)
}

impl Color {
    /// Black.
    pub open spec fn default_spec() -> Color {
        Color { red: 0, green: 0, blue: 0 }
    }

    /// Black.
    pub fn default() -> (r: Color)
        ensures
            r == Color::default_spec(),
    {
        Color { red: 0, green: 0, blue: 0 }
    }

    pub fn new(red: u8, green: u8, blue: u8) -> (r: Color)
        ensures
            r.red == red && r.green == green && r.blue == blue,
    {
        Color { red, green, blue }
    }

    /// Maps a channel level (the gamma-corrected intensity times 256,
    /// rounded down) to a byte: negative levels give 0 and levels past
    /// the top give 255.
    pub fn clamp_channel(level: i64) -> (r: u8)
        ensures
            r == clamp_level(level as int),
    {
        if level < 0 {
            0
        } else if level > CHANNEL_MAX as i64 {
            CHANNEL_MAX
        } else {
            level as u8
        }
    }

    /// Sets the three channels from their levels, each clamped as by
    /// `clamp_channel`.
    pub fn set_color(&mut self, red: i64, green: i64, blue: i64)
        ensures
            final(self).red == clamp_level(red as int),
            final(self).green == clamp_level(green as int),
            final(self).blue == clamp_level(blue as int),
    {
        self.red = Color::clamp_channel(red);
        self.green = Color::clamp_channel(green);
        self.blue = Color::clamp_channel(blue);
    }

    /// Appends the PPM text of this pixel to `out`.
    pub fn push_ppm(&self, out: &mut String)
        ensures
            final(out)@ == old(out)@ + color_text(*self),
    {
        let ghost start = out@;
        proof {
            reveal_strlit(" ");
        }
        push_padded_decimal(out, self.red as u64, 3);
        out.append(" ");
        push_padded_decimal(out, self.green as u64, 3);
        out.append(" ");
        push_padded_decimal(out, self.blue as u64, 3);
        assert(out@ =~= start + color_text(*self));
    }

    /// The PPM text of this pixel, as `{:3} {:3} {:3}` formats it.
    pub fn to_ppm(&self) -> (r: String)
        ensures
            r@ == color_text(*self),
    {
        let mut out = String::new();
        self.push_ppm(&mut out);
        assert(out@ =~= color_text(*self));
        out
    }
}

} // verus!
