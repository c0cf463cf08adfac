//! A pixel: three 8-bit colour channels.
use vstd::prelude::*;
use crate::text::{ascii_text, decimal, push_decimal, push_space, SPACE};

verus! {

/// One RGB pixel. Two pixels are equal when all three channels are.
#[derive(Clone, Copy, Debug, PartialEq, Eq, Structural)]
pub struct Pixel {
    pub r: u8,
    pub g: u8,
    pub b: u8,
}

/// The pixel with every channel replaced by `255 - channel`.
pub open spec fn inverted(p: Pixel) -> Pixel {
    Pixel { r: (255 - p.r) as u8, g: (255 - p.g) as u8, b: (255 - p.b) as u8 }
}

/// The truncated mean of the three channels.
pub open spec fn channel_mean(p: Pixel) -> u8 {
    ((p.r + p.g + p.b) / 3) as u8
}

/// The pixel with every channel replaced by the channel mean.
pub open spec fn greyed(p: Pixel) -> Pixel {
    let m = channel_mean(p);
    Pixel { r: m, g: m, b: m }
}

/// The channels as decimal numerals, each followed by one space: `"R G B "`.
pub open spec fn pixel_text(p: Pixel) -> Seq<u8> {
    decimal(p.r as nat) + seq![SPACE] + decimal(p.g as nat) + seq![SPACE] + decimal(p.b as nat)
        + seq![SPACE]
}

impl Pixel {
    /// The black pixel.
    pub fn init() -> (p: Pixel)
        ensures
            p == (Pixel { r: 0, g: 0, b: 0 }),
    {
        Pixel { r: 0, g: 0, b: 0 }
    }

    pub fn new(red: u8, green: u8, blue: u8) -> (p: Pixel)
        ensures
            p == (Pixel { r: red, g: green, b: blue }),
    {
        Pixel { r: red, g: green, b: blue }
    }

    /// The channels as text, `"R G B "`.
    pub fn display(&self) -> (s: String)
        ensures
            s@ == ascii_text(pixel_text(*self)),
    {
        let mut s = String::new();
        push_decimal(&mut s, self.r as usize);
        push_space(&mut s);
        push_decimal(&mut s, self.g as usize);
        push_space(&mut s);
        push_decimal(&mut s, self.b as usize);
        push_space(&mut s);
        proof {
            let sp = seq![SPACE];
            crate::text::lemma_ascii_text_concat(decimal(self.r as nat), sp);
            crate::text::lemma_ascii_text_concat(decimal(self.r as nat) + sp, decimal(self.g as nat));
            crate::text::lemma_ascii_text_concat(decimal(self.r as nat) + sp + decimal(self.g as nat), sp);
            crate::text::lemma_ascii_text_concat(
                decimal(self.r as nat) + sp + decimal(self.g as nat) + sp,
                decimal(self.b as nat),
            );
            crate::text::lemma_ascii_text_concat(
                decimal(self.r as nat) + sp + decimal(self.g as nat) + sp + decimal(self.b as nat),
                sp,
            );
            assert(s@ =~= ascii_text(pixel_text(*self)));
        }
        s
    }

    pub fn invert(&mut self)
        ensures
            *final(self) == inverted(*old(self)),
    {
        self.r = 255 - self.r;
        self.g = 255 - self.g;
        self.b = 255 - self.b;
    }

    #[allow(non_snake_case)]
    pub fn greyScale(&mut self)
        ensures
            *final(self) == greyed(*old(self)),
    {
        let sum: u16 = self.r as u16 + self.g as u16 + self.b as u16;
        let average: u8 = (sum / 3) as u8;
        self.r = average;
        self.g = average;
        self.b = average;
    }
}

/// Inverting a pixel twice gives the pixel back.
pub proof fn lemma_invert_involutive(p: Pixel)
    ensures
        inverted(inverted(p)) == p,
{
}

/// Greyscale conversion is idempotent: once the channels are equal their mean
/// is that same value.
pub proof fn lemma_greyscale_idempotent(p: Pixel)
    ensures
        greyed(greyed(p)) == greyed(p),
{
    let m = channel_mean(p);
    assert((m + m + m) / 3 == m) by (nonlinear_arith);
}

} // verus!
