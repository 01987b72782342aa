//! Colours as they leave the renderer: whole numbers per channel.

use vstd::prelude::*;

verus! {

/// Red, green and blue of a pixel, quantised to the bit depth of the output.
#[derive(Clone, Copy, Debug, PartialEq, Eq, Structural)]
pub struct OutputColor(pub u16, pub u16, pub u16);

/// The channels of a colour written as the hexadecimal number `0xRRGGBB`.
pub open spec fn hex_channels(code: u32) -> (u8, u8, u8) {
    (
        (((code & 0xff0000) >> 16) & 0xff) as u8,
        (((code & 0x00ff00) >> 8) & 0xff) as u8,
        (code & 0x0000ff) as u8,
    )
}

/// Splits a colour written as `0xRRGGBB` into red, green and blue; bits above
/// the red channel are ignored.
pub fn from_srgb_hex(code: u32) -> (rgb: (u8, u8, u8))
    ensures
        rgb == hex_channels(code),
{
    let r: u32 = ((code & 0xff0000) >> 16) & 0xff;
    let g: u32 = ((code & 0x00ff00) >> 8) & 0xff;
    let b: u32 = code & 0x0000ff;
    assert(r < 256) by (bit_vector)
        requires
            r == ((code & 0xff0000) >> 16) & 0xff,
    ;
    assert(g < 256) by (bit_vector)
        requires
            g == ((code & 0x00ff00) >> 8) & 0xff,
    ;
    assert(b < 256) by (bit_vector)
        requires
            b == code & 0x0000ff,
    ;
    (r as u8, g as u8, b as u8)
}

/// Number of bits in which a sample of `bits` significant bits is stored.
pub open spec fn stored_bits(bits: u8) -> u8 {
    if bits > 8 {
        16
    } else {
        8
    }
}

/// A sample whose leading `written` bits are set, with those bits repeated
/// into the bits below them, `bits` at a time.
pub open spec fn repeated(sample: u16, bits: u8, written: u8) -> u16
    decreases written,
{
    if 0 < bits < written {
        repeated(sample | (sample >> bits), bits, (written - bits) as u8)
    } else {
        sample
    }
}

/// A sample of `bits` significant bits, widened to the stored width: it is
/// moved to the top, and its leading bits are repeated below it so that the
/// least sample stays all zeroes and the greatest becomes all ones.
pub open spec fn widened(sample: u16, bits: u8) -> u16 {
    repeated(sample << (stored_bits(bits) - bits) as u16, bits, stored_bits(bits))
}

/// Computes [`widened`].
pub fn widen(sample: u16, bits: u8) -> (r: u16)
    requires
        0 < bits <= 16,
    ensures
        r == widened(sample, bits),
{
    let mut written_bits: u8 = if bits > 8 {
        16
    } else {
        8
    };
    let mut p: u16 = sample << ((written_bits - bits) as u16);
    while written_bits > bits
        invariant
            0 < bits <= 16,
            written_bits <= 16,
            repeated(p, bits, written_bits) == widened(sample, bits),
        decreases written_bits,
    {
        p = p | (p >> (bits as u16));
        written_bits = written_bits - bits;
    }
    p
}

impl OutputColor {
    /// The colour with each channel widened to the stored width.
    pub open spec fn widened(self, bits: u8) -> OutputColor {
        OutputColor(widened(self.0, bits), widened(self.1, bits), widened(self.2, bits))
    }

    /// Computes [`OutputColor::widened`].
    pub fn widen(self, bits: u8) -> (r: OutputColor)
        requires
            0 < bits <= 16,
        ensures
            r == self.widened(bits),
    {
        OutputColor(widen(self.0, bits), widen(self.1, bits), widen(self.2, bits))
    }
}

/// Greatest sample of `bits` bits: the peak to which colours are scaled
/// before they are rounded.
pub fn max_sample(bits: u8) -> (max: u16)
    requires
        1 <= bits <= 16,
    ensures
        max == vstd::arithmetic::power2::pow2(bits as nat) - 1,
{
    let mut max: u16 = 0;
    let mut k: u8 = 0;
    proof {
        vstd::arithmetic::power2::lemma2_to64();
    }
    while k < bits
        invariant
            k <= bits <= 16,
            max == vstd::arithmetic::power2::pow2(k as nat) - 1,
            k < 16 ==> max <= 32767,
        decreases bits - k,
    {
        proof {
            vstd::arithmetic::power2::lemma_pow2_unfold((k + 1) as nat);
            if k + 1 < 16 {
                vstd::arithmetic::power2::lemma_pow2_strictly_increases((k + 1) as nat, 16);
            }
            vstd::arithmetic::power2::lemma_pow2_strictly_increases(k as nat, 16);
            vstd::arithmetic::power2::lemma2_to64();
        }
        max = 2 * max + 1;
        k = k + 1;
    }
    max
}

/// The column next to column `x` of a row of `width` pixels, `offset` columns
/// to the right, or `None` when that is outside the row: quantisation error
/// is spread only to pixels of the image.
pub fn neighbor(x: usize, offset: isize, width: usize) -> (r: Option<usize>)
    requires
        -1 <= offset <= 1,
        x < width,
    ensures
        r.is_some() <==> 0 <= x + offset < width,
        r matches Some(column) ==> column == x + offset,
{
    if offset < 0 {
        if x == 0 {
            None
        } else {
            Some(x - 1)
        }
    } else if offset == 0 {
        Some(x)
    } else if x + 1 < width {
        Some(x + 1)
    } else {
        None
    }
}

/// The column after column `x` in scan order, and whether the row ended with `x`.
pub fn advance(x: usize, width: usize) -> (r: (usize, bool))
    requires
        x < width,
    ensures
        r.1 == (x == width - 1),
        r.0 == (if x == width - 1 {
            0
        } else {
            x + 1
        }),
        r.0 < width,
{
    if x == width - 1 {
        (0, true)
    } else {
        (x + 1, false)
    }
}

} // verus!
