//! The PPM encoder: a text header and three bytes per pixel.

use vstd::prelude::*;
use crate::color::OutputColor;

verus! {

/// The digits of a number in base ten, as characters.
pub open spec fn decimal(n: nat) -> Seq<u8>
    decreases n,
{
    if n < 10 {
        seq![(48 + n) as u8]
    } else {
        decimal(n / 10).push((48 + n % 10) as u8)
    }
}

/// The header of a binary pixmap: the magic number, the width and the height
/// on one line, and the greatest sample value.
pub open spec fn header(width: nat, height: nat, max: nat) -> Seq<u8> {
    seq![80u8, 54u8, 10u8] + decimal(width) + seq![32u8] + decimal(height) + seq![10u8] + decimal(
        max,
    ) + seq![10u8]
}

/// The low byte of each channel of each pixel.
pub open spec fn samples(pixels: Seq<OutputColor>) -> Seq<u8>
    decreases pixels.len(),
{
    if pixels.len() == 0 {
        Seq::empty()
    } else {
        samples(pixels.drop_last()) + seq![
            (pixels.last().0 & 0xff) as u8,
            (pixels.last().1 & 0xff) as u8,
            (pixels.last().2 & 0xff) as u8,
        ]
    }
}

/// Appends a number in base ten.
pub fn push_decimal(w: &mut Vec<u8>, n: usize)
    ensures
        final(w)@ == old(w)@ + decimal(n as nat),
{
    let mut digits: Vec<u8> = Vec::new();
    let mut rest: usize = n;
    while rest >= 10
        invariant
            decimal(n as nat) == decimal(rest as nat) + digits@.reverse(),
        decreases rest,
    {
        let d: u8 = (rest % 10) as u8;
        let ghost before = digits@;
        let ghost prior = rest;
        digits.push(48 + d);
        rest = rest / 10;
        proof {
            assert(decimal(prior as nat) == decimal(rest as nat).push((48 + d) as u8));
            assert(digits@.reverse() =~= seq![(48 + d) as u8] + before.reverse());
            assert(decimal(prior as nat) + before.reverse() =~= decimal(rest as nat)
                + digits@.reverse());
        }
    }
    w.push(48 + (rest as u8));
    let ghost last = digits@;
    let mut k: usize = digits.len();
    while k > 0
        invariant
            k <= digits@.len(),
            digits@ == last,
            w@ == old(w)@ + decimal(rest as nat) + last.reverse().take(last.len() - k),
        decreases k,
    {
        k = k - 1;
        w.push(digits[k]);
        assert(w@ =~= old(w)@ + decimal(rest as nat) + last.reverse().take(last.len() - k));
    }
    proof {
        assert(last.reverse().take(last.len() as int) =~= last.reverse());
        assert(w@ =~= old(w)@ + decimal(n as nat));
    }
}

/// Writes an image as a binary pixmap.
pub struct PpmWriter {
    dest: Vec<u8>,
    width: usize,
    height: usize,
    max: usize,
}

impl PpmWriter {
    /// What has been written.
    pub closed spec fn written(&self) -> Seq<u8> {
        self.dest@
    }

    /// The header that the writer writes.
    pub closed spec fn heading(&self) -> Seq<u8> {
        header(self.width as nat, self.height as nat, self.max as nat)
    }

    /// A writer that appends to `dest` an image of the given size with `bits`
    /// bits per channel, eight at most.
    pub fn new(dest: Vec<u8>, size: (usize, usize), bits: u8) -> (writer: PpmWriter)
        requires
            bits <= 8,
        ensures
            writer.written() == dest@,
            writer.heading() == header(
                size.0 as nat,
                size.1 as nat,
                (vstd::arithmetic::power2::pow2(bits as nat) - 1) as nat,
            ),
    {
        let mut max: usize = 0;
        let mut k: u8 = 0;
        proof {
            vstd::arithmetic::power2::lemma2_to64();
        }
        while k < bits
            invariant
                k <= bits <= 8,
                max == vstd::arithmetic::power2::pow2(k as nat) - 1,
                max <= 255,
            decreases bits - k,
        {
            proof {
                vstd::arithmetic::power2::lemma_pow2_unfold((k + 1) as nat);
                vstd::arithmetic::power2::lemma_pow2_strictly_increases((k + 1) as nat, 9);
                vstd::arithmetic::power2::lemma2_to64();
            }
            max = 2 * max + 1;
            k = k + 1;
        }
        PpmWriter { dest, width: size.0, height: size.1, max }
    }

    /// Writes the header.
    pub fn write_header(&mut self)
        ensures
            final(self).written() == old(self).written() + old(self).heading(),
            final(self).heading() == old(self).heading(),
    {
        let ghost start = self.dest@;
        self.dest.push(80);
        self.dest.push(54);
        self.dest.push(10);
        push_decimal(&mut self.dest, self.width);
        self.dest.push(32);
        push_decimal(&mut self.dest, self.height);
        self.dest.push(10);
        push_decimal(&mut self.dest, self.max);
        self.dest.push(10);
        assert(self.dest@ =~= start + header(
            self.width as nat,
            self.height as nat,
            self.max as nat,
        ));
    }

    /// Writes pixels: the low byte of red, green and blue of each.
    pub fn write_pixels(&mut self, pixels: &[OutputColor])
        ensures
            final(self).written() == old(self).written() + samples(pixels@),
            final(self).heading() == old(self).heading(),
    {
        let ghost start = self.dest@;
        let mut k: usize = 0;
        while k < pixels.len()
            invariant
                k <= pixels@.len(),
                self.width == old(self).width,
                self.height == old(self).height,
                self.max == old(self).max,
                self.dest@ == start + samples(pixels@.take(k as int)),
            decreases pixels@.len() - k,
        {
            let p = pixels[k];
            let (p0, p1, p2) = (p.0, p.1, p.2);
            let r: u16 = p0 & 0xff;
            let g: u16 = p1 & 0xff;
            let b: u16 = p2 & 0xff;
            assert(r < 256 && g < 256 && b < 256) by (bit_vector)
                requires
                    r == p0 & 0xff,
                    g == p1 & 0xff,
                    b == p2 & 0xff,
            ;
            self.dest.push(r as u8);
            self.dest.push(g as u8);
            self.dest.push(b as u8);
            proof {
                let upto = pixels@.take(k as int + 1);
                assert(upto.drop_last() =~= pixels@.take(k as int));
                assert(upto.last() == p);
                assert(self.dest@ =~= start + samples(upto));
            }
            k = k + 1;
        }
        assert(pixels@.take(k as int) =~= pixels@);
    }

    /// Ends the image and gives back what was written.
    pub fn end(self) -> (dest: Vec<u8>)
        ensures
            dest@ == self.written(),
    {
        self.dest
    }
}

} // verus!
