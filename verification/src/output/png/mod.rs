//! The PNG encoder: the header chunks, the scanlines with their filter
//! bytes, compressed and cut into data chunks, and the end chunk.

pub mod chunk;

use vstd::prelude::*;
use vstd::arithmetic::div_mod::lemma_small_mod;
use crate::color::{widened, OutputColor};
use crate::output::png::chunk::{
    data_chunk,
    lemma_payload_len,
    PngChunk,
    PngRenderingIntent,
    Timestamp,
    WriteError,
};

verus! {

/// Greatest payload of a data chunk.
pub const IDAT_SIZE: usize = 8192;

/// Gamma of an image in the sRGB colour space, times 100000.
pub const SRGB_GAMMA: u32 = 45454;

/// The zlib stream that holds `data`, as the compressor writes it at its
/// default level.
pub uninterp spec fn zlib_stream(data: Seq<u8>) -> Seq<u8>;

/// Compresses `data` into one zlib stream. Calls `flate2::write::ZlibEncoder`
/// on an empty vector with `Compression::default()`, writes all of `data` and
/// finishes the stream; the result is the stream, or `None` when the encoder
/// reports an error.
#[verifier::external_body]
fn deflate(data: &[u8]) -> (r: Option<Vec<u8>>)
    ensures
        r matches Some(stream) ==> stream@ == zlib_stream(data@),
{
    let mut encoder = flate2::write::ZlibEncoder::new(Vec::new(), flate2::Compression::default());
    match std::io::Write::write_all(&mut encoder, data) {
        Ok(()) => encoder.finish().ok(),
        Err(_) => None,
    }
}

/// Writes each slice it is given as one data chunk.
pub struct IdatWriter(pub Vec<u8>);

impl IdatWriter {
    /// Gives the sink back.
    pub fn finish(self) -> (dest: Vec<u8>)
        ensures
            dest@ == self.0@,
    {
        self.0
    }

    /// Writes `buf` as one data chunk and reports how many bytes were taken:
    /// all of them, or none when `buf` is too long for a chunk.
    pub fn write(&mut self, buf: &[u8]) -> (r: Result<usize, WriteError>)
        ensures
            r.is_ok() <==> buf@.len() <= u32::MAX,
            r matches Ok(n) ==> n == buf@.len() && final(self).0@ == old(self).0@ + PngChunk::Idat(
                buf,
            ).encoded(),
            r matches Err(e) ==> e == WriteError::ChunkTooLong && final(self).0@ == old(self).0@,
    {
        match PngChunk::Idat(buf).write_to(&mut self.0) {
            Ok(()) => Ok(buf.len()),
            Err(e) => Err(e),
        }
    }

    /// Writes all of `buf`: nothing when it is empty, else one data chunk.
    pub fn write_all(&mut self, buf: &[u8]) -> (r: Result<(), WriteError>)
        ensures
            r.is_ok() <==> buf@.len() <= u32::MAX,
            r.is_ok() ==> final(self).0@ == old(self).0@ + (if buf@.len() == 0 {
                Seq::<u8>::empty()
            } else {
                PngChunk::Idat(buf).encoded()
            }),
            r matches Err(e) ==> e == WriteError::ChunkTooLong && final(self).0@ == old(self).0@,
    {
        if buf.len() == 0 {
            assert(self.0@ + Seq::<u8>::empty() =~= self.0@);
            return Ok(());
        }
        match self.write(buf) {
            Ok(_) => Ok(()),
            Err(e) => Err(e),
        }
    }
}

/// How a scanline is filtered before it is compressed.
#[derive(Clone, Copy, Debug, PartialEq, Eq, Structural)]
pub enum FilterType {
    /// The bytes are kept as they are.
    Unfiltered,
}

impl FilterType {
    /// The byte that names the filter at the start of a scanline.
    pub open spec fn code(self) -> u8 {
        0
    }

    /// Computes [`FilterType::code`].
    pub fn number(self) -> (n: u8)
        ensures
            n == self.code(),
    {
        0
    }
}

/// The bytes `data` of an image whose scanlines are `size` bytes long, with
/// the filter byte put in front of every scanline; the first byte of `data`
/// stands at place `pos` of its scanline.
pub open spec fn framed(filter: FilterType, pos: int, size: int, data: Seq<u8>) -> Seq<u8>
    decreases data.len(),
{
    if data.len() == 0 {
        Seq::empty()
    } else {
        (if pos == 0 {
            seq![filter.code()]
        } else {
            Seq::empty()
        }) + seq![data[0]] + framed(filter, (pos + 1) % size, size, data.drop_first())
    }
}

/// A run of bytes that stays within one scanline is framed by at most one
/// filter byte in front of it.
pub proof fn lemma_framed_run(filter: FilterType, pos: int, size: int, run: Seq<u8>, rest: Seq<u8>)
    requires
        0 <= pos,
        0 < run.len(),
        pos + run.len() <= size,
    ensures
        framed(filter, pos, size, run + rest) == (if pos == 0 {
            seq![filter.code()]
        } else {
            Seq::empty()
        }) + run + framed(filter, (pos + run.len()) % size, size, rest),
    decreases run.len(),
{
    let whole = run + rest;
    assert(whole[0] == run[0]);
    assert(whole.drop_first() =~= run.drop_first() + rest);
    if run.len() == 1 {
        assert(run =~= seq![run[0]]);
        assert(run.drop_first() + rest =~= rest);
    } else {
        lemma_small_mod((pos + 1) as nat, size as nat);
        lemma_framed_run(filter, pos + 1, size, run.drop_first(), rest);
        assert(seq![run[0]] + (Seq::<u8>::empty() + run.drop_first()) =~= run);
        assert(framed(filter, pos, size, whole) =~= (if pos == 0 {
            seq![filter.code()]
        } else {
            Seq::empty()
        }) + run + framed(filter, (pos + run.len()) % size, size, rest));
    }
}

/// Writes scanlines to its sink, each with the filter byte in front.
pub struct FilterWriter {
    dest: Vec<u8>,
    current_filter: FilterType,
    next_filter: FilterType,
    scanline_size: usize,
    scanline_pos: usize,
}

impl FilterWriter {
    /// What has been written to the sink.
    pub closed spec fn written(&self) -> Seq<u8> {
        self.dest@
    }

    /// Length of a scanline.
    pub closed spec fn size(&self) -> int {
        self.scanline_size as int
    }

    /// Place in the scanline at which the next byte stands.
    pub closed spec fn pos(&self) -> int {
        self.scanline_pos as int
    }

    /// The filter of the scanlines to come.
    pub closed spec fn filter(&self) -> FilterType {
        self.next_filter
    }

    /// The writer is within a scanline of positive length.
    pub open spec fn wf(&self) -> bool {
        0 <= self.pos() < self.size()
    }

    /// A writer at the start of a scanline.
    pub fn new(dest: Vec<u8>, filter: FilterType, scanline_size: usize) -> (writer: FilterWriter)
        requires
            scanline_size > 0,
        ensures
            writer.wf(),
            writer.written() == dest@,
            writer.size() == scanline_size,
            writer.pos() == 0,
            writer.filter() == filter,
    {
        FilterWriter {
            dest,
            current_filter: filter,
            next_filter: filter,
            scanline_size,
            scanline_pos: 0,
        }
    }

    /// Gives the sink back.
    pub fn finish(self) -> (dest: Vec<u8>)
        ensures
            dest@ == self.written(),
    {
        self.dest
    }

    /// What has been written to the sink.
    pub fn bytes(&self) -> (dest: &[u8])
        ensures
            dest@ == self.written(),
    {
        self.dest.as_slice()
    }

    /// Writes as much of `buf` as the current scanline takes, after the filter
    /// byte when the scanline starts, and reports how many bytes were taken.
    pub fn write(&mut self, buf: &[u8]) -> (amount: usize)
        requires
            old(self).wf(),
        ensures
            final(self).wf(),
            final(self).size() == old(self).size(),
            final(self).filter() == old(self).filter(),
            amount == (if buf@.len() <= old(self).size() - old(self).pos() {
                buf@.len() as int
            } else {
                old(self).size() - old(self).pos()
            }),
            final(self).pos() == (old(self).pos() + amount) % old(self).size(),
            final(self).written() == old(self).written() + (if old(self).pos() == 0 {
                seq![old(self).filter().code()]
            } else {
                Seq::empty()
            }) + buf@.take(amount as int),
    {
        let left = self.scanline_size - self.scanline_pos;
        let amount = if buf.len() < left {
            buf.len()
        } else {
            left
        };
        let ghost start = self.dest@;
        if self.scanline_pos == 0 {
            self.current_filter = self.next_filter;
            self.dest.push(self.current_filter.number());
        }
        self.dest.extend_from_slice(vstd::slice::slice_subrange(buf, 0, amount));
        self.scanline_pos = (self.scanline_pos + amount) % self.scanline_size;
        assert(self.dest@ =~= start + (if old(self).pos() == 0 {
            seq![old(self).filter().code()]
        } else {
            Seq::empty()
        }) + buf@.take(amount as int));
        amount
    }

    /// Writes all of `buf`, scanline by scanline.
    pub fn write_all(&mut self, buf: &[u8]) -> (r: Result<(), WriteError>)
        requires
            old(self).wf(),
        ensures
            r.is_ok(),
            final(self).wf(),
            final(self).size() == old(self).size(),
            final(self).filter() == old(self).filter(),
            final(self).pos() == (old(self).pos() + buf@.len()) % old(self).size(),
            final(self).written() == old(self).written() + framed(
                old(self).filter(),
                old(self).pos(),
                old(self).size(),
                buf@,
            ),
    {
        let ghost size = self.size();
        let ghost filter = self.filter();
        let mut done: usize = 0;
        proof {
            lemma_small_mod(self.pos() as nat, size as nat);
            assert(buf@.skip(0) =~= buf@);
            assert(self.dest@ + framed(filter, self.pos(), size, buf@) =~= old(self).written()
                + framed(filter, old(self).pos(), size, buf@));
        }
        while done < buf.len()
            invariant
                done <= buf@.len(),
                self.wf(),
                self.size() == size,
                size == old(self).size(),
                self.filter() == filter,
                filter == old(self).filter(),
                self.pos() == (old(self).pos() + done) % size,
                self.written() + framed(filter, self.pos(), size, buf@.skip(done as int)) == old(
                    self,
                ).written() + framed(filter, old(self).pos(), size, buf@),
            decreases buf@.len() - done,
        {
            let ghost pos = self.pos();
            let ghost before = self.written();
            let rest = vstd::slice::slice_subrange(buf, done, buf.len());
            let n = self.write(rest);
            proof {
                let run = rest@.take(n as int);
                let tail = rest@.skip(n as int);
                assert(rest@ =~= run + tail);
                assert(n > 0);
                lemma_framed_run(filter, pos, size, run, tail);
                assert(buf@.skip(done as int + n as int) =~= tail);
                vstd::arithmetic::div_mod::lemma_add_mod_noop(
                    old(self).pos() + done,
                    n as int,
                    size,
                );
                lemma_small_mod(pos as nat, size as nat);
                vstd::arithmetic::div_mod::lemma_mod_twice(old(self).pos() + done, size);
                vstd::arithmetic::div_mod::lemma_add_mod_noop(pos, n as int, size);
                assert(self.written() + framed(filter, self.pos(), size, tail) =~= before + framed(
                    filter,
                    pos,
                    size,
                    rest@,
                ));
            }
            done = done + n;
        }
        proof {
            assert(buf@.skip(done as int) =~= Seq::<u8>::empty());
            assert(self.written() + Seq::<u8>::empty() =~= self.written());
        }
        Ok(())
    }
}

/// The bytes of one pixel: one byte per channel up to eight bits, else two,
/// the high byte first.
pub open spec fn pixel_bytes(p: OutputColor, bits: u8) -> Seq<u8> {
    let w = p.widened(bits);
    if bits <= 8 {
        seq![(w.0 & 0xff) as u8, (w.1 & 0xff) as u8, (w.2 & 0xff) as u8]
    } else {
        seq![
            ((w.0 >> 8) & 0xff) as u8,
            (w.0 & 0xff) as u8,
            ((w.1 >> 8) & 0xff) as u8,
            (w.1 & 0xff) as u8,
            ((w.2 >> 8) & 0xff) as u8,
            (w.2 & 0xff) as u8,
        ]
    }
}

/// The bytes of a run of pixels.
pub open spec fn pixels_bytes(pixels: Seq<OutputColor>, bits: u8) -> Seq<u8>
    decreases pixels.len(),
{
    if pixels.len() == 0 {
        Seq::empty()
    } else {
        pixels_bytes(pixels.drop_last(), bits) + pixel_bytes(pixels.last(), bits)
    }
}

/// The signature of a PNG file.
pub open spec fn signature() -> Seq<u8> {
    seq![0x89u8, 0x50u8, 0x4eu8, 0x47u8, 0x0du8, 0x0au8, 0x1au8, 0x0au8]
}

/// What stands before the image data: the signature, the header chunk, the
/// significant bits where they are not the stored ones, the time if one is
/// given, and gamma and rendering intent if an intent is given.
pub open spec fn preamble(
    width: u32,
    height: u32,
    bits: u8,
    time: Option<Timestamp>,
    srgb: Option<PngRenderingIntent>,
) -> Seq<u8> {
    signature() + (PngChunk::Ihdr {
        width,
        height,
        bit_depth: if bits <= 8 {
            8
        } else {
            16
        },
    }).encoded() + (if bits != 8 && bits != 16 {
        PngChunk::Sbit(bits).encoded()
    } else {
        Seq::empty()
    }) + (match time {
        Some(t) => PngChunk::Time(t).encoded(),
        None => Seq::empty(),
    }) + (match srgb {
        Some(intent) => PngChunk::Gama(SRGB_GAMMA).encoded() + PngChunk::Srgb(intent).encoded(),
        None => Seq::empty(),
    })
}

/// A compressed stream cut into data chunks of at most [`IDAT_SIZE`] bytes.
pub open spec fn data_chunks(stream: Seq<u8>) -> Seq<u8>
    decreases stream.len(),
{
    if stream.len() == 0 {
        Seq::empty()
    } else if stream.len() <= IDAT_SIZE {
        data_chunk(stream)
    } else {
        data_chunk(stream.take(IDAT_SIZE as int)) + data_chunks(stream.skip(IDAT_SIZE as int))
    }
}

/// Appends a compressed stream as data chunks of at most [`IDAT_SIZE`] bytes.
pub fn write_data(out: &mut Vec<u8>, stream: &[u8])
    ensures
        final(out)@ == old(out)@ + data_chunks(stream@),
{
    let mut sink = IdatWriter(Vec::new());
    let mut done: usize = 0;
    proof {
        assert(stream@.skip(0) =~= stream@);
    }
    while done < stream.len()
        invariant
            done <= stream@.len(),
            sink.0@ + data_chunks(stream@.skip(done as int)) == data_chunks(stream@),
        decreases stream@.len() - done,
    {
        let left = stream.len() - done;
        let n = if left < IDAT_SIZE {
            left
        } else {
            IDAT_SIZE
        };
        let block = vstd::slice::slice_subrange(stream, done, done + n);
        let ghost before = sink.0@;
        let ghost rest = stream@.skip(done as int);
        let r = sink.write_all(block);
        proof {
            assert(r.is_ok());
            assert(PngChunk::Idat(block).encoded() =~= data_chunk(block@));
            if left <= IDAT_SIZE {
                assert(block@ =~= rest);
                assert(stream@.skip(done as int + n as int) =~= Seq::<u8>::empty());
                assert(sink.0@ + Seq::<u8>::empty() =~= before + data_chunks(rest));
            } else {
                assert(block@ =~= rest.take(IDAT_SIZE as int));
                assert(stream@.skip(done as int + n as int) =~= rest.skip(IDAT_SIZE as int));
                assert(sink.0@ + data_chunks(rest.skip(IDAT_SIZE as int)) =~= before + data_chunks(
                    rest,
                ));
            }
        }
        done = done + n;
    }
    let mut chunks = sink.finish();
    proof {
        assert(stream@.skip(done as int) =~= Seq::<u8>::empty());
        assert(chunks@ + Seq::<u8>::empty() =~= chunks@);
    }
    out.append(&mut chunks);
}

/// Appends the bytes of one pixel.
pub fn push_pixel(w: &mut Vec<u8>, p: OutputColor, bits: u8)
    requires
        0 < bits <= 16,
    ensures
        final(w)@ == old(w)@ + pixel_bytes(p, bits),
{
    let wide = p.widen(bits);
    let (c0, c1, c2) = (wide.0, wide.1, wide.2);
    let l0: u16 = c0 & 0xff;
    let l1: u16 = c1 & 0xff;
    let l2: u16 = c2 & 0xff;
    let h0: u16 = (c0 >> 8) & 0xff;
    let h1: u16 = (c1 >> 8) & 0xff;
    let h2: u16 = (c2 >> 8) & 0xff;
    assert(l0 < 256 && l1 < 256 && l2 < 256 && h0 < 256 && h1 < 256 && h2 < 256) by (bit_vector)
        requires
            l0 == c0 & 0xff,
            l1 == c1 & 0xff,
            l2 == c2 & 0xff,
            h0 == (c0 >> 8) & 0xff,
            h1 == (c1 >> 8) & 0xff,
            h2 == (c2 >> 8) & 0xff,
    ;
    if bits <= 8 {
        w.push(l0 as u8);
        w.push(l1 as u8);
        w.push(l2 as u8);
    } else {
        w.push(h0 as u8);
        w.push(l0 as u8);
        w.push(h1 as u8);
        w.push(l1 as u8);
        w.push(h2 as u8);
        w.push(l2 as u8);
    }
    assert(w@ =~= old(w)@ + pixel_bytes(p, bits));
}

/// Writes an image as a PNG file.
pub struct PngWriter {
    buf: Vec<u8>,
    pixel_writer: Option<FilterWriter>,
    width: usize,
    height: usize,
    bits: u8,
    time: Option<Timestamp>,
    srgb: Option<PngRenderingIntent>,
}

impl PngWriter {
    /// What has been written before the image data.
    pub closed spec fn written(&self) -> Seq<u8> {
        self.buf@
    }

    /// The scanlines written so far, each with its filter byte; `None` until
    /// pixels are written for the first time.
    pub closed spec fn scanlines(&self) -> Option<Seq<u8>> {
        match self.pixel_writer {
            Some(pw) => Some(pw.written()),
            None => None,
        }
    }

    /// Place in the scanline at which the next pixel byte stands.
    pub closed spec fn pos(&self) -> int {
        match self.pixel_writer {
            Some(pw) => pw.pos(),
            None => 0,
        }
    }

    /// Length of a scanline in bytes.
    pub closed spec fn scanline_len(&self) -> int {
        self.width * 3 * (if self.bits <= 8 {
            1int
        } else {
            2int
        })
    }

    /// The preamble that the writer writes.
    pub closed spec fn heading(&self) -> Seq<u8> {
        preamble(self.width as u32, self.height as u32, self.bits, self.time, self.srgb)
    }

    /// Bits per channel.
    pub closed spec fn depth(&self) -> u8 {
        self.bits
    }

    /// The size and the bit depth can be written, and the scanline writer, if
    /// there is one, stands within a scanline of the image.
    pub closed spec fn wf(&self) -> bool {
        &&& 0 < self.bits <= 16
        &&& 0 < self.width <= u32::MAX
        &&& self.height <= u32::MAX
        &&& self.width * 6 <= usize::MAX
        &&& self.pixel_writer matches Some(pw) ==> pw.wf() && pw.size() == self.scanline_len()
            && pw.filter() == FilterType::Unfiltered
    }

    /// A writer that appends to `dest` an image of the given size with `bits`
    /// significant bits per channel.
    pub fn new(
        dest: Vec<u8>,
        size: (usize, usize),
        bits: u8,
        time: Option<Timestamp>,
        srgb: Option<PngRenderingIntent>,
    ) -> (writer: PngWriter)
        requires
            0 < bits <= 16,
            0 < size.0 <= u32::MAX,
            size.1 <= u32::MAX,
            size.0 * 6 <= usize::MAX,
        ensures
            writer.wf(),
            writer.written() == dest@,
            writer.scanlines().is_none(),
            writer.pos() == 0,
            writer.depth() == bits,
            writer.heading() == preamble(size.0 as u32, size.1 as u32, bits, time, srgb),
            writer.scanline_len() == size.0 * 3 * (if bits <= 8 {
                1int
            } else {
                2int
            }),
    {
        PngWriter { buf: dest, pixel_writer: None, width: size.0, height: size.1, bits, time, srgb }
    }

    /// Writes the signature and the chunks that stand before the image data.
    pub fn write_header(&mut self)
        requires
            old(self).wf(),
        ensures
            final(self).wf(),
            final(self).written() == old(self).written() + old(self).heading(),
            final(self).heading() == old(self).heading(),
            final(self).scanlines() == old(self).scanlines(),
            final(self).pos() == old(self).pos(),
            final(self).depth() == old(self).depth(),
            final(self).scanline_len() == old(self).scanline_len(),
    {
        let ghost start = self.buf@;
        self.buf.push(0x89);
        self.buf.push(0x50);
        self.buf.push(0x4e);
        self.buf.push(0x47);
        self.buf.push(0x0d);
        self.buf.push(0x0a);
        self.buf.push(0x1a);
        self.buf.push(0x0a);
        assert(self.buf@ =~= start + signature());
        let header = PngChunk::Ihdr {
            width: self.width as u32,
            height: self.height as u32,
            bit_depth: if self.bits <= 8 {
                8
            } else {
                16
            },
        };
        proof {
            lemma_payload_len(header);
        }
        let r = header.write_to(&mut self.buf);
        let ghost part1 = signature() + header.encoded();
        assert(self.buf@ =~= start + part1);
        let ghost sbit = if self.bits != 8 && self.bits != 16 {
            PngChunk::Sbit(self.bits).encoded()
        } else {
            Seq::empty()
        };
        if self.bits != 8 && self.bits != 16 {
            proof {
                lemma_payload_len(PngChunk::Sbit(self.bits));
            }
            let r = PngChunk::Sbit(self.bits).write_to(&mut self.buf);
        }
        let ghost part2 = part1 + sbit;
        assert(self.buf@ =~= start + part2);
        let ghost stamp = match self.time {
            Some(t) => PngChunk::Time(t).encoded(),
            None => Seq::empty(),
        };
        match self.time {
            Some(time) => {
                proof {
                    lemma_payload_len(PngChunk::Time(time));
                }
                let r = PngChunk::Time(time).write_to(&mut self.buf);
            },
            None => {},
        }
        let ghost part3 = part2 + stamp;
        assert(self.buf@ =~= start + part3);
        let ghost colour = match self.srgb {
            Some(intent) => PngChunk::Gama(SRGB_GAMMA).encoded() + PngChunk::Srgb(intent).encoded(),
            None => Seq::empty(),
        };
        match self.srgb {
            Some(intent) => {
                proof {
                    lemma_payload_len(PngChunk::Gama(SRGB_GAMMA));
                    lemma_payload_len(PngChunk::Srgb(intent));
                }
                let r = PngChunk::Gama(SRGB_GAMMA).write_to(&mut self.buf);
                let r = PngChunk::Srgb(intent).write_to(&mut self.buf);
            },
            None => {},
        }
        assert(self.buf@ =~= start + (part3 + colour));
        assert(part3 + colour == self.heading());
    }

    /// Writes pixels, in the order of the image, into the scanlines.
    pub fn write_pixels(&mut self, pixels: &[OutputColor])
        requires
            old(self).wf(),
        ensures
            final(self).wf(),
            final(self).written() == old(self).written(),
            final(self).heading() == old(self).heading(),
            final(self).depth() == old(self).depth(),
            final(self).scanline_len() == old(self).scanline_len(),
            final(self).scanlines() == Some(
                (match old(self).scanlines() {
                    Some(lines) => lines,
                    None => Seq::empty(),
                }) + framed(
                    FilterType::Unfiltered,
                    old(self).pos(),
                    old(self).scanline_len(),
                    pixels_bytes(pixels@, old(self).depth()),
                ),
            ),
            final(self).pos() == (old(self).pos() + pixels_bytes(pixels@, old(self).depth()).len())
                % old(self).scanline_len(),
    {
        let bits = self.bits;
        let mut bytes: Vec<u8> = Vec::new();
        let mut k: usize = 0;
        while k < pixels.len()
            invariant
                k <= pixels@.len(),
                0 < bits <= 16,
                bytes@ == pixels_bytes(pixels@.take(k as int), bits),
            decreases pixels@.len() - k,
        {
            let ghost upto = pixels@.take(k as int + 1);
            proof {
                assert(upto.drop_last() =~= pixels@.take(k as int));
                assert(upto.last() == pixels@[k as int]);
            }
            push_pixel(&mut bytes, pixels[k], bits);
            k = k + 1;
        }
        assert(pixels@.take(k as int) =~= pixels@);
        let mut pw = match self.pixel_writer.take() {
            Some(pw) => pw,
            None => FilterWriter::new(
                Vec::new(),
                FilterType::Unfiltered,
                self.width * 3 * if self.bits <= 8 {
                    1
                } else {
                    2
                },
            ),
        };
        let ghost lines = pw.written();
        let r = pw.write_all(bytes.as_slice());
        assert(lines =~= (match old(self).scanlines() {
            Some(lines) => lines,
            None => Seq::empty(),
        }));
        self.pixel_writer = Some(pw);
    }

    /// Ends the image given the compressed scanlines, if there are scanlines:
    /// appends the data chunks and the end chunk and gives back what was
    /// written. Fails when there are scanlines and no compressed stream.
    pub fn end_with(self, stream: Option<Vec<u8>>) -> (r: Result<Vec<u8>, WriteError>)
        ensures
            r.is_ok() <==> (self.scanlines().is_some() ==> stream.is_some()),
            r matches Ok(out) ==> out@ == self.written() + (if self.scanlines().is_some() {
                data_chunks(stream.unwrap()@)
            } else {
                Seq::empty()
            }) + PngChunk::Iend.encoded(),
            r matches Err(e) ==> e == WriteError::Compression,
    {
        let mut buf = self.buf;
        let ghost start = buf@;
        match self.pixel_writer {
            Some(_) => match stream {
                Some(stream) => {
                    write_data(&mut buf, stream.as_slice());
                },
                None => {
                    return Err(WriteError::Compression);
                },
            },
            None => {},
        }
        let ghost middle = buf@;
        proof {
            lemma_payload_len(PngChunk::Iend);
        }
        let r = PngChunk::Iend.write_to(&mut buf);
        assert(buf@ =~= start + (if self.scanlines().is_some() {
            data_chunks(stream.unwrap()@)
        } else {
            Seq::empty()
        }) + PngChunk::Iend.encoded());
        Ok(buf)
    }

    /// Ends the image: compresses the scanlines, if pixels were written, and
    /// appends the data chunks and the end chunk.
    pub fn end(self) -> (r: Result<Vec<u8>, WriteError>)
        ensures
            self.scanlines().is_none() ==> r.is_ok(),
            r matches Ok(out) ==> out@ == self.written() + (match self.scanlines() {
                Some(lines) => data_chunks(zlib_stream(lines)),
                None => Seq::empty(),
            }) + PngChunk::Iend.encoded(),
            r matches Err(e) ==> e == WriteError::Compression,
    {
        let stream = match &self.pixel_writer {
            Some(pw) => deflate(pw.bytes()),
            None => None,
        };
        self.end_with(stream)
    }
}

} // verus!
