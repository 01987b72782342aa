//! Chunks of a PNG file: a length, a four-letter tag, the payload, and a
//! check value over tag and payload.

use vstd::prelude::*;
use vstd::utf8::encode_utf8;

verus! {

/// Why bytes could not be framed.
#[derive(Clone, Copy, Debug, PartialEq, Eq, Structural)]
pub enum WriteError {
    /// The payload is longer than the length field of a chunk can say.
    ChunkTooLong,
    /// The compressor did not accept the image data.
    Compression,
}

/// How the colours of the image are meant to be rendered.
#[derive(Clone, Copy, Debug, PartialEq, Eq, Structural)]
pub enum PngRenderingIntent {
    Perceptual,
    RelativeColorimetric,
    Saturation,
    AbsoluteColorimetric,
}

/// Text of an international text chunk.
#[derive(Debug)]
pub enum TextData {
    Uncompressed(String),
    Compressed(Vec<u8>),
}

/// A moment in universal time, as a time chunk holds it.
#[derive(Clone, Copy, Debug, PartialEq, Eq, Structural)]
pub struct Timestamp {
    pub year: u16,
    pub month: u8,
    pub day: u8,
    pub hour: u8,
    pub minute: u8,
    pub second: u8,
}

/// The chunks that the encoder writes.
#[derive(Debug)]
pub enum PngChunk<'a> {
    Ihdr { width: u32, height: u32, bit_depth: u8 },
    Idat(&'a [u8]),
    Iend,
    /// Significant bits per channel.
    Sbit(u8),
    /// Gamma of the image, times 100000.
    Gama(u32),
    Srgb(PngRenderingIntent),
    Itxt {
        keyword: String,
        language: Option<String>,
        translated_keyword: Option<String>,
        text: TextData,
    },
    Time(Timestamp),
}

/// One step of the check value: the register is shifted right by one bit and
/// the polynomial is added in when a one fell out.
pub open spec fn crc_shift(c: u32) -> u32 {
    if c & 1 != 0 {
        0xedb88320u32 ^ (c >> 1)
    } else {
        c >> 1
    }
}

/// `k` steps of the check value.
pub open spec fn crc_shifts(c: u32, k: nat) -> u32
    decreases k,
{
    if k == 0 {
        c
    } else {
        crc_shift(crc_shifts(c, (k - 1) as nat))
    }
}

/// The register after one more byte.
pub open spec fn crc_next(state: u32, byte: u8) -> u32 {
    crc_shifts((state ^ (byte as u32)) & 0xff, 8) ^ (state >> 8)
}

/// The register after the bytes, from `state`.
pub open spec fn crc_run(state: u32, bytes: Seq<u8>) -> u32
    decreases bytes.len(),
{
    if bytes.len() == 0 {
        state
    } else {
        crc_next(crc_run(state, bytes.drop_last()), bytes.last())
    }
}

/// The check value of the bytes: the register starts with all bits set and
/// is inverted at the end.
pub open spec fn crc32(bytes: Seq<u8>) -> u32 {
    !crc_run(0xffffffffu32, bytes)
}

/// The four bytes of a number, most significant first.
pub open spec fn be_bytes(v: u32) -> Seq<u8> {
    seq![
        ((v >> 24) & 0xff) as u8,
        ((v >> 16) & 0xff) as u8,
        ((v >> 8) & 0xff) as u8,
        (v & 0xff) as u8,
    ]
}

/// The bytes of an optional string: none when it is absent.
pub open spec fn optional_bytes(s: Option<String>) -> Seq<u8> {
    match s {
        Some(s) => encode_utf8(s@),
        None => Seq::empty(),
    }
}

/// The data chunk that holds `data`.
pub open spec fn data_chunk(data: Seq<u8>) -> Seq<u8> {
    be_bytes(data.len() as u32) + seq![73u8, 68u8, 65u8, 84u8] + data + be_bytes(
        crc32(seq![73u8, 68u8, 65u8, 84u8] + data),
    )
}

/// The chunks of fixed size have the payload lengths that the format gives them.
pub proof fn lemma_payload_len(chunk: PngChunk)
    ensures
        chunk is Ihdr ==> chunk.payload().len() == 13,
        chunk is Iend ==> chunk.payload().len() == 0,
        chunk is Sbit ==> chunk.payload().len() == 3,
        chunk is Gama ==> chunk.payload().len() == 4,
        chunk is Srgb ==> chunk.payload().len() == 1,
        chunk is Time ==> chunk.payload().len() == 7,
{
}

/// Running the register over two runs of bytes is running it over both.
pub proof fn lemma_crc_run_concat(state: u32, a: Seq<u8>, b: Seq<u8>)
    ensures
        crc_run(crc_run(state, a), b) == crc_run(state, a + b),
    decreases b.len(),
{
    if b.len() == 0 {
        assert(a + b =~= a);
    } else {
        lemma_crc_run_concat(state, a, b.drop_last());
        assert((a + b).drop_last() =~= a + b.drop_last());
        assert((a + b).last() == b.last());
    }
}

/// Appends the four bytes of a number, most significant first.
pub fn push_be_bytes(w: &mut Vec<u8>, v: u32)
    ensures
        final(w)@ == old(w)@ + be_bytes(v),
{
    let b0: u32 = (v >> 24) & 0xff;
    let b1: u32 = (v >> 16) & 0xff;
    let b2: u32 = (v >> 8) & 0xff;
    let b3: u32 = v & 0xff;
    assert(b0 < 256) by (bit_vector)
        requires
            b0 == (v >> 24) & 0xff,
    ;
    assert(b1 < 256) by (bit_vector)
        requires
            b1 == (v >> 16) & 0xff,
    ;
    assert(b2 < 256) by (bit_vector)
        requires
            b2 == (v >> 8) & 0xff,
    ;
    assert(b3 < 256) by (bit_vector)
        requires
            b3 == v & 0xff,
    ;
    w.push(b0 as u8);
    w.push(b1 as u8);
    w.push(b2 as u8);
    w.push(b3 as u8);
    assert(w@ =~= old(w)@ + be_bytes(v));
}

/// A sink that keeps the check value of what is written through it.
pub struct Crc32(u32, Vec<u8>);

impl Crc32 {
    /// The register.
    pub closed spec fn state(&self) -> u32 {
        self.0
    }

    /// What has been written.
    pub closed spec fn written(&self) -> Seq<u8> {
        self.1@
    }

    /// Wraps `dest`; the check value starts afresh.
    pub fn new(dest: Vec<u8>) -> (crc: Crc32)
        ensures
            crc.state() == 0xffffffffu32,
            crc.written() == dest@,
    {
        Crc32(0xffffffff, dest)
    }

    fn update(&mut self, buf: &[u8])
        ensures
            final(self).state() == crc_run(old(self).state(), buf@),
            final(self).written() == old(self).written(),
    {
        let mut k: usize = 0;
        while k < buf.len()
            invariant
                k <= buf@.len(),
                self.1@ == old(self).1@,
                self.0 == crc_run(old(self).0, buf@.take(k as int)),
            decreases buf@.len() - k,
        {
            let b = buf[k];
            let mut c: u32 = (self.0 ^ (b as u32)) & 0xff;
            let mut i: usize = 0;
            while i < 8
                invariant
                    i <= 8,
                    c == crc_shifts((self.0 ^ (b as u32)) & 0xff, i as nat),
                decreases 8 - i,
            {
                if c & 1 != 0 {
                    c = 0xedb88320u32 ^ (c >> 1);
                } else {
                    c = c >> 1;
                }
                i = i + 1;
            }
            proof {
                assert(buf@.take(k as int + 1).drop_last() =~= buf@.take(k as int));
                assert(buf@.take(k as int + 1).last() == b);
            }
            self.0 = c ^ (self.0 >> 8);
            k = k + 1;
        }
        assert(buf@.take(k as int) =~= buf@);
    }

    /// The check value of what was written since the sink was made.
    pub fn get(&self) -> (v: u32)
        ensures
            v == !self.state(),
    {
        !self.0
    }

    /// Writes the bytes through and takes them into the check value.
    pub fn write(&mut self, buf: &[u8]) -> (n: usize)
        ensures
            n == buf@.len(),
            final(self).written() == old(self).written() + buf@,
            final(self).state() == crc_run(old(self).state(), buf@),
    {
        self.1.extend_from_slice(buf);
        self.update(buf);
        buf.len()
    }

    /// Gives the sink back.
    pub fn finish(self) -> (dest: Vec<u8>)
        ensures
            dest@ == self.written(),
    {
        self.1
    }
}

impl PngRenderingIntent {
    /// The number that stands for the intent in a file.
    pub open spec fn code(self) -> u8 {
        match self {
            PngRenderingIntent::Perceptual => 0,
            PngRenderingIntent::RelativeColorimetric => 1,
            PngRenderingIntent::Saturation => 2,
            PngRenderingIntent::AbsoluteColorimetric => 3,
        }
    }

    /// Computes [`PngRenderingIntent::code`].
    pub fn number(self) -> (n: u8)
        ensures
            n == self.code(),
    {
        match self {
            PngRenderingIntent::Perceptual => 0,
            PngRenderingIntent::RelativeColorimetric => 1,
            PngRenderingIntent::Saturation => 2,
            PngRenderingIntent::AbsoluteColorimetric => 3,
        }
    }
}

impl TextData {
    /// The bytes of the text.
    pub open spec fn bytes(self) -> Seq<u8> {
        match self {
            TextData::Uncompressed(s) => encode_utf8(s@),
            TextData::Compressed(v) => v@,
        }
    }

    /// The compression flag of the text.
    pub open spec fn flag(self) -> u8 {
        match self {
            TextData::Uncompressed(s) => 0,
            TextData::Compressed(v) => 1,
        }
    }
}

impl<'a> PngChunk<'a> {
    /// The tag of the chunk.
    pub open spec fn tag_bytes(self) -> Seq<u8> {
        match self {
            PngChunk::Ihdr { .. } => seq![73u8, 72u8, 68u8, 82u8],
            PngChunk::Idat(_) => seq![73u8, 68u8, 65u8, 84u8],
            PngChunk::Iend => seq![73u8, 69u8, 78u8, 68u8],
            PngChunk::Sbit(_) => seq![115u8, 66u8, 73u8, 84u8],
            PngChunk::Gama(_) => seq![103u8, 65u8, 77u8, 65u8],
            PngChunk::Srgb(_) => seq![115u8, 82u8, 71u8, 66u8],
            PngChunk::Itxt { .. } => seq![105u8, 84u8, 88u8, 116u8],
            PngChunk::Time(_) => seq![116u8, 73u8, 77u8, 69u8],
        }
    }

    /// The payload of the chunk.
    pub open spec fn payload(self) -> Seq<u8> {
        match self {
            PngChunk::Ihdr { width, height, bit_depth } => be_bytes(width) + be_bytes(height)
                + seq![bit_depth, 2u8, 0u8, 0u8, 0u8],
            PngChunk::Idat(data) => data@,
            PngChunk::Iend => Seq::empty(),
            PngChunk::Sbit(bits) => seq![bits, bits, bits],
            PngChunk::Gama(gamma) => be_bytes(gamma),
            PngChunk::Srgb(intent) => seq![intent.code()],
            PngChunk::Itxt { keyword, language, translated_keyword, text } => encode_utf8(
                keyword@,
            ) + seq![0u8, text.flag(), 0u8] + optional_bytes(language) + seq![0u8] + optional_bytes(
                translated_keyword,
            ) + seq![0u8] + text.bytes(),
            PngChunk::Time(time) => seq![
                ((time.year >> 8) & 0xff) as u8,
                (time.year & 0xff) as u8,
                time.month,
                time.day,
                time.hour,
                time.minute,
                time.second,
            ],
        }
    }

    /// The chunk as it stands in a file: the length of the payload, the tag,
    /// the payload, and the check value of tag and payload.
    pub open spec fn encoded(self) -> Seq<u8> {
        be_bytes(self.payload().len() as u32) + self.tag_bytes() + self.payload() + be_bytes(
            crc32(self.tag_bytes() + self.payload()),
        )
    }

    /// The tag of the chunk.
    pub fn tag(&self) -> (t: [u8; 4])
        ensures
            t@ == self.tag_bytes(),
    {
        let t: [u8; 4] = match self {
            PngChunk::Ihdr { .. } => [73u8, 72u8, 68u8, 82u8],
            PngChunk::Idat(_) => [73u8, 68u8, 65u8, 84u8],
            PngChunk::Iend => [73u8, 69u8, 78u8, 68u8],
            PngChunk::Sbit(_) => [115u8, 66u8, 73u8, 84u8],
            PngChunk::Gama(_) => [103u8, 65u8, 77u8, 65u8],
            PngChunk::Srgb(_) => [115u8, 82u8, 71u8, 66u8],
            PngChunk::Itxt { .. } => [105u8, 84u8, 88u8, 116u8],
            PngChunk::Time(_) => [116u8, 73u8, 77u8, 69u8],
        };
        assert(t@ =~= self.tag_bytes());
        t
    }

    /// Writes the payload through the sink.
    fn write_payload(&self, crc: &mut Crc32)
        ensures
            final(crc).written() == old(crc).written() + self.payload(),
            final(crc).state() == crc_run(old(crc).state(), self.payload()),
    {
        let ghost start = crc.state();
        let ghost before = crc.written();
        let mut body: Vec<u8> = Vec::new();
        match self {
            PngChunk::Ihdr { width, height, bit_depth } => {
                push_be_bytes(&mut body, *width);
                push_be_bytes(&mut body, *height);
                body.push(*bit_depth);
                // colour type 2 is truecolour; compression, filter and
                // interlace methods are the standard ones
                body.push(2);
                body.push(0);
                body.push(0);
                body.push(0);
            },
            PngChunk::Idat(data) => {
                body.extend_from_slice(data);
            },
            PngChunk::Iend => {},
            PngChunk::Sbit(bits) => {
                body.push(*bits);
                body.push(*bits);
                body.push(*bits);
            },
            PngChunk::Gama(gamma) => {
                push_be_bytes(&mut body, *gamma);
            },
            PngChunk::Srgb(intent) => {
                body.push(intent.number());
            },
            PngChunk::Itxt { keyword, language, translated_keyword, text } => {
                body.extend_from_slice(keyword.as_str().as_bytes());
                body.push(0);
                body.push(
                    match text {
                        TextData::Compressed(_) => 1,
                        TextData::Uncompressed(_) => 0,
                    },
                );
                body.push(0);
                match language {
                    Some(s) => {
                        body.extend_from_slice(s.as_str().as_bytes());
                    },
                    None => {},
                }
                body.push(0);
                match translated_keyword {
                    Some(s) => {
                        body.extend_from_slice(s.as_str().as_bytes());
                    },
                    None => {},
                }
                body.push(0);
                match text {
                    TextData::Compressed(v) => {
                        body.extend_from_slice(v.as_slice());
                    },
                    TextData::Uncompressed(s) => {
                        body.extend_from_slice(s.as_str().as_bytes());
                    },
                }
            },
            PngChunk::Time(time) => {
                let year: u16 = time.year;
                let high: u16 = (year >> 8) & 0xff;
                let low: u16 = year & 0xff;
                assert(high < 256) by (bit_vector)
                    requires
                        high == (year >> 8) & 0xff,
                ;
                assert(low < 256) by (bit_vector)
                    requires
                        low == year & 0xff,
                ;
                body.push(high as u8);
                body.push(low as u8);
                body.push(time.month);
                body.push(time.day);
                body.push(time.hour);
                body.push(time.minute);
                body.push(time.second);
            },
        }
        assert(body@ =~= self.payload());
        crc.write(body.as_slice());
    }

    /// Appends the chunk to `w`, or nothing when the payload is too long for a
    /// chunk.
    pub fn write_to(&self, w: &mut Vec<u8>) -> (r: Result<(), WriteError>)
        ensures
            r.is_ok() <==> self.payload().len() <= u32::MAX,
            r.is_ok() ==> final(w)@ == old(w)@ + self.encoded(),
            r matches Err(e) ==> e == WriteError::ChunkTooLong && final(w)@ == old(w)@,
    {
        let mut crc = Crc32::new(Vec::new());
        let tag = self.tag();
        crc.write(tag.as_slice());
        self.write_payload(&mut crc);
        let sum = crc.get();
        let mut framed = crc.finish();
        proof {
            lemma_crc_run_concat(0xffffffffu32, self.tag_bytes(), self.payload());
            assert(framed@ =~= self.tag_bytes() + self.payload());
        }
        if framed.len() - 4 > u32::MAX as usize {
            return Err(WriteError::ChunkTooLong);
        }
        let length: u32 = (framed.len() - 4) as u32;
        push_be_bytes(w, length);
        w.append(&mut framed);
        push_be_bytes(w, sum);
        assert(w@ =~= old(w)@ + self.encoded());
        Ok(())
    }
}

} // verus!
