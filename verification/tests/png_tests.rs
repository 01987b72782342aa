use raytracing::color::{advance, from_srgb_hex, max_sample, neighbor, widen, OutputColor};
use raytracing::output::png::chunk::{
    push_be_bytes, Crc32, PngChunk, PngRenderingIntent, TextData, Timestamp, WriteError,
};
use raytracing::output::png::{
    write_data, FilterType, FilterWriter, IdatWriter, PngWriter, IDAT_SIZE,
};
use raytracing::output::ppm::{push_decimal, PpmWriter};
use std::io::Read;

fn crc_of(bytes: &[u8]) -> u32 {
    let mut crc = Crc32::new(Vec::new());
    crc.write(bytes);
    crc.get()
}

fn chunk_bytes(chunk: &PngChunk) -> Vec<u8> {
    let mut out = Vec::new();
    assert!(chunk.write_to(&mut out).is_ok());
    out
}

/// Splits a file into its chunks: tag and payload of each, check values verified.
fn chunks_of(mut file: &[u8]) -> Vec<([u8; 4], Vec<u8>)> {
    let mut out = Vec::new();
    while !file.is_empty() {
        let len = u32::from_be_bytes([file[0], file[1], file[2], file[3]]) as usize;
        let tag = [file[4], file[5], file[6], file[7]];
        let payload = file[8..8 + len].to_vec();
        let sum = u32::from_be_bytes([
            file[8 + len],
            file[9 + len],
            file[10 + len],
            file[11 + len],
        ]);
        assert_eq!(sum, crc_of(&file[4..8 + len]));
        out.push((tag, payload));
        file = &file[12 + len..];
    }
    out
}

#[test]
fn test_idat_writer() {
    let data: &[u8] = &[
        0x78, 0x9c, 0x63, 0x38, 0xb4, 0x7f, 0xdd, 0xe6, 0xfd, 0x0a, 0x7c, 0x87, 0xe6, 0x70, 0x6e,
        0x52, 0xda, 0x20, 0x34, 0x77, 0x3b, 0x83, 0xa2, 0x30, 0xe3, 0x4a, 0x06, 0x90, 0xe8, 0x01,
        0xb0, 0xe8, 0x66, 0x90, 0xe8, 0x0e, 0xa0, 0x28, 0xc3, 0x4a, 0x86, 0x53, 0x47, 0x36, 0x6e,
        0xda, 0x2f, 0xc9, 0x7e, 0x64, 0x16, 0xc7, 0x2e, 0x85, 0xed, 0x42, 0x8b, 0xf7, 0x33, 0x28,
        0x0b, 0x33, 0xac, 0x67, 0xb0, 0xf3, 0x9f, 0x5d, 0x56, 0x15, 0x54, 0x92, 0xb6, 0x52, 0xdc,
        0xc1, 0xd0, 0xd2, 0xad, 0xd8, 0x99, 0x57, 0xd2, 0xc7, 0xa5, 0x96, 0x81, 0xc1, 0x28, 0x69,
        0xdf, 0xe5, 0x07, 0x3b, 0x7b, 0x4e, 0x6b, 0x32, 0x44, 0x32, 0x30, 0x32, 0x00, 0x01, 0x0b,
        0x2b, 0x03, 0x00, 0x9a, 0xf3, 0x27, 0x9d,
    ];
    let mut writer = IdatWriter(Vec::new());
    assert!(writer.write_all(data).is_ok());
    let written: Vec<u8> = writer.finish();
    assert_eq!(written.len(), data.len() + 12);
    assert_eq!(
        &written[..8],
        // length, followed by tag
        &[0x00, 0x00, 0x00, 0x70, b'I', b'D', b'A', b'T']
    );
    assert_eq!(&written[8..(data.len() + 8)], data);
    // check value of tag and data
    assert_eq!(&written[(data.len() + 8)..], &[0x62, 0x60, 0x9a, 0xcd]);
}

#[test]
fn test_filter_writer() {
    let data: &[u8] = &[5, 5, 5, 5, 5, 5, 5, 5];
    let mut writer = FilterWriter::new(Vec::new(), FilterType::Unfiltered, 4);
    assert!(writer.write_all(data).is_ok());
    let written: Vec<u8> = writer.finish();
    assert_eq!(&written, &[0, 5, 5, 5, 5, 0, 5, 5, 5, 5]);
}

#[test]
fn filter_writer_takes_one_scanline_at_a_time() {
    let mut writer = FilterWriter::new(vec![9], FilterType::Unfiltered, 3);
    assert_eq!(writer.write(&[1, 2, 3, 4, 5]), 3);
    assert_eq!(writer.write(&[4, 5]), 2);
    assert_eq!(writer.write(&[6, 7]), 1);
    assert_eq!(writer.write(&[7]), 1);
    assert!(writer.write_all(&[8, 9, 10, 11]).is_ok());
    assert_eq!(writer.finish(), vec![9, 0, 1, 2, 3, 0, 4, 5, 6, 0, 7, 8, 9, 0, 10, 11]);
}

#[test]
fn idat_writer_writes_nothing_for_nothing() {
    let mut writer = IdatWriter(vec![1, 2, 3]);
    assert!(writer.write_all(&[]).is_ok());
    assert_eq!(writer.finish(), vec![1, 2, 3]);
    let mut writer = IdatWriter(Vec::new());
    assert_eq!(writer.write(&[]), Ok(0));
    assert_eq!(writer.finish().len(), 12);
}

#[test]
fn crc_known_values() {
    assert_eq!(crc_of(b""), 0);
    assert_eq!(crc_of(b"IEND"), 0xae42_6082);
    assert_eq!(crc_of(b"123456789"), 0xcbf4_3926);
    let mut crc = Crc32::new(vec![7]);
    assert_eq!(crc.write(b"1234"), 4);
    assert_eq!(crc.write(b"56789"), 5);
    assert_eq!(crc.get(), 0xcbf4_3926);
    assert_eq!(crc.finish(), b"\x07123456789".to_vec());
}

#[test]
fn number_bytes_most_significant_first() {
    let mut out = vec![1];
    push_be_bytes(&mut out, 0x0102_0304);
    push_be_bytes(&mut out, 0xffff_fffe);
    assert_eq!(out, vec![1, 1, 2, 3, 4, 0xff, 0xff, 0xff, 0xfe]);
}

#[test]
fn fixed_chunks() {
    assert_eq!(
        chunk_bytes(&PngChunk::Iend),
        vec![0, 0, 0, 0, b'I', b'E', b'N', b'D', 0xae, 0x42, 0x60, 0x82]
    );
    let header = chunk_bytes(&PngChunk::Ihdr { width: 600, height: 400, bit_depth: 8 });
    assert_eq!(
        &header[..21],
        &[0, 0, 0, 13, b'I', b'H', b'D', b'R', 0, 0, 2, 0x58, 0, 0, 1, 0x90, 8, 2, 0, 0, 0]
    );
    assert_eq!(header.len(), 25);
    let sbit = chunk_bytes(&PngChunk::Sbit(5));
    assert_eq!(&sbit[..11], &[0, 0, 0, 3, b's', b'B', b'I', b'T', 5, 5, 5]);
    let gama = chunk_bytes(&PngChunk::Gama(45454));
    assert_eq!(&gama[..12], &[0, 0, 0, 4, b'g', b'A', b'M', b'A', 0, 0, 0xb1, 0x8e]);
    let srgb = chunk_bytes(&PngChunk::Srgb(PngRenderingIntent::Saturation));
    assert_eq!(&srgb[..9], &[0, 0, 0, 1, b's', b'R', b'G', b'B', 2]);
    assert_eq!(PngRenderingIntent::Perceptual.number(), 0);
    assert_eq!(PngRenderingIntent::RelativeColorimetric.number(), 1);
    assert_eq!(PngRenderingIntent::AbsoluteColorimetric.number(), 3);
    let time = chunk_bytes(&PngChunk::Time(Timestamp {
        year: 2023,
        month: 4,
        day: 30,
        hour: 23,
        minute: 59,
        second: 58,
    }));
    assert_eq!(&time[..15], &[0, 0, 0, 7, b't', b'I', b'M', b'E', 7, 0xe7, 4, 30, 23, 59, 58]);
    for file in [header, sbit, gama, srgb, time] {
        assert_eq!(chunks_of(&file).len(), 1);
    }
}

#[test]
fn text_chunk() {
    let plain = PngChunk::Itxt {
        keyword: "Title".to_string(),
        language: Some("en".to_string()),
        translated_keyword: None,
        text: TextData::Uncompressed("h\u{e9}".to_string()),
    };
    let bytes = chunk_bytes(&plain);
    let parts = chunks_of(&bytes);
    assert_eq!(parts.len(), 1);
    assert_eq!(&parts[0].0, b"iTXt");
    assert_eq!(parts[0].1, b"Title\0\0\0en\0\0h\xc3\xa9".to_vec());
    let packed = PngChunk::Itxt {
        keyword: "k".to_string(),
        language: None,
        translated_keyword: Some("c".to_string()),
        text: TextData::Compressed(vec![1, 2, 3]),
    };
    let parts = chunks_of(&chunk_bytes(&packed));
    assert_eq!(parts[0].1, b"k\0\x01\0\0c\0\x01\x02\x03".to_vec());
}

#[test]
fn write_to_appends() {
    let mut out = vec![42];
    assert_eq!(PngChunk::Idat(&[1, 2, 3]).write_to(&mut out), Ok(()));
    assert_eq!(&out[..12], &[42, 0, 0, 0, 3, b'I', b'D', b'A', b'T', 1, 2, 3]);
    assert_eq!(out.len(), 16);
    assert_ne!(WriteError::ChunkTooLong, WriteError::Compression);
}

#[test]
fn samples_are_widened() {
    assert_eq!(widen(0, 1), 0);
    assert_eq!(widen(1, 1), 0xff);
    assert_eq!(widen(0b11111, 5), 0xff);
    assert_eq!(widen(0b00001, 5), 0b0000_1000);
    assert_eq!(widen(0b10110, 5), 0b1011_0101);
    assert_eq!(widen(0xab, 8), 0xab);
    assert_eq!(widen(0x1ff, 9), 0xffff);
    assert_eq!(widen(0x100, 9), 0b1000_0000_0100_0000);
    assert_eq!(widen(0xabcd, 16), 0xabcd);
    assert_eq!(widen(0xfff, 12), 0xffff);
    assert_eq!(OutputColor(1, 0, 3).widen(2), OutputColor(0b0101_0101, 0, 0xff));
}

#[test]
fn hex_colours_split() {
    assert_eq!(from_srgb_hex(0x5bcefa), (0x5b, 0xce, 0xfa));
    assert_eq!(from_srgb_hex(0xff8c00), (0xff, 0x8c, 0x00));
    assert_eq!(from_srgb_hex(0x12_34_56_78), (0x34, 0x56, 0x78));
    assert_eq!(from_srgb_hex(0), (0, 0, 0));
}

#[test]
fn data_is_cut_into_chunks() {
    let stream: Vec<u8> = (0..(2 * IDAT_SIZE + 10)).map(|i| (i % 251) as u8).collect();
    let mut out = Vec::new();
    write_data(&mut out, &stream);
    let parts = chunks_of(&out);
    assert_eq!(parts.len(), 3);
    assert_eq!(parts[0].1.len(), IDAT_SIZE);
    assert_eq!(parts[1].1.len(), IDAT_SIZE);
    assert_eq!(parts[2].1.len(), 10);
    let mut joined = Vec::new();
    for (tag, payload) in parts {
        assert_eq!(&tag, b"IDAT");
        joined.extend_from_slice(&payload);
    }
    assert_eq!(joined, stream);
    let mut none = vec![1];
    write_data(&mut none, &[]);
    assert_eq!(none, vec![1]);
}

#[test]
fn png_file_decodes_to_the_scanlines() {
    let time = Timestamp { year: 2024, month: 1, day: 2, hour: 3, minute: 4, second: 5 };
    let mut writer =
        PngWriter::new(Vec::new(), (2, 2), 8, Some(time), Some(PngRenderingIntent::Perceptual));
    writer.write_header();
    writer.write_pixels(&[OutputColor(1, 2, 3), OutputColor(4, 5, 6), OutputColor(7, 8, 9)]);
    writer.write_pixels(&[OutputColor(10, 11, 12)]);
    let file = writer.end().unwrap();
    assert_eq!(&file[..8], &[0x89, 0x50, 0x4e, 0x47, 0x0d, 0x0a, 0x1a, 0x0a]);
    let parts = chunks_of(&file[8..]);
    let tags: Vec<&[u8; 4]> = parts.iter().map(|p| &p.0).collect();
    assert_eq!(tags, vec![b"IHDR", b"tIME", b"gAMA", b"sRGB", b"IDAT", b"IEND"]);
    assert_eq!(parts[0].1, vec![0, 0, 0, 2, 0, 0, 0, 2, 8, 2, 0, 0, 0]);
    let mut scanlines = Vec::new();
    flate2::read::ZlibDecoder::new(parts[4].1.as_slice())
        .read_to_end(&mut scanlines)
        .unwrap();
    assert_eq!(scanlines, vec![0, 1, 2, 3, 4, 5, 6, 0, 7, 8, 9, 10, 11, 12]);
    assert_ne!(parts[4].1, scanlines);
}

#[test]
fn png_sixteen_bit_and_odd_depths() {
    let mut writer = PngWriter::new(vec![0xaa], (1, 1), 12, None, None);
    writer.write_header();
    writer.write_pixels(&[OutputColor(0xfff, 0x000, 0x800)]);
    let file = writer.end().unwrap();
    assert_eq!(file[0], 0xaa);
    let parts = chunks_of(&file[9..]);
    let tags: Vec<&[u8; 4]> = parts.iter().map(|p| &p.0).collect();
    assert_eq!(tags, vec![b"IHDR", b"sBIT", b"IDAT", b"IEND"]);
    assert_eq!(parts[0].1[8], 16);
    assert_eq!(parts[1].1, vec![12, 12, 12]);
    let mut scanlines = Vec::new();
    flate2::read::ZlibDecoder::new(parts[2].1.as_slice())
        .read_to_end(&mut scanlines)
        .unwrap();
    assert_eq!(scanlines, vec![0, 0xff, 0xff, 0, 0, 0x80, 0x08]);
}

#[test]
fn png_without_pixels_has_no_data() {
    let mut writer = PngWriter::new(Vec::new(), (3, 3), 16, None, None);
    writer.write_header();
    let file = writer.end().unwrap();
    let parts = chunks_of(&file[8..]);
    let tags: Vec<&[u8; 4]> = parts.iter().map(|p| &p.0).collect();
    assert_eq!(tags, vec![b"IHDR", b"IEND"]);
    let mut writer = PngWriter::new(Vec::new(), (3, 3), 16, None, None);
    writer.write_pixels(&[]);
    assert_eq!(writer.end_with(None), Err(WriteError::Compression));
    let mut writer = PngWriter::new(Vec::new(), (3, 3), 16, None, None);
    writer.write_pixels(&[]);
    let file = writer.end_with(Some(vec![1, 2])).unwrap();
    let parts = chunks_of(&file);
    assert_eq!(parts[0].1, vec![1, 2]);
    assert_eq!(&parts[1].0, b"IEND");
}

#[test]
fn ppm_file() {
    let mut writer = PpmWriter::new(vec![b'#'], (3, 2), 8);
    writer.write_header();
    writer.write_pixels(&[OutputColor(255, 0, 7), OutputColor(0x101, 2, 3)]);
    writer.write_pixels(&[]);
    assert_eq!(writer.end(), b"#P6\n3 2\n255\n\xff\x00\x07\x01\x02\x03".to_vec());
    let mut writer = PpmWriter::new(Vec::new(), (600, 1200), 5);
    writer.write_header();
    assert_eq!(writer.end(), b"P6\n600 1200\n31\n".to_vec());
    let mut writer = PpmWriter::new(Vec::new(), (0, 10), 0);
    writer.write_header();
    assert_eq!(writer.end(), b"P6\n0 10\n0\n".to_vec());
}

#[test]
fn decimal_digits() {
    let mut out = Vec::new();
    push_decimal(&mut out, 0);
    out.push(b' ');
    push_decimal(&mut out, 9);
    out.push(b' ');
    push_decimal(&mut out, 10);
    out.push(b' ');
    push_decimal(&mut out, 1234567890);
    assert_eq!(out, b"0 9 10 1234567890".to_vec());
}

#[test]
fn peak_samples() {
    assert_eq!(max_sample(1), 1);
    assert_eq!(max_sample(5), 31);
    assert_eq!(max_sample(8), 255);
    assert_eq!(max_sample(12), 4095);
    assert_eq!(max_sample(16), 65535);
}

#[test]
fn error_spreads_within_the_row() {
    assert_eq!(neighbor(0, -1, 10), None);
    assert_eq!(neighbor(0, 0, 10), Some(0));
    assert_eq!(neighbor(0, 1, 10), Some(1));
    assert_eq!(neighbor(9, 1, 10), None);
    assert_eq!(neighbor(9, -1, 10), Some(8));
    assert_eq!(neighbor(0, 1, 1), None);
    assert_eq!(advance(0, 10), (1, false));
    assert_eq!(advance(8, 10), (9, false));
    assert_eq!(advance(9, 10), (0, true));
    assert_eq!(advance(0, 1), (0, true));
}
