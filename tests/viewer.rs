use hexview::dump::{dump, HexViewer};
use hexview::error::HexViewError;
use hexview::hex::{hex_digit, hex_value, push_hex_digits};
use hexview::import::import_hex;
use hexview::patch::{parse_offset, parse_replacement, patch, patch_action, replace_row, RowAction};
use hexview::reader::{ChunkReader, Row};
use hexview::row::{ascii_char, format_raw_row, format_row, is_ascii_printable};
use hexview::sniff::{sniff, sniff_summary, ElfClass, Endianness, WordSize};

fn text(v: Vec<u8>) -> String {
    String::from_utf8(v).unwrap()
}

fn counting(n: usize) -> Vec<u8> {
    (0..n).map(|i| (i % 256) as u8).collect()
}

#[test]
fn ascii_column_policy() {
    assert_eq!(ascii_char(65), b'A');
    assert_eq!(ascii_char(9), b'.');
    assert_eq!(ascii_char(126), b'~');
    assert_eq!(ascii_char(127), b'.');
    assert_eq!(ascii_char(32), b'.');
    assert_eq!(ascii_char(33), b'!');
    assert!(!is_ascii_printable(0));
    assert!(!is_ascii_printable(255));
    assert!(is_ascii_printable(b'z'));
}

#[test]
fn hex_digits_render_and_parse() {
    assert_eq!(hex_digit(0), b'0');
    assert_eq!(hex_digit(9), b'9');
    assert_eq!(hex_digit(10), b'a');
    assert_eq!(hex_digit(15), b'f');
    assert_eq!(hex_value(b'7'), Some(7));
    assert_eq!(hex_value(b'c'), Some(12));
    assert_eq!(hex_value(b'C'), Some(12));
    assert_eq!(hex_value(b'g'), None);
    let mut out = Vec::new();
    push_hex_digits(&mut out, 0xdead_beef, 8);
    assert_eq!(text(out), "deadbeef");
}

#[test]
fn full_row_format() {
    let row = counting(16);
    assert_eq!(
        text(format_row(&row, 0)),
        "00000000: 0001 0203 0405 0607 0809 0a0b 0c0d 0e0f  ................"
    );
}

#[test]
fn short_row_format() {
    assert_eq!(text(format_row(b"ABC", 0x10)), "00000010: 4142 43 ABC");
    assert_eq!(text(format_row(b"Hi there", 0x1234abcd)), "1234abcd: 4869 2074 6865 7265  Hi.there");
}

#[test]
fn raw_row_format() {
    assert_eq!(text(format_raw_row(&[0x00, 0x7f, 0xab, 0xff])), "007fabff");
    assert_eq!(text(format_raw_row(&[])), "");
}

#[test]
fn reader_groups_across_chunk_boundaries() {
    let data = counting(33);
    let mut reader = ChunkReader::new();
    let mut rows: Vec<Row> = Vec::new();
    rows.extend(reader.feed(&data[..5]));
    assert!(rows.is_empty());
    rows.extend(reader.feed(&data[5..25]));
    assert_eq!(rows.len(), 1);
    assert_eq!(reader.offset(), 16);
    rows.extend(reader.feed(&data[25..]));
    assert_eq!(rows.len(), 2);
    assert_eq!(rows[0].offset, 0);
    assert_eq!(rows[0].bytes, data[..16].to_vec());
    assert_eq!(rows[1].offset, 16);
    assert_eq!(rows[1].bytes, data[16..32].to_vec());
    let last = reader.finish().unwrap();
    assert_eq!(last.offset, 32);
    assert_eq!(last.bytes, vec![32u8]);
}

#[test]
fn reader_exact_multiple_has_no_short_row() {
    let mut reader = ChunkReader::new();
    let rows = reader.feed(&counting(32));
    assert_eq!(rows.len(), 2);
    assert!(reader.finish().is_none());
}

#[test]
fn dump_line_count_and_last_row() {
    for n in [0usize, 1, 15, 16, 17, 32, 33, 100] {
        let out = text(dump(&counting(n), false));
        let lines: Vec<&str> = out.lines().collect();
        assert_eq!(lines.len(), (n + 15) / 16);
        assert_eq!(out.matches('\n').count(), (n + 15) / 16);
        if n > 0 {
            let last = lines[lines.len() - 1];
            let ascii = &last[last.len() - if n % 16 == 0 { 16 } else { n % 16 }..];
            assert_eq!(ascii.len(), if n % 16 == 0 { 16 } else { n % 16 });
        }
    }
}

#[test]
fn dump_offsets_count_preceding_bytes() {
    let out = text(dump(&counting(50), false));
    let offsets: Vec<u32> = out
        .lines()
        .map(|l| u32::from_str_radix(&l[..8], 16).unwrap())
        .collect();
    assert_eq!(offsets, vec![0, 16, 32, 48]);
}

#[test]
fn dump_of_small_file() {
    let out = text(dump(b"Hello, world!\n\x00\x01ABC", false));
    assert_eq!(
        out,
        "00000000: 4865 6c6c 6f2c 2077 6f72 6c64 210a 0001  Hello,.world!...\n00000010: 4142 43 ABC\n"
    );
}

#[test]
fn raw_dump_of_small_file() {
    let out = text(dump(&counting(18), true));
    assert_eq!(out, "000102030405060708090a0b0c0d0e0f\n1011\n");
}

#[test]
fn streaming_matches_whole_dump() {
    let data = counting(77);
    let mut viewer = HexViewer::new(false);
    let mut out = Vec::new();
    for chunk in data.chunks(7) {
        out.extend(viewer.display(chunk));
    }
    out.extend(viewer.finish());
    assert_eq!(out, dump(&data, false));
}

#[test]
fn import_round_trip() {
    for n in [0usize, 1, 16, 31, 300] {
        let data = counting(n);
        let raw = dump(&data, true);
        assert_eq!(import_hex(&raw), Ok(data));
    }
}

#[test]
fn import_accepts_either_case() {
    assert_eq!(import_hex(b"0a\nFF\n\nAb"), Ok(vec![0x0a, 0xff, 0xab]));
    assert_eq!(import_hex(b""), Ok(vec![]));
}

#[test]
fn import_rejects_odd_line() {
    assert_eq!(import_hex(b"abc\n"), Err(HexViewError::MalformedHexToken));
    assert_eq!(import_hex(b"a\nb"), Err(HexViewError::MalformedHexToken));
}

#[test]
fn import_rejects_non_hex() {
    assert_eq!(import_hex(b"zz"), Err(HexViewError::MalformedHexToken));
    assert_eq!(import_hex(b"00 11"), Err(HexViewError::MalformedHexToken));
}

#[test]
fn sniff_elf64_little() {
    let header = [0x7f, 0x45, 0x4c, 0x46, 0x02, 0x01];
    assert_eq!(
        sniff(&header),
        Some(ElfClass { word: WordSize::Bits64, endian: Endianness::Little })
    );
    assert_eq!(sniff_summary(&header), Some("ELF 64-bit little-endian".to_string()));
}

#[test]
fn sniff_other_classes() {
    let c = sniff(&[0x7f, 0x45, 0x4c, 0x46, 0x01, 0x02, 0x00]).unwrap();
    assert_eq!(c, ElfClass { word: WordSize::Bits32, endian: Endianness::Big });
    assert_eq!(c.describe(), "ELF 32-bit big-endian");
    let u = sniff(&[0x7f, 0x45, 0x4c, 0x46, 0x09, 0x00]).unwrap();
    assert_eq!(u.describe(), "ELF unknown-bit unknown-endian");
}

#[test]
fn sniff_ignores_other_files() {
    assert_eq!(sniff_summary(&[0x7f, 0x45, 0x4c, 0x47, 0x02, 0x01]), None);
    assert_eq!(sniff_summary(b"#!/bin/sh\n"), None);
    assert_eq!(sniff_summary(&[0x7f, 0x45, 0x4c, 0x46, 0x02]), None);
    assert_eq!(sniff_summary(&[]), None);
}

#[test]
fn offset_parsing() {
    assert_eq!(parse_offset(b"0x10"), Ok(16));
    assert_eq!(parse_offset(b"0xAAAA"), Ok(0xaaaa));
    assert_eq!(parse_offset(b"0xffffffff"), Ok(u32::MAX));
    assert_eq!(parse_offset(b"0x000000010"), Ok(16));
    assert_eq!(parse_offset(b"10"), Err(HexViewError::MalformedOffset));
    assert_eq!(parse_offset(b"0x"), Err(HexViewError::MalformedOffset));
    assert_eq!(parse_offset(b"0x1g"), Err(HexViewError::MalformedOffset));
    assert_eq!(parse_offset(b"0x100000000"), Err(HexViewError::MalformedOffset));
}

#[test]
fn replacement_parsing() {
    assert_eq!(parse_replacement(b"AA BB"), Ok(vec![0xaa, 0xbb]));
    assert_eq!(parse_replacement(b"00"), Ok(vec![0x00]));
    assert_eq!(parse_replacement(b""), Err(HexViewError::MalformedHexToken));
    assert_eq!(parse_replacement(b"AA  BB"), Err(HexViewError::MalformedHexToken));
    assert_eq!(parse_replacement(b"AA BB "), Err(HexViewError::MalformedHexToken));
    assert_eq!(parse_replacement(b"AAB"), Err(HexViewError::MalformedHexToken));
    assert_eq!(parse_replacement(b"AX"), Err(HexViewError::MalformedHexToken));
}

#[test]
fn patch_second_row() {
    let src = counting(32);
    let out = patch(&src, parse_offset(b"0x10").unwrap(), &parse_replacement(b"AA BB").unwrap());
    let mut expected = src.clone();
    expected[16] = 0xaa;
    expected[17] = 0xbb;
    assert_eq!(out, expected);
}

#[test]
fn patch_off_row_start_is_a_copy() {
    let src = counting(32);
    assert_eq!(patch(&src, 0x11, &[0xaa]), src);
    assert_eq!(patch(&src, 0x20, &[0xaa]), src);
}

#[test]
fn patch_short_last_row_drops_excess() {
    let src = counting(18);
    let out = patch(&src, 16, &[1, 2, 3, 4]);
    let mut expected = src.clone();
    expected[16] = 1;
    expected[17] = 2;
    assert_eq!(out, expected);
}

#[test]
fn row_actions() {
    let row = Row { offset: 32, bytes: counting(16) };
    assert_eq!(patch_action(&row, 32), RowAction::Replace);
    assert_eq!(patch_action(&row, 33), RowAction::Copy);
    assert_eq!(replace_row(&[1, 2, 3], &[9]), vec![9, 2, 3]);
}
