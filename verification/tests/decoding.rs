use stella_bsp_reader::bytes::{double_bits_le, double_bits_round_to_usize, read_i32, read_u64};
use stella_bsp_reader::daf::{
    parse_file_record, parse_summaries, parse_summary_record, summaries_fit, summary_layout_fits,
    summary_record_fits,
};
use stella_bsp_reader::error::BspError;
use stella_bsp_reader::record::{record_index, record_layout, record_layout_fits, segment_layout_fits};
use stella_bsp_reader::spk::{first_segment, spk_components, walk_outcome, BspSegment, CoverTest, PathEnd};
use stella_bsp_reader::text::{char_is_white_space, str_equal, str_starts_with, trim_str};

#[test]
fn spk_components_by_type() {
    assert_eq!(spk_components(2), Some(3));
    assert_eq!(spk_components(3), Some(6));
    assert_eq!(spk_components(13), None);
    assert_eq!(spk_components(0), None);
}

#[test]
fn integers_are_read_in_either_byte_order() {
    let data = [0x01u8, 0x02, 0x03, 0x04, 0xff, 0xff, 0xff, 0xfe, 0x00];
    assert_eq!(read_i32(&data, 0, true), 0x0403_0201);
    assert_eq!(read_i32(&data, 0, false), 0x0102_0304);
    assert_eq!(read_i32(&data, 4, true), -0x0100_0001);
    assert_eq!(read_i32(&data, 4, false), -2);
    assert_eq!(read_u64(&data, 0, true), 0xfeff_ffff_0403_0201);
    assert_eq!(read_u64(&data, 1, false), 0x0203_04ff_ffff_fe00);
}

#[test]
fn doubles_are_read_as_their_bits() {
    let v = -123.456f64;
    let le = v.to_le_bytes();
    let be = v.to_be_bytes();
    assert_eq!(f64::from_bits(read_u64(&le, 0, true)), v);
    assert_eq!(f64::from_bits(read_u64(&be, 0, false)), v);
}

#[test]
fn double_rounding_matches_round_then_cast() {
    let cases = [
        0.0f64, -0.0, 1.0, 2.0, 11.0, 0.5, 1.5, 2.5, 0.49999999999999994, 0.4, 3.7, 1e-310, -3.0,
        -0.4, 4503599627370495.5, 9007199254740993.0, 1e19, 1.8446744073709552e19, 1e30,
        f64::INFINITY, f64::NEG_INFINITY, f64::NAN, f64::MAX, f64::MIN_POSITIVE, 1024.0, 65536.75,
    ];
    for x in cases {
        assert_eq!(double_bits_round_to_usize(x.to_bits()), x.round() as usize, "x = {x}");
    }
}

#[test]
fn double_comparison_matches_ieee() {
    let values = [
        0.0f64, -0.0, 1.0, -1.0, 2.5, -2.5, 1e300, -1e300, f64::INFINITY, f64::NEG_INFINITY,
        f64::NAN, 5e-324, -5e-324,
    ];
    for a in values {
        for b in values {
            assert_eq!(double_bits_le(a.to_bits(), b.to_bits()), a <= b, "{a} <= {b}");
        }
    }
}

#[test]
fn trimming_removes_unicode_white_space() {
    assert_eq!(trim_str("  DAF/SPK \t\n"), "DAF/SPK");
    assert_eq!(trim_str("\u{3000}名前\u{a0}"), "名前");
    assert_eq!(trim_str("   "), "");
    assert_eq!(trim_str("a b"), "a b");
    assert!(char_is_white_space('\u{2028}'));
    assert!(!char_is_white_space('\u{200b}'));
}

#[test]
fn prefixes_and_equality_of_text() {
    assert!(str_starts_with("DAF/SPK ", "DAF/SPK"));
    assert!(!str_starts_with("DAF/SP", "DAF/SPK"));
    assert!(str_equal("BIG-IEEE", "BIG-IEEE"));
    assert!(!str_equal("BIG-IEEE ", "BIG-IEEE"));
}

fn header(locidw: &[u8], locfmt: &str) -> Vec<u8> {
    let mut data = vec![0x20u8; 1024];
    data[0..locidw.len()].copy_from_slice(locidw);
    data[8..12].copy_from_slice(&2i32.to_le_bytes());
    data[12..16].copy_from_slice(&6i32.to_le_bytes());
    data[16..20].copy_from_slice(b"Name");
    data[76..80].copy_from_slice(&(-1i32).to_le_bytes());
    data[88..88 + locfmt.len()].copy_from_slice(locfmt.as_bytes());
    data
}

#[test]
fn file_record_fields() {
    let (nd, ni, fwd, le, name) = parse_file_record(&header(b"DAF/SPK ", "LTL-IEEE")).unwrap();
    assert_eq!((nd, ni, le), (2, 6, true));
    assert_eq!(fwd, usize::MAX);
    assert_eq!(name, "Name");
}

#[test]
fn file_record_with_invalid_utf8_identification_is_rejected() {
    let mut locidw = *b"DAF/SPK ";
    locidw[7] = 0xff;
    match parse_file_record(&header(&locidw, "LTL-IEEE")) {
        Err(BspError::InvalidFormat(m)) => assert_eq!(m, "LOCIDW=\"\""),
        _ => panic!("expected InvalidFormat"),
    }
}

#[test]
fn unreadable_format_word_means_little_endian() {
    let mut data = header(b"DAF/SPK ", "");
    data[88] = 0xc0;
    let (_, _, _, le, _) = parse_file_record(&data).unwrap();
    assert!(le);
    let (_, _, _, le, _) = parse_file_record(&header(b"DAF/SPK ", "BIG-IEEE")).unwrap();
    assert!(!le);
}

#[test]
fn summary_layout_limits() {
    assert!(summary_layout_fits(2, 6));
    assert!(!summary_layout_fits(2, usize::MAX));
    assert!(!summary_layout_fits(usize::MAX, 6));
    assert!(!summary_layout_fits(usize::MAX / 8, 2));
}

fn summary_record(count: f64, next: f64) -> Vec<u8> {
    let mut rec = vec![0u8; 1024];
    rec[0..8].copy_from_slice(&next.to_le_bytes());
    rec[16..24].copy_from_slice(&count.to_le_bytes());
    for i in 0..(count as usize) {
        let s = 24 + i * 40;
        rec[s..s + 8].copy_from_slice(&(i as f64).to_le_bytes());
        rec[s + 16..s + 20].copy_from_slice(&(100 + i as i32).to_le_bytes());
        rec[s + 20..s + 24].copy_from_slice(&(i as i32).to_le_bytes());
        rec[s + 28..s + 32].copy_from_slice(&2i32.to_le_bytes());
        rec[s + 32..s + 36].copy_from_slice(&(-1i32).to_le_bytes());
    }
    rec
}

#[test]
fn a_summary_record_appends_its_segments() {
    let rec = summary_record(3.0, 7.0);
    assert!(summary_record_fits(&rec, 0, 2, 6, true));
    let mut segments = vec![BspSegment {
        target: 1,
        center: 0,
        spk_type: 2,
        start_sec_bits: 0,
        end_sec_bits: 0,
        start_idx: 1,
        end_idx: 1,
    }];
    let next = parse_summary_record(&rec, 0, 2, 6, true, &mut segments);
    assert_eq!(next, 7);
    assert_eq!(segments.len(), 4);
    assert_eq!(segments[3].target, 102);
    assert_eq!(segments[3].center, 2);
    assert_eq!(f64::from_bits(segments[3].start_sec_bits), 2.0);
    assert_eq!(segments[3].start_idx, usize::MAX);
}

#[test]
fn a_summary_record_that_overruns_does_not_fit() {
    let rec = summary_record(25.0, 0.0);
    assert!(summary_record_fits(&rec, 0, 2, 6, true));
    let mut rec = summary_record(25.0, 0.0);
    rec[16..24].copy_from_slice(&26.0f64.to_le_bytes());
    assert!(!summary_record_fits(&rec, 0, 2, 6, true));
    assert!(!summary_record_fits(&rec, 1020, 2, 6, true));
}

#[test]
fn the_chain_of_summary_records_is_followed() {
    let mut data = vec![0u8; 1024];
    data.extend(summary_record(2.0, 3.0));
    data.extend(summary_record(1.0, 0.0));
    assert!(summaries_fit(&data, 2, 6, 2, true));
    let segments = parse_summaries(&data, 2, 6, 2, true);
    let targets: Vec<i32> = segments.iter().map(|s| s.target).collect();
    assert_eq!(targets, vec![100, 101, 100]);
    assert!(parse_summaries(&data, 2, 6, 0, true).is_empty());
    assert!(!summaries_fit(&data, 2, 6, 4, true));
}

#[test]
fn first_segment_with_any_center() {
    let seg = |target: i32, center: i32, start: f64, end: f64| BspSegment {
        target,
        center,
        spk_type: 2,
        start_sec_bits: start.to_bits(),
        end_sec_bits: end.to_bits(),
        start_idx: 1,
        end_idx: 4,
    };
    let segs = [seg(399, 3, 10.0, 20.0), seg(399, 3, 0.0, 10.0), seg(399, 0, 0.0, 10.0)];
    assert_eq!(first_segment(&segs, 399, None, 5f64.to_bits(), CoverTest::Within), Some(1));
    assert_eq!(first_segment(&segs, 399, Some(0), 5f64.to_bits(), CoverTest::Within), Some(2));
    assert_eq!(first_segment(&segs, 399, None, 10f64.to_bits(), CoverTest::Within), Some(0));
    assert_eq!(first_segment(&segs, 399, None, 25f64.to_bits(), CoverTest::Within), None);
}

#[test]
fn a_nan_time_is_covered_only_by_the_not_outside_test() {
    let seg = |center: i32, start: f64, end: f64| BspSegment {
        target: 399,
        center,
        spk_type: 2,
        start_sec_bits: start.to_bits(),
        end_sec_bits: end.to_bits(),
        start_idx: 1,
        end_idx: 4,
    };
    let segs = [seg(3, 10.0, 20.0), seg(0, 0.0, 10.0)];
    let nan = f64::NAN.to_bits();
    assert_eq!(first_segment(&segs, 399, None, nan, CoverTest::Within), None);
    assert_eq!(first_segment(&segs, 399, None, nan, CoverTest::NotOutside), Some(0));
    assert_eq!(first_segment(&segs, 399, Some(0), nan, CoverTest::NotOutside), Some(1));
    // on ordinary times both tests agree, bounds included
    assert_eq!(first_segment(&segs, 399, None, 10f64.to_bits(), CoverTest::NotOutside), Some(0));
    assert_eq!(first_segment(&segs, 399, None, 5f64.to_bits(), CoverTest::NotOutside), Some(1));
    assert_eq!(first_segment(&segs, 399, None, 25f64.to_bits(), CoverTest::NotOutside), None);
    assert_eq!(first_segment(&segs, 399, None, (-1f64).to_bits(), CoverTest::NotOutside), None);
}

#[test]
fn segment_offsets_need_valid_addresses() {
    let mut seg = BspSegment {
        target: 10,
        center: 0,
        spk_type: 2,
        start_sec_bits: 0,
        end_sec_bits: 0,
        start_idx: 257,
        end_idx: 271,
    };
    assert!(segment_layout_fits(&seg));
    seg.start_idx = 0;
    assert!(!segment_layout_fits(&seg));
    seg.start_idx = 1;
    seg.end_idx = 3;
    assert!(!segment_layout_fits(&seg));
}

#[test]
fn record_index_is_clamped_to_the_records() {
    assert_eq!(record_index(-3, 4), 0);
    assert_eq!(record_index(2, 4), 2);
    assert_eq!(record_index(9, 4), 3);
    assert_eq!(record_index(0, 0), usize::MAX);
    assert_eq!(record_layout(800, 11, 2, 3).offset, 800 + 2 * 88);
    assert_eq!(record_layout(800, 11, 3, 6).ncoeff, 1);
    assert!(record_layout_fits(800, 11, 3, 3));
    assert!(!record_layout_fits(800, 1, 0, 3));
    assert!(!record_layout_fits(800, 11, usize::MAX, 3));
    assert!(!record_layout_fits(usize::MAX, 11, 1, 3));
}

#[test]
fn file_name_is_decoded_as_utf8() {
    let mut data = header(b"DAF/SPK ", "LTL-IEEE");
    let name = "暦 DE440".as_bytes();
    data[16..16 + name.len()].copy_from_slice(name);
    let (_, _, _, _, decoded) = parse_file_record(&data).unwrap();
    assert_eq!(decoded, "暦 DE440");
    data[16] = 0xe6;
    data[17] = 0x41;
    let (_, _, _, _, decoded) = parse_file_record(&data).unwrap();
    assert_eq!(decoded, "");
}

#[test]
fn error_messages() {
    assert_eq!(BspError::TargetNotFound(5).message(), "Target NAIF ID 5 not found");
    assert_eq!(BspError::TargetNotFound(-2147483648).message(), "Target NAIF ID -2147483648 not found");
    assert_eq!(BspError::UnsupportedType(13).message(), "Unsupported SPK type: 13");
    assert_eq!(BspError::UnsupportedType(0).message(), "Unsupported SPK type: 0");
    assert_eq!(
        BspError::InvalidFormat("LOCIDW=\"X\"".to_string()).message(),
        "Invalid BSP format: LOCIDW=\"X\""
    );
    assert_eq!(
        BspError::OutOfCoverage { input: "JD 1.0000".to_string(), range: "JD 0 – 1".to_string() }
            .message(),
        "JD out of coverage: JD 1.0000 (valid: JD 0 – 1)"
    );
    let io = std::io::Error::new(std::io::ErrorKind::NotFound, "no such file");
    assert_eq!(BspError::Io(io).message(), "IO error: no such file");
}

#[test]
fn io_errors_convert_into_reader_errors() {
    let io = std::io::Error::new(std::io::ErrorKind::UnexpectedEof, "short read");
    assert!(matches!(BspError::from(io), BspError::Io(_)));
}

#[test]
fn walk_outcome_reports_how_the_walk_failed() {
    assert!(matches!(walk_outcome(PathEnd::Reached), Ok(())));
    assert!(matches!(walk_outcome(PathEnd::UnsupportedType(13)), Err(BspError::UnsupportedType(13))));
    assert!(matches!(walk_outcome(PathEnd::TargetNotFound(499)), Err(BspError::TargetNotFound(499))));
}
