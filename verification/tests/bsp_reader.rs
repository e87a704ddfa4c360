use stella_bsp_reader::bsp::BspFile;
use stella_bsp_reader::error::BspError;
use stella_bsp_reader::spk::{ssb_path, CoverTest, PathEnd, PositionPlan, SegmentStep};

const J2000_JD: f64 = 2_451_545.0;
const SECS_PER_DAY: f64 = 86_400.0;

/// Seconds past J2000 of a Julian date, as the reader computes them, as bits.
fn t_bits(jd: f64) -> u64 {
    ((jd - J2000_JD) * SECS_PER_DAY).to_bits()
}

fn write_str(bytes: &mut Vec<u8>, s: &str, offset: usize, pad: usize) {
    let b = s.as_bytes();
    for i in 0..pad {
        bytes[offset + i] = if i < b.len() { b[i] } else { 0x20 };
    }
}

fn write_i32(bytes: &mut Vec<u8>, v: i32, offset: usize) {
    bytes[offset..offset + 4].copy_from_slice(&v.to_le_bytes());
}

fn write_f64(bytes: &mut Vec<u8>, v: f64, offset: usize) {
    bytes[offset..offset + 8].copy_from_slice(&v.to_le_bytes());
}

/// A minimal DAF/SPK type 2 file: file record, one summary record (Sun
/// from SSB, type 2, addresses 257..=271) and one data record with three
/// coefficients per axis (x = 100000, y = 200000, z = 300000 km).
fn make_synthetic_bsp() -> Vec<u8> {
    let mut bytes = vec![0u8; 3 * 1024];

    write_str(&mut bytes, "DAF/SPK ", 0, 8);
    write_i32(&mut bytes, 2, 8);
    write_i32(&mut bytes, 6, 12);
    write_str(&mut bytes, "BspTest", 16, 60);
    write_i32(&mut bytes, 2, 76);
    write_i32(&mut bytes, 2, 80);
    write_str(&mut bytes, "LTL-IEEE", 88, 8);

    let r2 = 1024;
    write_f64(&mut bytes, 0.0, r2 + 0);
    write_f64(&mut bytes, 0.0, r2 + 8);
    write_f64(&mut bytes, 1.0, r2 + 16);
    let s = r2 + 24;
    write_f64(&mut bytes, -86400.0, s);
    write_f64(&mut bytes, 86400.0, s + 8);
    write_i32(&mut bytes, 10, s + 16);
    write_i32(&mut bytes, 0, s + 20);
    write_i32(&mut bytes, 1, s + 24);
    write_i32(&mut bytes, 2, s + 28);
    write_i32(&mut bytes, 257, s + 32);
    write_i32(&mut bytes, 271, s + 36);

    let r3 = 2048;
    write_f64(&mut bytes, 0.0, r3 + 0);
    write_f64(&mut bytes, 86400.0, r3 + 8);
    write_f64(&mut bytes, 100000.0, r3 + 16);
    write_f64(&mut bytes, 0.0, r3 + 24);
    write_f64(&mut bytes, 0.0, r3 + 32);
    write_f64(&mut bytes, 200000.0, r3 + 40);
    write_f64(&mut bytes, 0.0, r3 + 48);
    write_f64(&mut bytes, 0.0, r3 + 56);
    write_f64(&mut bytes, 300000.0, r3 + 64);
    write_f64(&mut bytes, 0.0, r3 + 72);
    write_f64(&mut bytes, 0.0, r3 + 80);
    write_f64(&mut bytes, -86400.0, 2136);
    write_f64(&mut bytes, 172800.0, 2144);
    write_f64(&mut bytes, 11.0, 2152);
    write_f64(&mut bytes, 1.0, 2160);

    bytes
}

/// The type 3 counterpart: record size 8 (one coefficient per set),
/// addresses 257..=268.
fn make_synthetic_type3_bsp() -> Vec<u8> {
    let mut bytes = vec![0u8; 3 * 1024];

    write_str(&mut bytes, "DAF/SPK ", 0, 8);
    write_i32(&mut bytes, 2, 8);
    write_i32(&mut bytes, 6, 12);
    write_str(&mut bytes, "BspTestType3", 16, 60);
    write_i32(&mut bytes, 2, 76);
    write_i32(&mut bytes, 2, 80);
    write_str(&mut bytes, "LTL-IEEE", 88, 8);

    let r2 = 1024;
    write_f64(&mut bytes, 0.0, r2 + 0);
    write_f64(&mut bytes, 0.0, r2 + 8);
    write_f64(&mut bytes, 1.0, r2 + 16);
    let s = r2 + 24;
    write_f64(&mut bytes, -86400.0, s);
    write_f64(&mut bytes, 86400.0, s + 8);
    write_i32(&mut bytes, 10, s + 16);
    write_i32(&mut bytes, 0, s + 20);
    write_i32(&mut bytes, 1, s + 24);
    write_i32(&mut bytes, 3, s + 28);
    write_i32(&mut bytes, 257, s + 32);
    write_i32(&mut bytes, 268, s + 36);

    let r3 = 2048;
    write_f64(&mut bytes, 0.0, r3 + 0);
    write_f64(&mut bytes, 86400.0, r3 + 8);
    write_f64(&mut bytes, 100000.0, r3 + 16);
    write_f64(&mut bytes, 200000.0, r3 + 24);
    write_f64(&mut bytes, 300000.0, r3 + 32);
    write_f64(&mut bytes, -86400.0, 2112);
    write_f64(&mut bytes, 172800.0, 2120);
    write_f64(&mut bytes, 8.0, 2128);
    write_f64(&mut bytes, 1.0, 2136);

    bytes
}

#[test]
fn test_parse_segments() {
    let bsp = BspFile::from_bytes(make_synthetic_bsp()).unwrap();
    assert_eq!(bsp.segments.len(), 1);
    let seg = &bsp.segments[0];
    assert_eq!(seg.target, 10);
    assert_eq!(seg.center, 0);
    assert_eq!(seg.spk_type, 2);
    assert_eq!(seg.start_idx, 257);
    assert_eq!(seg.end_idx, 271);
}

#[test]
fn test_invalid_format() {
    let mut bad = vec![0u8; 1024];
    bad[0] = b'X';
    assert!(matches!(BspFile::from_bytes(bad), Err(BspError::InvalidFormat(_))));
}

#[test]
fn test_type3_segment_metadata() {
    let bsp = BspFile::from_bytes(make_synthetic_type3_bsp()).unwrap();
    assert_eq!(bsp.segments[0].spk_type, 3);
}

#[test]
fn test_target_not_found() {
    let bsp = BspFile::from_bytes(make_synthetic_bsp()).unwrap();
    assert!(matches!(
        bsp.locate_segment(5, 0, t_bits(J2000_JD)),
        Err(BspError::TargetNotFound(5))
    ));
}

#[test]
fn test_out_of_range_returns_error() {
    let bsp = BspFile::from_bytes(make_synthetic_bsp()).unwrap();
    let jd_outside = J2000_JD + 7.0;
    assert!(bsp.locate_segment(10, 0, t_bits(jd_outside)).is_err());
}

#[test]
fn test_same_target_center_returns_zero() {
    let bsp = BspFile::from_bytes(make_synthetic_bsp()).unwrap();
    assert!(matches!(bsp.plan_position(10, 10, t_bits(J2000_JD)), Ok(PositionPlan::Same)));
}

#[test]
fn test_compute_position_matches_get() {
    let bsp = BspFile::from_bytes(make_synthetic_bsp()).unwrap();
    let direct = bsp.locate_segment(10, 0, t_bits(J2000_JD)).unwrap();
    match bsp.plan_position(10, 0, t_bits(J2000_JD)) {
        Ok(PositionPlan::Direct(step)) => assert_eq!(step, direct),
        other => panic!("unexpected plan {:?}", other),
    }
    assert_eq!(direct, SegmentStep { segment: 0, components: 3 });
}

#[test]
fn test_type3_compute_position_matches_get() {
    let bsp = BspFile::from_bytes(make_synthetic_type3_bsp()).unwrap();
    let direct = bsp.locate_segment(10, 0, t_bits(J2000_JD)).unwrap();
    match bsp.plan_position(10, 0, t_bits(J2000_JD)) {
        Ok(PositionPlan::Direct(step)) => assert_eq!(step, direct),
        other => panic!("unexpected plan {:?}", other),
    }
    assert_eq!(direct, SegmentStep { segment: 0, components: 6 });
}

#[test]
fn test_unsupported_type13_throws() {
    let mut data = make_synthetic_type3_bsp();
    data[1076] = 13;
    data[1077] = 0;
    data[1078] = 0;
    data[1079] = 0;
    let bsp = BspFile::from_bytes(data).unwrap();
    assert!(matches!(
        bsp.locate_segment(10, 0, t_bits(J2000_JD)),
        Err(BspError::UnsupportedType(13))
    ));
    assert!(matches!(
        bsp.plan_position(10, 0, t_bits(J2000_JD)),
        Err(BspError::UnsupportedType(13))
    ));
    let path = bsp.ssb_path(10, t_bits(J2000_JD));
    assert!(path.steps.is_empty());
    assert_eq!(path.end, PathEnd::UnsupportedType(13));
}

#[test]
fn parsed_file_keeps_name_bytes_and_byte_order() {
    let data = make_synthetic_bsp();
    let bsp = BspFile::from_bytes(data.clone()).unwrap();
    assert_eq!(bsp.name, "BspTest");
    assert!(bsp.is_le);
    assert_eq!(bsp.data, data);
    let seg = &bsp.segments[0];
    assert_eq!(f64::from_bits(seg.start_sec_bits), -86400.0);
    assert_eq!(f64::from_bits(seg.end_sec_bits), 86400.0);
}

#[test]
fn short_file_is_rejected_with_its_message() {
    match BspFile::from_bytes(vec![0u8; 100]) {
        Err(BspError::InvalidFormat(m)) => assert_eq!(m, "ファイルサイズが小さすぎます"),
        _ => panic!("expected InvalidFormat"),
    }
}

#[test]
fn unknown_identification_word_is_quoted_in_the_message() {
    let mut bad = make_synthetic_bsp();
    write_str(&mut bad, " NAIF/X ", 0, 8);
    match BspFile::from_bytes(bad) {
        Err(BspError::InvalidFormat(m)) => assert_eq!(m, "LOCIDW=\"NAIF/X\""),
        _ => panic!("expected InvalidFormat"),
    }
}

#[test]
fn ek_files_are_accepted() {
    let mut data = make_synthetic_bsp();
    write_str(&mut data, "DAF/EK", 0, 8);
    assert!(BspFile::from_bytes(data).is_ok());
}

#[test]
fn can_load_accepts_good_and_rejected_files() {
    assert!(BspFile::can_load(&make_synthetic_bsp()));
    assert!(BspFile::can_load(&[0u8; 10]));
}

#[test]
fn can_load_refuses_summaries_beyond_the_file() {
    let mut data = make_synthetic_bsp();
    // claim 100 summaries in the summary record
    write_f64(&mut data, 100.0, 1024 + 16);
    assert!(!BspFile::can_load(&data));
    // a summary record number past the end of the file
    let mut data = make_synthetic_bsp();
    write_i32(&mut data, 9, 76);
    assert!(!BspFile::can_load(&data));
}

#[test]
fn can_load_refuses_a_looping_chain_of_summary_records() {
    let mut data = make_synthetic_bsp();
    // the summary record names itself as the next one
    write_f64(&mut data, 2.0, 1024);
    assert!(!BspFile::can_load(&data));
}

#[test]
fn big_endian_files_are_read_big_endian() {
    let mut data = vec![0u8; 3 * 1024];
    data[0..8].copy_from_slice(b"DAF/SPK ");
    data[8..12].copy_from_slice(&2i32.to_be_bytes());
    data[12..16].copy_from_slice(&6i32.to_be_bytes());
    write_str(&mut data, "Big", 16, 60);
    data[76..80].copy_from_slice(&2i32.to_be_bytes());
    write_str(&mut data, "BIG-IEEE", 88, 8);
    let s = 1024;
    data[s + 16..s + 24].copy_from_slice(&1.0f64.to_be_bytes());
    let b = s + 24;
    data[b..b + 8].copy_from_slice(&(-5.0f64).to_be_bytes());
    data[b + 8..b + 16].copy_from_slice(&5.0f64.to_be_bytes());
    data[b + 16..b + 20].copy_from_slice(&301i32.to_be_bytes());
    data[b + 20..b + 24].copy_from_slice(&3i32.to_be_bytes());
    data[b + 28..b + 32].copy_from_slice(&2i32.to_be_bytes());
    data[b + 32..b + 36].copy_from_slice(&257i32.to_be_bytes());
    data[b + 36..b + 40].copy_from_slice(&300i32.to_be_bytes());
    let bsp = BspFile::from_bytes(data).unwrap();
    assert!(!bsp.is_le);
    assert_eq!(bsp.name, "Big");
    let seg = bsp.segments[0];
    assert_eq!((seg.target, seg.center, seg.spk_type, seg.start_idx, seg.end_idx), (301, 3, 2, 257, 300));
    assert_eq!(f64::from_bits(seg.start_sec_bits), -5.0);
}

/// Reverses the bytes of the `n`-byte number at `off`.
fn reverse_number(bytes: &mut [u8], off: usize, n: usize) {
    bytes[off..off + n].reverse();
}

/// The big-endian twin of the synthetic file: `LOCFMT` reads `BIG-IEEE`
/// and every number of the file record, the summary record and the
/// segment data is stored in the other byte order.
fn big_endian_twin_of_synthetic_bsp() -> Vec<u8> {
    let mut bytes = make_synthetic_bsp();
    for off in [8, 12, 76, 80] {
        reverse_number(&mut bytes, off, 4);
    }
    write_str(&mut bytes, "BIG-IEEE", 88, 8);
    let r2 = 1024;
    for off in [r2, r2 + 8, r2 + 16, r2 + 24, r2 + 32] {
        reverse_number(&mut bytes, off, 8);
    }
    for j in 0..6 {
        reverse_number(&mut bytes, r2 + 40 + 4 * j, 4);
    }
    for address in 257..=271 {
        reverse_number(&mut bytes, (address - 1) * 8, 8);
    }
    bytes
}

#[test]
fn big_endian_twin_reads_the_same() {
    let le = BspFile::from_bytes(make_synthetic_bsp()).unwrap();
    let be = BspFile::from_bytes(big_endian_twin_of_synthetic_bsp()).unwrap();
    assert!(le.is_le);
    assert!(!be.is_le);
    assert_ne!(le.data, be.data);
    assert_eq!(be.name, le.name);
    assert_eq!(be.segments, le.segments);
    let meta = le.segment_meta(0);
    assert_eq!(be.segment_meta(0), meta);
    let (data_start, _) = stella_bsp_reader::record::segment_offsets(&le.segments[0]);
    let layout = stella_bsp_reader::record::record_layout(data_start, meta.rsize, 0, 3);
    let a = le.read_record(layout, 3);
    let b = be.read_record(layout, 3);
    assert_eq!((b.mid_bits, b.radius_bits), (a.mid_bits, a.radius_bits));
    assert_eq!(b.coefficients, a.coefficients);
    assert_eq!(f64::from_bits(b.coefficients[1][0]), 200000.0);
}

#[test]
fn the_barycentre_has_an_empty_walk() {
    let bsp = BspFile::from_bytes(make_synthetic_bsp()).unwrap();
    let t = t_bits(J2000_JD);
    let path = bsp.ssb_path(0, t);
    assert!(path.steps.is_empty());
    assert_eq!(path.end, PathEnd::Reached);
    // the barycentre from the Sun: zero minus the Sun's walk from the barycentre
    match bsp.plan_position(0, 10, t) {
        Ok(PositionPlan::Chained { target, center: Some(center) }) => {
            assert!(target.steps.is_empty());
            assert_eq!(target.end, PathEnd::Reached);
            assert_eq!(center.steps, vec![SegmentStep { segment: 0, components: 3 }]);
            assert_eq!(center.end, PathEnd::Reached);
        }
        other => panic!("unexpected plan {:?}", other),
    }
}

/// Segments: Sun from SSB, EMB from SSB, Earth from EMB, Moon from EMB.
fn chain_file() -> BspFile {
    let mut data = vec![0u8; 3 * 1024];
    write_str(&mut data, "DAF/SPK ", 0, 8);
    write_i32(&mut data, 2, 8);
    write_i32(&mut data, 6, 12);
    write_str(&mut data, "Chain", 16, 60);
    write_i32(&mut data, 2, 76);
    write_str(&mut data, "LTL-IEEE", 88, 8);
    let r2 = 1024;
    let bodies = [(10, 0), (3, 0), (399, 3), (301, 3)];
    write_f64(&mut data, bodies.len() as f64, r2 + 16);
    for (i, (target, center)) in bodies.iter().enumerate() {
        let s = r2 + 24 + i * 40;
        write_f64(&mut data, -86400.0, s);
        write_f64(&mut data, 86400.0, s + 8);
        write_i32(&mut data, *target, s + 16);
        write_i32(&mut data, *center, s + 20);
        write_i32(&mut data, 2, s + 28);
        write_i32(&mut data, 257, s + 32);
        write_i32(&mut data, 271, s + 36);
    }
    BspFile::from_bytes(data).unwrap()
}

#[test]
fn earth_is_reached_through_the_earth_moon_barycentre() {
    let bsp = chain_file();
    let path = bsp.ssb_path(399, 0f64.to_bits());
    assert_eq!(path.end, PathEnd::Reached);
    assert_eq!(
        path.steps,
        vec![SegmentStep { segment: 2, components: 3 }, SegmentStep { segment: 1, components: 3 }]
    );
}

#[test]
fn earth_from_sun_subtracts_two_walks() {
    let bsp = chain_file();
    match bsp.plan_position(399, 10, 0f64.to_bits()) {
        Ok(PositionPlan::Chained { target, center: Some(center) }) => {
            assert_eq!(target.steps.len(), 2);
            assert_eq!(center.steps, vec![SegmentStep { segment: 0, components: 3 }]);
            assert_eq!(center.end, PathEnd::Reached);
        }
        other => panic!("unexpected plan {:?}", other),
    }
    match bsp.plan_position(301, 0, 0f64.to_bits()) {
        Ok(PositionPlan::Chained { target, center: None }) => {
            assert_eq!(target.steps[0], SegmentStep { segment: 3, components: 3 });
        }
        other => panic!("unexpected plan {:?}", other),
    }
}

#[test]
fn a_nan_time_still_walks_through_the_centers() {
    let bsp = chain_file();
    let nan = f64::NAN.to_bits();
    // no segment covers a NaN time directly, but the walk only skips
    // segments that lie before or after it
    assert_eq!(bsp.find_segment(399, 3, nan), None);
    let path = bsp.ssb_path(399, nan);
    assert_eq!(path.end, PathEnd::Reached);
    assert_eq!(
        path.steps,
        vec![SegmentStep { segment: 2, components: 3 }, SegmentStep { segment: 1, components: 3 }]
    );
    match bsp.plan_position(399, 0, nan) {
        Ok(PositionPlan::Chained { target, center: None }) => {
            assert_eq!(target.end, PathEnd::Reached);
            assert_eq!(target.steps.len(), 2);
        }
        other => panic!("unexpected plan {:?}", other),
    }
    // with the strict test on the walk as well, the body is not found
    let strict = ssb_path(&bsp.segments, 399, nan, CoverTest::Within);
    assert!(strict.steps.is_empty());
    assert_eq!(strict.end, PathEnd::TargetNotFound(399));
}

#[test]
fn a_body_without_segments_is_not_found_on_the_walk() {
    let bsp = chain_file();
    let path = bsp.ssb_path(499, 0f64.to_bits());
    assert!(path.steps.is_empty());
    assert_eq!(path.end, PathEnd::TargetNotFound(499));
    match bsp.plan_position(499, 10, 0f64.to_bits()) {
        Ok(PositionPlan::Chained { target, center: None }) => {
            assert_eq!(target.end, PathEnd::TargetNotFound(499))
        }
        other => panic!("unexpected plan {:?}", other),
    }
}

#[test]
fn a_loop_of_centers_is_reported() {
    let mut bsp = chain_file();
    // EMB now measured from the Earth, which is measured from EMB
    bsp.segments[1].center = 399;
    let path = bsp.ssb_path(399, 0f64.to_bits());
    assert_eq!(path.end, PathEnd::CenterLoop);
}

#[test]
fn segment_lookup_respects_the_interval_bounds() {
    let bsp = chain_file();
    assert_eq!(bsp.find_segment(10, 0, 86400f64.to_bits()), Some(0));
    assert_eq!(bsp.find_segment(10, 0, (-86400f64).to_bits()), Some(0));
    assert_eq!(bsp.find_segment(10, 0, 86400.5f64.to_bits()), None);
    assert_eq!(bsp.find_segment(10, 0, f64::NAN.to_bits()), None);
    assert_eq!(bsp.find_segment(10, 3, 0f64.to_bits()), None);
}

#[test]
fn segment_metadata_and_records_are_decoded() {
    let bsp = BspFile::from_bytes(make_synthetic_bsp()).unwrap();
    let meta = bsp.segment_meta(0);
    assert_eq!(f64::from_bits(meta.init_epoch_bits), -86400.0);
    assert_eq!(f64::from_bits(meta.intlen_bits), 172800.0);
    assert_eq!(meta.rsize, 11);
    assert_eq!(meta.n, 1);
    let (data_start, meta_offset) = stella_bsp_reader::record::segment_offsets(&bsp.segments[0]);
    assert_eq!((data_start, meta_offset), (2048, 2136));
    let layout = stella_bsp_reader::record::record_layout(data_start, meta.rsize, 0, 3);
    assert_eq!((layout.offset, layout.ncoeff), (2048, 3));
    let record = bsp.read_record(layout, 3);
    assert_eq!(f64::from_bits(record.mid_bits), 0.0);
    assert_eq!(f64::from_bits(record.radius_bits), 86400.0);
    let as_f64: Vec<Vec<f64>> = record
        .coefficients
        .iter()
        .map(|set| set.iter().map(|b| f64::from_bits(*b)).collect())
        .collect();
    assert_eq!(
        as_f64,
        vec![vec![100000.0, 0.0, 0.0], vec![200000.0, 0.0, 0.0], vec![300000.0, 0.0, 0.0]]
    );
}

#[test]
fn type3_records_hold_one_coefficient_per_set() {
    let bsp = BspFile::from_bytes(make_synthetic_type3_bsp()).unwrap();
    let meta = bsp.segment_meta(0);
    assert_eq!((meta.rsize, meta.n), (8, 1));
    let (data_start, _) = stella_bsp_reader::record::segment_offsets(&bsp.segments[0]);
    let layout = stella_bsp_reader::record::record_layout(data_start, meta.rsize, 0, 6);
    assert_eq!(layout.ncoeff, 1);
    let record = bsp.read_record(layout, 6);
    let firsts: Vec<f64> = record.coefficients.iter().map(|set| f64::from_bits(set[0])).collect();
    assert_eq!(firsts, vec![100000.0, 200000.0, 300000.0, 0.0, 0.0, 0.0]);
}
