use focal_stats::{
    aggregate, build_series, extract_focal_length, focal_length_series, parse_focal_length,
    series_total, FrequencyTable, InvalidFocalLength, SeriesPoint, MICROS_PER_MM,
};

fn texts(items: &[&str]) -> Vec<String> {
    items.iter().map(|s| s.to_string()).collect()
}

fn point(mm: u64, count: u64) -> SeriesPoint {
    SeriesPoint { focal_micros: mm * MICROS_PER_MM, count }
}

/// A little-endian TIFF file whose Exif data holds one focal length, `num / den` mm.
fn tiff_with_focal_length(num: u32, den: u32) -> Vec<u8> {
    let mut b: Vec<u8> = vec![0x49, 0x49, 0x2a, 0x00, 0x08, 0x00, 0x00, 0x00];
    // IFD0: one entry pointing at the Exif IFD at offset 26.
    b.extend_from_slice(&[0x01, 0x00, 0x69, 0x87, 0x04, 0x00, 0x01, 0x00, 0x00, 0x00]);
    b.extend_from_slice(&[0x1a, 0x00, 0x00, 0x00, 0x00, 0x00, 0x00, 0x00]);
    // Exif IFD: FocalLength, one RATIONAL at offset 44.
    b.extend_from_slice(&[0x01, 0x00, 0x0a, 0x92, 0x05, 0x00, 0x01, 0x00, 0x00, 0x00]);
    b.extend_from_slice(&[0x2c, 0x00, 0x00, 0x00, 0x00, 0x00, 0x00, 0x00]);
    b.extend_from_slice(&num.to_le_bytes());
    b.extend_from_slice(&den.to_le_bytes());
    b
}

#[test]
fn parses_whole_and_decimal_values() {
    assert_eq!(parse_focal_length("50"), Some(50_000_000));
    assert_eq!(parse_focal_length("50.0"), Some(50_000_000));
    assert_eq!(parse_focal_length("5.6"), Some(5_600_000));
    assert_eq!(parse_focal_length("0.3333333333333333"), Some(333_333));
    assert_eq!(parse_focal_length("18.123456789"), Some(18_123_456));
}

#[test]
fn strips_unit_suffix() {
    assert_eq!(parse_focal_length("24.0 mm"), Some(24_000_000));
    assert_eq!(parse_focal_length("85mm"), Some(85_000_000));
    assert_eq!(parse_focal_length(" mm"), None);
    assert_eq!(parse_focal_length("24 m"), None);
}

#[test]
fn rejects_malformed_text() {
    for t in ["", "abc", "5.", ".5", "5..6", "NaN", "inf", "-5", "+5", "5,6", "1e3", "50 mm mm", "5 0"] {
        assert_eq!(parse_focal_length(t), None, "{}", t);
    }
}

#[test]
fn largest_value_fits_and_one_more_does_not() {
    assert_eq!(parse_focal_length("18446744073709"), Some(18_446_744_073_709_000_000));
    assert_eq!(parse_focal_length("18446744073709.551615"), Some(u64::MAX));
    assert_eq!(parse_focal_length("18446744073709.551616"), None);
    assert_eq!(parse_focal_length("18446744073710"), None);
    assert_eq!(parse_focal_length("99999999999999999999999"), None);
}

#[test]
fn table_counts_each_value() {
    let mut t = FrequencyTable::new();
    assert_eq!(t.distinct_values(), 0);
    t.record(85);
    t.record(50);
    t.record(85);
    assert_eq!(t.count_of(85), 2);
    assert_eq!(t.count_of(50), 1);
    assert_eq!(t.count_of(24), 0);
    assert_eq!(t.distinct_values(), 2);
    let s = build_series(&t);
    assert_eq!(s, vec![SeriesPoint { focal_micros: 50, count: 1 }, SeriesPoint { focal_micros: 85, count: 2 }]);
}

#[test]
fn aggregate_reports_first_invalid_text() {
    let r = aggregate(&texts(&["50", "x", "85", "y"]));
    assert_eq!(r.err(), Some(InvalidFocalLength { position: 1 }));
    let t = aggregate(&texts(&["50", "85 mm", "50.0"])).unwrap();
    assert_eq!(t.count_of(50 * MICROS_PER_MM), 2);
    assert_eq!(t.count_of(85 * MICROS_PER_MM), 1);
}

#[test]
fn series_of_three_values() {
    let s = focal_length_series(&texts(&["50.0", "50.0", "85.0"])).unwrap();
    assert_eq!(s, vec![point(50, 2), point(85, 1)]);
    assert_eq!(series_total(&s), 3);
}

#[test]
fn series_of_no_values_is_empty() {
    let s = focal_length_series(&Vec::new()).unwrap();
    assert!(s.is_empty());
    assert_eq!(series_total(&s), 0);
}

#[test]
fn suffixed_value_is_counted_once() {
    let s = focal_length_series(&texts(&["24.0 mm"])).unwrap();
    assert_eq!(s, vec![point(24, 1)]);
}

#[test]
fn series_is_ascending_without_duplicates() {
    let s = focal_length_series(&texts(&["200", "18", "5.6", "200", "18", "35", "18"])).unwrap();
    assert_eq!(
        s,
        vec![
            SeriesPoint { focal_micros: 5_600_000, count: 1 },
            point(18, 3),
            point(35, 1),
            point(200, 2),
        ]
    );
    assert_eq!(series_total(&s), 7);
}

#[test]
fn series_does_not_depend_on_order() {
    let a = focal_length_series(&texts(&["85", "50", "24 mm", "50"])).unwrap();
    let b = focal_length_series(&texts(&["50", "24 mm", "50", "85"])).unwrap();
    assert_eq!(a, b);
}

#[test]
fn series_is_the_same_on_a_second_run() {
    let input = texts(&["35", "35.0", "70"]);
    let a = focal_length_series(&input).unwrap();
    let b = focal_length_series(&input).unwrap();
    assert_eq!(a, b);
    assert_eq!(a, vec![point(35, 2), point(70, 1)]);
}

#[test]
fn malformed_value_fails_the_series() {
    let r = focal_length_series(&texts(&["50", "fifty"]));
    assert_eq!(r, Err(InvalidFocalLength { position: 1 }));
}

#[test]
fn extracts_focal_length_from_exif_data() {
    assert_eq!(extract_focal_length(&tiff_with_focal_length(50, 1)), Some("50".to_string()));
    assert_eq!(extract_focal_length(&tiff_with_focal_length(56, 10)), Some("5.6".to_string()));
}

#[test]
fn non_image_bytes_give_no_value() {
    assert_eq!(extract_focal_length(&b"plain text, no image".to_vec()), None);
    assert_eq!(extract_focal_length(&Vec::new()), None);
}

#[test]
fn files_without_a_tag_are_left_out_of_the_total() {
    let files = vec![
        tiff_with_focal_length(50, 1),
        tiff_with_focal_length(50, 1),
        tiff_with_focal_length(85, 1),
        b"not an image".to_vec(),
    ];
    let found: Vec<String> = files.iter().filter_map(|f| extract_focal_length(f)).collect();
    assert_eq!(found.len(), 3);
    let s = focal_length_series(&found).unwrap();
    assert_eq!(s, vec![point(50, 2), point(85, 1)]);
    assert_eq!(series_total(&s), 3);
}
