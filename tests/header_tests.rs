use edfplus::header_read::{parse_datetime, parse_edfplus_patient, parse_edfplus_recording, parse_header};
use edfplus::recording::{check_recording_field, to_ascii, validate_recording_field};
use edfplus::utils::{fixed_nonlocalized, trim_string};
use edfplus::{atoi_nonlocalized, is_number, parse_edf_time, trim_padding_spaces, EdfError, EdfWriter, SignalParam};

fn signal() -> SignalParam {
    SignalParam {
        label: "EEG".to_string(),
        samples_in_file: 0,
        physical_max: 1_000_000_000,
        physical_min: -1_000_000_000,
        digital_max: 32767,
        digital_min: -32768,
        samples_per_record: 2,
        physical_dimension: "uV".to_string(),
        prefilter: String::new(),
        transducer: String::new(),
    }
}

fn sample_header() -> Vec<u8> {
    let mut w = EdfWriter::new();
    w.add_signal(signal()).unwrap();
    w.write_samples(&vec![vec![0, 0]]).unwrap()
}

#[test]
fn parse_header_reads_what_the_writer_wrote() {
    let h = sample_header();
    let (header, info, size) = parse_header(&h[0..256], &h[256..768]).unwrap();
    assert_eq!(header.signals.len(), 1);
    assert_eq!(info.len(), 2);
    assert!(info[1].is_annotation);
    assert_eq!(info[1].buffer_offset, 4);
    assert_eq!(size, 124);
    assert_eq!(header.datarecord_duration, 10_000_000);
    assert_eq!(header.signals[0].physical_min, -1_000_000_000);
    assert_eq!(header.signals[0].digital_min, -32768);
    assert_eq!(header.start_time.hour, 0);
}

#[test]
fn header_checks_come_in_order() {
    let h = sample_header();
    let mut bad = h.clone();
    bad[0] = b'1';
    assert!(matches!(parse_header(&bad[0..256], &bad[256..768]), Err(EdfError::UnsupportedFileType(_))));
    let mut bad = h.clone();
    bad[252..256].copy_from_slice(b"0   ");
    assert!(matches!(parse_header(&bad[0..256], &bad[256..768]), Err(EdfError::InvalidSignalCount(0))));
    let mut bad = h.clone();
    bad[252..256].copy_from_slice(b"4097");
    assert!(matches!(parse_header(&bad[0..256], &bad[256..768]), Err(EdfError::InvalidSignalCount(4097))));
    let mut bad = h.clone();
    bad[184..192].copy_from_slice(b"512     ");
    assert!(matches!(parse_header(&bad[0..256], &bad[256..768]), Err(EdfError::InvalidHeader)));
    let mut bad = h.clone();
    bad[192..197].copy_from_slice(b"EDF+D");
    assert!(matches!(parse_header(&bad[0..256], &bad[256..768]), Err(EdfError::UnsupportedFileType(_))));
    let mut bad = h.clone();
    bad[168..176].copy_from_slice(b"31.02.85");
    assert!(matches!(parse_header(&bad[0..256], &bad[256..768]), Err(EdfError::FormatError)));
    // physical maximum equal to the minimum
    let mut bad = h.clone();
    bad[256 + 2 * 112..256 + 2 * 112 + 8].copy_from_slice(b"-100    ");
    assert!(matches!(parse_header(&bad[0..256], &bad[256..768]), Err(EdfError::PhysicalMinEqualsMax)));
    let mut bad = h.clone();
    bad[256 + 2 * 128..256 + 2 * 128 + 8].copy_from_slice(b"-32768  ");
    assert!(matches!(parse_header(&bad[0..256], &bad[256..768]), Err(EdfError::DigitalMinEqualsMax)));
}

#[test]
fn datetime_fields() {
    let (d, t) = parse_datetime("15.03.85", "23.59.58").unwrap();
    assert_eq!((d.year, d.month, d.day), (1985, 3, 15));
    assert_eq!((t.hour, t.minute, t.second), (23, 59, 58));
    let (d, _) = parse_datetime("29.02.84", "00.00.00").unwrap();
    assert_eq!(d.year, 2084);
    assert!(matches!(parse_datetime("29.02.85", "00.00.00"), Err(EdfError::FormatError)));
    assert!(matches!(parse_datetime("01.01.85", "24.00.00"), Err(EdfError::FormatError)));
    assert!(matches!(parse_datetime("01.01", "00.00.00"), Err(EdfError::FormatError)));
}

#[test]
fn patient_and_recording_words() {
    let (c, s, b, n, a) = parse_edfplus_patient("P001 M  01-JAN-1990 Test Patient extra");
    assert_eq!((c.as_str(), s.as_str(), b.as_str(), n.as_str(), a.as_str()), ("P001", "M", "01-JAN-1990", "Test", "Patient extra"));
    let (c, s, _, _, a) = parse_edfplus_patient("X");
    assert_eq!((c.as_str(), s.as_str(), a.as_str()), ("X", "", ""));
    let (ad, te, eq, rest) = parse_edfplus_recording("Startdate X A T E more words");
    assert_eq!((ad.as_str(), te.as_str(), eq.as_str(), rest.as_str()), ("X", "A", "T", "E more words"));
}

#[test]
fn recording_field_rules() {
    let mut h = vec![b' '; 256];
    h[88..88 + 45].copy_from_slice(b"Startdate X -MMM-yyyy Admin:X Tech:X Device:X");
    assert!(check_recording_field(true, false, &h).is_ok());
    assert!(validate_recording_field(&h[88..168]));
    h[88..88 + 22].copy_from_slice(b"Startdate 02-MAR-2002 ");
    assert!(check_recording_field(true, false, &h).is_ok());
    h[88 + 13..88 + 16].copy_from_slice(b"MAX");
    assert!(matches!(check_recording_field(true, false, &h), Err(EdfError::InvalidFormat(_))));
    assert!(check_recording_field(false, false, &h).is_ok());
    let mut g = vec![b' '; 256];
    g[88..88 + 10].copy_from_slice(b"Startdate ");
    g[98] = b'X';
    g[100] = 0xff;
    assert!(check_recording_field(true, false, &g).is_err());
    assert!(!validate_recording_field(&g[88..168]));
    assert!(check_recording_field(true, false, &g[0..100]).is_err());
}

#[test]
fn writer_settings_and_refusals() {
    let mut w = EdfWriter::new();
    assert!(w.set_number_of_annotation_signals(1).is_ok());
    assert!(w.set_number_of_annotation_signals(32).is_ok());
    assert!(w.set_number_of_annotation_signals(64).is_ok());
    assert!(w.set_number_of_annotation_signals(0).is_err());
    assert!(w.set_number_of_annotation_signals(65).is_err());
    assert!(w.set_datarecord_duration(0).is_err());
    assert!(w.set_datarecord_duration(36_000_000_001).is_err());
    assert!(w.set_datarecord_duration(5_000_000).is_ok());
    assert!(w.set_subsecond_starttime(10_000_000).is_err());
    let mut s = signal();
    s.physical_min = s.physical_max;
    assert!(matches!(w.add_signal(s), Err(EdfError::PhysicalMinEqualsMax)));
    let mut s = signal();
    s.digital_min = s.digital_max;
    assert!(matches!(w.add_signal(s), Err(EdfError::DigitalMinEqualsMax)));
    w.add_signal(signal()).unwrap();
    assert!(matches!(w.write_samples(&vec![vec![0, 0, 0]]), Err(EdfError::InvalidFormat(_))));
    assert!(matches!(w.write_samples(&vec![]), Err(EdfError::InvalidFormat(_))));
    let h = w.write_samples(&vec![vec![0, 0]]).unwrap();
    assert_eq!(&h[244..252], b"0.5     ");
    assert!(w.set_number_of_annotation_signals(3).is_err());
    assert!(matches!(w.add_signal(signal()), Err(EdfError::InvalidFormat(_))));
    assert!(w.set_patient_info("a", "b", "c", "d").is_err());
}

#[test]
fn annotation_input_is_checked() {
    let mut w = EdfWriter::new();
    assert!(w.add_annotation(0, None, "Valid annotation").is_ok());
    assert!(w.add_annotation(10_000_000, Some(5_000_000), "Valid with duration").is_ok());
    assert!(w.add_annotation(-1, None, "Negative onset").is_err());
    assert!(w.add_annotation(0, Some(-1), "Negative duration").is_err());
    assert!(w.add_annotation(0, None, "").is_err());
    let long = "x".repeat(600);
    assert!(matches!(w.add_annotation(0, None, &long), Err(EdfError::InvalidFormat(_))));
    assert!(w.add_annotation(0, None, &"x".repeat(512)).is_ok());
    assert_eq!(w.annotation_count(), 3);
}

#[test]
fn numbers_and_text() {
    assert_eq!(atoi_nonlocalized(" 42  "), 42);
    assert_eq!(atoi_nonlocalized("-2147483648"), i32::MIN);
    assert_eq!(atoi_nonlocalized("2147483648"), 0);
    assert_eq!(atoi_nonlocalized("x1"), 0);
    assert_eq!(atoi_nonlocalized(""), 0);
    assert!(is_number("1e5"));
    assert!(is_number(" -.5 "));
    assert!(is_number("5."));
    assert!(is_number("Infinity"));
    assert!(is_number("nan"));
    assert!(!is_number("."));
    assert!(!is_number("1e"));
    assert!(!is_number("abc"));
    assert!(!is_number(""));
    assert!(parse_edf_time("").is_err());
    assert!(parse_edf_time("abc").is_err());
    assert!(parse_edf_time("1.2.3").is_err());
    assert!(parse_edf_time("99999999999999").is_err());
    assert_eq!(parse_edf_time(" 3600 ").unwrap(), 36_000_000_000);
    assert_eq!(parse_edf_time("0.123456789").unwrap(), 1_234_567);
    assert_eq!(fixed_nonlocalized("-200    "), -2_000_000_000);
    assert_eq!(fixed_nonlocalized("junk"), 0);
    let mut s = String::from("  padded\t ");
    trim_padding_spaces(&mut s);
    assert_eq!(s, "padded");
    assert_eq!(trim_string("\u{3000}x y\n"), "x y");
    assert_eq!(to_ascii("caf\u{e9} \u{6d4b}"), "caf_ _");
}
