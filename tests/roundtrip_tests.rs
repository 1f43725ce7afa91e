use edfplus::header_read::parse_header;
use edfplus::tal_encode::generate_annotation_tal_for_channel;
use edfplus::tal_parse::parse_tal_data;
use edfplus::writer::RECORD_COUNT_OFFSET;
use edfplus::{AnnotationScan, EdfError, EdfReader, EdfWriter, SignalParam};

fn eeg_signal(spr: i32) -> SignalParam {
    SignalParam {
        label: "EEG Fp1".to_string(),
        samples_in_file: 0,
        physical_max: 2_000_000_000,
        physical_min: -2_000_000_000,
        digital_max: 32767,
        digital_min: -32768,
        samples_per_record: spr,
        physical_dimension: "uV".to_string(),
        prefilter: "HP:0.1Hz LP:70Hz".to_string(),
        transducer: "AgAgCl electrodes".to_string(),
    }
}

/// Writes `records` records of a ramp for every signal, then patches the record count.
fn write_all(w: &mut EdfWriter, spr: &[usize], records: usize) -> Vec<u8> {
    let mut bytes = Vec::new();
    for r in 0..records {
        let rows: Vec<Vec<i32>> = spr
            .iter()
            .map(|&n| (0..n).map(|k| (r * n + k) as i32).collect())
            .collect();
        bytes.extend(w.write_samples(&rows).unwrap());
    }
    if let Some(patch) = w.finalize() {
        let at = RECORD_COUNT_OFFSET as usize;
        bytes[at..at + 8].copy_from_slice(&patch);
    }
    bytes
}

fn open_bytes(bytes: &[u8]) -> EdfReader {
    let n: usize = std::str::from_utf8(&bytes[252..256]).unwrap().trim().parse().unwrap();
    let main = &bytes[0..256];
    let block = &bytes[256..256 + n * 256];
    let (header, info, size) = parse_header(main, block).unwrap();
    let hs = (n + 1) * 256;
    let mut scan = AnnotationScan::new(&info, header.datarecord_duration);
    for r in 0..header.datarecords_in_file as usize {
        let at = hs + r * size as usize;
        let _ = scan.scan_record(&bytes[at..at + size as usize]);
    }
    let (annotations, count, subsecond) = scan.finish();
    EdfReader::new(header, info, size, annotations, count, subsecond).unwrap()
}

#[test]
fn annotation_before_its_record_survives_and_late_one_is_lost() {
    let mut w = EdfWriter::new();
    w.add_signal(eeg_signal(256)).unwrap();
    w.add_annotation(25_000_000, None, "Valid event").unwrap();
    w.add_annotation(50_000_000, None, "Will be discarded").unwrap();
    let bytes = write_all(&mut w, &[256], 5);
    let r = open_bytes(&bytes);
    let a = r.annotations();
    assert_eq!(a.len(), 1);
    assert_eq!(a[0].onset, 25_000_000);
    assert_eq!(a[0].duration, -1);
    assert_eq!(a[0].description, "Valid event");
    assert_eq!(r.header().datarecords_in_file, 5);
    assert_eq!(r.header().file_duration, 50_000_000);
}

#[test]
fn annotations_past_the_file_never_appear() {
    let mut w = EdfWriter::new();
    w.add_signal(eeg_signal(10)).unwrap();
    w.add_annotation(29_999_999, None, "last moment").unwrap();
    w.add_annotation(30_000_000, None, "too late").unwrap();
    w.add_annotation(90_000_000, Some(10_000_000), "far too late").unwrap();
    let bytes = write_all(&mut w, &[10], 3);
    let r = open_bytes(&bytes);
    let d: Vec<&str> = r.annotations().iter().map(|a| a.description.as_str()).collect();
    assert_eq!(d, vec!["last moment"]);
    assert_eq!(r.annotations()[0].onset, 29_999_999);
}

#[test]
fn annotations_come_back_sorted_over_several_channels() {
    let mut w = EdfWriter::new();
    w.set_number_of_annotation_signals(3).unwrap();
    w.add_signal(eeg_signal(8)).unwrap();
    let onsets = [9_000_000i64, 1_000_000, 5_000_000, 3_000_000, 7_000_000, 2_000_000, 15_000_000, 11_000_000];
    for (i, &o) in onsets.iter().enumerate() {
        w.add_annotation(o, Some(5_000_000), &format!("Event {}", i)).unwrap();
    }
    let bytes = write_all(&mut w, &[8], 2);
    let r = open_bytes(&bytes);
    let a = r.annotations();
    assert_eq!(a.len(), onsets.len());
    for k in 1..a.len() {
        assert!(a[k - 1].onset <= a[k].onset);
    }
    assert_eq!(a[0].description, "Event 1");
    assert_eq!(a[0].duration, 5_000_000);
}

#[test]
fn opening_twice_gives_the_same_header_and_annotations() {
    let mut w = EdfWriter::new();
    w.set_patient_info("P001", "M", "01-JAN-1990", "Test").unwrap();
    w.add_signal(eeg_signal(16)).unwrap();
    w.add_annotation(1_500_000, Some(2_000_000), "Another Event").unwrap();
    let bytes = write_all(&mut w, &[16], 2);
    let a = open_bytes(&bytes);
    let b = open_bytes(&bytes);
    assert_eq!(format!("{:?}", a.header()), format!("{:?}", b.header()));
    assert_eq!(format!("{:?}", a.annotations()), format!("{:?}", b.annotations()));
    assert_eq!(a.header().patient_code, "P001");
    assert_eq!(a.header().sex, "M");
    assert_eq!(a.header().birthdate, "01-JAN-1990");
    assert_eq!(a.header().patient_name, "Test");
    assert_eq!(a.header().patient_additional, "X");
    assert_eq!(a.header().admin_code, "X");
    assert_eq!(a.header().technician, "-MMM-yyyy");
    assert_eq!(a.header().equipment, "Admin:X");
    assert_eq!(a.header().recording_additional, "Tech:X Device:X");
    assert_eq!(a.header().start_date.year, 1985);
    assert_eq!(a.header().signals[0].label, "EEG Fp1");
    assert_eq!(a.header().signals[0].physical_max, 2_000_000_000);
    assert_eq!(a.header().signals[0].samples_in_file, 32);
}

#[test]
fn description_is_cut_to_forty_bytes() {
    let mut w = EdfWriter::new();
    w.add_signal(eeg_signal(4)).unwrap();
    let long = "This is a very long annotation description that goes past forty bytes";
    w.add_annotation(0, None, long).unwrap();
    let bytes = write_all(&mut w, &[4], 1);
    let r = open_bytes(&bytes);
    assert_eq!(r.annotations().len(), 1);
    assert_eq!(r.annotations()[0].description, &long[..40]);
}

#[test]
fn full_block_drops_the_rest() {
    let mut w = EdfWriter::new();
    w.add_signal(eeg_signal(4)).unwrap();
    for i in 0..20 {
        w.add_annotation(i * 100_000, None, &format!("E{}", i)).unwrap();
    }
    let bytes = write_all(&mut w, &[4], 1);
    let r = open_bytes(&bytes);
    let n = r.annotations().len();
    assert!(n > 0 && n < 20);
    assert_eq!(r.annotations()[0].description, "E0");
    assert_eq!(r.header().annotations_in_file, n as i64);
}

#[test]
fn samples_are_clamped_and_read_back() {
    let mut w = EdfWriter::new();
    let mut s = eeg_signal(4);
    s.digital_min = -100;
    s.digital_max = 100;
    w.add_signal(s).unwrap();
    let mut bytes = w.write_samples(&vec![vec![-500, -100, 42, 500]]).unwrap();
    bytes.extend(w.write_samples(&vec![vec![1, 2, 3, 4]]).unwrap());
    let patch = w.finalize().unwrap();
    bytes[236..244].copy_from_slice(&patch);
    let mut r = open_bytes(&bytes);
    let plan = r.plan_digital_read(0, 100).unwrap();
    assert_eq!(plan.len(), 8);
    // header of two entries (768 bytes), records of 8 + 120 bytes
    assert_eq!(plan[0], 768);
    assert_eq!(plan[5], 768 + 128 + 2);
    let got: Vec<i32> = plan
        .iter()
        .map(|&o| r.decode_sample(0, bytes[o as usize], bytes[o as usize + 1]).unwrap())
        .collect();
    assert_eq!(got, vec![-100, -100, 42, 100, 1, 2, 3, 4]);
    assert_eq!(r.tell(0).unwrap(), 8);
    assert_eq!(r.seek(0, 100).unwrap(), 8);
    assert_eq!(r.seek(0, -3).unwrap(), 0);
    assert_eq!(r.seek(0, 5).unwrap(), 5);
    assert_eq!(r.plan_digital_read(0, 2).unwrap(), vec![768 + 128 + 2, 768 + 128 + 4]);
    r.rewind(0).unwrap();
    assert_eq!(r.tell(0).unwrap(), 0);
    assert!(matches!(r.tell(1), Err(EdfError::InvalidSignalIndex(1))));
    assert!(matches!(r.seek(3, 0), Err(EdfError::InvalidSignalIndex(3))));
}

#[test]
fn decode_sample_reads_little_endian_twos_complement() {
    let mut w = EdfWriter::new();
    w.add_signal(eeg_signal(1)).unwrap();
    let bytes = write_all(&mut w, &[1], 1);
    let r = open_bytes(&bytes);
    assert_eq!(r.decode_sample(0, 0xff, 0xff).unwrap(), -1);
    assert_eq!(r.decode_sample(0, 0x00, 0x80).unwrap(), -32768);
    assert_eq!(r.decode_sample(0, 0x01, 0x02).unwrap(), 0x0201);
}

#[test]
fn different_rates_address_their_own_columns() {
    let mut w = EdfWriter::new();
    w.add_signal(eeg_signal(4)).unwrap();
    w.add_signal(eeg_signal(1)).unwrap();
    let bytes = write_all(&mut w, &[4, 1], 3);
    let mut r = open_bytes(&bytes);
    // header of three entries (1024 bytes); records of 8 + 2 + 120 bytes
    assert_eq!(r.plan_digital_read(1, 10).unwrap(), vec![1024 + 8, 1024 + 130 + 8, 1024 + 260 + 8]);
    let p = r.plan_digital_read(0, 10).unwrap();
    assert_eq!(p.len(), 10);
    assert_eq!(p[4], 1024 + 130);
    let v: Vec<i32> = p.iter().map(|&o| r.decode_sample(0, bytes[o as usize], bytes[o as usize + 1]).unwrap()).collect();
    assert_eq!(v, (0..10).collect::<Vec<i32>>());
}

#[test]
fn record_count_is_patched_at_finalize() {
    let mut w = EdfWriter::new();
    w.add_signal(eeg_signal(2)).unwrap();
    let first = w.write_samples(&vec![vec![0, 0]]).unwrap();
    assert_eq!(&first[236..244], b"1       ");
    assert!(w.finalize().is_none());
    w.write_samples(&vec![vec![0, 0]]).unwrap();
    w.write_samples(&vec![vec![0, 0]]).unwrap();
    assert_eq!(w.finalize().unwrap(), b"3       ".to_vec());
}

#[test]
fn header_bytes_follow_the_layout() {
    let mut w = EdfWriter::new();
    w.set_patient_info("P\u{e9}1", "F", "X", "Name").unwrap();
    w.add_signal(eeg_signal(256)).unwrap();
    let h = w.write_samples(&vec![vec![0; 256]]).unwrap();
    assert_eq!(&h[0..8], b"0       ");
    assert_eq!(&h[8..24], b"P_1 F X Name X  ");
    assert_eq!(&h[88..133], b"Startdate X -MMM-yyyy Admin:X Tech:X Device:X");
    assert_eq!(&h[168..184], b"01.01.8500.00.00");
    assert_eq!(&h[184..192], b"768     ");
    assert_eq!(&h[192..197], b"EDF+C");
    assert_eq!(&h[244..252], b"1       ");
    assert_eq!(&h[252..256], b"2   ");
    // labels, then transducers
    assert_eq!(&h[256..272], b"EEG Fp1         ");
    assert_eq!(&h[272..288], b"EDF Annotations ");
    // physical minimum of the signal and of the annotation channel
    assert_eq!(&h[256 + 2 * 104..256 + 2 * 104 + 16], b"-200    -1      ");
    // samples per record
    assert_eq!(&h[256 + 2 * 216..256 + 2 * 216 + 16], b"256     60      ");
    assert_eq!(h.len(), 768 + 512 + 120);
}

#[test]
fn record_timestamps_and_units_are_encoded() {
    let mut w = EdfWriter::new();
    w.add_signal(eeg_signal(1)).unwrap();
    w.add_annotation(0, None, "Test Event").unwrap();
    w.add_annotation(15_000_000, Some(20_000_000), "Another Event").unwrap();
    let bytes = write_all(&mut w, &[1], 2);
    let hs = 768;
    let rec0 = &bytes[hs + 2..hs + 2 + 120];
    assert!(rec0.starts_with(b"+0\x14\x14\x00+0\x14Test Event\x14\x00"));
    let rec1 = &bytes[hs + 122 + 2..hs + 122 + 2 + 120];
    assert!(rec1.starts_with(b"+1\x14\x14\x00+1.5\x152\x14Another Event\x14\x00"));
}

#[test]
fn subsecond_start_is_written_and_recovered() {
    let mut w = EdfWriter::new();
    w.set_subsecond_starttime(1_234_500).unwrap();
    w.add_signal(eeg_signal(1)).unwrap();
    w.add_annotation(15_000_000, None, "later").unwrap();
    let bytes = write_all(&mut w, &[1], 2);
    assert!(bytes[768 + 2..].starts_with(b"+0.12345\x14\x14\x00"));
    assert!(bytes[768 + 122 + 2..].starts_with(b"+1.12345\x14\x14\x00"));
    let r = open_bytes(&bytes);
    assert_eq!(r.header().starttime_subsecond, 1_234_500);
    assert_eq!(r.annotations().len(), 1);
    assert_eq!(r.annotations()[0].description, "later");
}

#[test]
fn round_robin_spreads_annotations_over_channels() {
    let anns = vec![
        edfplus::Annotation { onset: 0, duration: -1, description: "a".to_string() },
        edfplus::Annotation { onset: 1, duration: -1, description: "b".to_string() },
        edfplus::Annotation { onset: 2, duration: -1, description: "c".to_string() },
    ];
    let ch0 = generate_annotation_tal_for_channel(&anns, 0, 0, 2, 10_000_000, 0);
    let ch1 = generate_annotation_tal_for_channel(&anns, 0, 1, 2, 10_000_000, 0);
    assert_eq!(ch0.len(), 120);
    assert!(ch0.starts_with(b"+0\x14\x14\x00+0\x14a\x14\x00+0.0000002\x14c\x14\x00\x00"));
    assert!(ch1.starts_with(b"+0.0000001\x14b\x14\x00"));
    let d: Vec<String> = parse_tal_data(&ch1).into_iter().map(|a| a.description).collect();
    assert_eq!(d, vec!["b".to_string()]);
}

#[test]
fn discontinuous_records_are_reported() {
    let mut w = EdfWriter::new();
    w.add_signal(eeg_signal(1)).unwrap();
    w.add_annotation(100, None, "x").unwrap();
    let mut bytes = write_all(&mut w, &[1], 3);
    // record 2's timestamp "+2" becomes "+5"
    let at = 768 + 2 * 122 + 2 + 1;
    assert_eq!(bytes[at], b'2');
    bytes[at] = b'5';
    let n = 2;
    let (header, info, size) = parse_header(&bytes[0..256], &bytes[256..256 + n * 256]).unwrap();
    let mut scan = AnnotationScan::new(&info, header.datarecord_duration);
    assert!(scan.scan_record(&bytes[768..768 + 122]).is_ok());
    assert!(scan.scan_record(&bytes[768 + 122..768 + 244]).is_ok());
    assert!(matches!(scan.scan_record(&bytes[768 + 244..768 + 366]), Err(EdfError::DiscontinuousFile)));
    let (a, count, _) = scan.finish();
    assert!(a.is_empty());
    assert_eq!(count, 1);
    let _ = size;
}
