use edfplus::header_read::parse_header;
use edfplus::writer::RECORD_COUNT_OFFSET;
use edfplus::{AnnotationScan, EdfError, EdfReader, EdfWriter, SignalParam};

const TICKS: f64 = 10_000_000.0;

/// A +-100 uV, 16-bit, 256 samples per record signal.
fn create_test_signal() -> SignalParam {
    SignalParam {
        label: "EEG Test".to_string(),
        samples_in_file: 0,
        physical_max: 1_000_000_000,
        physical_min: -1_000_000_000,
        digital_max: 32767,
        digital_min: -32768,
        samples_per_record: 256,
        physical_dimension: "uV".to_string(),
        prefilter: "HP:0.1Hz LP:70Hz".to_string(),
        transducer: "Test electrodes".to_string(),
    }
}

fn to_digital(v: f64) -> i32 {
    to_digital_in(v, -100.0, 100.0)
}

/// A physical value as a 16-bit digital code of a signal spanning `[min, max]`.
fn to_digital_in(v: f64, min: f64, max: f64) -> i32 {
    let bit = (max - min) / 65535.0;
    let offset = max / bit - 32767.0;
    (v / bit - offset).round() as i32
}

fn signal_with(label: &str, min: i64, max: i64, spr: i32, unit: &str, prefilter: &str, transducer: &str) -> SignalParam {
    SignalParam {
        label: label.to_string(),
        samples_in_file: 0,
        physical_max: max * 10_000_000,
        physical_min: min * 10_000_000,
        digital_max: 32767,
        digital_min: -32768,
        samples_per_record: spr,
        physical_dimension: unit.to_string(),
        prefilter: prefilter.to_string(),
        transducer: transducer.to_string(),
    }
}

fn add_annotation(w: &mut EdfWriter, onset: f64, duration: Option<f64>, text: &str) -> Result<(), EdfError> {
    if onset < 0.0 || duration.map_or(false, |d| d < 0.0) {
        return Err(EdfError::InvalidFormat("negative".to_string()));
    }
    w.add_annotation((onset * TICKS) as i64, duration.map(|d| (d * TICKS) as i64), text)
}

/// One second of `channels` signals of a sine, 256 samples each.
fn sine_record(second: usize, channels: usize, amplitude: f64, freq: f64) -> Vec<Vec<i32>> {
    (0..channels)
        .map(|_| {
            (0..256)
                .map(|i| {
                    let t = (second * 256 + i) as f64 / 256.0;
                    to_digital(amplitude * (2.0 * std::f64::consts::PI * freq * t).sin())
                })
                .collect()
        })
        .collect()
}

fn finish(w: &EdfWriter, mut bytes: Vec<u8>) -> Vec<u8> {
    if let Some(p) = w.finalize() {
        let at = RECORD_COUNT_OFFSET as usize;
        bytes[at..at + 8].copy_from_slice(&p);
    }
    bytes
}

fn open_bytes(bytes: &[u8]) -> EdfReader {
    let n: usize = std::str::from_utf8(&bytes[252..256]).unwrap().trim().parse().unwrap();
    let (header, info, size) = parse_header(&bytes[0..256], &bytes[256..256 + n * 256]).unwrap();
    let hs = (n + 1) * 256;
    let mut scan = AnnotationScan::new(&info, header.datarecord_duration);
    for r in 0..header.datarecords_in_file as usize {
        let at = hs + r * size as usize;
        let _ = scan.scan_record(&bytes[at..at + size as usize]);
    }
    let (annotations, count, subsecond) = scan.finish();
    EdfReader::new(header, info, size, annotations, count, subsecond).unwrap()
}

#[test]
fn test_basic_annotation_write_read() {
    let mut writer = EdfWriter::new();
    writer.set_patient_info("ANN001", "F", "15-JUL-1985", "Annotation Test").unwrap();
    writer.add_signal(create_test_signal()).unwrap();
    add_annotation(&mut writer, 0.0, None, "Recording Start").unwrap();
    add_annotation(&mut writer, 1.5, Some(2.0), "Sleep Stage N1").unwrap();
    add_annotation(&mut writer, 3.5, None, "Eye Movement").unwrap();
    add_annotation(&mut writer, 5.2, Some(0.5), "Artifact").unwrap();
    add_annotation(&mut writer, 7.8, None, "K-Complex").unwrap();
    let mut bytes = Vec::new();
    for second in 0..10 {
        bytes.extend(writer.write_samples(&sine_record(second, 1, 30.0, 10.0)).unwrap());
    }
    let bytes = finish(&writer, bytes);
    let reader = open_bytes(&bytes);
    let annotations = reader.annotations();
    assert_eq!(annotations.len(), 5);
    let expected = vec![
        (0.0, None, "Recording Start"),
        (1.5, Some(2.0), "Sleep Stage N1"),
        (3.5, None, "Eye Movement"),
        (5.2, Some(0.5), "Artifact"),
        (7.8, None, "K-Complex"),
    ];
    for (i, (onset, duration, desc)) in expected.iter().enumerate() {
        let a = &annotations[i];
        let tolerance = 0.001;
        assert!((a.onset as f64 / TICKS - onset).abs() < tolerance);
        match duration {
            Some(d) => {
                assert!(a.duration >= 0);
                assert!((a.duration as f64 / TICKS - d).abs() < tolerance);
            },
            None => assert_eq!(a.duration, -1),
        }
        assert_eq!(a.description, *desc);
    }
}

#[test]
fn test_annotation_time_precision() {
    let mut writer = EdfWriter::new();
    writer.set_patient_info("PREC001", "X", "X", "Precision Test").unwrap();
    writer.add_signal(create_test_signal()).unwrap();
    add_annotation(&mut writer, 0.0001, None, "Microsecond Event").unwrap();
    add_annotation(&mut writer, 0.1234567, None, "High Precision").unwrap();
    add_annotation(&mut writer, 1.9999999, Some(0.0000001), "Nanosecond Duration").unwrap();
    add_annotation(&mut writer, 3.141592653589793, None, "Pi Seconds").unwrap();
    let mut bytes = Vec::new();
    for second in 0..5 {
        bytes.extend(writer.write_samples(&sine_record(second, 1, 20.0, 5.0)).unwrap());
    }
    let bytes = finish(&writer, bytes);
    let reader = open_bytes(&bytes);
    let annotations = reader.annotations();
    assert_eq!(annotations.len(), 4);
    let expected = vec![
        (0.0001, "Microsecond Event"),
        (0.1234567, "High Precision"),
        (1.9999999, "Nanosecond Duration"),
        (3.141592653589793, "Pi Seconds"),
    ];
    for (i, (time, desc)) in expected.iter().enumerate() {
        let a = &annotations[i];
        assert!((a.onset as f64 / TICKS - time).abs() < 1e-7);
        assert_eq!(a.description, *desc);
    }
}

#[test]
fn test_annotation_edge_cases() {
    let mut writer = EdfWriter::new();
    writer.set_patient_info("EDGE001", "X", "X", "Edge Case Test").unwrap();
    writer.add_signal(create_test_signal()).unwrap();
    add_annotation(&mut writer, 0.0, None, "Exactly at start").unwrap();
    add_annotation(&mut writer, 0.0, Some(0.0), "Zero duration").unwrap();
    add_annotation(&mut writer, 59.999, None, "Near end").unwrap();
    let long_description = "This is a very long annotation description that tests the system's ability to handle extended text content in annotations, which might be useful for detailed clinical observations and notes.";
    add_annotation(&mut writer, 30.0, Some(10.0), long_description).unwrap();
    add_annotation(&mut writer, 45.0, None, "Special chars: \u{e0}\u{e1}\u{e2}\u{e3}\u{e4}\u{e5}\u{e6}\u{e7}\u{e8}\u{e9}\u{ea}\u{eb} \u{6d4b}\u{8bd5} \u{1f9e0}").unwrap();
    let mut bytes = Vec::new();
    for second in 0..60 {
        bytes.extend(writer.write_samples(&sine_record(second, 1, 25.0, 8.0)).unwrap());
    }
    let bytes = finish(&writer, bytes);
    let reader = open_bytes(&bytes);
    let annotations = reader.annotations();
    assert_eq!(annotations.len(), 5);
    assert_eq!(annotations[0].onset, 0);
    assert_eq!(annotations[0].description, "Exactly at start");
    assert_eq!(annotations[1].onset, 0);
    assert_eq!(annotations[1].duration, 0);
    assert_eq!(annotations[1].description, "Zero duration");
    let long = annotations
        .iter()
        .find(|a| a.description.starts_with("This is a very long"))
        .expect("Should find long description annotation");
    assert!(long.description.len() <= 40);
    assert!(long.description.starts_with("This is a very long"));
    let special = annotations
        .iter()
        .find(|a| a.description.contains("Special chars"))
        .expect("Should find special character annotation");
    assert!(special.description.contains("Special chars"));
}

#[test]
fn test_multiple_annotation_channels() {
    let mut writer = EdfWriter::new();
    writer.set_patient_info("MULTI001", "X", "X", "Multi Annotation Test").unwrap();
    writer.set_number_of_annotation_signals(3).unwrap();
    writer.add_signal(create_test_signal()).unwrap();
    for i in 0..15 {
        let onset = i as f64 * 0.5;
        let description = format!("Event {}", i + 1);
        if i % 3 == 0 {
            add_annotation(&mut writer, onset, Some(2.0), &description).unwrap();
        } else {
            add_annotation(&mut writer, onset, None, &description).unwrap();
        }
    }
    let mut bytes = Vec::new();
    for second in 0..10 {
        bytes.extend(writer.write_samples(&sine_record(second, 1, 35.0, 12.0)).unwrap());
    }
    let bytes = finish(&writer, bytes);
    let reader = open_bytes(&bytes);
    let annotations = reader.annotations();
    assert_eq!(annotations.len(), 15);
    for i in 1..annotations.len() {
        assert!(annotations[i].onset >= annotations[i - 1].onset, "Annotations should be sorted by onset time");
    }
    let mut counts = std::collections::HashMap::new();
    for a in annotations {
        *counts.entry(&a.description).or_insert(0) += 1;
    }
    for (event, count) in &counts {
        assert_eq!(*count, 1, "Event '{}' should appear exactly once", event);
    }
}

#[test]
fn test_annotation_validation() {
    let mut writer = EdfWriter::new();
    writer.set_patient_info("VAL001", "X", "X", "Validation Test").unwrap();
    writer.add_signal(create_test_signal()).unwrap();
    assert!(add_annotation(&mut writer, 0.1, None, "Valid annotation").is_ok());
    assert!(add_annotation(&mut writer, 0.5, Some(0.3), "Valid with duration").is_ok());
    assert!(add_annotation(&mut writer, -1.0, None, "Negative onset").is_err());
    assert!(add_annotation(&mut writer, 0.1, Some(-1.0), "Negative duration").is_err());
    assert!(add_annotation(&mut writer, 0.1, None, "").is_err());
    let very_long_desc = "x".repeat(600);
    assert!(add_annotation(&mut writer, 0.1, None, &very_long_desc).is_err());
    let samples = vec![to_digital(10.0); 256];
    let bytes = writer.write_samples(&vec![samples]).unwrap();
    let bytes = finish(&writer, bytes);
    let reader = open_bytes(&bytes);
    let annotations = reader.annotations();
    assert_eq!(annotations.len(), 2);
    assert_eq!(annotations[0].description, "Valid annotation");
    assert_eq!(annotations[1].description, "Valid with duration");
}

#[test]
fn test_sleep_study_annotations() {
    let mut writer = EdfWriter::new();
    writer.set_patient_info("SLEEP001", "F", "22-AUG-1978", "Sleep_Study_Patient").unwrap();
    for channel in &["C3-A2", "C4-A1", "O1-A2", "O2-A1"] {
        let mut signal = create_test_signal();
        signal.label = format!("EEG {}", channel);
        writer.add_signal(signal).unwrap();
    }
    add_annotation(&mut writer, 0.0, None, "Lights Out").unwrap();
    add_annotation(&mut writer, 180.0, None, "Sleep Onset").unwrap();
    add_annotation(&mut writer, 300.0, Some(1800.0), "Stage N1").unwrap();
    add_annotation(&mut writer, 2100.0, Some(3600.0), "Stage N2").unwrap();
    add_annotation(&mut writer, 5700.0, Some(1800.0), "Stage N3").unwrap();
    add_annotation(&mut writer, 7500.0, Some(900.0), "REM Sleep").unwrap();
    add_annotation(&mut writer, 1200.0, None, "Sleep Spindle").unwrap();
    add_annotation(&mut writer, 1800.0, None, "K-Complex").unwrap();
    add_annotation(&mut writer, 3600.0, None, "Vertex Sharp Wave").unwrap();
    add_annotation(&mut writer, 6000.0, None, "Delta Wave Burst").unwrap();
    add_annotation(&mut writer, 7800.0, None, "REM Burst").unwrap();
    add_annotation(&mut writer, 8100.0, None, "Eye Movement").unwrap();
    add_annotation(&mut writer, 4200.0, Some(30.0), "Brief Awakening").unwrap();
    add_annotation(&mut writer, 6900.0, Some(15.0), "Movement Artifact").unwrap();
    add_annotation(&mut writer, 8400.0, None, "Final Awakening").unwrap();
    let mut bytes = Vec::new();
    for second in 0..9000usize {
        let base_freq = match second {
            0..=299 => 10.0,
            300..=2099 => 8.0,
            2100..=5699 => 5.0,
            5700..=7499 => 2.0,
            7500..=8399 => 15.0,
            _ => 12.0,
        };
        let amplitude = match second {
            5700..=7499 => 80.0,
            _ => 30.0,
        };
        let row: Vec<i32> = (0..256)
            .map(|sample| {
                let t = (second * 256 + sample) as f64 / 256.0;
                let v = amplitude * (2.0 * std::f64::consts::PI * base_freq * t).sin()
                    + 5.0 * (2.0 * std::f64::consts::PI * 50.0 * t).sin();
                to_digital(v)
            })
            .collect();
        bytes.extend(writer.write_samples(&vec![row.clone(), row.clone(), row.clone(), row]).unwrap());
    }
    let bytes = finish(&writer, bytes);
    let reader = open_bytes(&bytes);
    let header = reader.header();
    let annotations = reader.annotations();
    assert_eq!(header.signals.len(), 4);
    assert_eq!(header.patient_name, "Sleep_Study_Patient");
    assert_eq!(annotations.len(), 15);
}

#[test]
fn test_edf_header_fields_comprehensive() {
    let mut writer = EdfWriter::new();
    writer.set_patient_info("HDR001", "F", "15-DEC-1985", "Header_Test_Patient").unwrap();
    writer.add_signal(signal_with("EEG C3-A2", -200, 200, 256, "uV", "HP:0.1Hz LP:70Hz", "AgAgCl cup electrodes")).unwrap();
    writer.add_signal(signal_with("ECG Lead II", -5, 5, 512, "mV", "HP:0.05Hz LP:150Hz", "Disposable electrodes")).unwrap();
    writer.add_signal(signal_with("Temperature", 30, 42, 1, "\u{b0}C", "", "Thermistor probe")).unwrap();
    add_annotation(&mut writer, 0.0, None, "Recording start").unwrap();
    add_annotation(&mut writer, 10.0, Some(5.0), "Test event 1").unwrap();
    add_annotation(&mut writer, 25.0, None, "Marker point").unwrap();
    add_annotation(&mut writer, 40.0, Some(2.5), "Test event 2").unwrap();
    add_annotation(&mut writer, 55.0, None, "End marker").unwrap();
    add_annotation(&mut writer, 59.5, None, "Recording end").unwrap();
    let mut bytes = Vec::new();
    for second in 0..60usize {
        let eeg: Vec<i32> = (0..256)
            .map(|i| {
                let t = (second * 256 + i) as f64 / 256.0;
                to_digital_in(50.0 * (2.0 * std::f64::consts::PI * 10.0 * t).sin(), -200.0, 200.0)
            })
            .collect();
        let ecg: Vec<i32> = (0..512)
            .map(|i| {
                let t = (second * 512 + i) as f64 / 512.0;
                to_digital_in(if (t % 1.0) < 0.1 { 2.0 } else { 0.1 }, -5.0, 5.0)
            })
            .collect();
        let temp = 36.5 + 0.5 * (2.0 * std::f64::consts::PI * second as f64 / 60.0).sin();
        bytes.extend(writer.write_samples(&vec![eeg, ecg, vec![to_digital_in(temp, 30.0, 42.0)]]).unwrap());
    }
    let bytes = finish(&writer, bytes);
    let reader = open_bytes(&bytes);
    let header = reader.header();
    let annotations = reader.annotations();
    assert_eq!(header.signals.len(), 3, "Should have 3 signals");
    let duration_seconds = header.file_duration as f64 / TICKS;
    assert!((duration_seconds - 60.0).abs() < 0.1, "Duration should be ~60 seconds");
    let calculated = header.datarecords_in_file as f64 * (header.datarecord_duration as f64 / TICKS);
    assert!((calculated - duration_seconds).abs() < 0.001);
    assert_eq!(header.annotations_in_file, 6, "Should have 6 annotations in header");
    assert_eq!(annotations.len(), 6, "Should read 6 annotations");
    let expected = ["Recording start", "Test event 1", "Marker point", "Test event 2", "End marker", "Recording end"];
    for (i, desc) in expected.iter().enumerate() {
        assert_eq!(annotations[i].description, *desc);
    }
    assert_eq!(header.patient_code, "HDR001");
    assert_eq!(header.sex, "F");
    assert_eq!(header.birthdate, "15-DEC-1985");
    assert_eq!(header.patient_name, "Header_Test_Patient");
    assert_eq!(header.signals[0].label, "EEG C3-A2");
    assert_eq!(header.signals[0].samples_per_record, 256);
    assert_eq!(header.signals[0].physical_dimension, "uV");
    assert_eq!(header.signals[1].label, "ECG Lead II");
    assert_eq!(header.signals[1].samples_per_record, 512);
    assert_eq!(header.signals[1].physical_dimension, "mV");
    assert_eq!(header.signals[2].label, "Temperature");
    assert_eq!(header.signals[2].samples_per_record, 1);
    assert_eq!(header.signals[2].physical_dimension, "\u{b0}C");
    let total: usize = header.signals.iter().map(|s| s.samples_per_record as usize).sum();
    assert_eq!(total, 256 + 512 + 1);
}

#[test]
fn test_header_fields_edge_cases() {
    let mut writer = EdfWriter::new();
    writer.set_patient_info("EDGE999", "X", "X", "X").unwrap();
    writer.add_signal(signal_with("Test", -1, 1, 1, "V", "", "")).unwrap();
    let bytes = writer.write_samples(&vec![vec![to_digital_in(0.5, -1.0, 1.0)]]).unwrap();
    let bytes = finish(&writer, bytes);
    let reader = open_bytes(&bytes);
    let header = reader.header();
    assert_eq!(header.annotations_in_file, 0, "Should have 0 annotations");
    assert_eq!(reader.annotations().len(), 0, "Should read 0 annotations");
    assert!((header.file_duration as f64 / TICKS - 1.0).abs() < 0.001, "Should be 1 second duration");
    assert_eq!(header.patient_code, "EDGE999");
    assert_eq!(header.sex, "X");
    assert_eq!(header.birthdate, "X");
    assert_eq!(header.patient_name, "X");
    assert_eq!(header.datarecords_in_file, 1, "Should have 1 data record");
    assert_eq!(header.datarecord_duration, 10_000_000, "Record should be 1 second");
    assert_eq!(header.signals.len(), 1);
    assert_eq!(header.signals[0].samples_per_record, 1);
}

#[test]
fn test_header_fields_maximum_annotations() {
    let mut writer = EdfWriter::new();
    writer.set_patient_info("MAX001", "M", "01-JAN-2000", "Max_Annotations_Test").unwrap();
    writer.set_number_of_annotation_signals(3).unwrap();
    writer.add_signal(create_test_signal()).unwrap();
    for i in 0..30 {
        add_annotation(&mut writer, i as f64, None, &format!("Evt{:02}", i)).unwrap();
    }
    let mut bytes = Vec::new();
    for _ in 0..30 {
        bytes.extend(writer.write_samples(&vec![vec![to_digital(0.0); 256]]).unwrap());
    }
    let bytes = finish(&writer, bytes);
    let reader = open_bytes(&bytes);
    let header = reader.header();
    let annotations = reader.annotations();
    assert_eq!(header.annotations_in_file, annotations.len() as i64, "Header count should match read count");
    assert!(header.annotations_in_file >= 25);
    assert!(annotations.len() >= 25);
    for i in 1..annotations.len() {
        assert!(annotations[i].onset >= annotations[i - 1].onset);
    }
    for a in annotations {
        let onset = a.onset as f64 / TICKS;
        assert!(a.description.starts_with("Evt"));
        assert!(onset >= 0.0 && onset < 30.0);
    }
}

#[test]
fn test_multiple_annotations_per_record() {
    let mut writer = EdfWriter::new();
    writer.set_patient_info("MULTI001", "X", "X", "Multi_Per_Record_Test").unwrap();
    writer.add_signal(create_test_signal()).unwrap();
    add_annotation(&mut writer, 0.0, None, "Start").unwrap();
    for i in 1..10 {
        add_annotation(&mut writer, i as f64 * 0.1, None, &format!("Event{}", i)).unwrap();
    }
    add_annotation(&mut writer, 1.0, None, "Second").unwrap();
    add_annotation(&mut writer, 1.5, None, "Middle").unwrap();
    let mut bytes = Vec::new();
    for _ in 0..2 {
        bytes.extend(writer.write_samples(&vec![vec![to_digital(0.0); 256]]).unwrap());
    }
    let bytes = finish(&writer, bytes);
    let reader = open_bytes(&bytes);
    let header = reader.header();
    let annotations = reader.annotations();
    assert_eq!(header.annotations_in_file, annotations.len() as i64, "Header count should match read count");
}

#[test]
fn test_tal_buffer_stress_test() {
    let mut writer = EdfWriter::new();
    writer.set_patient_info("STRESS01", "X", "X", "TAL_Stress_Test").unwrap();
    writer.add_signal(create_test_signal()).unwrap();
    for i in 0..20 {
        add_annotation(&mut writer, i as f64 * 0.05, None, &format!("E{}", i)).unwrap();
    }
    add_annotation(&mut writer, 1.0, None, "Normal length annotation").unwrap();
    add_annotation(&mut writer, 1.5, None, "Another normal one").unwrap();
    let mut bytes = Vec::new();
    for _ in 0..2 {
        bytes.extend(writer.write_samples(&vec![vec![to_digital(0.0); 256]]).unwrap());
    }
    let bytes = finish(&writer, bytes);
    let reader = open_bytes(&bytes);
    let stored = reader.annotations();
    let first: Vec<_> = stored.iter().filter(|a| a.onset < 10_000_000).collect();
    let second: Vec<_> = stored.iter().filter(|a| a.onset >= 10_000_000).collect();
    assert!(first.len() < 20);
    assert_eq!(second.len(), 2);
}
