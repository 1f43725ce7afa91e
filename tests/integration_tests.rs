use edfplus::header_read::parse_header;
use edfplus::writer::RECORD_COUNT_OFFSET;
use edfplus::{AnnotationScan, EdfReader, EdfWriter, SignalParam};

const UNIT: f64 = 10_000_000.0;

fn signal(label: &str, min: f64, max: f64, spr: i32, unit: &str, prefilter: &str, transducer: &str) -> SignalParam {
    SignalParam {
        label: label.to_string(),
        samples_in_file: 0,
        physical_max: (max * UNIT) as i64,
        physical_min: (min * UNIT) as i64,
        digital_max: 32767,
        digital_min: -32768,
        samples_per_record: spr,
        physical_dimension: unit.to_string(),
        prefilter: prefilter.to_string(),
        transducer: transducer.to_string(),
    }
}

fn create_test_eeg_signal() -> SignalParam {
    signal("EEG Fp1", -200.0, 200.0, 256, "uV", "HP:0.1Hz LP:70Hz", "AgAgCl electrodes")
}

fn create_test_ecg_signal() -> SignalParam {
    signal("ECG Lead II", -5.0, 5.0, 256, "mV", "HP:0.1Hz LP:100Hz", "Chest electrodes")
}

fn scale(s: &SignalParam) -> (f64, f64) {
    let max = s.physical_max as f64 / UNIT;
    let min = s.physical_min as f64 / UNIT;
    let bit = (max - min) / (s.digital_max - s.digital_min) as f64;
    (bit, max / bit - s.digital_max as f64)
}

fn to_digital(s: &SignalParam, v: f64) -> i32 {
    let (bit, offset) = scale(s);
    (v / bit - offset).round() as i32
}

fn finish(w: &EdfWriter, mut bytes: Vec<u8>) -> Vec<u8> {
    if let Some(p) = w.finalize() {
        let at = RECORD_COUNT_OFFSET as usize;
        bytes[at..at + 8].copy_from_slice(&p);
    }
    bytes
}

fn open_bytes(bytes: &[u8]) -> EdfReader {
    let n: usize = std::str::from_utf8(&bytes[252..256]).unwrap().trim().parse().unwrap();
    let (header, info, size) = parse_header(&bytes[0..256], &bytes[256..256 + n * 256]).unwrap();
    let hs = (n + 1) * 256;
    let mut scan = AnnotationScan::new(&info, header.datarecord_duration);
    for r in 0..header.datarecords_in_file as usize {
        let at = hs + r * size as usize;
        let _ = scan.scan_record(&bytes[at..at + size as usize]);
    }
    let (annotations, count, subsecond) = scan.finish();
    EdfReader::new(header, info, size, annotations, count, subsecond).unwrap()
}

fn read_digital(r: &mut EdfReader, bytes: &[u8], signal: usize, count: usize) -> Vec<i32> {
    let plan = r.plan_digital_read(signal, count).unwrap();
    plan.iter().map(|&o| r.decode_sample(signal, bytes[o as usize], bytes[o as usize + 1]).unwrap()).collect()
}

fn read_physical(r: &mut EdfReader, bytes: &[u8], signal: usize, count: usize) -> Vec<f64> {
    let d = read_digital(r, bytes, signal, count);
    let (bit, offset) = scale(&r.header().signals[signal]);
    d.into_iter().map(|v| bit * (offset + v as f64)).collect()
}

fn max_of(v: &[f64]) -> f64 {
    v.iter().fold(f64::NEG_INFINITY, |a, &b| a.max(b))
}

fn min_of(v: &[f64]) -> f64 {
    v.iter().fold(f64::INFINITY, |a, &b| a.min(b))
}

#[test]
fn test_basic_write_read_cycle() {
    let mut writer = EdfWriter::new();
    writer.set_patient_info("P001", "M", "01-JAN-1990", "Test Patient").unwrap();
    let s = create_test_eeg_signal();
    writer.add_signal(create_test_eeg_signal()).unwrap();
    let mut bytes = Vec::new();
    for second in 0..5usize {
        let samples: Vec<i32> = (0..256)
            .map(|i| {
                let t = (second * 256 + i) as f64 / 256.0;
                to_digital(&s, 50.0 * (2.0 * std::f64::consts::PI * 10.0 * t).sin()
                    + 5.0 * (2.0 * std::f64::consts::PI * 50.0 * t).sin())
            })
            .collect();
        bytes.extend(writer.write_samples(&vec![samples]).unwrap());
    }
    let bytes = finish(&writer, bytes);
    let mut reader = open_bytes(&bytes);
    let header = reader.header();
    assert!(header.patient_name.contains("Test Patient") || header.patient_name == "Test");
    assert_eq!(header.signals.len(), 1);
    assert_eq!(header.signals[0].label, "EEG Fp1");
    assert_eq!(header.signals[0].physical_dimension, "uV");
    assert_eq!(header.signals[0].samples_per_record, 256);
    let samples = read_physical(&mut reader, &bytes, 0, 256);
    assert_eq!(samples.len(), 256);
    let (max_val, min_val) = (max_of(&samples), min_of(&samples));
    assert!(max_val < 200.0 && max_val > -200.0);
    assert!(min_val > -200.0 && min_val < 200.0);
}

#[test]
fn test_multi_channel_recording() {
    let mut writer = EdfWriter::new();
    writer.set_patient_info("MC001", "F", "15-MAR-1985", "Multi Channel Test").unwrap();
    for i in 0..4 {
        let mut s = create_test_eeg_signal();
        s.label = format!("EEG C{}", i + 1);
        writer.add_signal(s).unwrap();
    }
    writer.add_signal(create_test_ecg_signal()).unwrap();
    let eeg = create_test_eeg_signal();
    let ecg = create_test_ecg_signal();
    let mut bytes = Vec::new();
    for second in 0..10usize {
        let mut all = Vec::new();
        for ch in 0..4 {
            all.push(
                (0..256)
                    .map(|sample| {
                        let t = (second * 256 + sample) as f64 / 256.0;
                        let freq = 8.0 + ch as f64 * 2.0;
                        to_digital(&eeg, 30.0 * (2.0 * std::f64::consts::PI * freq * t).sin()
                            + 10.0 * (2.0 * std::f64::consts::PI * 50.0 * t).sin())
                    })
                    .collect::<Vec<i32>>(),
            );
        }
        all.push(
            (0..256)
                .map(|sample| {
                    let t = (second * 256 + sample) as f64 / 256.0;
                    to_digital(&ecg, 2.0 * (2.0 * std::f64::consts::PI * t).sin())
                })
                .collect(),
        );
        bytes.extend(writer.write_samples(&all).unwrap());
    }
    let bytes = finish(&writer, bytes);
    let mut reader = open_bytes(&bytes);
    assert_eq!(reader.header().signals.len(), 5);
    assert_eq!(reader.header().signals[0].label, "EEG C1");
    assert_eq!(reader.header().signals[1].label, "EEG C2");
    assert_eq!(reader.header().signals[2].label, "EEG C3");
    assert_eq!(reader.header().signals[3].label, "EEG C4");
    assert_eq!(reader.header().signals[4].label, "ECG Lead II");
    for signal_idx in 0..5 {
        let samples = read_physical(&mut reader, &bytes, signal_idx, 256);
        assert_eq!(samples.len(), 256);
        let label = reader.header().signals[signal_idx].label.clone();
        let (max_val, min_val) = (max_of(&samples), min_of(&samples));
        if label.starts_with("EEG") {
            assert!(max_val <= 200.0 && min_val >= -200.0);
        } else if label.starts_with("ECG") {
            assert!(max_val <= 5.0 && min_val >= -5.0);
        }
    }
}

#[test]
fn test_different_sampling_rates() {
    let mut writer = EdfWriter::new();
    writer.set_patient_info("SR001", "X", "X", "Sampling Rate Test").unwrap();
    let mut high = create_test_eeg_signal();
    high.label = "EEG High Freq".to_string();
    high.samples_per_record = 512;
    let mut standard = create_test_eeg_signal();
    standard.label = "EEG Standard".to_string();
    standard.samples_per_record = 256;
    let low = signal("Temperature", 30.0, 40.0, 1, "degC", "None", "Thermistor");
    let (h2, s2, l2) = (create_test_eeg_signal(), create_test_eeg_signal(), signal("Temperature", 30.0, 40.0, 1, "degC", "None", "Thermistor"));
    writer.add_signal(high).unwrap();
    writer.add_signal(standard).unwrap();
    writer.add_signal(low).unwrap();
    let mut bytes = Vec::new();
    for second in 0..5usize {
        let hf: Vec<i32> = (0..512)
            .map(|i| {
                let t = (second * 512 + i) as f64 / 512.0;
                to_digital(&h2, 40.0 * (2.0 * std::f64::consts::PI * 20.0 * t).sin())
            })
            .collect();
        let sf: Vec<i32> = (0..256)
            .map(|i| {
                let t = (second * 256 + i) as f64 / 256.0;
                to_digital(&s2, 30.0 * (2.0 * std::f64::consts::PI * 10.0 * t).sin())
            })
            .collect();
        let temp = 36.5 + 0.5 * (second as f64 / 5.0 * 2.0 * std::f64::consts::PI).sin();
        bytes.extend(writer.write_samples(&vec![hf, sf, vec![to_digital(&l2, temp)]]).unwrap());
    }
    let bytes = finish(&writer, bytes);
    let mut reader = open_bytes(&bytes);
    let header = reader.header();
    assert_eq!(header.signals.len(), 3);
    assert_eq!(header.signals[0].samples_per_record, 512);
    assert_eq!(header.signals[1].samples_per_record, 256);
    assert_eq!(header.signals[2].samples_per_record, 1);
    let high_freq_data = read_physical(&mut reader, &bytes, 0, 512);
    let standard_data = read_physical(&mut reader, &bytes, 1, 256);
    let temp_data = read_physical(&mut reader, &bytes, 2, 1);
    assert_eq!(high_freq_data.len(), 512);
    assert_eq!(standard_data.len(), 256);
    assert_eq!(temp_data.len(), 1);
    assert!(temp_data[0] >= 30.0 && temp_data[0] <= 40.0);
}

#[test]
fn test_seek_and_random_access() {
    let mut writer = EdfWriter::new();
    writer.set_patient_info("SEEK001", "X", "X", "Seek Test").unwrap();
    let s = create_test_eeg_signal();
    writer.add_signal(create_test_eeg_signal()).unwrap();
    let mut bytes = Vec::new();
    for second in 0..60usize {
        let samples: Vec<i32> = (0..256)
            .map(|i| {
                let t = (second * 256 + i) as f64 / 256.0;
                let freq = 10.0 + (second / 10) as f64 * 5.0;
                to_digital(&s, 50.0 * (2.0 * std::f64::consts::PI * freq * t).sin())
            })
            .collect();
        bytes.extend(writer.write_samples(&vec![samples]).unwrap());
    }
    let bytes = finish(&writer, bytes);
    let mut reader = open_bytes(&bytes);
    reader.rewind(0).unwrap();
    let start_samples = read_physical(&mut reader, &bytes, 0, 256);
    assert_eq!(start_samples.len(), 256);
    let target_position = 30 * 256;
    reader.seek(0, target_position).unwrap();
    let middle_samples = read_physical(&mut reader, &bytes, 0, 256);
    assert_eq!(middle_samples.len(), 256);
    let current_pos = reader.tell(0).unwrap();
    assert_eq!(current_pos, target_position + 256);
    reader.seek(0, 58 * 256).unwrap();
    let end_samples = read_physical(&mut reader, &bytes, 0, 256);
    assert_eq!(end_samples.len(), 256);
    reader.seek(0, 59 * 256).unwrap();
    let final_samples = read_physical(&mut reader, &bytes, 0, 512);
    assert_eq!(final_samples.len(), 256);
}

#[test]
fn test_digital_vs_physical_values() {
    let mut writer = EdfWriter::new();
    writer.set_patient_info("DIG001", "X", "X", "Digital Test").unwrap();
    let s = create_test_eeg_signal();
    writer.add_signal(create_test_eeg_signal()).unwrap();
    let known_values = vec![0.0, 100.0, -100.0, 50.0, -50.0];
    let samples: Vec<i32> = (0..256).map(|i| to_digital(&s, known_values[i % known_values.len()])).collect();
    let bytes = writer.write_samples(&vec![samples]).unwrap();
    let bytes = finish(&writer, bytes);
    let mut reader = open_bytes(&bytes);
    let physical_samples = read_physical(&mut reader, &bytes, 0, 256);
    assert_eq!(physical_samples.len(), 256);
    reader.rewind(0).unwrap();
    let digital_samples = read_digital(&mut reader, &bytes, 0, 256);
    assert_eq!(digital_samples.len(), physical_samples.len());
    for (i, &expected) in known_values.iter().enumerate() {
        assert!((physical_samples[i] - expected).abs() < 0.01);
    }
    let sig = &reader.header().signals[0];
    for &d in &digital_samples {
        assert!(d >= sig.digital_min && d <= sig.digital_max);
    }
}
