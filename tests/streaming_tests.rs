use edfplus::header_read::parse_header;
use edfplus::writer::RECORD_COUNT_OFFSET;
use edfplus::{AnnotationScan, EdfReader, EdfWriter, SignalParam};

const UNIT: f64 = 10_000_000.0;

fn signal(label: &str, min: f64, max: f64, spr: i32, unit: &str, prefilter: &str, transducer: &str) -> SignalParam {
    SignalParam {
        label: label.to_string(),
        samples_in_file: 0,
        physical_max: (max * UNIT) as i64,
        physical_min: (min * UNIT) as i64,
        digital_max: 32767,
        digital_min: -32768,
        samples_per_record: spr,
        physical_dimension: unit.to_string(),
        prefilter: prefilter.to_string(),
        transducer: transducer.to_string(),
    }
}

fn create_streaming_signal() -> SignalParam {
    signal("Stream Signal", -100.0, 100.0, 256, "uV", "HP:0.1Hz LP:40Hz", "Streaming electrodes")
}

fn scale(s: &SignalParam) -> (f64, f64) {
    let max = s.physical_max as f64 / UNIT;
    let min = s.physical_min as f64 / UNIT;
    let bit = (max - min) / (s.digital_max - s.digital_min) as f64;
    (bit, max / bit - s.digital_max as f64)
}

fn to_digital(s: &SignalParam, v: f64) -> i32 {
    let (bit, offset) = scale(s);
    (v / bit - offset).round() as i32
}

fn finish(w: &EdfWriter, mut bytes: Vec<u8>) -> Vec<u8> {
    if let Some(p) = w.finalize() {
        let at = RECORD_COUNT_OFFSET as usize;
        bytes[at..at + 8].copy_from_slice(&p);
    }
    bytes
}

fn open_bytes(bytes: &[u8]) -> EdfReader {
    let n: usize = std::str::from_utf8(&bytes[252..256]).unwrap().trim().parse().unwrap();
    let (header, info, size) = parse_header(&bytes[0..256], &bytes[256..256 + n * 256]).unwrap();
    let hs = (n + 1) * 256;
    let mut scan = AnnotationScan::new(&info, header.datarecord_duration);
    for r in 0..header.datarecords_in_file as usize {
        let at = hs + r * size as usize;
        let _ = scan.scan_record(&bytes[at..at + size as usize]);
    }
    let (annotations, count, subsecond) = scan.finish();
    EdfReader::new(header, info, size, annotations, count, subsecond).unwrap()
}

fn read_digital(r: &mut EdfReader, bytes: &[u8], signal: usize, count: usize) -> Vec<i32> {
    let plan = r.plan_digital_read(signal, count).unwrap();
    plan.iter().map(|&o| r.decode_sample(signal, bytes[o as usize], bytes[o as usize + 1]).unwrap()).collect()
}

fn read_physical(r: &mut EdfReader, bytes: &[u8], signal: usize, count: usize) -> Vec<f64> {
    let d = read_digital(r, bytes, signal, count);
    let (bit, offset) = scale(&r.header().signals[signal]);
    d.into_iter().map(|v| bit * (offset + v as f64)).collect()
}



fn sine_records(w: &mut EdfWriter, seconds: usize, channels: usize, value: impl Fn(usize, usize, f64) -> f64) -> Vec<u8> {
    let s = create_streaming_signal();
    let mut bytes = Vec::new();
    for second in 0..seconds {
        let rows: Vec<Vec<i32>> = (0..channels)
            .map(|ch| {
                (0..256)
                    .map(|i| {
                        let t = (second * 256 + i) as f64 / 256.0;
                        to_digital(&s, value(second, ch, t))
                    })
                    .collect()
            })
            .collect();
        bytes.extend(w.write_samples(&rows).unwrap());
    }
    bytes
}

#[test]
fn test_random_access_streaming() {
    let mut writer = EdfWriter::new();
    writer.set_patient_info("RANDOM001", "X", "X", "Random Access Test").unwrap();
    writer.add_signal(create_streaming_signal()).unwrap();
    let bytes = sine_records(&mut writer, 300, 1, |second, _, t| {
        let minute = second / 60;
        let freq = 5.0 + minute as f64 * 2.0;
        let phase_shift = minute as f64 * std::f64::consts::PI / 4.0;
        40.0 * (2.0 * std::f64::consts::PI * freq * t + phase_shift).sin()
    });
    let bytes = finish(&writer, bytes);
    let mut reader = open_bytes(&bytes);
    for target_second in [0i64, 60, 150, 240, 290] {
        reader.seek(0, target_second * 256).unwrap();
        let samples = read_physical(&mut reader, &bytes, 0, 256);
        assert_eq!(samples.len(), 256);
        assert_eq!(reader.tell(0).unwrap(), target_second * 256 + 256);
    }
    reader.rewind(0).unwrap();
    let sequential_start = read_physical(&mut reader, &bytes, 0, 256);
    reader.seek(0, 0).unwrap();
    let random_start = read_physical(&mut reader, &bytes, 0, 256);
    assert_eq!(sequential_start.len(), random_start.len());
    for (i, (&seq, &rand)) in sequential_start.iter().zip(random_start.iter()).enumerate() {
        assert!((seq - rand).abs() < 1e-10, "Mismatch at sample {}: sequential={}, random={}", i, seq, rand);
    }
}

#[test]
fn test_large_file_handling() {
    let mut writer = EdfWriter::new();
    writer.set_patient_info("LARGE001", "X", "X", "Large File Test").unwrap();
    for i in 0..8 {
        let mut s = create_streaming_signal();
        s.label = format!("EEG_{}", i + 1);
        writer.add_signal(s).unwrap();
    }
    let bytes = sine_records(&mut writer, 600, 8, |_, channel, t| {
        let freq = 8.0 + channel as f64;
        let amplitude = 30.0 + channel as f64 * 5.0;
        amplitude * (2.0 * std::f64::consts::PI * freq * t).sin()
    });
    let bytes = finish(&writer, bytes);
    let mut reader = open_bytes(&bytes);
    reader.seek(0, 300 * 256).unwrap();
    let mut total_samples = 0;
    for channel in 0..8 {
        total_samples += read_physical(&mut reader, &bytes, channel, 2560).len();
    }
    assert_eq!(total_samples, 8 * 2560);
    reader.rewind(0).unwrap();
    let first_samples = read_physical(&mut reader, &bytes, 0, 256);
    assert_eq!(first_samples.len(), 256);
    reader.seek(0, 599 * 256).unwrap();
    let final_samples = read_physical(&mut reader, &bytes, 0, 256);
    assert_eq!(final_samples.len(), 256);
}

#[test]
fn test_streaming_with_annotations() {
    let mut writer = EdfWriter::new();
    writer.set_patient_info("STREAM_ANN001", "X", "X", "Streaming with Annotations").unwrap();
    writer.add_signal(create_streaming_signal()).unwrap();
    for (onset, duration, text) in [
        (5.0, None, "Event 1"),
        (15.5, Some(2.0), "Long Event"),
        (25.2, None, "Event 2"),
        (35.7, Some(1.5), "Another Long Event"),
        (45.1, None, "Final Event"),
    ] {
        writer.add_annotation((onset * UNIT) as i64, duration.map(|d: f64| (d * UNIT) as i64), text).unwrap();
    }
    let bytes = sine_records(&mut writer, 50, 1, |_, _, t| 25.0 * (2.0 * std::f64::consts::PI * 12.0 * t).sin());
    let bytes = finish(&writer, bytes);
    let mut reader = open_bytes(&bytes);
    let annotation_count = reader.annotations().len();
    let window_size = 256 * 5;
    let mut current_position = 0i64;
    let mut window_count = 0;
    loop {
        reader.seek(0, current_position).unwrap();
        let samples = read_physical(&mut reader, &bytes, 0, window_size);
        if samples.is_empty() {
            break;
        }
        current_position += samples.len() as i64;
        window_count += 1;
    }
    assert_eq!(window_count, 10);
    assert_eq!(annotation_count, 5);
}
