use edfplus::tal_encode::generate_annotation_tal_for_channel;
use edfplus::{Annotation, EdfWriter, SignalParam};

fn create_test_signal() -> SignalParam {
    SignalParam {
        label: "Test EEG".to_string(),
        samples_in_file: 0,
        physical_max: 1_000_000_000,
        physical_min: -1_000_000_000,
        digital_max: 32767,
        digital_min: -32768,
        samples_per_record: 256,
        physical_dimension: "uV".to_string(),
        prefilter: "HP:0.1Hz LP:70Hz".to_string(),
        transducer: "AgAgCl electrodes".to_string(),
    }
}

/// 10.0 uV in a +-100 uV, 16-bit signal.
const TEN_MICROVOLT: i32 = 3276;

#[test]
fn test_edf_writer_default_annotation_settings() {
    let writer = EdfWriter::new();
    assert_eq!(writer.number_of_annotation_signals(), 1);
}

#[test]
fn test_set_number_of_annotation_signals() {
    let mut writer = EdfWriter::new();
    assert!(writer.set_number_of_annotation_signals(1).is_ok());
    assert_eq!(writer.number_of_annotation_signals(), 1);
    assert!(writer.set_number_of_annotation_signals(32).is_ok());
    assert_eq!(writer.number_of_annotation_signals(), 32);
    assert!(writer.set_number_of_annotation_signals(64).is_ok());
    assert_eq!(writer.number_of_annotation_signals(), 64);
    assert!(writer.set_number_of_annotation_signals(0).is_err());
    assert!(writer.set_number_of_annotation_signals(65).is_err());
}

#[test]
fn test_modification_after_header_written() {
    let mut writer = EdfWriter::new();
    writer.set_patient_info("P001", "M", "01-JAN-1990", "Test").unwrap();
    writer.add_signal(create_test_signal()).unwrap();
    let samples = vec![TEN_MICROVOLT; 256];
    writer.write_samples(&vec![samples]).unwrap();
    assert!(writer.set_number_of_annotation_signals(3).is_err());
}

#[test]
fn test_multi_channel_annotation_header_creation() {
    let mut writer = EdfWriter::new();
    writer.set_patient_info("P001", "M", "01-JAN-1990", "Test").unwrap();
    writer.set_number_of_annotation_signals(3).unwrap();
    writer.add_signal(create_test_signal()).unwrap();
    let samples = vec![TEN_MICROVOLT; 256];
    let bytes = writer.write_samples(&vec![samples]).unwrap();
    assert!(writer.finalize().is_none());
    assert!(!bytes.is_empty());
    // one signal and three annotation channels
    assert_eq!(&bytes[252..256], b"4   ");
    assert_eq!(bytes.len(), 5 * 256 + 512 + 3 * 120);
}

#[test]
fn test_annotation_tal_generation() {
    let annotations = vec![
        Annotation { onset: 0, duration: -1, description: "Test Event".to_string() },
        Annotation { onset: 15_000_000, duration: 20_000_000, description: "Another Event".to_string() },
    ];
    let tal_0 = generate_annotation_tal_for_channel(&annotations, 0, 0, 2, 10_000_000, 0);
    let tal_1 = generate_annotation_tal_for_channel(&annotations, 1, 0, 2, 10_000_000, 0);
    assert!(!tal_0.is_empty());
    assert!(!tal_1.is_empty());
    let tal_0_str = String::from_utf8_lossy(&tal_0);
    let tal_1_str = String::from_utf8_lossy(&tal_1);
    assert!(tal_0_str.contains("+0\x14") || tal_1_str.contains("+0\x14"));
}
