use vstd::prelude::*;
use vstd::string::*;
use vstd::utf8::encode_utf8;

use crate::error::EdfError;
use crate::header_write::{
    date_bytes, date_field, fit, int_bytes, int_text, put_fit, signal_block, str_bytes,
    time_bytes, time_field, write_signal_headers_with_annotations,
};
use crate::recording::{
    ascii_bytes, ascii_bytes_of, check_recording_field, printable_field, recording_field_ok,
    validate_recording_field,
};
use vstd::utf8::{is_ascii_chars, is_ascii_chars_encode_utf8, valid_utf8};
use crate::recording::lemma_ascii_valid_utf8;
use crate::text::all_ascii;
use crate::tal_encode::{
    append_prefix, generate_annotation_tal_for_channel, push_ticks, tal_block, ticks_text,
};
use crate::tal_parse::ann_views;
use crate::types::{Annotation, AnnotationView, SignalParam, StartDate, StartTime};

verus! {

/// Most annotation channels a file may have.
pub const EDFLIB_MAX_ANNOTATION_CHANNELS: usize = 64;

/// Most records a file may hold: the count takes eight digits.
pub const MAX_RECORDS: u64 = 99_999_999;

/// Longest record duration, in ticks (one hour).
pub const MAX_RECORD_DURATION: i64 = 36_000_000_000;

/// Largest digit-field value: eight digits.
pub const MAX_FIELD_NUMBER: i32 = 99_999_999;

/// What a writer holds, as plain values.
pub struct WriterView {
    pub signals: Seq<SignalParam>,
    pub annotations: Seq<AnnotationView>,
    pub header_written: bool,
    pub records: nat,
    pub channels: nat,
    pub duration: int,
    pub subsecond: int,
    pub patient: Seq<Seq<char>>,
    /// Administration code, technician and equipment.
    pub admin: Seq<Seq<char>>,
    pub start_date: StartDate,
    pub start_time: StartTime,
}

/// Builds the bytes of an EDF+ file record by record: the header goes out with the first
/// record (with a placeholder record count) and is patched at the end.
pub struct EdfWriter {
    signals: Vec<SignalParam>,
    start_date: StartDate,
    start_time: StartTime,
    datarecord_duration: i64,
    samples_written: u64,
    header_written: bool,
    patient_code: String,
    sex: String,
    birthdate: String,
    patient_name: String,
    patient_additional: String,
    admin_code: String,
    technician: String,
    equipment: String,
    recording_additional: String,
    annotations: Vec<Annotation>,
    starttime_subsecond: i64,
    nr_annot_chns: usize,
}

/// A signal that the file can describe: distinct extremes, a 16-bit digital range, a
/// sample count and extremes that fit their eight-byte fields.
pub open spec fn signal_ok(s: SignalParam) -> bool {
    &&& s.physical_min != s.physical_max
    &&& s.digital_min != s.digital_max
    &&& -32768 <= s.digital_min <= 32767
    &&& -32768 <= s.digital_max <= 32767
    &&& 1 <= s.samples_per_record <= MAX_FIELD_NUMBER
    &&& crate::header_write::fixed_text(s.physical_min as int).len() <= 8
    &&& crate::header_write::fixed_text(s.physical_max as int).len() <= 8
}

/// The patient field: code, sex, birth date, name and more, ASCII only, space separated.
pub open spec fn patient_text(p: Seq<Seq<char>>) -> Seq<u8> {
    ascii_bytes(p[0]) + seq![32u8] + ascii_bytes(p[1]) + seq![32u8] + ascii_bytes(p[2]) + seq![32u8]
        + ascii_bytes(p[3]) + seq![32u8] + ascii_bytes(p[4])
}

/// `Startdate X -MMM-yyyy ` (anonymised start date), 22 bytes.
pub open spec fn startdate_text() -> Seq<u8> {
    seq![
        83u8, 116, 97, 114, 116, 100, 97, 116, 101, 32, 88, 32, 45, 77, 77, 77, 45, 121, 121, 121, 121, 32
    ]
}

/// `Admin:<a> Tech:<t> Device:<e>`.
pub open spec fn admin_text(a: Seq<char>, t: Seq<char>, e: Seq<char>) -> Seq<u8> {
    seq![65u8, 100, 109, 105, 110, 58] + str_bytes(a) + seq![32u8, 84, 101, 99, 104, 58] + str_bytes(t)
        + seq![32u8, 68, 101, 118, 105, 99, 101, 58] + str_bytes(e)
}

/// The main header of a file with `total` signal entries and `records` records.
pub open spec fn main_header(
    patient: Seq<u8>,
    recording: Seq<u8>,
    date: StartDate,
    time: StartTime,
    total: int,
    records: int,
    duration: int,
) -> Seq<u8> {
    fit(seq![48u8], 8) + fit(patient, 80) + recording + date_field(date) + time_field(time) + fit(
        int_text((total + 1) * 256),
        8,
    ) + fit(seq![69u8, 68, 70, 43, 67], 44) + fit(int_text(records), 8) + fit(
        ticks_text(duration as nat),
        8,
    ) + fit(int_text(total), 4)
}

/// The little-endian 16-bit code of a digital value.
pub open spec fn le16(v: int) -> Seq<u8> {
    let u = if v < 0 {
        v + 65536
    } else {
        v
    };
    seq![(u % 256) as u8, (u / 256) as u8]
}

pub open spec fn clamp(v: int, lo: int, hi: int) -> int {
    if v < lo {
        lo
    } else if v > hi {
        hi
    } else {
        v
    }
}

/// The stored codes of the first `n` samples of one signal, each clamped into its range.
pub open spec fn sample_bytes(s: SignalParam, d: Seq<i32>, n: int) -> Seq<u8>
    decreases n,
{
    if n <= 0 {
        Seq::empty()
    } else {
        sample_bytes(s, d, n - 1) + le16(
            clamp(d[n - 1] as int, s.digital_min as int, s.digital_max as int),
        )
    }
}

/// The sample part of a record: every signal's codes, signal after signal.
pub open spec fn record_samples(sigs: Seq<SignalParam>, d: Seq<Vec<i32>>, n: int) -> Seq<u8>
    decreases n,
{
    if n <= 0 {
        Seq::empty()
    } else {
        record_samples(sigs, d, n - 1) + sample_bytes(sigs[n - 1], d[n - 1]@, d[n - 1]@.len() as int)
    }
}

/// The annotation part of record `idx`: one block per channel.
pub open spec fn record_tals(w: WriterView, idx: int, n: int) -> Seq<u8>
    decreases n,
{
    if n <= 0 {
        Seq::empty()
    } else {
        record_tals(w, idx, n - 1) + tal_block(
            w.annotations,
            idx,
            n - 1,
            w.channels as int,
            w.duration,
            w.subsecond,
        )
    }
}

/// The recording field a writer puts in its header.
pub open spec fn recording_of(w: WriterView) -> Seq<u8> {
    startdate_text() + fit(admin_text(w.admin[0], w.admin[1], w.admin[2]), 58)
}

/// The recording field passes the checks that make a header writable.
pub open spec fn recording_writable(w: WriterView) -> bool {
    let f = recording_of(w);
    printable_field(f) && valid_utf8(f) && recording_field_ok(f)
}

/// The header a writer emits, with `records` as the record count.
pub open spec fn header_of(w: WriterView, records: int) -> Seq<u8> {
    let total = w.signals.len() + w.channels;
    main_header(
        patient_text(w.patient),
        recording_of(w),
        w.start_date,
        w.start_time,
        total as int,
        records,
        w.duration,
    ) + signal_block(w.signals, total as int)
}

/// The samples of a record are one row per signal, each as long as that signal's record.
pub open spec fn rows_fit(sigs: Seq<SignalParam>, d: Seq<Vec<i32>>) -> bool {
    d.len() == sigs.len() && forall|i: int|
        0 <= i < d.len() ==> #[trigger] d[i]@.len() == sigs[i].samples_per_record
}

/// Where the record count stands in the main header.
pub const RECORD_COUNT_OFFSET: u64 = 236;

/// The recording field of a writer whose administration code, technician and equipment
/// are all `X` (as `new` leaves them).
pub open spec fn default_recording() -> Seq<u8> {
    seq![
        83u8, 116, 97, 114, 116, 100, 97, 116, 101, 32, 88, 32, 45, 77, 77, 77, 45, 121, 121, 121, 121, 32, 65, 100, 109, 105, 110, 58, 88, 32, 84, 101, 99, 104, 58, 88, 32, 68, 101, 118, 105, 99, 101, 58, 88, 32, 32, 32, 32, 32, 32, 32, 32, 32, 32, 32, 32, 32, 32, 32, 32, 32, 32, 32, 32, 32, 32, 32, 32, 32, 32, 32, 32, 32, 32, 32, 32, 32, 32, 32,
    ]
}

proof fn lemma_x_bytes()
    ensures
        str_bytes(seq!['X']) == seq![88u8],
{
    is_ascii_chars_encode_utf8(seq!['X']);
    assert(is_ascii_chars(seq!['X']));
    assert(encode_utf8(seq!['X']) =~= seq![88u8]);
}

/// A writer whose administration code, technician and equipment are all `X` has a recording
/// field that passes the checks that make a header writable.
pub proof fn lemma_default_recording_writable(w: WriterView)
    requires
        w.admin == seq![seq!['X'], seq!['X'], seq!['X']],
    ensures
        recording_of(w) == default_recording(),
        recording_writable(w),
{
    lemma_x_bytes();
    let f = default_recording();
    assert(recording_of(w) =~= f);
    assert(printable_field(f));
    assert(all_ascii(f));
    lemma_ascii_valid_utf8(f);
    assert(f.subrange(0, 10) =~= seq![83u8, 116, 97, 114, 116, 100, 97, 116, 101, 32]);
    assert(crate::recording::spaces_scan(f, 12, 0)) by {
        reveal_with_fuel(crate::recording::spaces_scan, 20);
    }
}

impl View for EdfWriter {
    type V = WriterView;

    closed spec fn view(&self) -> WriterView {
        WriterView {
            signals: self.signals@,
            annotations: ann_views(self.annotations@),
            header_written: self.header_written,
            records: self.samples_written as nat,
            channels: self.nr_annot_chns as nat,
            duration: self.datarecord_duration as int,
            subsecond: self.starttime_subsecond as int,
            patient: seq![
                self.patient_code@,
                self.sex@,
                self.birthdate@,
                self.patient_name@,
                self.patient_additional@,
            ],
            admin: seq![self.admin_code@, self.technician@, self.equipment@],
            start_date: self.start_date,
            start_time: self.start_time,
        }
    }
}

fn format_error(msg: &str) -> (r: EdfError)
    ensures
        r is InvalidFormat,
{
    EdfError::InvalidFormat(String::from_str(msg))
}

fn x_text() -> (r: String)
    ensures
        r@ == seq!['X'],
{
    let x = "X";
    proof {
        reveal_strlit("X");
    }
    let r = String::from_str(x);
    assert(r@ =~= seq!['X']);
    r
}

impl EdfWriter {
    /// The writer's invariant.
    pub closed spec fn wf(&self) -> bool {
        &&& 1 <= self.nr_annot_chns <= EDFLIB_MAX_ANNOTATION_CHANNELS
        &&& self.signals@.len() + self.nr_annot_chns <= crate::EDFLIB_MAXSIGNALS
        &&& 1 <= self.datarecord_duration <= MAX_RECORD_DURATION
        &&& ticks_text(self.datarecord_duration as nat).len() <= 8
        &&& 0 <= self.starttime_subsecond < 10_000_000
        &&& self.samples_written <= MAX_RECORDS
        &&& self.header_written == (self.samples_written > 0)
        &&& self.start_date.year >= 0
        &&& self.admin_code@ == seq!['X'] && self.technician@ == seq!['X'] && self.equipment@
            == seq!['X']
        &&& forall|i: int| 0 <= i < self.signals@.len() ==> signal_ok(#[trigger] self.signals@[i])
        &&& forall|i: int|
            0 <= i < self.annotations@.len() ==> #[trigger] self.annotations@[i].onset >= 0
    }

    /// A writer with no signals, one annotation channel, one-second records, anonymous
    /// patient fields and start 1985-01-01 00:00:00.
    pub fn new() -> (r: EdfWriter)
        ensures
            r.wf(),
            r@.signals.len() == 0,
            r@.annotations.len() == 0,
            !r@.header_written,
            r@.records == 0,
            r@.channels == 1,
            r@.duration == 10_000_000,
            r@.subsecond == 0,
            r@.patient == seq![seq!['X'], seq!['X'], seq!['X'], seq!['X'], seq!['X']],
            r@.admin == seq![seq!['X'], seq!['X'], seq!['X']],
            r@.start_date == (StartDate { year: 1985, month: 1, day: 1 }),
            r@.start_time == (StartTime { hour: 0, minute: 0, second: 0 }),
    {
        let w = EdfWriter {
            signals: Vec::new(),
            start_date: StartDate { year: 1985, month: 1, day: 1 },
            start_time: StartTime { hour: 0, minute: 0, second: 0 },
            datarecord_duration: 10_000_000,
            samples_written: 0,
            header_written: false,
            patient_code: x_text(),
            sex: x_text(),
            birthdate: x_text(),
            patient_name: x_text(),
            patient_additional: x_text(),
            admin_code: x_text(),
            technician: x_text(),
            equipment: x_text(),
            recording_additional: x_text(),
            annotations: Vec::new(),
            starttime_subsecond: 0,
            nr_annot_chns: 1,
        };
        assert(ticks_text(10_000_000) == seq![49u8]) by {
            reveal_with_fuel(crate::tal_encode::nat_text, 2);
        }
        w
    }

    /// Adds a signal; refused once the header is written and for parameters the file
    /// cannot describe.
    pub fn add_signal(&mut self, signal: SignalParam) -> (r: Result<(), EdfError>)
        requires
            old(self).wf(),
        ensures
            final(self).wf(),
            old(self)@.header_written ==> r is Err && r->Err_0 is InvalidFormat,
            !old(self)@.header_written && signal.physical_min == signal.physical_max ==> r
                == Err::<(), EdfError>(EdfError::PhysicalMinEqualsMax),
            !old(self)@.header_written && signal.physical_min != signal.physical_max
                && signal.digital_min == signal.digital_max ==> r == Err::<(), EdfError>(
                EdfError::DigitalMinEqualsMax,
            ),
            r is Ok <==> !old(self)@.header_written && signal_ok(signal) && old(self)@.signals.len()
                + old(self)@.channels < crate::EDFLIB_MAXSIGNALS,
            r is Ok ==> final(self)@ == (WriterView {
                signals: old(self)@.signals.push(signal),
                ..old(self)@
            }),
            r is Err ==> final(self)@ == old(self)@,
    {
        if self.header_written {
            return Err(format_error("Cannot add signal after writing header"));
        }
        if signal.physical_min == signal.physical_max {
            return Err(EdfError::PhysicalMinEqualsMax);
        }
        if signal.digital_min == signal.digital_max {
            return Err(EdfError::DigitalMinEqualsMax);
        }
        if signal.digital_min < -32768 || signal.digital_min > 32767 || signal.digital_max < -32768
            || signal.digital_max > 32767 {
            return Err(format_error("Digital range must fit in 16 bits"));
        }
        if signal.samples_per_record < 1 || signal.samples_per_record > MAX_FIELD_NUMBER {
            return Err(format_error("Samples per record out of range"));
        }
        if crate::header_write::fixed_bytes(signal.physical_min).len() > 8
            || crate::header_write::fixed_bytes(signal.physical_max).len() > 8 {
            return Err(format_error("Physical extreme does not fit its field"));
        }
        if self.signals.len() + self.nr_annot_chns >= crate::EDFLIB_MAXSIGNALS {
            return Err(format_error("Too many signals"));
        }
        self.signals.push(signal);
        Ok(())
    }

    /// Sets the patient's code, sex, birth date and name.
    pub fn set_patient_info(&mut self, code: &str, sex: &str, birthdate: &str, name: &str) -> (r:
        Result<(), EdfError>)
        requires
            old(self).wf(),
        ensures
            final(self).wf(),
            r is Ok <==> !old(self)@.header_written,
            r is Err ==> r->Err_0 is InvalidFormat && final(self)@ == old(self)@,
            r is Ok ==> final(self)@ == (WriterView {
                patient: seq![code@, sex@, birthdate@, name@, old(self)@.patient[4]],
                ..old(self)@
            }),
    {
        if self.header_written {
            return Err(format_error("Cannot modify patient info after writing header"));
        }
        self.patient_code = String::from_str(code);
        self.sex = String::from_str(sex);
        self.birthdate = String::from_str(birthdate);
        self.patient_name = String::from_str(name);
        proof {
            assert(final(self)@.patient =~= seq![code@, sex@, birthdate@, name@, old(self)@.patient[4]]);
        }
        Ok(())
    }

    /// Sets the duration of a record, in ticks: more than zero, at most an hour, and short
    /// enough in decimal seconds for its eight-byte field.
    pub fn set_datarecord_duration(&mut self, duration: i64) -> (r: Result<(), EdfError>)
        requires
            old(self).wf(),
        ensures
            final(self).wf(),
            r is Ok <==> !old(self)@.header_written && 1 <= duration <= MAX_RECORD_DURATION
                && ticks_text(duration as nat).len() <= 8,
            r is Err ==> r->Err_0 is InvalidFormat && final(self)@ == old(self)@,
            r is Ok ==> final(self)@ == (WriterView { duration: duration as int, ..old(self)@ }),
    {
        if self.header_written {
            return Err(format_error("Cannot modify data record duration after writing header"));
        }
        if duration < 1 || duration > MAX_RECORD_DURATION {
            return Err(format_error("Data record duration must be between 0 and 3600 seconds"));
        }
        let mut t: Vec<u8> = Vec::new();
        push_ticks(&mut t, duration as u64);
        if t.len() > 8 {
            return Err(format_error("Data record duration has too many digits"));
        }
        self.datarecord_duration = duration;
        Ok(())
    }

    /// Sets the sub-second part of the start time, in ticks.
    pub fn set_subsecond_starttime(&mut self, subsecond: i64) -> (r: Result<(), EdfError>)
        requires
            old(self).wf(),
        ensures
            final(self).wf(),
            r is Ok <==> !old(self)@.header_written && 0 <= subsecond < 10_000_000,
            r is Err ==> r->Err_0 is InvalidFormat && final(self)@ == old(self)@,
            r is Ok ==> final(self)@ == (WriterView { subsecond: subsecond as int, ..old(self)@ }),
    {
        if self.header_written {
            return Err(format_error("Cannot modify subsecond start time after writing header"));
        }
        if subsecond < 0 || subsecond >= 10_000_000 {
            return Err(format_error("Subsecond must be between 0 and 9999999"));
        }
        self.starttime_subsecond = subsecond;
        Ok(())
    }

    /// Sets how many annotation channels each record carries (1 to 64).
    pub fn set_number_of_annotation_signals(&mut self, annot_signals: usize) -> (r: Result<
        (),
        EdfError,
    >)
        requires
            old(self).wf(),
        ensures
            final(self).wf(),
            r is Ok <==> !old(self)@.header_written && 1 <= annot_signals
                <= EDFLIB_MAX_ANNOTATION_CHANNELS && old(self)@.signals.len() + annot_signals
                <= crate::EDFLIB_MAXSIGNALS,
            r is Err ==> r->Err_0 is InvalidFormat && final(self)@ == old(self)@,
            r is Ok ==> final(self)@ == (WriterView {
                channels: annot_signals as nat,
                ..old(self)@
            }),
    {
        if self.header_written {
            return Err(format_error("Cannot modify annotation signals after writing header"));
        }
        if annot_signals == 0 || annot_signals > EDFLIB_MAX_ANNOTATION_CHANNELS {
            return Err(format_error("Annotation signals must be 1-64"));
        }
        if self.signals.len() + annot_signals > crate::EDFLIB_MAXSIGNALS {
            return Err(format_error("Too many signals"));
        }
        self.nr_annot_chns = annot_signals;
        Ok(())
    }

    /// Queues an annotation: onset (ticks, not negative), duration (ticks, not negative, or
    /// none) and a description of 1 to 512 bytes. It is written only if its onset falls in a
    /// record not yet written.
    pub fn add_annotation(&mut self, onset: i64, duration: Option<i64>, description: &str) -> (r:
        Result<(), EdfError>)
        requires
            old(self).wf(),
        ensures
            final(self).wf(),
            r is Ok <==> onset >= 0 && (duration is Some ==> duration->0 >= 0) && description@.len()
                > 0 && encode_utf8(description@).len() <= crate::EDFLIB_MAX_ANNOTATION_LEN,
            r is Err ==> r->Err_0 is InvalidFormat && final(self)@ == old(self)@,
            r is Ok ==> final(self)@ == (WriterView {
                annotations: old(self)@.annotations.push(
                    AnnotationView {
                        onset,
                        duration: match duration {
                            Some(d) => d,
                            None => -1i64,
                        },
                        description: description@,
                    },
                ),
                ..old(self)@
            }),
    {
        if onset < 0 {
            return Err(format_error("Annotation onset cannot be negative"));
        }
        let d: i64 = match duration {
            Some(d) => {
                if d < 0 {
                    return Err(format_error("Annotation duration cannot be negative"));
                }
                d
            },
            None => -1,
        };
        if description.is_empty() {
            return Err(format_error("Annotation description cannot be empty"));
        }
        if description.as_bytes().len() > crate::EDFLIB_MAX_ANNOTATION_LEN {
            return Err(format_error("Annotation description too long (max 512 characters)"));
        }
        let a = Annotation { onset, duration: d, description: String::from_str(description) };
        self.annotations.push(a);
        proof {
            assert(ann_views(self.annotations@) =~= ann_views(old(self).annotations@).push(
                AnnotationView { onset, duration: d, description: description@ },
            ));
        }
        Ok(())
    }

    /// How many annotation channels each record carries.
    pub fn number_of_annotation_signals(&self) -> (r: usize)
        ensures
            r == self@.channels,
    {
        self.nr_annot_chns
    }

    /// How many annotations have been queued.
    pub fn annotation_count(&self) -> (r: usize)
        ensures
            r == self@.annotations.len(),
    {
        self.annotations.len()
    }

    fn write_header(&self, total_datarecords: u64) -> (r: Result<Vec<u8>, EdfError>)
        requires
            self.wf(),
            total_datarecords <= MAX_RECORDS,
        ensures
            r is Ok <==> recording_writable(self@),
            r is Ok ==> r->Ok_0@ == header_of(self@, total_datarecords as int),
            r is Err ==> r->Err_0 is InvalidFormat,
    {
        let ghost w = self@;
        let total = self.signals.len() + self.nr_annot_chns;
        let mut h: Vec<u8> = Vec::new();
        put_fit(&mut h, &[48u8], 8);
        let sex_b = ascii_bytes_of(self.sex.as_str());
        let bd_b = ascii_bytes_of(self.birthdate.as_str());
        let name_b = ascii_bytes_of(self.patient_name.as_str());
        let add_b = ascii_bytes_of(self.patient_additional.as_str());
        let mut p: Vec<u8> = ascii_bytes_of(self.patient_code.as_str());
        p.push(32u8);
        append_prefix(&mut p, sex_b.as_slice(), sex_b.len());
        p.push(32u8);
        append_prefix(&mut p, bd_b.as_slice(), bd_b.len());
        p.push(32u8);
        append_prefix(&mut p, name_b.as_slice(), name_b.len());
        p.push(32u8);
        append_prefix(&mut p, add_b.as_slice(), add_b.len());
        proof {
            assert(sex_b@.subrange(0, sex_b@.len() as int) =~= sex_b@);
            assert(bd_b@.subrange(0, bd_b@.len() as int) =~= bd_b@);
            assert(name_b@.subrange(0, name_b@.len() as int) =~= name_b@);
            assert(add_b@.subrange(0, add_b@.len() as int) =~= add_b@);
            assert(p@ =~= patient_text(w.patient));
        }
        put_fit(&mut h, p.as_slice(), 80);
        let mut rec: Vec<u8> = Vec::new();
        let sd = [
            83u8, 116, 97, 114, 116, 100, 97, 116, 101, 32, 88, 32, 45, 77, 77, 77, 45, 121, 121,
            121, 121, 32,
        ];
        append_prefix(&mut rec, &sd, 22);
        let mut info: Vec<u8> = Vec::new();
        let a1 = [65u8, 100, 109, 105, 110, 58];
        let a2 = [32u8, 84, 101, 99, 104, 58];
        let a3 = [32u8, 68, 101, 118, 105, 99, 101, 58];
        let admin = self.admin_code.as_str().as_bytes();
        let tech = self.technician.as_str().as_bytes();
        let equip = self.equipment.as_str().as_bytes();
        append_prefix(&mut info, &a1, 6);
        append_prefix(&mut info, admin, admin.len());
        append_prefix(&mut info, &a2, 6);
        append_prefix(&mut info, tech, tech.len());
        append_prefix(&mut info, &a3, 8);
        append_prefix(&mut info, equip, equip.len());
        proof {
            assert(a1@.subrange(0, 6) =~= a1@);
            assert(a2@.subrange(0, 6) =~= a2@);
            assert(a3@.subrange(0, 8) =~= a3@);
            assert(admin@.subrange(0, admin@.len() as int) =~= admin@);
            assert(tech@.subrange(0, tech@.len() as int) =~= tech@);
            assert(equip@.subrange(0, equip@.len() as int) =~= equip@);
            assert(info@ =~= admin_text(w.admin[0], w.admin[1], w.admin[2]));
        }
        put_fit(&mut rec, info.as_slice(), 58);
        proof {
            assert(sd@.subrange(0, 22) =~= startdate_text());
            assert(rec@ =~= recording_of(w));
        }
        if !validate_recording_field(rec.as_slice()) {
            return Err(format_error("Recording field contains invalid characters"));
        }
        append_prefix(&mut h, rec.as_slice(), 80);
        proof {
            assert(rec@.subrange(0, 80) =~= rec@);
            assert(h@.subrange(88, 168) =~= rec@);
        }
        match check_recording_field(true, false, h.as_slice()) {
            Err(e) => {
                return Err(e);
            },
            Ok(()) => {},
        }
        let db = date_bytes(self.start_date);
        append_prefix(&mut h, db.as_slice(), db.len());
        let tb = time_bytes(self.start_time);
        append_prefix(&mut h, tb.as_slice(), tb.len());
        put_fit(&mut h, int_bytes(((total + 1) * 256) as i64).as_slice(), 8);
        put_fit(&mut h, &[69u8, 68, 70, 43, 67], 44);
        put_fit(&mut h, int_bytes(total_datarecords as i64).as_slice(), 8);
        let mut dt: Vec<u8> = Vec::new();
        push_ticks(&mut dt, self.datarecord_duration as u64);
        put_fit(&mut h, dt.as_slice(), 8);
        put_fit(&mut h, int_bytes(total as i64).as_slice(), 4);
        let block = write_signal_headers_with_annotations(&self.signals, self.nr_annot_chns);
        append_prefix(&mut h, block.as_slice(), block.len());
        proof {
            assert(db@.subrange(0, db@.len() as int) =~= db@);
            assert(tb@.subrange(0, tb@.len() as int) =~= tb@);
            assert(block@.subrange(0, block@.len() as int) =~= block@);
            assert(h@ =~= header_of(w, total_datarecords as int));
        }
        Ok(h)
    }

    /// Encodes one record of digital samples, one row per signal. The first record also
    /// brings the header, with a record count of one until `finalize` patches it. Returns the
    /// bytes to append to the file; a refused call changes nothing.
    pub fn write_samples(&mut self, samples: &Vec<Vec<i32>>) -> (r: Result<Vec<u8>, EdfError>)
        requires
            old(self).wf(),
        ensures
            final(self).wf(),
            r is Ok <==> rows_fit(old(self)@.signals, samples@) && old(self)@.records < MAX_RECORDS,
            r is Err ==> r->Err_0 is InvalidFormat && final(self)@ == old(self)@,
            r is Ok ==> r->Ok_0@ == (if old(self)@.header_written {
                Seq::<u8>::empty()
            } else {
                header_of(old(self)@, 1)
            }) + record_samples(old(self)@.signals, samples@, samples@.len() as int) + record_tals(
                old(self)@,
                old(self)@.records as int,
                old(self)@.channels as int,
            ),
            r is Ok ==> final(self)@ == (WriterView {
                header_written: true,
                records: old(self)@.records + 1,
                ..old(self)@
            }),
    {
        if samples.len() != self.signals.len() {
            return Err(format_error("Sample count must match signal count"));
        }
        let mut i: usize = 0;
        while i < samples.len()
            invariant
                i <= samples@.len() == self.signals@.len(),
                self.wf(),
                forall|j: int|
                    0 <= j < i ==> #[trigger] samples@[j]@.len() == self.signals@[j].samples_per_record,
            decreases samples@.len() - i,
        {
            assert(signal_ok(self.signals@[i as int]));
            if samples[i].len() != self.signals[i].samples_per_record as usize {
                return Err(format_error("Samples per record mismatch"));
            }
            i += 1;
        }
        if self.samples_written >= MAX_RECORDS {
            return Err(format_error("Too many data records"));
        }
        let mut out: Vec<u8> = Vec::new();
        proof {
            assert(self@.admin =~= seq![seq!['X'], seq!['X'], seq!['X']]);
            lemma_default_recording_writable(self@);
        }
        if !self.header_written {
            match self.write_header(1) {
                Err(e) => {
                    return Err(e);
                },
                Ok(h) => {
                    out = h;
                },
            }
        }
        let ghost head = out@;
        let mut s: usize = 0;
        while s < samples.len()
            invariant
                s <= samples@.len() == self.signals@.len(),
                self.wf(),
                out@ == head + record_samples(self.signals@, samples@, s as int),
            decreases samples@.len() - s,
        {
            let sig = &self.signals[s];
            let row = &samples[s];
            assert(signal_ok(self.signals@[s as int]));
            let mut k: usize = 0;
            let ghost base = out@;
            while k < row.len()
                invariant
                    k <= row@.len(),
                    -32768 <= sig.digital_min <= 32767,
                    -32768 <= sig.digital_max <= 32767,
                    out@ == base + sample_bytes(*sig, row@, k as int),
                decreases row@.len() - k,
            {
                let v = row[k];
                let c: i32 = if v < sig.digital_min {
                    sig.digital_min
                } else if v > sig.digital_max {
                    sig.digital_max
                } else {
                    v
                };
                let u: u32 = if c < 0 {
                    (c + 65536) as u32
                } else {
                    c as u32
                };
                out.push((u % 256) as u8);
                out.push((u / 256) as u8);
                k += 1;
                assert(out@ =~= base + sample_bytes(*sig, row@, k as int));
            }
            s += 1;
            assert(out@ =~= head + record_samples(self.signals@, samples@, s as int));
        }
        let ghost mid = out@;
        let ghost w = self@;
        assert(self.samples_written * self.datarecord_duration + self.datarecord_duration
            + 10_000_000 <= i64::MAX) by (nonlinear_arith)
            requires
                self.samples_written < MAX_RECORDS,
                1 <= self.datarecord_duration <= MAX_RECORD_DURATION,
        ;
        assert(self.samples_written * self.datarecord_duration + self.datarecord_duration == (
        self.samples_written + 1) * self.datarecord_duration) by (nonlinear_arith);
        let mut c: usize = 0;
        while c < self.nr_annot_chns
            invariant
                c <= self.nr_annot_chns,
                self.wf(),
                w == self@,
                self.samples_written < MAX_RECORDS,
                (self.samples_written + 1) * self.datarecord_duration + 10_000_000 <= i64::MAX,
                out@ == mid + record_tals(w, self.samples_written as int, c as int),
            decreases self.nr_annot_chns - c,
        {
            let block = generate_annotation_tal_for_channel(
                &self.annotations,
                self.samples_written,
                c,
                self.nr_annot_chns,
                self.datarecord_duration,
                self.starttime_subsecond,
            );
            append_prefix(&mut out, block.as_slice(), block.len());
            c += 1;
            assert(block@.subrange(0, block@.len() as int) =~= block@);
            assert(out@ =~= mid + record_tals(w, self.samples_written as int, c as int));
        }
        self.header_written = true;
        self.samples_written = self.samples_written + 1;
        Ok(out)
    }

    /// The bytes that replace the record count at `RECORD_COUNT_OFFSET` once writing is done,
    /// when more than one record was written (the header went out saying one).
    pub fn finalize(&self) -> (r: Option<Vec<u8>>)
        requires
            self.wf(),
        ensures
            r is Some <==> self@.header_written && self@.records > 1,
            r is Some ==> r->0@ == fit(int_text(self@.records as int), 8),
    {
        if self.header_written && self.samples_written > 1 {
            let mut out: Vec<u8> = Vec::new();
            put_fit(&mut out, int_bytes(self.samples_written as i64).as_slice(), 8);
            Some(out)
        } else {
            None
        }
    }
}

} // verus!
