use vstd::prelude::*;

verus! {

/// The kinds of file this library handles.
#[derive(Debug, Clone, Copy, PartialEq, Eq)]
pub enum FileType {
    EdfPlus,
}

/// A time-stamped event: onset and duration in ticks of 100 ns (duration -1 when unknown).
#[derive(Debug)]
pub struct Annotation {
    pub onset: i64,
    pub duration: i64,
    pub description: String,
}

/// What an annotation says, as plain values.
pub struct AnnotationView {
    pub onset: i64,
    pub duration: i64,
    pub description: Seq<char>,
}

impl View for Annotation {
    type V = AnnotationView;

    open spec fn view(&self) -> AnnotationView {
        AnnotationView { onset: self.onset, duration: self.duration, description: self.description@ }
    }
}


/// One signal's parameters. Physical extremes are held exactly, in units of 10^-7 of the
/// physical dimension (an 8-byte header field has at most seven decimals).
#[derive(Debug)]
pub struct SignalParam {
    pub label: String,
    pub samples_in_file: i64,
    pub physical_max: i64,
    pub physical_min: i64,
    pub digital_max: i32,
    pub digital_min: i32,
    pub samples_per_record: i32,
    pub physical_dimension: String,
    pub prefilter: String,
    pub transducer: String,
}

/// A calendar date.
#[derive(Debug, Clone, Copy, PartialEq, Eq)]
pub struct StartDate {
    pub year: i32,
    pub month: u32,
    pub day: u32,
}

/// A time of day.
#[derive(Debug, Clone, Copy, PartialEq, Eq)]
pub struct StartTime {
    pub hour: u32,
    pub minute: u32,
    pub second: u32,
}

/// What the header of a file says.
#[derive(Debug)]
pub struct EdfHeader {
    pub file_type: FileType,
    /// The ordinary signals; annotation channels are not listed.
    pub signals: Vec<SignalParam>,
    /// `datarecord_duration * datarecords_in_file`, in ticks.
    pub file_duration: i64,
    pub start_date: StartDate,
    pub start_time: StartTime,
    pub starttime_subsecond: i64,
    pub datarecords_in_file: i64,
    pub datarecord_duration: i64,
    /// Annotations counted in the first hundred records only.
    pub annotations_in_file: i64,
    pub patient_code: String,
    pub sex: String,
    pub birthdate: String,
    pub patient_name: String,
    pub patient_additional: String,
    pub admin_code: String,
    pub technician: String,
    pub equipment: String,
    pub recording_additional: String,
}

} // verus!
