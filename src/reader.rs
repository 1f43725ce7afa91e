use vstd::prelude::*;

use crate::error::EdfError;
use crate::sort::{onset_sorted, sort_annotations, sort_by_onset};
use crate::tal_parse::{
    ann_views, block_subsecond, block_timestamp, extract_timestamp, parse_tal_data,
    quick_count, quick_parse_tal_for_count, subsecond, subsecond_of, tal_annotations,
};
use crate::types::{Annotation, AnnotationView, EdfHeader, SignalParam};
use vstd::slice::slice_subrange;

verus! {

/// Where one entry of the signal block lies in a record.
#[derive(Debug, Clone, Copy, PartialEq, Eq)]
pub struct SignalInfo {
    /// Offset of its samples within a record, in bytes.
    pub buffer_offset: u64,
    pub samples_per_record: i32,
    pub is_annotation: bool,
}

/// Records whose annotations the bounded count looks at.
pub const QUICK_COUNT_RECORDS: i64 = 100;

/// Largest gap between a record's timestamp and the one expected, in ticks (a millisecond).
pub const TIMESTAMP_TOLERANCE: i64 = 10_000;

/// The bytes of annotation channel `c` in a record, when the record holds them.
pub open spec fn channel_block(rec: Seq<u8>, chans: Seq<SignalInfo>, c: int) -> Option<Seq<u8>> {
    let off = chans[c].buffer_offset as int;
    let len = chans[c].samples_per_record as int * 2;
    if off + len <= rec.len() {
        Some(rec.subrange(off, off + len))
    } else {
        None
    }
}

/// The annotations of the first `n` annotation channels of a record, channel after channel.
pub open spec fn record_annotations(rec: Seq<u8>, chans: Seq<SignalInfo>, n: int) -> Seq<
    AnnotationView,
>
    decreases n,
{
    if n <= 0 {
        Seq::empty()
    } else {
        record_annotations(rec, chans, n - 1) + match channel_block(rec, chans, n - 1) {
            Some(b) => tal_annotations(b),
            None => Seq::empty(),
        }
    }
}

/// The bounded count of the first `n` annotation channels of a record.
pub open spec fn record_quick_count(rec: Seq<u8>, chans: Seq<SignalInfo>, n: int) -> int
    decreases n,
{
    if n <= 0 {
        0
    } else {
        record_quick_count(rec, chans, n - 1) + match channel_block(rec, chans, n - 1) {
            Some(b) => quick_count(b) as int,
            None => 0,
        }
    }
}

/// What a scan has gathered so far.
pub struct ScanView {
    pub found: Seq<AnnotationView>,
    pub failed: bool,
    pub elapsed: int,
    pub subsecond: int,
    pub count: int,
    pub records: int,
    pub channels: Seq<SignalInfo>,
    pub duration: int,
}

/// Reads the annotations of a file record by record, in order: the full list, checked for
/// continuous timestamps, and the bounded count over the first hundred records.
pub struct AnnotationScan {
    channels: Vec<SignalInfo>,
    datarecord_duration: i64,
    found: Vec<Annotation>,
    failed: bool,
    elapsed: i64,
    subsecond: i64,
    count: i64,
    records: i64,
}

impl View for AnnotationScan {
    type V = ScanView;

    closed spec fn view(&self) -> ScanView {
        ScanView {
            found: ann_views(self.found@),
            failed: self.failed,
            elapsed: self.elapsed as int,
            subsecond: self.subsecond as int,
            count: self.count as int,
            records: self.records as int,
            channels: self.channels@,
            duration: self.datarecord_duration as int,
        }
    }
}

/// The annotation channels of a signal list, in order.
pub open spec fn annotation_channels(info: Seq<SignalInfo>) -> Seq<SignalInfo>
    decreases info.len(),
{
    if info.len() == 0 {
        Seq::empty()
    } else {
        let r = annotation_channels(info.subrange(0, info.len() - 1));
        if info[info.len() - 1].is_annotation {
            r.push(info[info.len() - 1])
        } else {
            r
        }
    }
}

/// The timestamp of a record is the one expected: one record duration after the last.
pub open spec fn continuous(ts: int, elapsed: int, duration: int) -> bool {
    let d = ts - (elapsed + duration);
    -10_000 <= d <= 10_000
}

impl AnnotationScan {
    pub closed spec fn wf(&self) -> bool {
        &&& 0 <= self.records <= 100_000_000
        &&& 0 <= self.count <= (if self.records < QUICK_COUNT_RECORDS {
            self.records
        } else {
            QUICK_COUNT_RECORDS
        }) * 819_200_000_000
        &&& self.channels@.len() <= 4096
        &&& forall|i: int| 0 <= i < self.channels@.len() ==> 1 <= #[trigger] self.channels@[i].samples_per_record <= 99_999_999
        &&& -10_000_000 < self.subsecond < 10_000_000
        &&& 0 <= self.datarecord_duration <= 1_000_000_000_000_000
        &&& -i64::MAX <= self.elapsed
    }

    /// A scan of a file with these signal-block entries and record duration (ticks).
    pub fn new(info: &Vec<SignalInfo>, datarecord_duration: i64) -> (r: AnnotationScan)
        requires
            info@.len() <= 4096,
            forall|i: int| 0 <= i < info@.len() ==> 1 <= #[trigger] info@[i].samples_per_record <= 99_999_999,
            0 <= datarecord_duration <= 1_000_000_000_000_000,
        ensures
            r.wf(),
            r@.found.len() == 0,
            !r@.failed,
            r@.records == 0,
            r@.count == 0,
            r@.subsecond == 0,
            r@.elapsed == 0,
            r@.channels == annotation_channels(info@),
            r@.duration == datarecord_duration,
    {
        let mut channels: Vec<SignalInfo> = Vec::new();
        let mut i: usize = 0;
        while i < info.len()
            invariant
                i <= info@.len() <= 4096,
                forall|j: int| 0 <= j < info@.len() ==> 1 <= #[trigger] info@[j].samples_per_record <= 99_999_999,
                channels@ == annotation_channels(info@.subrange(0, i as int)),
                channels@.len() <= i,
                forall|k: int| 0 <= k < channels@.len() ==> 1 <= #[trigger] channels@[k].samples_per_record <= 99_999_999,
            decreases info@.len() - i,
        {
            proof {
                let s = info@.subrange(0, i + 1);
                assert(s.subrange(0, i as int) =~= info@.subrange(0, i as int));
            }
            if info[i].is_annotation {
                channels.push(info[i]);
            }
            i += 1;
        }
        assert(info@.subrange(0, info@.len() as int) =~= info@);
        AnnotationScan {
            channels,
            datarecord_duration,
            found: Vec::new(),
            failed: false,
            elapsed: 0,
            subsecond: 0,
            count: 0,
            records: 0,
        }
    }

    /// Takes in the next record, in file order. The first annotation channel's timestamp must
    /// follow the previous one by one record duration (within a millisecond); a gap stops the
    /// scan, and the full list is then empty. The first record's timestamp gives the
    /// sub-second start.
    pub fn scan_record(&mut self, record: &[u8]) -> (r: Result<(), EdfError>)
        requires
            old(self).wf(),
            old(self)@.records < 100_000_000,
        ensures
            final(self).wf(),
            final(self)@.records == old(self)@.records + 1,
            final(self)@.channels == old(self)@.channels,
            final(self)@.duration == old(self)@.duration,
            final(self)@.count == old(self)@.count + if old(self)@.records < QUICK_COUNT_RECORDS {
                record_quick_count(record@, old(self)@.channels, old(self)@.channels.len() as int)
            } else {
                0
            },
            ({
                let o = old(self)@;
                let f = final(self)@;
                let ts = if o.channels.len() > 0 {
                    match channel_block(record@, o.channels, 0) {
                        Some(b) => block_timestamp(b),
                        None => None,
                    }
                } else {
                    None
                };
                if o.failed {
                    r is Ok && f.failed && f.found == o.found && f.elapsed == o.elapsed
                        && f.subsecond == o.subsecond
                } else if ts is Some && o.records > 0 && !continuous(
                    ts->0 as int,
                    o.elapsed,
                    o.duration,
                ) {
                    r == Err::<(), EdfError>(EdfError::DiscontinuousFile) && f.failed && f.found
                        == o.found && f.elapsed == o.elapsed && f.subsecond == o.subsecond
                } else {
                    r is Ok && !f.failed && f.found == o.found + record_annotations(
                        record@,
                        o.channels,
                        o.channels.len() as int,
                    ) && f.elapsed == (if ts is Some {
                        ts->0 as int
                    } else {
                        o.elapsed
                    }) && f.subsecond == (if ts is Some && o.records == 0 {
                        subsecond_of(ts->0) as int
                    } else {
                        o.subsecond
                    })
                }
            }),
    {
        let ghost o = self@;
        let n = self.channels.len();
        let idx = self.records;
        let mut ts: Option<i64> = None;
        if n > 0 {
            let ch = self.channels[0];
            assert(1 <= ch.samples_per_record <= 99_999_999);
            let len: usize = ch.samples_per_record as usize * 2;
            if ch.buffer_offset <= record.len() as u64 && len as u64 <= record.len() as u64 - ch.buffer_offset {
                let off = ch.buffer_offset as usize;
                let b = slice_subrange(record, off, off + len);
                ts = extract_timestamp(b);
            }
        }
        if idx < QUICK_COUNT_RECORDS {
            let mut c: usize = 0;
            let ghost base = self.count as int;
            let mut cnt: i64 = self.count;
            while c < n
                invariant
                    c <= n == self.channels@.len() <= 4096,
                    forall|i: int| 0 <= i < self.channels@.len() ==> 1 <= #[trigger] self.channels@[i].samples_per_record <= 99_999_999,
                    0 <= base <= 100 * 819_200_000_000,
                    cnt as int == base + record_quick_count(record@, self.channels@, c as int),
                    0 <= record_quick_count(record@, self.channels@, c as int) <= c * 200_000_000,
                decreases n - c,
            {
                let ch = self.channels[c];
                assert(1 <= ch.samples_per_record <= 99_999_999);
                let len: usize = ch.samples_per_record as usize * 2;
                if ch.buffer_offset <= record.len() as u64 && len as u64 <= record.len() as u64 - ch.buffer_offset {
                    let off = ch.buffer_offset as usize;
                    let b = slice_subrange(record, off, off + len);
                    let (q, _) = quick_parse_tal_for_count(b, false);
                    cnt = cnt + q;
                }
                c += 1;
            }
            self.count = cnt;
        }
        self.records = idx + 1;
        if self.failed {
            return Ok(());
        }
        match ts {
            Some(t) => {
                if idx > 0 {
                    let diff: i128 = t as i128 - (self.elapsed as i128 + self.datarecord_duration as i128);
                    if diff > TIMESTAMP_TOLERANCE as i128 || diff < -(TIMESTAMP_TOLERANCE as i128) {
                        self.failed = true;
                        return Err(EdfError::DiscontinuousFile);
                    }
                } else {
                    self.subsecond = subsecond(t);
                }
                self.elapsed = t;
            },
            None => {},
        }
        let mut c: usize = 0;
        assert(o.found + record_annotations(record@, self.channels@, 0) =~= o.found);
        let ghost mid = self@;
        while c < n
            invariant
                c <= n == self.channels@.len(),
                self.wf(),
                self@.records == mid.records && self@.count == mid.count && self@.elapsed
                    == mid.elapsed && self@.subsecond == mid.subsecond && self@.failed == mid.failed
                    && self@.duration == mid.duration,
                o.channels == self.channels@,
                forall|i: int| 0 <= i < self.channels@.len() ==> 1 <= #[trigger] self.channels@[i].samples_per_record <= 99_999_999,
                ann_views(self.found@) == o.found + record_annotations(record@, self.channels@, c as int),
            decreases n - c,
        {
            let ch = self.channels[c];
            assert(1 <= ch.samples_per_record <= 99_999_999);
            let len: usize = ch.samples_per_record as usize * 2;
            if ch.buffer_offset <= record.len() as u64 && len as u64 <= record.len() as u64 - ch.buffer_offset {
                let off = ch.buffer_offset as usize;
                let b = slice_subrange(record, off, off + len);
                let mut got = parse_tal_data(b);
                let ghost before = ann_views(self.found@);
                let ghost got_v = ann_views(got@);
                self.found.append(&mut got);
                assert(ann_views(self.found@) =~= before + got_v);
                assert(channel_block(record@, self.channels@, c as int) == Some(b@));
            }
            assert(ann_views(self.found@) =~= o.found + record_annotations(record@, self.channels@, c + 1));
            c += 1;
        }
        Ok(())
    }

    /// The full annotation list sorted by onset (empty after a timestamp gap), the bounded
    /// count, and the sub-second start.
    pub fn finish(self) -> (r: (Vec<Annotation>, i64, i64))
        requires
            self.wf(),
        ensures
            ann_views(r.0@) == if self@.failed {
                Seq::<AnnotationView>::empty()
            } else {
                sort_by_onset(self@.found)
            },
            onset_sorted(ann_views(r.0@)),
            r.1 == self@.count,
            r.2 == self@.subsecond,
    {
        if self.failed {
            let v: Vec<Annotation> = Vec::new();
            assert(ann_views(v@) =~= Seq::<AnnotationView>::empty());
            (v, self.count, self.subsecond)
        } else {
            (sort_annotations(self.found), self.count, self.subsecond)
        }
    }
}


/// The byte offset of sample `k` of a signal whose samples start `off` bytes into each record,
/// `spr` to a record, in a file whose header takes `hs` bytes and whose records take `rs`.
pub open spec fn sample_offset(hs: int, rs: int, off: int, spr: int, k: int) -> int {
    hs + (k / spr) * rs + off + (k % spr) * 2
}

/// A digital value as stored: two bytes, little-endian, two's complement.
pub open spec fn i16_of(lo: u8, hi: u8) -> int {
    let v = lo as int + 256 * hi as int;
    if v >= 32768 {
        v - 65536
    } else {
        v
    }
}

/// Raised to `lo`, then lowered to `hi`.
pub open spec fn clamp_to(v: int, lo: int, hi: int) -> int {
    let a = if v < lo {
        lo
    } else {
        v
    };
    if a > hi {
        hi
    } else {
        a
    }
}

/// What a reader holds, as plain values.
pub struct ReaderView {
    pub positions: Seq<i64>,
    pub spr: Seq<int>,
    pub offsets: Seq<int>,
    pub digital_min: Seq<int>,
    pub digital_max: Seq<int>,
    pub records: int,
    pub header_size: int,
    pub record_size: int,
    pub annotations: Seq<AnnotationView>,
    pub header: EdfHeader,
}

/// Random access to the samples and the annotations of an opened file: the header, the
/// sorted annotation list, and one cursor per signal.
pub struct EdfReader {
    header: EdfHeader,
    signal_info: Vec<SignalInfo>,
    user_info: Vec<SignalInfo>,
    sample_positions: Vec<i64>,
    header_size: u64,
    record_size: u64,
    annotations: Vec<Annotation>,
}

/// The ordinary signals among signal-block entries, in order.
pub open spec fn signal_entries(info: Seq<SignalInfo>) -> Seq<SignalInfo>
    decreases info.len(),
{
    if info.len() == 0 {
        Seq::empty()
    } else {
        let r = signal_entries(info.subrange(0, info.len() - 1));
        if info[info.len() - 1].is_annotation {
            r
        } else {
            r.push(info[info.len() - 1])
        }
    }
}

/// An entry that can be read: sample count in its field's range, samples within a record.
pub open spec fn entry_fits(s: SignalInfo, record_size: int) -> bool {
    s.is_annotation || (1 <= s.samples_per_record <= 99_999_999 && s.buffer_offset + 2
        * s.samples_per_record <= record_size)
}

/// A parsed header, its signal-block entries and the record size fit together.
pub open spec fn reader_parts_ok(header: EdfHeader, info: Seq<SignalInfo>, record_size: int) -> bool {
    let records = header.datarecords_in_file as int;
    &&& -100_000_000 < records < 100_000_000
    &&& 1 <= info.len() <= 4096
    &&& records > 0 ==> record_size <= (i64::MAX - (info.len() + 1) * 256) / records
    &&& forall|i: int| 0 <= i < info.len() ==> entry_fits(#[trigger] info[i], record_size)
    &&& signal_entries(info).len() == header.signals@.len()
}

/// The number of samples of a signal in the file.
pub open spec fn samples_in_file(spr: int, records: int) -> int {
    if records > 0 {
        spr * records
    } else {
        0
    }
}

impl View for EdfReader {
    type V = ReaderView;

    closed spec fn view(&self) -> ReaderView {
        ReaderView {
            positions: self.sample_positions@,
            spr: self.user_info@.map_values(|s: SignalInfo| s.samples_per_record as int),
            offsets: self.user_info@.map_values(|s: SignalInfo| s.buffer_offset as int),
            digital_min: self.header.signals@.map_values(|s: SignalParam| s.digital_min as int),
            digital_max: self.header.signals@.map_values(|s: SignalParam| s.digital_max as int),
            records: self.header.datarecords_in_file as int,
            header_size: self.header_size as int,
            record_size: self.record_size as int,
            annotations: ann_views(self.annotations@),
            header: self.header,
        }
    }
}

impl EdfReader {
    pub closed spec fn wf(&self) -> bool {
        let n = self.header.signals@.len();
        &&& self.user_info@.len() == n
        &&& self.sample_positions@.len() == n
        &&& -100_000_000 < self.header.datarecords_in_file < 100_000_000
        &&& self.header_size <= 1_048_832
        &&& self.header.datarecords_in_file > 0 ==> self.header_size + self.record_size
            * self.header.datarecords_in_file <= i64::MAX
        &&& onset_sorted(ann_views(self.annotations@))
        &&& forall|k: int|
            0 <= k < n ==> {
                let u = #[trigger] self.user_info@[k];
                &&& 1 <= u.samples_per_record <= 99_999_999
                &&& u.buffer_offset + 2 * u.samples_per_record <= self.record_size
                &&& 0 <= self.sample_positions@[k] <= samples_in_file(
                    u.samples_per_record as int,
                    self.header.datarecords_in_file as int,
                )
            }
    }

    /// A reader over a parsed header, its signal-block entries, the record size, and what
    /// the annotation scan found (list sorted by onset, bounded count, sub-second start).
    /// Refuses parts that do not fit together.
    pub fn new(
        header: EdfHeader,
        signal_info: Vec<SignalInfo>,
        record_size: u64,
        annotations: Vec<Annotation>,
        annotations_in_file: i64,
        starttime_subsecond: i64,
    ) -> (r: Result<EdfReader, EdfError>)
        requires
            onset_sorted(ann_views(annotations@)),
        ensures
            r is Ok <==> reader_parts_ok(header, signal_info@, record_size as int),
            r is Ok ==> r->Ok_0.wf() && r->Ok_0@.annotations == ann_views(annotations@)
                && r->Ok_0@.header == (EdfHeader {
                    annotations_in_file,
                    starttime_subsecond,
                    ..header
                }) && r->Ok_0@.record_size == record_size && r->Ok_0@.header_size == (
                signal_info@.len() + 1) * 256 && r->Ok_0@.positions.len() == header.signals@.len()
                && forall|k: int| 0 <= k < r->Ok_0@.positions.len() ==> r->Ok_0@.positions[k] == 0,
            r is Ok ==> r->Ok_0@.spr == signal_entries(signal_info@).map_values(
                |s: SignalInfo| s.samples_per_record as int,
            ) && r->Ok_0@.offsets == signal_entries(signal_info@).map_values(
                |s: SignalInfo| s.buffer_offset as int,
            ),
            r is Err ==> r->Err_0 is InvalidHeader,
    {
        let mut header = header;
        header.annotations_in_file = annotations_in_file;
        header.starttime_subsecond = starttime_subsecond;
        let records = header.datarecords_in_file;
        if records <= -100_000_000 || records >= 100_000_000 {
            return Err(EdfError::InvalidHeader);
        }
        let total = signal_info.len();
        if total < 1 || total > 4096 {
            return Err(EdfError::InvalidHeader);
        }
        let header_size: u64 = (total as u64 + 1) * 256;
        if records > 0 && record_size > (i64::MAX as u64 - header_size) / records as u64 {
            return Err(EdfError::InvalidHeader);
        }
        proof {
            if records > 0 {
                let rc = records as int;
                let hs = header_size as int;
                let sz = record_size as int;
                assert(hs + sz * rc <= i64::MAX) by (nonlinear_arith)
                    requires
                        rc > 0,
                        sz <= (i64::MAX - hs) / rc,
                        0 <= hs <= i64::MAX,
                ;
            }
        }
        let mut user_info: Vec<SignalInfo> = Vec::new();
        let mut positions: Vec<i64> = Vec::new();
        let mut i: usize = 0;
        while i < total
            invariant
                i <= total <= 4096,
                total == signal_info@.len(),
                user_info@.len() == positions@.len(),
                user_info@.len() <= i,
                user_info@ == signal_entries(signal_info@.subrange(0, i as int)),
                forall|j: int| 0 <= j < i ==> entry_fits(#[trigger] signal_info@[j], record_size as int),
                forall|k: int| 0 <= k < positions@.len() ==> #[trigger] positions@[k] == 0,
                forall|k: int|
                    0 <= k < user_info@.len() ==> {
                        let u = #[trigger] user_info@[k];
                        &&& 1 <= u.samples_per_record <= 99_999_999
                        &&& u.buffer_offset + 2 * u.samples_per_record <= record_size
                    },
            decreases total - i,
        {
            let s = signal_info[i];
            proof {
                let t = signal_info@.subrange(0, i + 1);
                assert(t.subrange(0, i as int) =~= signal_info@.subrange(0, i as int));
            }
            if !s.is_annotation {
                if s.samples_per_record < 1 || s.samples_per_record > 99_999_999 {
                    return Err(EdfError::InvalidHeader);
                }
                if s.buffer_offset > record_size || (s.samples_per_record as u64) * 2 > record_size
                    - s.buffer_offset {
                    return Err(EdfError::InvalidHeader);
                }
                user_info.push(s);
                positions.push(0);
            }
            i += 1;
        }
        assert(signal_info@.subrange(0, total as int) =~= signal_info@);
        if user_info.len() != header.signals.len() {
            return Err(EdfError::InvalidHeader);
        }
        let r = EdfReader {
            header,
            signal_info,
            user_info,
            sample_positions: positions,
            header_size,
            record_size,
            annotations,
        };
        proof {
            assert forall|k: int| 0 <= k < r.header.signals@.len() implies {
                let u = #[trigger] r.user_info@[k];
                &&& 1 <= u.samples_per_record <= 99_999_999
                &&& u.buffer_offset + 2 * u.samples_per_record <= r.record_size
                &&& 0 <= r.sample_positions@[k] <= samples_in_file(
                    u.samples_per_record as int,
                    r.header.datarecords_in_file as int,
                )
            } by {
                let u = r.user_info@[k];
                if r.header.datarecords_in_file > 0 {
                    assert(u.samples_per_record * r.header.datarecords_in_file >= 0) by (nonlinear_arith)
                        requires
                            u.samples_per_record >= 1,
                            r.header.datarecords_in_file > 0,
                    ;
                }
            }
        }
        Ok(r)
    }

    /// What the header says.
    pub fn header(&self) -> (r: &EdfHeader)
        ensures
            *r == self@.header,
    {
        &self.header
    }

    /// Every annotation of the file, sorted by onset.
    pub fn annotations(&self) -> (r: &[Annotation])
        requires
            self.wf(),
        ensures
            ann_views(r@) == self@.annotations,
            onset_sorted(ann_views(r@)),
    {
        self.annotations.as_slice()
    }

    /// Moves a signal's cursor to `position`, clamped to `[0, samples in file]`.
    pub fn seek(&mut self, signal: usize, position: i64) -> (r: Result<i64, EdfError>)
        requires
            old(self).wf(),
        ensures
            final(self).wf(),
            signal >= old(self)@.positions.len() ==> r == Err::<i64, EdfError>(
                EdfError::InvalidSignalIndex(signal),
            ) && final(self)@ == old(self)@,
            signal < old(self)@.positions.len() ==> r is Ok && r->Ok_0 == clamp_to(
                position as int,
                0,
                samples_in_file(old(self)@.spr[signal as int], old(self)@.records),
            ) && final(self)@ == (ReaderView {
                positions: old(self)@.positions.update(signal as int, r->Ok_0),
                ..old(self)@
            }),
    {
        if signal >= self.sample_positions.len() {
            return Err(EdfError::InvalidSignalIndex(signal));
        }
        let u = self.user_info[signal];
        let records = self.header.datarecords_in_file;
        assert(u == self.user_info@[signal as int]);
        let max_position: i64 = if records > 0 {
            assert(u.samples_per_record * records < 10_000_000_000_000_000) by (nonlinear_arith)
                requires
                    1 <= u.samples_per_record <= 99_999_999,
                    0 < records < 100_000_000,
            ;
            u.samples_per_record as i64 * records
        } else {
            0
        };
        let lo: i64 = if position < 0 {
            0
        } else {
            position
        };
        let p: i64 = if lo > max_position {
            max_position
        } else {
            lo
        };
        self.sample_positions.set(signal, p);
        proof {
            let v = self.user_info@.map_values(|s: SignalInfo| s.samples_per_record as int);
            assert(v[signal as int] == u.samples_per_record);
            if records > 0 {
                assert(u.samples_per_record * records >= 0) by (nonlinear_arith)
                    requires
                        u.samples_per_record >= 1,
                        records > 0,
                ;
            }
            assert forall|k: int| 0 <= k < self.header.signals@.len() implies {
                let w = #[trigger] self.user_info@[k];
                &&& 1 <= w.samples_per_record <= 99_999_999
                &&& w.buffer_offset + 2 * w.samples_per_record <= self.record_size
                &&& 0 <= self.sample_positions@[k] <= samples_in_file(
                    w.samples_per_record as int,
                    self.header.datarecords_in_file as int,
                )
            } by {
                if k != signal {
                    assert(self.sample_positions@[k] == old(self).sample_positions@[k]);
                }
            }
        }
        Ok(p)
    }

    /// Where a signal's cursor stands.
    pub fn tell(&self, signal: usize) -> (r: Result<i64, EdfError>)
        requires
            self.wf(),
        ensures
            signal >= self@.positions.len() ==> r == Err::<i64, EdfError>(
                EdfError::InvalidSignalIndex(signal),
            ),
            signal < self@.positions.len() ==> r == Ok::<i64, EdfError>(self@.positions[signal as int]),
    {
        if signal >= self.sample_positions.len() {
            return Err(EdfError::InvalidSignalIndex(signal));
        }
        Ok(self.sample_positions[signal])
    }

    /// Moves a signal's cursor back to the first sample.
    pub fn rewind(&mut self, signal: usize) -> (r: Result<(), EdfError>)
        requires
            old(self).wf(),
        ensures
            final(self).wf(),
            signal >= old(self)@.positions.len() ==> r == Err::<(), EdfError>(
                EdfError::InvalidSignalIndex(signal),
            ) && final(self)@ == old(self)@,
            signal < old(self)@.positions.len() ==> r is Ok && final(self)@ == (ReaderView {
                positions: old(self)@.positions.update(signal as int, 0),
                ..old(self)@
            }),
    {
        match self.seek(signal, 0) {
            Ok(_) => Ok(()),
            Err(e) => Err(e),
        }
    }

    /// The byte offsets of the next `count` samples of a signal (fewer when the file ends
    /// first), and the cursor moved past them.
    pub fn plan_digital_read(&mut self, signal: usize, count: usize) -> (r: Result<Vec<u64>, EdfError>)
        requires
            old(self).wf(),
        ensures
            final(self).wf(),
            signal >= old(self)@.positions.len() ==> r == Err::<Vec<u64>, EdfError>(
                EdfError::InvalidSignalIndex(signal),
            ) && final(self)@ == old(self)@,
            signal < old(self)@.positions.len() ==> {
                let o = old(self)@;
                let s = signal as int;
                let p = o.positions[s] as int;
                let avail = samples_in_file(o.spr[s], o.records) - p;
                let n = if count < avail {
                    count as int
                } else {
                    avail
                };
                &&& r is Ok
                &&& r->Ok_0@.len() == n
                &&& forall|j: int|
                    0 <= j < n ==> #[trigger] r->Ok_0@[j] == sample_offset(
                        o.header_size,
                        o.record_size,
                        o.offsets[s],
                        o.spr[s],
                        p + j,
                    )
                &&& final(self)@ == (ReaderView {
                    positions: o.positions.update(s, (p + n) as i64),
                    ..o
                })
            },
    {
        if signal >= self.sample_positions.len() {
            return Err(EdfError::InvalidSignalIndex(signal));
        }
        let ghost o = self@;
        let u = self.user_info[signal];
        assert(u == self.user_info@[signal as int]);
        let records = self.header.datarecords_in_file;
        let spr = u.samples_per_record as i64;
        let total: i64 = if records > 0 {
            assert(u.samples_per_record * records < 10_000_000_000_000_000) by (nonlinear_arith)
                requires
                    1 <= u.samples_per_record <= 99_999_999,
                    0 < records < 100_000_000,
            ;
            spr * records
        } else {
            0
        };
        let pos = self.sample_positions[signal];
        let avail = total - pos;
        let n: i64 = if (count as u64) < avail as u64 {
            count as i64
        } else {
            avail
        };
        let mut out: Vec<u64> = Vec::new();
        let mut j: i64 = 0;
        proof {
            let v = self.user_info@.map_values(|s: SignalInfo| s.samples_per_record as int);
            assert(v[signal as int] == u.samples_per_record);
            let w = self.user_info@.map_values(|s: SignalInfo| s.buffer_offset as int);
            assert(w[signal as int] == u.buffer_offset);
        }
        while j < n
            invariant
                0 <= j <= n,
                0 <= pos,
                pos + n <= total,
                records > 0 ==> total == spr * records,
                records <= 0 ==> total == 0,
                1 <= spr <= 99_999_999,
                u.buffer_offset + 2 * spr <= self.record_size,
                self.header_size <= 1_048_832,
                records > 0 ==> self.header_size + self.record_size * records <= i64::MAX,
                out@.len() == j,
                forall|q: int|
                    0 <= q < j ==> #[trigger] out@[q] == sample_offset(
                        self.header_size as int,
                        self.record_size as int,
                        u.buffer_offset as int,
                        spr as int,
                        pos + q,
                    ),
            decreases n - j,
        {
            let k = pos + j;
            let rec = k / spr;
            let within = k % spr;
            proof {
                let rs = self.record_size as int;
                let hs = self.header_size as int;
                let ki = k as int;
                let sp = spr as int;
                let rc = records as int;
                assert(rc > 0) by {
                    if rc <= 0 {
                        assert(total == 0);
                    }
                }
                assert(rec < rc && rec >= 0) by (nonlinear_arith)
                    requires
                        0 <= ki < sp * rc,
                        sp >= 1,
                        rec == ki / sp,
                ;
                assert(rec * rs <= (rc - 1) * rs) by (nonlinear_arith)
                    requires
                        rec <= rc - 1,
                        rs >= 0,
                ;
                assert((rc - 1) * rs + rs == rc * rs) by (nonlinear_arith);
                assert(0 <= within < sp);
            }
            let off: u64 = self.header_size + rec as u64 * self.record_size + u.buffer_offset
                + within as u64 * 2;
            out.push(off);
            j += 1;
        }
        let newp = pos + n;
        self.sample_positions.set(signal, newp);
        proof {
            assert forall|k: int| 0 <= k < self.header.signals@.len() implies {
                let w = #[trigger] self.user_info@[k];
                &&& 1 <= w.samples_per_record <= 99_999_999
                &&& w.buffer_offset + 2 * w.samples_per_record <= self.record_size
                &&& 0 <= self.sample_positions@[k] <= samples_in_file(
                    w.samples_per_record as int,
                    self.header.datarecords_in_file as int,
                )
            } by {
                if k != signal {
                    assert(self.sample_positions@[k] == old(self).sample_positions@[k]);
                }
            }
        }
        Ok(out)
    }

    /// The digital value two stored bytes give for a signal, kept within its digital range.
    pub fn decode_sample(&self, signal: usize, lo: u8, hi: u8) -> (r: Result<i32, EdfError>)
        requires
            self.wf(),
        ensures
            signal >= self@.positions.len() ==> r == Err::<i32, EdfError>(
                EdfError::InvalidSignalIndex(signal),
            ),
            signal < self@.positions.len() ==> r is Ok && r->Ok_0 == clamp_to(
                i16_of(lo, hi),
                self@.digital_min[signal as int],
                self@.digital_max[signal as int],
            ),
    {
        if signal >= self.header.signals.len() {
            return Err(EdfError::InvalidSignalIndex(signal));
        }
        let s = &self.header.signals[signal];
        let v0: i32 = lo as i32 + 256 * hi as i32;
        let v: i32 = if v0 >= 32768 {
            v0 - 65536
        } else {
            v0
        };
        let a = if v < s.digital_min {
            s.digital_min
        } else {
            v
        };
        let c = if a > s.digital_max {
            s.digital_max
        } else {
            a
        };
        proof {
            let mn = self.header.signals@.map_values(|q: SignalParam| q.digital_min as int);
            let mx = self.header.signals@.map_values(|q: SignalParam| q.digital_max as int);
            assert(mn[signal as int] == s.digital_min);
            assert(mx[signal as int] == s.digital_max);
        }
        Ok(c)
    }
}

} // verus!
