use vstd::prelude::*;
use vstd::string::*;

use crate::error::EdfError;
use crate::text::{chars_of, decoded_text, is_whitespace, is_ws, text_from_bytes, trimmed};
use crate::header_write::annotation_label;
use crate::reader::SignalInfo;
use crate::types::{EdfHeader, FileType, SignalParam, StartDate, StartTime};
use vstd::slice::slice_subrange;
use crate::utils::{edf_time_ok, edf_time_value, parse_edf_time, atoi_nonlocalized, atoi_value, fixed_nonlocalized, fixed_value, int_of_chars, trim_string};

verus! {

pub open spec fn leap_year(y: int) -> bool {
    (y % 4 == 0 && y % 100 != 0) || y % 400 == 0
}

pub open spec fn days_in_month(y: int, m: int) -> int {
    if m == 2 {
        if leap_year(y) {
            29
        } else {
            28
        }
    } else if m == 4 || m == 6 || m == 9 || m == 11 {
        30
    } else {
        31
    }
}

/// A day of the proleptic Gregorian calendar within chrono's year range.
pub open spec fn calendar_date(y: int, m: int, d: int) -> bool {
    -262143 <= y <= 262142 && 1 <= m <= 12 && 1 <= d <= days_in_month(y, m)
}

/// Relies on chrono's `NaiveDate::from_ymd_opt`: `Some` exactly for days of the proleptic
/// Gregorian calendar in its year range.
#[verifier::external_body]
fn date_exists(year: i32, month: u32, day: u32) -> (r: bool)
    ensures
        r == calendar_date(year as int, month as int, day as int),
{
    chrono::NaiveDate::from_ymd_opt(year, month, day).is_some()
}

/// Relies on chrono's `NaiveTime::from_hms_opt`: `Some` exactly when the hour is below 24
/// and the minute and second below 60.
#[verifier::external_body]
fn time_exists(hour: u32, minute: u32, second: u32) -> (r: bool)
    ensures
        r == (hour < 24 && minute < 60 && second < 60),
{
    chrono::NaiveTime::from_hms_opt(hour, minute, second).is_some()
}

/// `s` cut at every `.`.
pub open spec fn dot_parts(s: Seq<char>, i: int, cur: Seq<char>) -> Seq<Seq<char>>
    decreases s.len() - i,
    when 0 <= i
{
    if i >= s.len() {
        seq![cur]
    } else if s[i] == '.' {
        seq![cur] + dot_parts(s, i + 1, Seq::empty())
    } else {
        dot_parts(s, i + 1, cur.push(s[i]))
    }
}

pub open spec fn split_dots(s: Seq<char>) -> Seq<Seq<char>> {
    dot_parts(s, 0, Seq::empty())
}

/// The pieces of `s` between dots.
fn split_on_dots(s: &Vec<char>) -> (r: Vec<Vec<char>>)
    ensures
        r@.len() == split_dots(s@).len(),
        forall|i: int| 0 <= i < r@.len() ==> #[trigger] r@[i]@ == split_dots(s@)[i],
{
    let mut parts: Vec<Vec<char>> = Vec::new();
    let mut cur: Vec<char> = Vec::new();
    let mut i: usize = 0;
    let ghost pv: Seq<Seq<char>> = Seq::empty();
    while i < s.len()
        invariant
            i <= s@.len(),
            pv.len() == parts@.len(),
            forall|k: int| 0 <= k < parts@.len() ==> #[trigger] parts@[k]@ == pv[k],
            pv + dot_parts(s@, i as int, cur@) == split_dots(s@),
        decreases s@.len() - i,
    {
        if s[i] == '.' {
            let ghost c = cur@;
            parts.push(cur);
            cur = Vec::new();
            proof {
                assert(pv.push(c) + dot_parts(s@, i + 1, Seq::empty()) =~= pv + (seq![c] + dot_parts(s@, i + 1, Seq::empty())));
                pv = pv.push(c);
            }
        } else {
            cur.push(s[i]);
        }
        i += 1;
    }
    let ghost c = cur@;
    parts.push(cur);
    proof {
        assert(pv.push(c) =~= pv + seq![c]);
        pv = pv.push(c);
    }
    parts
}

/// Two-digit years above 84 are in the 1900s, the others in the 2000s.
pub open spec fn full_year(yy: int) -> int {
    if yy > 84 {
        1900 + yy
    } else {
        2000 + yy
    }
}

/// The date `dd.mm.yy` and time `hh.mm.ss` fields are readable.
pub open spec fn datetime_ok(date: Seq<char>, time: Seq<char>) -> bool {
    let dp = split_dots(date);
    let tp = split_dots(time);
    &&& dp.len() == 3 && tp.len() == 3
    &&& calendar_date(full_year(atoi_value(dp[2])), atoi_value(dp[1]), atoi_value(dp[0]))
    &&& 0 <= atoi_value(tp[0]) < 24 && 0 <= atoi_value(tp[1]) < 60 && 0 <= atoi_value(tp[2]) < 60
}

/// Reads the start date (`dd.mm.yy`) and time (`hh.mm.ss`) fields.
pub fn parse_datetime(date_str: &str, time_str: &str) -> (r: Result<(StartDate, StartTime), EdfError>)
    ensures
        r is Ok <==> datetime_ok(date_str@, time_str@),
        r is Err ==> r->Err_0 is FormatError,
        r is Ok ==> ({
            let dp = split_dots(date_str@);
            let tp = split_dots(time_str@);
            let (d, t) = r->Ok_0;
            d.year == full_year(atoi_value(dp[2])) && d.month == atoi_value(dp[1]) && d.day
                == atoi_value(dp[0]) && t.hour == atoi_value(tp[0]) && t.minute == atoi_value(tp[1])
                && t.second == atoi_value(tp[2])
        }),
{
    let dc = chars_of(date_str);
    let dp = split_on_dots(&dc);
    if dp.len() != 3 {
        return Err(EdfError::FormatError);
    }
    let day = int_of_chars(&dp[0]);
    let month = int_of_chars(&dp[1]);
    let yy = int_of_chars(&dp[2]);
    let year: i64 = if yy > 84 {
        1900 + yy as i64
    } else {
        2000 + yy as i64
    };
    if year < -262143 || year > 262142 || month < 1 || day < 1 {
        return Err(EdfError::FormatError);
    }
    if !date_exists(year as i32, month as u32, day as u32) {
        return Err(EdfError::FormatError);
    }
    let tc = chars_of(time_str);
    let tp = split_on_dots(&tc);
    if tp.len() != 3 {
        return Err(EdfError::FormatError);
    }
    let hour = int_of_chars(&tp[0]);
    let minute = int_of_chars(&tp[1]);
    let second = int_of_chars(&tp[2]);
    if hour < 0 || minute < 0 || second < 0 {
        return Err(EdfError::FormatError);
    }
    if !time_exists(hour as u32, minute as u32, second as u32) {
        return Err(EdfError::FormatError);
    }
    Ok(
        (
            StartDate { year: year as i32, month: month as u32, day: day as u32 },
            StartTime { hour: hour as u32, minute: minute as u32, second: second as u32 },
        ),
    )
}

/// The words of `s[i..]` (runs without whitespace), `cur` being the word under way.
pub open spec fn words_from(s: Seq<char>, i: int, cur: Seq<char>) -> Seq<Seq<char>>
    decreases s.len() - i,
    when 0 <= i
{
    if i >= s.len() {
        if cur.len() > 0 {
            seq![cur]
        } else {
            Seq::empty()
        }
    } else if is_ws(s[i]) {
        (if cur.len() > 0 {
            seq![cur]
        } else {
            Seq::empty()
        }) + words_from(s, i + 1, Seq::empty())
    } else {
        words_from(s, i + 1, cur.push(s[i]))
    }
}

/// What `str::split_whitespace` yields.
pub open spec fn words(s: Seq<char>) -> Seq<Seq<char>> {
    words_from(s, 0, Seq::empty())
}

/// Words `w[k..]` joined by single spaces.
pub open spec fn joined(w: Seq<Seq<char>>, k: int) -> Seq<char>
    decreases w.len() - k,
    when 0 <= k
{
    if k >= w.len() {
        Seq::empty()
    } else if k == w.len() - 1 {
        w[k]
    } else {
        w[k] + seq![' '] + joined(w, k + 1)
    }
}

/// Word `k` of `w`, or nothing.
pub open spec fn word_or_empty(w: Seq<Seq<char>>, k: int) -> Seq<char> {
    if 0 <= k < w.len() {
        w[k]
    } else {
        Seq::empty()
    }
}

/// Characters `p.0` to `p.1` of `s` are the word `w`.
pub open spec fn word_span(s: Seq<char>, p: (usize, usize), w: Seq<char>) -> bool {
    p.0 <= p.1 <= s.len() && s.subrange(p.0 as int, p.1 as int) == w
}

/// The words of `s`, as character ranges.
fn word_ranges(s: &Vec<char>) -> (r: Vec<(usize, usize)>)
    ensures
        r@.len() == words(s@).len(),
        forall|k: int|
            0 <= k < r@.len() ==> word_span(s@, #[trigger] r@[k], words(s@)[k]),
{
    let mut out: Vec<(usize, usize)> = Vec::new();
    let ghost wv: Seq<Seq<char>> = Seq::empty();
    let mut start: usize = 0;
    let mut i: usize = 0;
    assert(s@.subrange(0, 0) =~= Seq::<char>::empty());
    assert(Seq::<Seq<char>>::empty() + words(s@) =~= words(s@));
    while i < s.len()
        invariant
            start <= i <= s@.len(),
            wv.len() == out@.len(),
            forall|k: int|
                0 <= k < out@.len() ==> word_span(s@, #[trigger] out@[k], wv[k]),
            wv + words_from(s@, i as int, s@.subrange(start as int, i as int)) == words(s@),
        decreases s@.len() - i,
    {
        if is_whitespace(s[i]) {
            let ghost c = s@.subrange(start as int, i as int);
            if start < i {
                out.push((start, i));
                proof {
                    assert(wv.push(c) + words_from(s@, i + 1, Seq::empty()) =~= wv + (seq![c]
                        + words_from(s@, i + 1, Seq::empty())));
                    wv = wv.push(c);
                }
            } else {
                assert(wv + words_from(s@, i + 1, Seq::empty()) =~= wv + (Seq::<Seq<char>>::empty()
                    + words_from(s@, i + 1, Seq::empty())));
            }
            start = i + 1;
            assert(s@.subrange(start as int, i + 1) =~= Seq::<char>::empty());
        } else {
            assert(s@.subrange(start as int, i as int).push(s@[i as int]) =~= s@.subrange(
                start as int,
                i + 1,
            ));
        }
        i += 1;
    }
    let ghost c = s@.subrange(start as int, i as int);
    if start < i {
        let ghost before = out@;
        out.push((start, i));
        proof {
            assert(wv.push(c) =~= wv + seq![c]);
            assert forall|k: int| 0 <= k < out@.len() implies word_span(s@, #[trigger] out@[k], wv.push(c)[k]) by {
                if k < before.len() {
                    assert(out@[k] == before[k]);
                }
            }
            wv = wv.push(c);
        }
    } else {
        assert(wv + Seq::<Seq<char>>::empty() =~= wv);
    }
    assert(wv == words(s@));
    assert forall|k: int| 0 <= k < out@.len() implies word_span(s@, #[trigger] out@[k], words(s@)[k]) by {
        assert(wv[k] == words(s@)[k]);
    }
    assert(out@.len() == words(s@).len());
    out
}

/// The words of `s` from the `k`-th on, joined by single spaces.
fn join_words_from(s: &str, v: &Vec<char>, w: &Vec<(usize, usize)>, k: usize) -> (r: String)
    requires
        v@ == s@,
        w@.len() == words(s@).len(),
        forall|j: int|
            0 <= j < w@.len() ==> word_span(s@, #[trigger] w@[j], words(s@)[j]),
    ensures
        r@ == joined(words(s@), k as int),
{
    let ghost ws = words(s@);
    let mut r = String::new();
    if k >= w.len() {
        return r;
    }
    let n = w.len();
    let mut j: usize = n;
    // build from the back: r == joined(ws, j)
    let (a, b) = w[n - 1];
    r = String::from_str(s.substring_char(a, b));
    j = n - 1;
    assert(r@ == joined(ws, j as int));
    while j > k
        invariant
            k <= j <= n - 1,
            n == ws.len(),
            w@.len() == n,
            forall|q: int|
                0 <= q < w@.len() ==> word_span(s@, #[trigger] w@[q], ws[q]),
            r@ == joined(ws, j as int),
        decreases j,
    {
        let (a, b) = w[j - 1];
        let mut t = String::from_str(s.substring_char(a, b));
        let sp = " ";
        proof {
            reveal_strlit(" ");
        }
        let ghost wj = t@;
        let ghost rest = r@;
        assert(wj == ws[j - 1]);
        t.append(sp);
        t.append(r.as_str());
        r = t;
        j -= 1;
        assert(r@ =~= wj + seq![' '] + rest);
        assert(r@ =~= joined(ws, j as int));
    }
    r
}

/// The word at `k` of `s`, or an empty string.
fn word_at(s: &str, w: &Vec<(usize, usize)>, k: usize) -> (r: String)
    requires
        w@.len() == words(s@).len(),
        forall|j: int|
            0 <= j < w@.len() ==> word_span(s@, #[trigger] w@[j], words(s@)[j]),
    ensures
        r@ == word_or_empty(words(s@), k as int),
{
    if k < w.len() {
        let (a, b) = w[k];
        String::from_str(s.substring_char(a, b))
    } else {
        String::new()
    }
}

/// Splits the patient field into code, sex, birth date, name and the rest.
pub fn parse_edfplus_patient(patient_field: &str) -> (r: (String, String, String, String, String))
    ensures
        r.0@ == word_or_empty(words(patient_field@), 0),
        r.1@ == word_or_empty(words(patient_field@), 1),
        r.2@ == word_or_empty(words(patient_field@), 2),
        r.3@ == word_or_empty(words(patient_field@), 3),
        r.4@ == joined(words(patient_field@), 4),
{
    let v = chars_of(patient_field);
    let w = word_ranges(&v);
    assert(forall|j: int|
        0 <= j < w@.len() ==> word_span(patient_field@, #[trigger] w@[j], words(patient_field@)[j]));
    (
        word_at(patient_field, &w, 0),
        word_at(patient_field, &w, 1),
        word_at(patient_field, &w, 2),
        word_at(patient_field, &w, 3),
        join_words_from(patient_field, &v, &w, 4),
    )
}

/// Splits the recording field (after its start date) into administration code, technician,
/// equipment and the rest.
pub fn parse_edfplus_recording(recording_field: &str) -> (r: (String, String, String, String))
    ensures
        r.0@ == word_or_empty(words(recording_field@), 1),
        r.1@ == word_or_empty(words(recording_field@), 2),
        r.2@ == word_or_empty(words(recording_field@), 3),
        r.3@ == joined(words(recording_field@), 4),
{
    let v = chars_of(recording_field);
    let w = word_ranges(&v);
    assert(forall|j: int|
        0 <= j < w@.len() ==> word_span(recording_field@, #[trigger] w@[j], words(recording_field@)[j]));
    (
        word_at(recording_field, &w, 1),
        word_at(recording_field, &w, 2),
        word_at(recording_field, &w, 3),
        join_words_from(recording_field, &v, &w, 4),
    )
}


/// The text of a header field: its bytes decoded, surrounding whitespace removed.
pub open spec fn field_text(b: Seq<u8>, a: int, len: int) -> Seq<char> {
    trimmed(decoded_text(b.subrange(a, a + len)))
}

/// The integer a header field holds.
pub open spec fn field_int(b: Seq<u8>, a: int, len: int) -> int {
    atoi_value(decoded_text(b.subrange(a, a + len)))
}

/// The decimal a header field holds, in units of 10^-7.
pub open spec fn field_fixed(b: Seq<u8>, a: int, len: int) -> int {
    fixed_value(decoded_text(b.subrange(a, a + len)))
}

fn read_str(b: &[u8], a: usize, len: usize) -> (r: String)
    requires
        a + len <= b@.len(),
    ensures
        r@ == field_text(b@, a as int, len as int),
{
    assert(a + len <= b.len());
    let t = text_from_bytes(slice_subrange(b, a, a + len));
    trim_string(t.as_str())
}

fn read_int(b: &[u8], a: usize, len: usize) -> (r: i32)
    requires
        a + len <= b@.len(),
    ensures
        r == field_int(b@, a as int, len as int),
{
    assert(a + len <= b.len());
    let t = text_from_bytes(slice_subrange(b, a, a + len));
    atoi_nonlocalized(t.as_str())
}

fn read_fixed(b: &[u8], a: usize, len: usize) -> (r: i64)
    requires
        a + len <= b@.len(),
    ensures
        r == field_fixed(b@, a as int, len as int),
{
    assert(a + len <= b.len());
    let t = text_from_bytes(slice_subrange(b, a, a + len));
    fixed_nonlocalized(t.as_str())
}

/// Samples per record of entry `i` of an `n`-entry signal block.
pub open spec fn e_spr(b: Seq<u8>, n: int, i: int) -> int {
    field_int(b, n * 216 + i * 8, 8)
}

pub open spec fn e_annot(b: Seq<u8>, i: int) -> bool {
    b.subrange(i * 16, i * 16 + 16) == annotation_label()
}

pub open spec fn e_pmin(b: Seq<u8>, n: int, i: int) -> int {
    field_fixed(b, n * 104 + i * 8, 8)
}

pub open spec fn e_pmax(b: Seq<u8>, n: int, i: int) -> int {
    field_fixed(b, n * 112 + i * 8, 8)
}

pub open spec fn e_dmin(b: Seq<u8>, n: int, i: int) -> int {
    field_int(b, n * 120 + i * 8, 8)
}

pub open spec fn e_dmax(b: Seq<u8>, n: int, i: int) -> int {
    field_int(b, n * 128 + i * 8, 8)
}

/// Entry `i` describes a usable signal or annotation channel.
pub open spec fn entry_ok(b: Seq<u8>, n: int, i: int) -> bool {
    &&& e_annot(b, i) || (e_pmin(b, n, i) != e_pmax(b, n, i) && e_dmin(b, n, i) != e_dmax(b, n, i))
    &&& 1 <= e_spr(b, n, i) <= 99_999_999
}

/// The error that a defective entry `i` gives.
pub open spec fn entry_error(b: Seq<u8>, n: int, i: int, e: EdfError) -> bool {
    if !e_annot(b, i) && e_pmin(b, n, i) == e_pmax(b, n, i) {
        e == EdfError::PhysicalMinEqualsMax
    } else if !e_annot(b, i) && e_dmin(b, n, i) == e_dmax(b, n, i) {
        e == EdfError::DigitalMinEqualsMax
    } else {
        e is InvalidFormat
    }
}

/// Where entry `i`'s samples start in a record, in bytes.
pub open spec fn e_offset(b: Seq<u8>, n: int, i: int) -> int
    decreases i,
{
    if i <= 0 {
        0
    } else {
        e_offset(b, n, i - 1) + 2 * e_spr(b, n, i - 1)
    }
}

/// The entries among the first `i` that are ordinary signals.
pub open spec fn user_entries(b: Seq<u8>, i: int) -> Seq<int>
    decreases i,
{
    if i <= 0 {
        Seq::empty()
    } else if e_annot(b, i - 1) {
        user_entries(b, i - 1)
    } else {
        user_entries(b, i - 1).push(i - 1)
    }
}

/// Signal `s` is entry `i` of the block, in a file of `records` records.
pub open spec fn signal_from_entry(s: SignalParam, b: Seq<u8>, n: int, i: int, records: int) -> bool {
    &&& s.label@ == field_text(b, i * 16, 16)
    &&& s.transducer@ == field_text(b, n * 16 + i * 80, 80)
    &&& s.physical_dimension@ == field_text(b, n * 96 + i * 8, 8)
    &&& s.physical_min == e_pmin(b, n, i)
    &&& s.physical_max == e_pmax(b, n, i)
    &&& s.digital_min == e_dmin(b, n, i)
    &&& s.digital_max == e_dmax(b, n, i)
    &&& s.prefilter@ == field_text(b, n * 136 + i * 80, 80)
    &&& s.samples_per_record == e_spr(b, n, i)
    &&& s.samples_in_file == e_spr(b, n, i) * records
}

fn is_annotation_label(b: &[u8], a: usize) -> (r: bool)
    requires
        a + 16 <= b@.len(),
    ensures
        r == (b@.subrange(a as int, a + 16) == annotation_label()),
{
    let l = [69u8, 68, 70, 32, 65, 110, 110, 111, 116, 97, 116, 105, 111, 110, 115, 32];
    let bl = b.len();
    let mut k: usize = 0;
    while k < 16
        invariant
            k <= 16,
            a + 16 <= b@.len() == bl,
            l@ == annotation_label(),
            b@.subrange(a as int, a + k) == l@.subrange(0, k as int),
        decreases 16 - k,
    {
        if b[a + k] != l[k] {
            assert(b@.subrange(a as int, a + 16)[k as int] != annotation_label()[k as int]);
            return false;
        }
        k += 1;
        assert(b@.subrange(a as int, a + k) =~= l@.subrange(0, k as int));
    }
    assert(l@.subrange(0, 16) =~= l@);
    true
}

/// Decodes the signal block (`n` entries of 256 bytes, field by field). Returns the ordinary
/// signals, where every entry lies in a record, and the size of a record in bytes.
pub fn parse_signals(signal_header: &[u8], total_signal_count: usize, datarecords: i64) -> (r:
    Result<(Vec<SignalParam>, Vec<SignalInfo>, u64), EdfError>)
    requires
        1 <= total_signal_count <= 4096,
        signal_header@.len() == total_signal_count * 256,
        -100_000_000 < datarecords < 100_000_000,
    ensures
        ({
            let b = signal_header@;
            let n = total_signal_count as int;
            &&& r is Ok <==> forall|i: int| 0 <= i < n ==> entry_ok(b, n, i)
            &&& r is Err ==> exists|i: int|
                0 <= i < n && !entry_ok(b, n, i) && (forall|j: int| 0 <= j < i ==> entry_ok(b, n, j))
                    && entry_error(b, n, i, r->Err_0)
            &&& r is Ok ==> {
                let (sigs, info, size) = r->Ok_0;
                &&& info@.len() == n
                &&& forall|i: int|
                    0 <= i < n ==> #[trigger] info@[i] == (SignalInfo {
                        buffer_offset: e_offset(b, n, i) as u64,
                        samples_per_record: e_spr(b, n, i) as i32,
                        is_annotation: e_annot(b, i),
                    })
                &&& forall|i: int| 0 <= i < n ==> 0 <= #[trigger] e_offset(b, n, i)
                &&& size == e_offset(b, n, n)
                &&& sigs@.len() == user_entries(b, n).len()
                &&& forall|k: int|
                    0 <= k < sigs@.len() ==> signal_from_entry(
                        #[trigger] sigs@[k],
                        b,
                        n,
                        user_entries(b, n)[k],
                        datarecords as int,
                    )
            }
        }),
{
    let ghost b = signal_header@;
    let n = total_signal_count;
    let mut signals: Vec<SignalParam> = Vec::new();
    let mut info: Vec<SignalInfo> = Vec::new();
    let mut offset: u64 = 0;
    let mut i: usize = 0;
    while i < n
        invariant
            i <= n == total_signal_count <= 4096,
            b == signal_header@,
            b.len() == n * 256,
            -100_000_000 < datarecords < 100_000_000,
            forall|j: int| 0 <= j < i ==> entry_ok(b, n as int, j),
            offset == e_offset(b, n as int, i as int),
            offset <= i * 200_000_000,
            info@.len() == i,
            forall|j: int|
                0 <= j < i ==> #[trigger] info@[j] == (SignalInfo {
                    buffer_offset: e_offset(b, n as int, j) as u64,
                    samples_per_record: e_spr(b, n as int, j) as i32,
                    is_annotation: e_annot(b, j),
                }),
            forall|j: int| 0 <= j <= i ==> 0 <= #[trigger] e_offset(b, n as int, j),
            signals@.len() == user_entries(b, i as int).len(),
            forall|k: int|
                0 <= k < signals@.len() ==> signal_from_entry(
                    #[trigger] signals@[k],
                    b,
                    n as int,
                    user_entries(b, i as int)[k],
                    datarecords as int,
                ),
        decreases n - i,
    {
        assert(n * 216 + i * 8 + 8 <= n * 256) by (nonlinear_arith)
            requires
                i < n,
        ;
        assert(n * 136 + i * 80 + 80 <= n * 216) by (nonlinear_arith)
            requires
                i < n,
        ;
        assert(i * 16 + 16 <= n * 16) by (nonlinear_arith)
            requires
                i < n,
        ;
        assert(n * 16 + i * 80 + 80 <= n * 96) by (nonlinear_arith)
            requires
                i < n,
        ;
        let is_annotation = is_annotation_label(signal_header, i * 16);
        let physical_min = read_fixed(signal_header, n * 104 + i * 8, 8);
        let physical_max = read_fixed(signal_header, n * 112 + i * 8, 8);
        let digital_min = read_int(signal_header, n * 120 + i * 8, 8);
        let digital_max = read_int(signal_header, n * 128 + i * 8, 8);
        let samples_per_record = read_int(signal_header, n * 216 + i * 8, 8);
        if !is_annotation {
            if physical_min == physical_max {
                assert(!entry_ok(b, n as int, i as int));
                assert(entry_error(b, n as int, i as int, EdfError::PhysicalMinEqualsMax));
                return Err(EdfError::PhysicalMinEqualsMax);
            }
            if digital_min == digital_max {
                assert(!entry_ok(b, n as int, i as int));
                assert(entry_error(b, n as int, i as int, EdfError::DigitalMinEqualsMax));
                return Err(EdfError::DigitalMinEqualsMax);
            }
        }
        if samples_per_record < 1 || samples_per_record > 99_999_999 {
            assert(!entry_ok(b, n as int, i as int));
            return Err(EdfError::InvalidFormat(String::from_str("Invalid samples per record")));
        }
        info.push(SignalInfo { buffer_offset: offset, samples_per_record, is_annotation });
        if !is_annotation {
            let label = read_str(signal_header, i * 16, 16);
            let transducer = read_str(signal_header, n * 16 + i * 80, 80);
            let physical_dimension = read_str(signal_header, n * 96 + i * 8, 8);
            let prefilter = read_str(signal_header, n * 136 + i * 80, 80);
            let sig = SignalParam {
                label,
                samples_in_file: {
                    assert(-10_000_000_000_000_000 < samples_per_record * datarecords
                        < 10_000_000_000_000_000) by (nonlinear_arith)
                        requires
                            1 <= samples_per_record <= 99_999_999,
                            -100_000_000 < datarecords < 100_000_000,
                    ;
                    samples_per_record as i64 * datarecords
                },
                physical_max,
                physical_min,
                digital_max,
                digital_min,
                samples_per_record,
                physical_dimension,
                prefilter,
                transducer,
            };
            signals.push(sig);
        }
        offset = offset + samples_per_record as u64 * 2;
        i += 1;
    }
    Ok((signals, info, offset))
}


pub open spec fn is_ws_byte(x: u8) -> bool {
    (9 <= x <= 13) || x == 32
}

/// The version field starts, after blanks, with `0`.
pub open spec fn version_ok(m: Seq<u8>) -> bool {
    exists|k: int| 0 <= k < 8 && m[k] == 48u8 && forall|j: int| 0 <= j < k ==> is_ws_byte(#[trigger] m[j])
}

/// The reserved field marks a continuous EDF+ file.
pub open spec fn edfplus_mark(m: Seq<u8>) -> bool {
    m.subrange(192, 197) == seq![69u8, 68, 70, 43, 67]
}

pub open spec fn signal_count_of(m: Seq<u8>) -> int {
    field_int(m, 252, 4)
}

fn version_check(m: &[u8]) -> (r: bool)
    requires
        m@.len() == 256,
    ensures
        r == version_ok(m@),
{
    let mut k: usize = 0;
    while k < 8
        invariant
            k <= 8,
            m@.len() == 256,
            forall|j: int| 0 <= j < k ==> is_ws_byte(#[trigger] m@[j]),
        decreases 8 - k,
    {
        let x = m[k];
        if x == 48u8 {
            return true;
        }
        if !((9 <= x && x <= 13) || x == 32) {
            assert forall|q: int| 0 <= q < 8 && m@[q] == 48u8 implies !(forall|j: int|
                0 <= j < q ==> is_ws_byte(#[trigger] m@[j])) by {
                assert(q > k);
                assert(!is_ws_byte(m@[k as int]));
            }
            return false;
        }
        k += 1;
    }
    assert forall|q: int| 0 <= q < 8 implies m@[q] != 48u8 by {
        assert(is_ws_byte(m@[q]));
    }
    false
}

fn edfplus_check(m: &[u8]) -> (r: bool)
    requires
        m@.len() == 256,
    ensures
        r == edfplus_mark(m@),
{
    let r = m[192] == 69u8 && m[193] == 68u8 && m[194] == 70u8 && m[195] == 43u8 && m[196] == 67u8;
    assert(r == edfplus_mark(m@)) by {
        let t = m@.subrange(192, 197);
        if r {
            assert(t =~= seq![69u8, 68, 70, 43, 67]);
        } else {
            assert(t[0] == m@[192] && t[1] == m@[193] && t[2] == m@[194] && t[3] == m@[195] && t[4]
                == m@[196]);
        }
    }
    r
}

/// Longest record duration a header may give, in ticks (eight digits of seconds).
pub const MAX_HEADER_DURATION: i64 = 1_000_000_000_000_000;

/// The date, record count and duration fields can be read, and the signal block has one
/// entry per signal: the checks that follow the four on the main header's structure.
pub open spec fn header_fields_ok(m: Seq<u8>, b: Seq<u8>) -> bool {
    let n = signal_count_of(m);
    let records = field_int(m, 236, 8);
    let dur = edf_time_value(decoded_text(m.subrange(244, 252)));
    &&& version_ok(m)
    &&& 1 <= n <= 4096
    &&& field_int(m, 184, 8) == (n + 1) * 256
    &&& edfplus_mark(m)
    &&& b.len() == n * 256
    &&& datetime_ok(decoded_text(m.subrange(168, 176)), decoded_text(m.subrange(176, 184)))
    &&& -100_000_000 < records < 100_000_000
    &&& edf_time_ok(decoded_text(m.subrange(244, 252)))
    &&& 0 <= dur <= MAX_HEADER_DURATION
}

/// A main header and signal block that `parse_header` accepts: every check passes, and the
/// file's size and duration fit in `i64`.
pub open spec fn header_ok(m: Seq<u8>, b: Seq<u8>) -> bool {
    let n = signal_count_of(m);
    let records = field_int(m, 236, 8);
    let dur = edf_time_value(decoded_text(m.subrange(244, 252)));
    &&& header_fields_ok(m, b)
    &&& forall|i: int| 0 <= i < n ==> entry_ok(b, n, i)
    &&& records > 0 ==> e_offset(b, n, n) <= (i64::MAX - (n + 1) * 256) / records
    &&& i64::MIN <= dur * records <= i64::MAX
}

/// Decodes the main header (256 bytes) and the signal block that follows it. The version,
/// the signal count (1 to 4096), the header size and the EDF+ mark are checked in that order,
/// each with its own error; then the start date and time, the record count and duration,
/// and every signal entry.
pub fn parse_header(main: &[u8], block: &[u8]) -> (r: Result<(EdfHeader, Vec<SignalInfo>, u64), EdfError>)
    requires
        main@.len() == 256,
    ensures
        r is Ok <==> header_ok(main@, block@),
        header_fields_ok(main@, block@) && !(forall|i: int|
            0 <= i < signal_count_of(main@) ==> entry_ok(block@, signal_count_of(main@), i))
            ==> r is Err && exists|i: int|
            0 <= i < signal_count_of(main@) && !entry_ok(block@, signal_count_of(main@), i) && (
            forall|j: int| 0 <= j < i ==> entry_ok(block@, signal_count_of(main@), j))
                && entry_error(block@, signal_count_of(main@), i, r->Err_0),
        ({
            let m = main@;
            let n = signal_count_of(m);
            &&& !version_ok(m) ==> r is Err && r->Err_0 is UnsupportedFileType
            &&& version_ok(m) && !(1 <= n <= 4096) ==> r == Err::<(EdfHeader, Vec<SignalInfo>, u64), EdfError>(EdfError::InvalidSignalCount(n as i32))
            &&& version_ok(m) && 1 <= n <= 4096 && field_int(m, 184, 8) != (n + 1) * 256 ==> r == Err::<(EdfHeader, Vec<SignalInfo>, u64), EdfError>(EdfError::InvalidHeader)
            &&& version_ok(m) && 1 <= n <= 4096 && field_int(m, 184, 8) == (n + 1) * 256 && !edfplus_mark(m) ==> r is Err && r->Err_0 is UnsupportedFileType
            &&& r is Ok ==> {
                let (h, info, size) = r->Ok_0;
                let b = block@;
                let records = field_int(m, 236, 8);
                let dur = edf_time_value(decoded_text(m.subrange(244, 252)));
                &&& version_ok(m) && 1 <= n <= 4096 && field_int(m, 184, 8) == (n + 1) * 256 && edfplus_mark(m)
                &&& b.len() == n * 256
                &&& datetime_ok(decoded_text(m.subrange(168, 176)), decoded_text(m.subrange(176, 184)))
                &&& ({
                    let dp = split_dots(decoded_text(m.subrange(168, 176)));
                    let tp = split_dots(decoded_text(m.subrange(176, 184)));
                    &&& h.start_date.year == full_year(atoi_value(dp[2]))
                    &&& h.start_date.month == atoi_value(dp[1])
                    &&& h.start_date.day == atoi_value(dp[0])
                    &&& h.start_time.hour == atoi_value(tp[0])
                    &&& h.start_time.minute == atoi_value(tp[1])
                    &&& h.start_time.second == atoi_value(tp[2])
                })
                &&& edf_time_ok(decoded_text(m.subrange(244, 252)))
                &&& 0 <= dur <= MAX_HEADER_DURATION
                &&& -100_000_000 < records < 100_000_000
                &&& h.file_type == FileType::EdfPlus
                &&& h.datarecords_in_file == records
                &&& h.datarecord_duration == dur
                &&& h.file_duration == dur * records
                &&& h.starttime_subsecond == 0
                &&& h.annotations_in_file == 0
                &&& forall|i: int| 0 <= i < n ==> entry_ok(b, n, i)
                &&& info@.len() == n
                &&& forall|i: int|
                    0 <= i < n ==> #[trigger] info@[i] == (SignalInfo {
                        buffer_offset: e_offset(b, n, i) as u64,
                        samples_per_record: e_spr(b, n, i) as i32,
                        is_annotation: e_annot(b, i),
                    })
                &&& size == e_offset(b, n, n)
                &&& h.signals@.len() == user_entries(b, n).len()
                &&& forall|k: int|
                    0 <= k < h.signals@.len() ==> signal_from_entry(
                        #[trigger] h.signals@[k],
                        b,
                        n,
                        user_entries(b, n)[k],
                        records,
                    )
                &&& ({
                    let pw = words(field_text(m, 8, 80));
                    &&& h.patient_code@ == word_or_empty(pw, 0)
                    &&& h.sex@ == word_or_empty(pw, 1)
                    &&& h.birthdate@ == word_or_empty(pw, 2)
                    &&& h.patient_name@ == word_or_empty(pw, 3)
                    &&& h.patient_additional@ == joined(pw, 4)
                })
                &&& ({
                    let rw = words(field_text(m, 88, 80));
                    &&& h.admin_code@ == word_or_empty(rw, 1)
                    &&& h.technician@ == word_or_empty(rw, 2)
                    &&& h.equipment@ == word_or_empty(rw, 3)
                    &&& h.recording_additional@ == joined(rw, 4)
                })
                &&& records > 0 ==> (n + 1) * 256 + size * records <= i64::MAX
            }
        }),
{
    if !version_check(main) {
        return Err(EdfError::UnsupportedFileType(String::from_str("Not an EDF file")));
    }
    let total_signal_count = read_int(main, 252, 4);
    if total_signal_count < 1 || total_signal_count > 4096 {
        return Err(EdfError::InvalidSignalCount(total_signal_count));
    }
    let expected_header_size = (total_signal_count + 1) * 256;
    if read_int(main, 184, 8) != expected_header_size {
        return Err(EdfError::InvalidHeader);
    }
    if !edfplus_check(main) {
        return Err(EdfError::UnsupportedFileType(String::from_str("Only EDF+ files are supported")));
    }
    let n = total_signal_count as usize;
    if block.len() != n * 256 {
        return Err(EdfError::Io(String::from_str("Signal block is incomplete")));
    }
    let date_t = text_from_bytes(slice_subrange(main, 168, 176));
    let time_t = text_from_bytes(slice_subrange(main, 176, 184));
    let (start_date, start_time) = match parse_datetime(date_t.as_str(), time_t.as_str()) {
        Ok(v) => v,
        Err(e) => {
            return Err(e);
        },
    };
    let records = read_int(main, 236, 8);
    if records <= -100_000_000 || records >= 100_000_000 {
        return Err(EdfError::InvalidFormat(String::from_str("Invalid number of data records")));
    }
    let dur_t = text_from_bytes(slice_subrange(main, 244, 252));
    let datarecord_duration = match parse_edf_time(dur_t.as_str()) {
        Ok(v) => v,
        Err(e) => {
            return Err(e);
        },
    };
    if datarecord_duration < 0 || datarecord_duration > MAX_HEADER_DURATION {
        return Err(EdfError::InvalidFormat(String::from_str("Invalid data record duration")));
    }
    let (signals, info, size) = match parse_signals(block, n, records as i64) {
        Ok(v) => v,
        Err(e) => {
            return Err(e);
        },
    };
    let header_size = expected_header_size as u64;
    if records > 0 && size > (i64::MAX as u64 - header_size) / records as u64 {
        return Err(EdfError::InvalidFormat(String::from_str("File too large")));
    }
    proof {
        if records > 0 {
            let rc = records as int;
            let hs = header_size as int;
            let sz = size as int;
            assert(hs + sz * rc <= i64::MAX) by (nonlinear_arith)
                requires
                    rc > 0,
                    sz <= (i64::MAX - hs) / rc,
                    0 <= hs <= i64::MAX,
            ;
        }
    }
    let patient_field = read_str(main, 8, 80);
    let recording_field = read_str(main, 88, 80);
    let (patient_code, sex, birthdate, patient_name, patient_additional) = parse_edfplus_patient(
        patient_field.as_str(),
    );
    let (admin_code, technician, equipment, recording_additional) = parse_edfplus_recording(
        recording_field.as_str(),
    );
    assert(-200_000_000_000_000_000_000_000 < datarecord_duration * records
        < 200_000_000_000_000_000_000_000) by (nonlinear_arith)
        requires
            0 <= datarecord_duration <= MAX_HEADER_DURATION,
            -100_000_000 < records < 100_000_000,
    ;
    let file_duration: i128 = datarecord_duration as i128 * records as i128;
    if file_duration > i64::MAX as i128 || file_duration < i64::MIN as i128 {
        return Err(EdfError::InvalidFormat(String::from_str("File duration out of range")));
    }
    let header = EdfHeader {
        file_type: FileType::EdfPlus,
        signals,
        file_duration: file_duration as i64,
        start_date,
        start_time,
        starttime_subsecond: 0,
        datarecords_in_file: records as i64,
        datarecord_duration,
        annotations_in_file: 0,
        patient_code,
        sex,
        birthdate,
        patient_name,
        patient_additional,
        admin_code,
        technician,
        equipment,
        recording_additional,
    };
    Ok((header, info, size))
}

} // verus!
