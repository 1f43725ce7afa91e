use vstd::prelude::*;

use crate::text::{all_ascii, ascii_chars, chars_of_ascii, lossy_text, text_from_bytes};
use crate::types::{Annotation, AnnotationView};
use crate::utils::{time_chars_ok, time_chars_value, time_from_chars};

verus! {

/// Field terminator of a TAL.
pub const TAL_FIELD_END: u8 = 20;

/// Marks the start of a duration field in a TAL.
pub const TAL_DURATION_START: u8 = 21;

pub open spec fn is_digit_byte(x: u8) -> bool {
    48 <= x <= 57
}

/// `u` is `digits` or `digits.digits`.
pub open spec fn decimal_bytes(u: Seq<u8>) -> bool {
    &&& u.len() > 0
    &&& is_digit_byte(u[0])
    &&& is_digit_byte(u[u.len() - 1])
    &&& forall|i: int| 0 <= i < u.len() ==> is_digit_byte(#[trigger] u[i]) || u[i] == 46u8
    &&& forall|i: int, j: int|
        0 <= i < u.len() && 0 <= j < u.len() && #[trigger] u[i] == 46u8 && #[trigger] u[j] == 46u8
            ==> i == j
}

pub open spec fn sign_bytes(b: Seq<u8>) -> int {
    if b.len() > 0 && (b[0] == 43u8 || b[0] == 45u8) {
        1
    } else {
        0
    }
}

/// An onset token: an optional sign, then a decimal.
pub open spec fn onset_token_ok(b: Seq<u8>) -> bool {
    decimal_bytes(b.subrange(sign_bytes(b), b.len() as int))
}

/// A duration token: a decimal without sign.
pub open spec fn duration_token_ok(b: Seq<u8>) -> bool {
    decimal_bytes(b)
}

/// The state of the TAL decoder between two bytes.
pub struct TalState {
    /// The onset field of the current TAL is closed.
    pub onset: bool,
    /// A duration field is open.
    pub dur_open: bool,
    /// The duration field of the current TAL is closed.
    pub dur_done: bool,
    /// Zero bytes seen in a row.
    pub zeros: nat,
    /// Annotation units closed in the current TAL.
    pub units: nat,
    /// Bytes of the field being read.
    pub buf: Seq<u8>,
    pub onset_txt: Seq<u8>,
    pub dur_txt: Seq<u8>,
    pub stopped: bool,
    pub out: Seq<AnnotationView>,
}

pub open spec fn tal_init() -> TalState {
    TalState {
        onset: false,
        dur_open: false,
        dur_done: false,
        zeros: 0,
        units: 0,
        buf: Seq::empty(),
        onset_txt: Seq::empty(),
        dur_txt: Seq::empty(),
        stopped: false,
        out: Seq::empty(),
    }
}

/// The annotation a closed description yields, if any: one with text whose onset fits.
pub open spec fn unit_annotation(st: TalState) -> Option<AnnotationView> {
    let oc = ascii_chars(st.onset_txt);
    let dc = ascii_chars(st.dur_txt);
    if st.buf.len() > 0 && time_chars_ok(oc) {
        Some(
            AnnotationView {
                onset: time_chars_value(oc) as i64,
                duration: if st.dur_done && time_chars_ok(dc) {
                    time_chars_value(dc) as i64
                } else {
                    -1i64
                },
                description: lossy_text(st.buf),
            },
        )
    } else {
        None
    }
}

/// One byte of the decoder.
pub open spec fn tal_step(d: Seq<u8>, k: int, st: TalState) -> TalState {
    let x = d[k];
    if x == 0 {
        if st.zeros == 0 && k > 0 && d[k - 1] != TAL_FIELD_END {
            TalState { stopped: true, ..st }
        } else if st.zeros == 0 {
            TalState {
                onset: false,
                dur_open: false,
                dur_done: false,
                zeros: 1,
                units: 0,
                buf: Seq::empty(),
                ..st
            }
        } else {
            TalState { zeros: st.zeros + 1, ..st }
        }
    } else if st.zeros > 1 {
        TalState { stopped: true, ..st }
    } else if x == TAL_DURATION_START && (st.dur_done || st.dur_open || st.onset || st.units > 0) {
        TalState { stopped: true, zeros: 0, ..st }
    } else if x == TAL_FIELD_END && st.onset && !st.dur_open {
        let out = match unit_annotation(st) {
            Some(a) => st.out.push(a),
            None => st.out,
        };
        TalState { zeros: 0, units: st.units + 1, buf: Seq::empty(), out, ..st }
    } else if (x == TAL_FIELD_END || x == TAL_DURATION_START) && !st.onset {
        if onset_token_ok(st.buf) {
            TalState {
                zeros: 0,
                onset: true,
                dur_open: x == TAL_DURATION_START,
                onset_txt: st.buf,
                buf: Seq::empty(),
                ..st
            }
        } else {
            TalState { stopped: true, zeros: 0, ..st }
        }
    } else if x == TAL_FIELD_END {
        // closes a duration field
        if duration_token_ok(st.buf) {
            TalState {
                zeros: 0,
                dur_open: false,
                dur_done: true,
                dur_txt: st.buf,
                buf: Seq::empty(),
                ..st
            }
        } else {
            TalState { stopped: true, zeros: 0, ..st }
        }
    } else if x == 43u8 && !st.onset && st.buf.len() == 0 {
        TalState { zeros: 0, ..st }
    } else {
        TalState { zeros: 0, buf: st.buf.push(x), ..st }
    }
}

/// The decoder run from byte `k` on; the last byte is the block's terminator.
pub open spec fn tal_run(d: Seq<u8>, k: int, st: TalState) -> Seq<AnnotationView>
    decreases d.len() - k,
    when 0 <= k
{
    if st.stopped || k >= d.len() - 1 {
        st.out
    } else {
        tal_run(d, k + 1, tal_step(d, k, st))
    }
}

/// The annotations one annotation-channel block holds, in the order written.
pub open spec fn tal_annotations(d: Seq<u8>) -> Seq<AnnotationView> {
    if d.len() == 0 || d[d.len() - 1] != 0 {
        Seq::empty()
    } else {
        tal_run(d, 0, tal_init())
    }
}

pub open spec fn ann_views(v: Seq<Annotation>) -> Seq<AnnotationView> {
    v.map_values(|a: Annotation| a@)
}

/// Whether `b[from..]` is a decimal.
fn decimal_at(b: &Vec<u8>, from: usize) -> (r: bool)
    requires
        from <= b@.len(),
    ensures
        r == decimal_bytes(b@.subrange(from as int, b@.len() as int)),
{
    let n = b.len();
    let ghost u = b@.subrange(from as int, n as int);
    if from == n {
        return false;
    }
    if !(48 <= b[from] && b[from] <= 57 && 48 <= b[n - 1] && b[n - 1] <= 57) {
        return false;
    }
    let mut dot: Option<usize> = None;
    let mut i: usize = from;
    while i < n
        invariant
            from <= i <= n == b@.len(),
            u == b@.subrange(from as int, n as int),
            forall|j: int| 0 <= j < i - from ==> is_digit_byte(#[trigger] u[j]) || u[j] == 46u8,
            dot is None ==> forall|j: int| 0 <= j < i - from ==> #[trigger] u[j] != 46u8,
            dot is Some ==> from <= dot->0 < i && u[dot->0 - from] == 46u8 && forall|j: int|
                0 <= j < i - from && #[trigger] u[j] == 46u8 ==> j == dot->0 - from,
        decreases n - i,
    {
        let c = b[i];
        assert(u[i - from] == c);
        if c == 46u8 {
            if dot.is_some() {
                return false;
            }
            dot = Some(i);
        } else if !(48 <= c && c <= 57) {
            return false;
        }
        i += 1;
    }
    true
}

fn onset_token_valid(b: &Vec<u8>) -> (r: bool)
    ensures
        r == onset_token_ok(b@),
{
    let from: usize = if b.len() > 0 && (b[0] == 43u8 || b[0] == 45u8) {
        1
    } else {
        0
    };
    decimal_at(b, from)
}

proof fn lemma_token_ascii(b: Seq<u8>)
    requires
        onset_token_ok(b) || duration_token_ok(b),
    ensures
        all_ascii(b),
{
    let s = sign_bytes(b);
    if onset_token_ok(b) {
        let u = b.subrange(s, b.len() as int);
        assert forall|i: int| 0 <= i < b.len() implies #[trigger] b[i] < 128 by {
            if i >= s {
                assert(u[i - s] == b[i]);
            }
        }
    }
}

/// The time a validated token spells, when it fits in ticks.
fn token_ticks(b: &Vec<u8>) -> (r: Option<i64>)
    requires
        onset_token_ok(b@) || duration_token_ok(b@),
    ensures
        r is Some <==> time_chars_ok(ascii_chars(b@)),
        r is Some ==> r->0 == time_chars_value(ascii_chars(b@)),
{
    proof {
        lemma_token_ascii(b@);
    }
    let c = chars_of_ascii(b.as_slice());
    match time_from_chars(&c) {
        Ok(v) => Some(v),
        Err(_) => None,
    }
}

/// A byte on which the decoder stops ends the run with what was found so far.
proof fn lemma_run_stops(d: Seq<u8>, k: int, st: TalState)
    requires
        0 <= k < d.len() - 1,
        !st.stopped,
        tal_step(d, k, st).stopped,
        tal_step(d, k, st).out == st.out,
    ensures
        tal_run(d, k, st) == st.out,
{
    assert(tal_run(d, k + 1, tal_step(d, k, st)) == st.out);
}

/// Decodes one annotation-channel block (a run of TALs, zero-padded) into the annotations it
/// holds, in the order written. A block whose last byte is not zero yields none; a defect
/// stops decoding and keeps what was found before it.
pub fn parse_tal_data(data: &[u8]) -> (r: Vec<Annotation>)
    ensures
        ann_views(r@) == tal_annotations(data@),
        forall|i: int| 0 <= i < r@.len() ==> (#[trigger] r@[i]).description@.len() > 0,
{
    let mut out: Vec<Annotation> = Vec::new();
    let max = data.len();
    if max == 0 || data[max - 1] != 0 {
        assert(ann_views(out@) =~= Seq::<AnnotationView>::empty());
        return out;
    }
    let ghost d = data@;
    let mut onset = false;
    let mut dur_open = false;
    let mut dur_done = false;
    let mut zeros: u64 = 0;
    let mut units: u64 = 0;
    let mut buf: Vec<u8> = Vec::new();
    let mut onset_txt: Vec<u8> = Vec::new();
    let mut dur_txt: Vec<u8> = Vec::new();
    let mut k: usize = 0;
    assert(ann_views(out@) =~= Seq::<AnnotationView>::empty());
    while k < max - 1
        invariant
            d == data@,
            max == d.len() > 0,
            d[max - 1] == 0,
            k <= max - 1,
            zeros <= k,
            units <= k,
            forall|i: int| 0 <= i < out@.len() ==> (#[trigger] out@[i]).description@.len() > 0,
            onset ==> onset_token_ok(onset_txt@),
            dur_done ==> duration_token_ok(dur_txt@),
            tal_run(
                d,
                k as int,
                TalState {
                    onset,
                    dur_open,
                    dur_done,
                    zeros: zeros as nat,
                    units: units as nat,
                    buf: buf@,
                    onset_txt: onset_txt@,
                    dur_txt: dur_txt@,
                    stopped: false,
                    out: ann_views(out@),
                },
            ) == tal_run(d, 0, tal_init()),
        decreases max - k,
    {
        let ghost st = TalState {
            onset,
            dur_open,
            dur_done,
            zeros: zeros as nat,
            units: units as nat,
            buf: buf@,
            onset_txt: onset_txt@,
            dur_txt: dur_txt@,
            stopped: false,
            out: ann_views(out@),
        };
        let ghost next = tal_step(d, k as int, st);
        let x = data[k];
        if x == 0 {
            if zeros == 0 && k > 0 && data[k - 1] != TAL_FIELD_END {
                proof {
                    lemma_run_stops(d, k as int, st);
                }
                return out;
            } else if zeros == 0 {
                onset = false;
                dur_open = false;
                dur_done = false;
                units = 0;
                buf = Vec::new();
                zeros = 1;
            } else {
                zeros = zeros + 1;
            }
        } else if zeros > 1 {
            proof {
                lemma_run_stops(d, k as int, st);
            }
            return out;
        } else if x == TAL_DURATION_START && (dur_done || dur_open || onset || units > 0) {
            proof {
                lemma_run_stops(d, k as int, st);
            }
            return out;
        } else if x == TAL_FIELD_END && onset && !dur_open {
            zeros = 0;
            if buf.len() > 0 {
                let t = token_ticks(&onset_txt);
                match t {
                    Some(o) => {
                        let dv: i64 = if dur_done {
                            match token_ticks(&dur_txt) {
                                Some(v) => v,
                                None => -1,
                            }
                        } else {
                            -1
                        };
                        let desc = text_from_bytes(buf.as_slice());
                        let a = Annotation { onset: o, duration: dv, description: desc };
                        let ghost a_view = a@;
                        out.push(a);
                        assert(ann_views(out@) =~= st.out.push(a_view));
                    },
                    None => {},
                }
            }
            units = units + 1;
            buf = Vec::new();
        } else if (x == TAL_FIELD_END || x == TAL_DURATION_START) && !onset {
            zeros = 0;
            if onset_token_valid(&buf) {
                onset = true;
                dur_open = x == TAL_DURATION_START;
                onset_txt = buf;
                buf = Vec::new();
            } else {
                proof {
                    lemma_run_stops(d, k as int, st);
                }
                return out;
            }
        } else if x == TAL_FIELD_END {
            zeros = 0;
            if decimal_at(&buf, 0) {
                assert(buf@.subrange(0, buf@.len() as int) =~= buf@);
                dur_open = false;
                dur_done = true;
                dur_txt = buf;
                buf = Vec::new();
            } else {
                assert(buf@.subrange(0, buf@.len() as int) =~= buf@);
                proof {
                    lemma_run_stops(d, k as int, st);
                }
                return out;
            }
        } else if x == 43u8 && !onset && buf.len() == 0 {
            zeros = 0;
        } else {
            zeros = 0;
            buf.push(x);
        }
        proof {
            assert(buf@ =~= next.buf);
        }
        k += 1;
    }
    assert(tal_run(
        d,
        k as int,
        TalState {
            onset,
            dur_open,
            dur_done,
            zeros: zeros as nat,
            units: units as nat,
            buf: buf@,
            onset_txt: onset_txt@,
            dur_txt: dur_txt@,
            stopped: false,
            out: ann_views(out@),
        },
    ) == ann_views(out@));
    out
}


/// Where the first field of a block ends: the first `TAL_FIELD_END` before any zero byte.
pub open spec fn stamp_end(d: Seq<u8>, k: int) -> Option<int>
    decreases d.len() - k,
    when 0 <= k
{
    if k >= d.len() - 1 || d[k] == 0 {
        None
    } else if d[k] == TAL_FIELD_END {
        Some(k)
    } else {
        stamp_end(d, k + 1)
    }
}

/// `b` without its leading `+` signs.
pub open spec fn strip_plus(b: Seq<u8>) -> Seq<u8>
    decreases b.len(),
{
    if b.len() > 0 && b[0] == 43u8 {
        strip_plus(b.subrange(1, b.len() as int))
    } else {
        b
    }
}

/// The time, in ticks, that the first field of a block gives: the record's timestamp.
pub open spec fn block_timestamp(d: Seq<u8>) -> Option<i64> {
    match stamp_end(d, 0) {
        None => None,
        Some(k) => {
            let t = strip_plus(d.subrange(0, k));
            if all_ascii(t) && time_chars_ok(ascii_chars(t)) {
                Some(time_chars_value(ascii_chars(t)) as i64)
            } else {
                None
            }
        },
    }
}

/// Reads the timestamp that opens an annotation-channel block, if it has one.
pub fn extract_timestamp(data: &[u8]) -> (r: Option<i64>)
    ensures
        r == block_timestamp(data@),
        r is Some ==> r->0 > i64::MIN,
{
    let n = data.len();
    let ghost d = data@;
    let mut k: usize = 0;
    while n > 0 && k < n - 1
        invariant
            d == data@,
            n == d.len(),
            k <= n,
            stamp_end(d, 0) == stamp_end(d, k as int),
        decreases n - k,
    {
        let x = data[k];
        if x == 0 {
            return None;
        }
        if x == TAL_FIELD_END {
            let mut a: usize = 0;
            while a < k && data[a] == 43u8
                invariant
                    d == data@,
                    a <= k < n == d.len(),
                    strip_plus(d.subrange(0, k as int)) == strip_plus(d.subrange(a as int, k as int)),
                decreases k - a,
            {
                proof {
                    let t = d.subrange(a as int, k as int);
                    assert(t[0] == d[a as int]);
                    assert(t.subrange(1, t.len() as int) =~= d.subrange(a + 1, k as int));
                }
                a += 1;
            }
            proof {
                assert(d.subrange(0, k as int).subrange(0, k as int) =~= d.subrange(0, k as int));
            }
            let mut t: Vec<u8> = Vec::new();
            let mut i: usize = a;
            while i < k
                invariant
                    d == data@,
                    a <= i <= k < n == d.len(),
                    t@ == d.subrange(a as int, i as int),
                decreases k - i,
            {
                t.push(data[i]);
                i += 1;
                assert(t@ =~= d.subrange(a as int, i as int));
            }
            let mut ascii = true;
            let mut j: usize = 0;
            while j < t.len()
                invariant
                    j <= t@.len(),
                    ascii == (forall|q: int| 0 <= q < j ==> #[trigger] t@[q] < 128),
                decreases t@.len() - j,
            {
                if t[j] >= 128 {
                    ascii = false;
                }
                j += 1;
            }
            if !ascii {
                return None;
            }
            let c = chars_of_ascii(t.as_slice());
            return match time_from_chars(&c) {
                Ok(v) => {
                    assert(crate::utils::time_magnitude(crate::utils::unsigned_part(c@)) >= 0);
                    Some(v)
                },
                Err(_) => None,
            };
        }
        k += 1;
    }
    None
}

/// The sub-second part of a block's timestamp, in ticks; zero when it has none.
pub open spec fn block_subsecond(d: Seq<u8>) -> i64 {
    match block_timestamp(d) {
        None => 0,
        Some(t) => subsecond_of(t),
    }
}

/// `t` modulo one second, with the sign of `t` (Rust's `%`).
pub open spec fn subsecond_of(t: i64) -> i64 {
    if t >= 0 {
        (t % 10_000_000) as i64
    } else {
        -((-t) % 10_000_000) as i64
    }
}

/// `t` modulo one second, with the sign of `t`.
pub fn subsecond(t: i64) -> (r: i64)
    requires
        t > i64::MIN,
    ensures
        r == subsecond_of(t),
        -10_000_000 < r < 10_000_000,
{
    if t >= 0 {
        t % 10_000_000
    } else {
        -((-t) % 10_000_000)
    }
}

/// The sub-second start offset that a block's timestamp records.
pub fn extract_subsecond_from_tal(data: &[u8]) -> (r: i64)
    ensures
        r == block_subsecond(data@),
{
    match extract_timestamp(data) {
        None => 0,
        Some(t) => {
            proof {
                // a parsed time is never below -i64::MAX
                let k = stamp_end(data@, 0)->0;
                let u = ascii_chars(strip_plus(data@.subrange(0, k)));
                assert(crate::utils::time_magnitude(crate::utils::unsigned_part(u)) >= 0);
            }
            subsecond(t)
        },
    }
}

/// How many non-empty descriptions a block closes: the bounded count.
pub open spec fn quick_run(d: Seq<u8>, k: int, in_desc: bool, desc_len: nat) -> nat
    decreases d.len() - k,
    when 0 <= k
{
    if k >= d.len() - 1 {
        0
    } else if d[k] == 0 {
        quick_run(d, k + 1, false, 0)
    } else if d[k] == TAL_FIELD_END {
        (if in_desc && desc_len > 0 {
            1nat
        } else {
            0nat
        }) + quick_run(d, k + 1, true, 0)
    } else {
        quick_run(d, k + 1, in_desc, desc_len + 1)
    }
}

pub open spec fn quick_count(d: Seq<u8>) -> nat {
    if d.len() == 0 || d[d.len() - 1] != 0 {
        0
    } else {
        quick_run(d, 0, false, 0)
    }
}

proof fn lemma_quick_bound(d: Seq<u8>, k: int, in_desc: bool, desc_len: nat)
    requires
        0 <= k,
    ensures
        quick_run(d, k, in_desc, desc_len) <= if k < d.len() {
            d.len() - k
        } else {
            0
        },
    decreases d.len() - k,
{
    if k < d.len() - 1 {
        lemma_quick_bound(d, k + 1, false, 0);
        lemma_quick_bound(d, k + 1, true, 0);
        lemma_quick_bound(d, k + 1, in_desc, desc_len + 1);
    }
}

/// Counts the annotations of one block quickly, without decoding them, and reads the
/// sub-second start offset from the block when it belongs to the first record.
pub fn quick_parse_tal_for_count(data: &[u8], is_first_record: bool) -> (r: (i64, i64))
    requires
        data@.len() <= i64::MAX,
    ensures
        r.0 == quick_count(data@),
        0 <= r.0 <= data@.len(),
        r.1 == (if is_first_record && data@.len() > 0 && data@[data@.len() - 1] == 0 {
            block_subsecond(data@)
        } else {
            0
        }),
{
    let n = data.len();
    if n == 0 || data[n - 1] != 0 {
        return (0, 0);
    }
    let ghost d = data@;
    let mut count: u64 = 0;
    let mut in_desc = false;
    let mut desc_len: u64 = 0;
    let mut k: usize = 0;
    proof {
        lemma_quick_bound(d, 0, false, 0);
    }
    while k < n - 1
        invariant
            d == data@,
            n == d.len() > 0,
            k <= n - 1,
            desc_len <= k,
            count + quick_run(d, k as int, in_desc, desc_len as nat) == quick_run(d, 0, false, 0),
            quick_run(d, 0, false, 0) <= n,
        decreases n - k,
    {
        let x = data[k];
        if x == 0 {
            in_desc = false;
            desc_len = 0;
        } else if x == TAL_FIELD_END {
            if in_desc && desc_len > 0 {
                count += 1;
            }
            in_desc = true;
            desc_len = 0;
        } else {
            desc_len += 1;
        }
        k += 1;
    }
    assert(quick_run(d, k as int, in_desc, desc_len as nat) == 0);
    let sub = if is_first_record {
        extract_subsecond_from_tal(data)
    } else {
        0
    };
    (count as i64, sub)
}

} // verus!
