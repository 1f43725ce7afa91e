use vstd::prelude::*;

use crate::header_write::{
    column, field_width, fit, fixed_text, int_text, lemma_column_len, sig_field, signal_block, spaces,
};
use crate::header_read::{e_annot, e_dmax, e_dmin, e_offset, e_pmax, e_pmin, e_spr, entry_ok, field_fixed, field_int, user_entries};
use crate::header_write::{annotation_label, str_bytes};
use crate::tal_encode::{lemma_nat_text_len, pow10};
use crate::header_read::{
    calendar_date, datetime_ok, dot_parts, edfplus_mark, full_year, header_fields_ok, header_ok,
    is_ws_byte, signal_count_of, split_dots, version_ok, MAX_HEADER_DURATION,
};
use crate::header_write::{date_field, time_field};
use crate::types::{SignalParam, StartDate, StartTime};
use crate::writer::{
    header_of, lemma_default_recording_writable, main_header, patient_text, recording_of,
    WriterView, MAX_RECORDS, MAX_RECORD_DURATION,
};
use crate::text::{digit_of, is_digit};
use crate::header_read::{field_text, joined, word_or_empty, words, words_from};
use crate::recording::ascii_bytes;
use crate::writer::signal_ok;
use crate::roundtrip::lemma_ticks_text_reads_back;
use crate::tal_encode::{nat_text, ticks_text};
use crate::text::{
    all_ascii, all_digits, ascii_chars, decoded_text, digits_value, is_ws, trim_end, trim_start,
    trimmed,
};
use crate::utils::{
    atoi_value, edf_time_ok, edf_time_value, fixed_value, i32_text_ok, is_negative, sign_len,
    signed_digits, time_chars_ok, time_chars_value, unsigned_part,
};

verus! {

proof fn lemma_ascii_concat(a: Seq<u8>, b: Seq<u8>)
    ensures
        ascii_chars(a + b) == ascii_chars(a) + ascii_chars(b),
{
    assert(ascii_chars(a + b) =~= ascii_chars(a) + ascii_chars(b));
}

proof fn lemma_trim_end_spaces(s: Seq<char>, k: nat)
    requires
        s.len() > 0,
        !is_ws(s[s.len() - 1]),
    ensures
        trim_end(s + ascii_chars(spaces(k))) == s,
    decreases k,
{
    let t = s + ascii_chars(spaces(k));
    if k == 0 {
        assert(t =~= s);
    } else {
        assert(t[t.len() - 1] == (32u8 as char));
        assert(t.subrange(0, t.len() - 1) =~= s + ascii_chars(spaces((k - 1) as nat)));
        lemma_trim_end_spaces(s, (k - 1) as nat);
    }
}

/// A field written as `b` padded with spaces reads back, trimmed, as `b`.
pub proof fn lemma_padded_text(b: Seq<u8>, w: nat)
    requires
        all_ascii(b),
        0 < b.len() <= w,
        !is_ws(b[0] as char),
        !is_ws(b[b.len() - 1] as char),
    ensures
        all_ascii(fit(b, w)),
        trimmed(decoded_text(fit(b, w))) == ascii_chars(b),
{
    let sp = spaces((w - b.len()) as nat);
    assert(fit(b, w) == b + sp);
    assert forall|i: int| 0 <= i < (b + sp).len() implies #[trigger] (b + sp)[i] < 128 by {
        if i >= b.len() {
            assert((b + sp)[i] == sp[i - b.len()]);
        }
    }
    lemma_ascii_concat(b, sp);
    let c = ascii_chars(b);
    let t = c + ascii_chars(sp);
    assert(t[0] == c[0]);
    assert(trim_start(t) == t);
    lemma_trim_end_spaces(c, (w - b.len()) as nat);
}

/// An integer field the writer pads to `w` bytes reads back as the integer.
pub proof fn lemma_int_field(v: int, w: nat)
    requires
        int_text(v).len() <= w,
        -0x8000_0000 <= v <= 0x7fff_ffff,
    ensures
        all_ascii(fit(int_text(v), w)),
        atoi_value(decoded_text(fit(int_text(v), w))) == v,
{
    let m: nat = if v < 0 {
        (-v) as nat
    } else {
        v as nat
    };
    crate::roundtrip::lemma_nat_text_pub(m);
    let n = nat_text(m);
    let b = int_text(v);
    assert forall|i: int| 0 <= i < b.len() implies #[trigger] b[i] < 128 by {
        if v < 0 {
            if i > 0 {
                assert(b[i] == n[i - 1]);
            }
        }
    }
    assert(b[b.len() - 1] == n[n.len() - 1]);
    lemma_padded_text(b, w);
    let c = ascii_chars(b);
    if v < 0 {
        lemma_ascii_concat(seq![45u8], n);
        assert(c[0] == '-');
        assert(unsigned_part(c) =~= ascii_chars(n));
    } else {
        assert(unsigned_part(c) =~= c);
    }
}

/// A decimal field in units of 10^-7 that the writer pads to `w` bytes reads back as the
/// value.
pub proof fn lemma_fixed_field(v: int, w: nat)
    requires
        fixed_text(v).len() <= w,
        -i64::MAX <= v <= i64::MAX,
    ensures
        all_ascii(fit(fixed_text(v), w)),
        fixed_value(decoded_text(fit(fixed_text(v), w))) == v,
{
    let m: nat = if v < 0 {
        (-v) as nat
    } else {
        v as nat
    };
    lemma_ticks_text_reads_back(m);
    let n = ticks_text(m);
    let b = fixed_text(v);
    crate::roundtrip::lemma_ticks_text_edges(m);
    assert forall|i: int| 0 <= i < b.len() implies #[trigger] b[i] < 128 by {
        if v < 0 {
            if i > 0 {
                assert(b[i] == n[i - 1]);
            }
        }
    }
    assert(b[b.len() - 1] == n[n.len() - 1]);
    lemma_padded_text(b, w);
    let c = ascii_chars(b);
    if v < 0 {
        lemma_ascii_concat(seq![45u8], n);
        assert(c[0] == '-');
        assert(unsigned_part(c) =~= ascii_chars(n));
        assert(unsigned_part(ascii_chars(n)) =~= ascii_chars(n));
    } else {
        assert(unsigned_part(c) =~= c);
    }
}


/// Where field `k` starts in a signal block, per entry: the widths of the fields before it.
pub open spec fn field_base(k: int) -> int
    decreases k,
{
    if k <= 0 {
        0
    } else {
        field_base(k - 1) + field_width(k - 1)
    }
}

/// The fields from `k` on, column after column.
pub open spec fn block_from(sigs: Seq<SignalParam>, n: int, k: int) -> Seq<u8>
    decreases 10 - k,
{
    if k >= 10 {
        Seq::empty()
    } else {
        column(sigs, k, n) + block_from(sigs, n, k + 1)
    }
}

proof fn lemma_column_at(sigs: Seq<SignalParam>, k: int, n: int, i: int)
    requires
        0 <= k <= 9,
        0 <= i < n,
    ensures
        column(sigs, k, n).subrange(i * field_width(k), i * field_width(k) + field_width(k))
            == sig_field(sigs, i, k),
    decreases n,
{
    let w = field_width(k) as int;
    lemma_column_len(sigs, k, n - 1);
    lemma_column_len(sigs, k, n);
    let c = column(sigs, k, n);
    let p = column(sigs, k, n - 1);
    assert(c == p + sig_field(sigs, n - 1, k));
    if i == n - 1 {
        assert(c.subrange(i * w, i * w + w) =~= sig_field(sigs, n - 1, k));
    } else {
        lemma_column_at(sigs, k, n - 1, i);
        assert(i * w + w <= (n - 1) * w) by (nonlinear_arith)
            requires
                i < n - 1,
                w >= 0,
        ;
        assert(0 <= i * w) by (nonlinear_arith)
            requires
                i >= 0,
                w >= 0,
        ;
        assert(c.subrange(i * w, i * w + w) =~= p.subrange(i * w, i * w + w));
    }
}

proof fn lemma_block_from_at(sigs: Seq<SignalParam>, n: int, k0: int, k: int, i: int)
    requires
        0 <= k0 <= k <= 9,
        0 <= i < n,
    ensures
        block_from(sigs, n, k0).subrange(
            n * (field_base(k) - field_base(k0)) + i * field_width(k),
            n * (field_base(k) - field_base(k0)) + i * field_width(k) + field_width(k),
        ) == sig_field(sigs, i, k),
    decreases k - k0,
{
    let w = field_width(k) as int;
    let rest = block_from(sigs, n, k0 + 1);
    let col = column(sigs, k0, n);
    lemma_column_len(sigs, k0, n);
    assert(block_from(sigs, n, k0) == col + rest);
    assert(0 <= i * w && i * w + w <= n * w) by (nonlinear_arith)
        requires
            0 <= i < n,
            w >= 0,
    ;
    if k == k0 {
        assert(n * (field_base(k) - field_base(k0)) == 0) by (nonlinear_arith)
            requires
                k == k0,
        ;
        lemma_column_at(sigs, k, n, i);
        assert((col + rest).subrange(i * w, i * w + w) =~= col.subrange(i * w, i * w + w));
    } else {
        lemma_block_from_at(sigs, n, k0 + 1, k, i);
        let off = n * (field_base(k) - field_base(k0 + 1)) + i * w;
        assert(n * (field_base(k) - field_base(k0)) == n * field_width(k0) + n * (field_base(k)
            - field_base(k0 + 1))) by (nonlinear_arith)
            requires
                field_base(k0 + 1) == field_base(k0) + field_width(k0),
        ;
        assert(field_base(k) >= field_base(k0 + 1)) by {
            lemma_field_base_mono(k0 + 1, k);
        }
        assert(n * (field_base(k) - field_base(k0 + 1)) >= 0) by (nonlinear_arith)
            requires
                n >= 0,
                field_base(k) - field_base(k0 + 1) >= 0,
        ;
        lemma_block_from_len(sigs, n, k0 + 1);
        lemma_field_base_mono(k + 1, 10);
        assert(off + w <= n * (field_base(10) - field_base(k0 + 1))) by (nonlinear_arith)
            requires
                off == n * (field_base(k) - field_base(k0 + 1)) + i * w,
                i * w + w <= n * w,
                field_base(k + 1) == field_base(k) + w,
                field_base(k + 1) <= field_base(10),
                n >= 0,
        ;
        assert((col + rest).subrange(col.len() + off, col.len() + off + w) =~= rest.subrange(
            off,
            off + w,
        ));
    }
}

proof fn lemma_field_base_mono(a: int, b: int)
    requires
        0 <= a <= b,
    ensures
        field_base(a) <= field_base(b),
    decreases b - a,
{
    if a < b {
        lemma_field_base_mono(a, b - 1);
    }
}

proof fn lemma_block_from_len(sigs: Seq<SignalParam>, n: int, k: int)
    requires
        0 <= k <= 10,
        0 <= n,
    ensures
        block_from(sigs, n, k).len() == n * (field_base(10) - field_base(k)),
    decreases 10 - k,
{
    if k < 10 {
        lemma_block_from_len(sigs, n, k + 1);
        lemma_column_len(sigs, k, n);
        assert(n * field_width(k) + n * (field_base(10) - field_base(k + 1)) == n * (field_base(10)
            - field_base(k))) by (nonlinear_arith)
            requires
                field_base(k + 1) == field_base(k) + field_width(k),
        ;
    } else {
        assert(n * 0 == 0);
    }
}

/// Field `k` of entry `i` stands at `n * field_base(k) + i * field_width(k)` of the block.
pub proof fn lemma_block_field(sigs: Seq<SignalParam>, n: int, k: int, i: int)
    requires
        0 <= k <= 9,
        0 <= i < n,
    ensures
        signal_block(sigs, n).subrange(
            n * field_base(k) + i * field_width(k),
            n * field_base(k) + i * field_width(k) + field_width(k),
        ) == sig_field(sigs, i, k),
{
    assert(signal_block(sigs, n) =~= block_from(sigs, n, 0)) by {
        reveal_with_fuel(block_from, 11);
    }
    lemma_block_from_at(sigs, n, 0, k, i);
}


/// A signal the writer describes and the reader takes for an ordinary signal: its label is
/// not the annotation channels' label, and its physical extremes have a negation in `i64`.
pub open spec fn readable_signal(s: SignalParam) -> bool {
    &&& signal_ok(s)
    &&& s.physical_min > i64::MIN
    &&& s.physical_max > i64::MIN
    &&& fit(str_bytes(s.label@), 16) != annotation_label()
}

/// Samples per record of entry `i`: a signal's own, or an annotation channel's 60.
pub open spec fn entry_samples(sigs: Seq<SignalParam>, i: int) -> int {
    if i < sigs.len() {
        sigs[i].samples_per_record as int
    } else {
        60
    }
}

/// Bytes of the first `i` entries' samples in a record.
pub open spec fn samples_before(sigs: Seq<SignalParam>, i: int) -> int
    decreases i,
{
    if i <= 0 {
        0
    } else {
        samples_before(sigs, i - 1) + 2 * entry_samples(sigs, i - 1)
    }
}

proof fn lemma_small_int_text(v: int)
    requires
        -10_000_000 < v < 100_000_000,
    ensures
        int_text(v).len() <= 8,
{
    assert(pow10(8) == 100_000_000 && pow10(7) == 10_000_000) by {
        reveal_with_fuel(pow10, 9);
    }
    if v < 0 {
        lemma_nat_text_len((-v) as nat, 7);
    } else {
        lemma_nat_text_len(v as nat, 8);
    }
}

/// Entry `i` of the writer's signal block reads back as what was written.
pub proof fn lemma_entry_reads_back(sigs: Seq<SignalParam>, n: int, i: int)
    requires
        sigs.len() < n,
        0 <= i < n,
        forall|j: int| 0 <= j < sigs.len() ==> readable_signal(#[trigger] sigs[j]),
    ensures
        entry_ok(signal_block(sigs, n), n, i),
        e_annot(signal_block(sigs, n), i) == (i >= sigs.len()),
        e_spr(signal_block(sigs, n), n, i) == entry_samples(sigs, i),
        i < sigs.len() ==> e_pmin(signal_block(sigs, n), n, i) == sigs[i].physical_min
            && e_pmax(signal_block(sigs, n), n, i) == sigs[i].physical_max && e_dmin(
            signal_block(sigs, n),
            n,
            i,
        ) == sigs[i].digital_min && e_dmax(signal_block(sigs, n), n, i) == sigs[i].digital_max,
{
    let b = signal_block(sigs, n);
    assert(field_base(3) == 104 && field_base(4) == 112 && field_base(5) == 120 && field_base(6)
        == 128 && field_base(8) == 216) by {
        reveal_with_fuel(field_base, 10);
    }
    lemma_block_field(sigs, n, 0, i);
    lemma_block_field(sigs, n, 3, i);
    lemma_block_field(sigs, n, 4, i);
    lemma_block_field(sigs, n, 5, i);
    lemma_block_field(sigs, n, 6, i);
    lemma_block_field(sigs, n, 8, i);
    if i < sigs.len() {
        let s = sigs[i];
        assert(readable_signal(s));
        lemma_small_int_text(s.samples_per_record as int);
        lemma_small_int_text(s.digital_min as int);
        lemma_small_int_text(s.digital_max as int);
        lemma_int_field(s.samples_per_record as int, 8);
        lemma_int_field(s.digital_min as int, 8);
        lemma_int_field(s.digital_max as int, 8);
        lemma_fixed_field(s.physical_min as int, 8);
        lemma_fixed_field(s.physical_max as int, 8);
    } else {
        lemma_small_int_text(60);
        lemma_int_field(60, 8);
    }
}

/// The reader's record size for the writer's block is the writer's.
pub proof fn lemma_offsets_read_back(sigs: Seq<SignalParam>, n: int, i: int)
    requires
        sigs.len() < n,
        0 <= i <= n,
        forall|j: int| 0 <= j < sigs.len() ==> readable_signal(#[trigger] sigs[j]),
    ensures
        e_offset(signal_block(sigs, n), n, i) == samples_before(sigs, i),
    decreases i,
{
    if i > 0 {
        lemma_offsets_read_back(sigs, n, i - 1);
        lemma_entry_reads_back(sigs, n, i - 1);
    }
}

/// The reader finds the writer's signals, in order, among the block's entries.
pub proof fn lemma_user_entries(sigs: Seq<SignalParam>, n: int, i: int)
    requires
        sigs.len() < n,
        0 <= i <= n,
        forall|j: int| 0 <= j < sigs.len() ==> readable_signal(#[trigger] sigs[j]),
    ensures
        user_entries(signal_block(sigs, n), i).len() == if i < sigs.len() {
            i
        } else {
            sigs.len() as int
        },
        forall|k: int|
            0 <= k < user_entries(signal_block(sigs, n), i).len() ==> #[trigger] user_entries(
                signal_block(sigs, n),
                i,
            )[k] == k,
    decreases i,
{
    if i > 0 {
        lemma_user_entries(sigs, n, i - 1);
        lemma_entry_reads_back(sigs, n, i - 1);
    }
}


proof fn lemma_two_digits(a: u8, b: u8)
    requires
        48 <= a <= 57,
        48 <= b <= 57,
    ensures
        atoi_value(seq![a as char, b as char]) == (a - 48) * 10 + (b - 48),
{
    let c = seq![a as char, b as char];
    assert(trim_start(c) == c);
    assert(trim_end(c) == c);
    assert(unsigned_part(c) =~= c);
    assert(c.subrange(0, 1) =~= seq![a as char]);
    assert(seq![a as char].subrange(0, 0) =~= Seq::<char>::empty());
    assert((a as char) as u32 == a as u32);
    assert((b as char) as u32 == b as u32);
    assert(seq![a as char][0] == a as char);
    assert(digits_value(seq![a as char]) == digits_value(Seq::<char>::empty()) * 10 + digit_of(
        a as char,
    ));
    assert(digits_value(seq![a as char]) == a - 48);
    assert(digits_value(c) == (a - 48) * 10 + (b - 48));
}

/// The start date and time fields of a writer that starts on 1985-01-01 at midnight read
/// back as that date and time.
proof fn lemma_default_datetime()
    ensures
        ({
            let d = decoded_text(date_field(StartDate { year: 1985, month: 1, day: 1 }));
            let t = decoded_text(time_field(StartTime { hour: 0, minute: 0, second: 0 }));
            &&& datetime_ok(d, t)
            &&& full_year(atoi_value(split_dots(d)[2])) == 1985
            &&& atoi_value(split_dots(d)[1]) == 1
            &&& atoi_value(split_dots(d)[0]) == 1
            &&& atoi_value(split_dots(t)[0]) == 0
            &&& atoi_value(split_dots(t)[1]) == 0
            &&& atoi_value(split_dots(t)[2]) == 0
        }),
{
    let db = date_field(StartDate { year: 1985, month: 1, day: 1 });
    let tb = time_field(StartTime { hour: 0, minute: 0, second: 0 });
    assert(db =~= seq![48u8, 49, 46, 48, 49, 46, 56, 53]);
    assert(tb =~= seq![48u8, 48, 46, 48, 48, 46, 48, 48]);
    assert(all_ascii(db) && all_ascii(tb));
    let d = ascii_chars(db);
    let t = ascii_chars(tb);
    let c01 = seq![48u8 as char, 49u8 as char];
    let c85 = seq![56u8 as char, 53u8 as char];
    let c00 = seq![48u8 as char, 48u8 as char];
    assert(split_dots(d) =~= seq![c01, c01, c85]) by {
        reveal_with_fuel(dot_parts, 10);
        assert(Seq::<char>::empty().push(d[0]).push(d[1]) =~= c01);
        assert(Seq::<char>::empty().push(d[3]).push(d[4]) =~= c01);
        assert(Seq::<char>::empty().push(d[6]).push(d[7]) =~= c85);
    }
    assert(split_dots(t) =~= seq![c00, c00, c00]) by {
        reveal_with_fuel(dot_parts, 10);
        assert(Seq::<char>::empty().push(t[0]).push(t[1]) =~= c00);
        assert(Seq::<char>::empty().push(t[3]).push(t[4]) =~= c00);
        assert(Seq::<char>::empty().push(t[6]).push(t[7]) =~= c00);
    }
    lemma_two_digits(48, 49);
    lemma_two_digits(56, 53);
    lemma_two_digits(48, 48);
    assert(calendar_date(1985, 1, 1));
}

/// The bytes of a record of the writer's signals and annotation channels.
pub open spec fn record_size_of(w: WriterView) -> int {
    samples_before(w.signals, (w.signals.len() + w.channels) as int)
}

/// The main header a writer emits for `t` records.
pub open spec fn main_of(w: WriterView, t: int) -> Seq<u8> {
    main_header(
        patient_text(w.patient),
        recording_of(w),
        w.start_date,
        w.start_time,
        (w.signals.len() + w.channels) as int,
        t,
        w.duration,
    )
}

#[verifier::rlimit(100)]
proof fn lemma_main_layout(w: WriterView, t: int)
    requires
        w.admin == seq![seq!['X'], seq!['X'], seq!['X']],
    ensures
        ({
            let m = main_of(w, t);
            let n = (w.signals.len() + w.channels) as int;
            &&& m.len() == 256
            &&& m[0] == 48u8
            &&& m.subrange(8, 88) == fit(patient_text(w.patient), 80)
            &&& m.subrange(168, 176) == date_field(w.start_date)
            &&& m.subrange(176, 184) == time_field(w.start_time)
            &&& m.subrange(184, 192) == fit(int_text((n + 1) * 256), 8)
            &&& m.subrange(192, 197) == seq![69u8, 68, 70, 43, 67]
            &&& m.subrange(236, 244) == fit(int_text(t), 8)
            &&& m.subrange(244, 252) == fit(ticks_text(w.duration as nat), 8)
            &&& m.subrange(252, 256) == fit(int_text(n), 4)
        }),
{
    let n = (w.signals.len() + w.channels) as int;
    lemma_default_recording_writable(w);
    let a = fit(seq![48u8], 8) + fit(patient_text(w.patient), 80) + recording_of(w);
    assert(a.len() == 168);
    let f3 = date_field(w.start_date);
    let f4 = time_field(w.start_time);
    let f5 = fit(int_text((n + 1) * 256), 8);
    let f6 = fit(seq![69u8, 68, 70, 43, 67], 44);
    let f7 = fit(int_text(t), 8);
    let f8 = fit(ticks_text(w.duration as nat), 8);
    let f9 = fit(int_text(n), 4);
    let m = main_of(w, t);
    assert(m == a + f3 + f4 + f5 + f6 + f7 + f8 + f9);
    assert(m[0] == 48u8);
    assert(m.subrange(8, 88) =~= fit(patient_text(w.patient), 80));
    assert(m.subrange(168, 176) =~= f3);
    assert(m.subrange(176, 184) =~= f4);
    assert(m.subrange(184, 192) =~= f5);
    assert(m.subrange(192, 197) =~= seq![69u8, 68, 70, 43, 67]);
    assert(m.subrange(236, 244) =~= f7);
    assert(m.subrange(244, 252) =~= f8);
    assert(m.subrange(252, 256) =~= f9);
}

proof fn lemma_main_reads_back(w: WriterView, t: int)
    requires
        1 <= w.channels,
        w.signals.len() + w.channels <= 4096,
        1 <= w.duration <= MAX_RECORD_DURATION,
        ticks_text(w.duration as nat).len() <= 8,
        w.start_date == (StartDate { year: 1985, month: 1, day: 1 }),
        w.start_time == (StartTime { hour: 0, minute: 0, second: 0 }),
        w.admin == seq![seq!['X'], seq!['X'], seq!['X']],
        1 <= t <= MAX_RECORDS,
    ensures
        ({
            let m = main_of(w, t);
            let n = (w.signals.len() + w.channels) as int;
            &&& m.len() == 256
            &&& version_ok(m)
            &&& signal_count_of(m) == n
            &&& field_int(m, 184, 8) == (n + 1) * 256
            &&& edfplus_mark(m)
            &&& datetime_ok(decoded_text(m.subrange(168, 176)), decoded_text(m.subrange(176, 184)))
            &&& field_int(m, 236, 8) == t
            &&& edf_time_ok(decoded_text(m.subrange(244, 252)))
            &&& edf_time_value(decoded_text(m.subrange(244, 252))) == w.duration
        }),
{
    let n = (w.signals.len() + w.channels) as int;
    let m = main_of(w, t);
    lemma_main_layout(w, t);
    assert(m[0] == 48u8);
    assert(version_ok(m)) by {
        assert(forall|j: int| 0 <= j < 0 ==> is_ws_byte(#[trigger] m[j]));
    }
    assert(pow10(4) == 10_000) by {
        reveal_with_fuel(pow10, 5);
    }
    lemma_nat_text_len(n as nat, 4);
    lemma_int_field(n, 4);
    lemma_small_int_text((n + 1) * 256);
    lemma_int_field((n + 1) * 256, 8);
    lemma_small_int_text(t);
    lemma_int_field(t, 8);
    lemma_fixed_field(w.duration as int, 8);
    lemma_default_datetime();
}

proof fn lemma_block_all_read_back(sigs: Seq<SignalParam>, n: int)
    requires
        sigs.len() < n,
        forall|j: int| 0 <= j < sigs.len() ==> readable_signal(#[trigger] sigs[j]),
    ensures
        signal_block(sigs, n).len() == n * 256,
        forall|i: int| 0 <= i < n ==> entry_ok(signal_block(sigs, n), n, i),
        e_offset(signal_block(sigs, n), n, n) == samples_before(sigs, n),
        user_entries(signal_block(sigs, n), n).len() == sigs.len(),
        forall|k: int| 0 <= k < sigs.len() ==> #[trigger] user_entries(signal_block(sigs, n), n)[k] == k,
{
    lemma_block_from_len(sigs, n, 0);
    assert(signal_block(sigs, n) =~= block_from(sigs, n, 0)) by {
        reveal_with_fuel(block_from, 11);
    }
    assert(field_base(10) == 256) by {
        reveal_with_fuel(field_base, 11);
    }
    assert forall|i: int| 0 <= i < n implies entry_ok(signal_block(sigs, n), n, i) by {
        lemma_entry_reads_back(sigs, n, i);
    }
    lemma_offsets_read_back(sigs, n, n);
    lemma_user_entries(sigs, n, n);
}

/// A header the writer produced parses: for `t` records, the main header and the signal
/// block pass every check of `parse_header`, which reads back the signal count, the record
/// count and duration, and each signal as written.
pub proof fn lemma_writer_header_parses(w: WriterView, t: int)
    requires
        1 <= w.channels,
        w.signals.len() + w.channels <= 4096,
        forall|j: int| 0 <= j < w.signals.len() ==> readable_signal(#[trigger] w.signals[j]),
        1 <= w.duration <= MAX_RECORD_DURATION,
        ticks_text(w.duration as nat).len() <= 8,
        w.start_date == (StartDate { year: 1985, month: 1, day: 1 }),
        w.start_time == (StartTime { hour: 0, minute: 0, second: 0 }),
        w.admin == seq![seq!['X'], seq!['X'], seq!['X']],
        1 <= t <= MAX_RECORDS,
        record_size_of(w) <= (i64::MAX - (w.signals.len() + w.channels + 1) * 256) / t,
        patient_fits(w.patient),
    ensures
        ({
            let h = header_of(w, t);
            let m = h.subrange(0, 256);
            let b = h.subrange(256, h.len() as int);
            let n = (w.signals.len() + w.channels) as int;
            &&& header_ok(m, b)
            &&& signal_count_of(m) == n
            &&& field_int(m, 236, 8) == t
            &&& edf_time_value(decoded_text(m.subrange(244, 252))) == w.duration
            &&& b == signal_block(w.signals, n)
            &&& e_offset(b, n, n) == record_size_of(w)
            &&& user_entries(b, n).len() == w.signals.len()
            &&& forall|k: int| 0 <= k < w.signals.len() ==> #[trigger] user_entries(b, n)[k] == k
            &&& words(field_text(m, 8, 80)) == w.patient
        }),
{
    let n = (w.signals.len() + w.channels) as int;
    let h = header_of(w, t);
    let mh = main_of(w, t);
    let blk = signal_block(w.signals, n);
    lemma_main_reads_back(w, t);
    lemma_block_all_read_back(w.signals, n);
    assert(h == mh + blk);
    let m = h.subrange(0, 256);
    let b = h.subrange(256, h.len() as int);
    assert(m =~= mh);
    assert(b =~= blk);
    assert(w.duration * t <= i64::MAX) by (nonlinear_arith)
        requires
            1 <= w.duration <= MAX_RECORD_DURATION,
            1 <= t <= MAX_RECORDS,
    ;
    assert(header_fields_ok(m, b));
    lemma_main_layout(w, t);
    lemma_patient_reads_back(w.patient);
    assert(m.subrange(8, 88) == fit(patient_text(w.patient), 80));
}


/// A patient subfield that reads back unchanged: ASCII text without whitespace.
pub open spec fn plain_word(p: Seq<char>) -> bool {
    p.len() > 0 && forall|i: int| 0 <= i < p.len() ==> (#[trigger] p[i] as u32) < 128 && !is_ws(p[i])
}

proof fn lemma_plain_word_bytes(p: Seq<char>)
    requires
        plain_word(p),
    ensures
        all_ascii(ascii_bytes(p)),
        ascii_chars(ascii_bytes(p)) == p,
        ascii_bytes(p).len() == p.len(),
{
    assert(ascii_chars(ascii_bytes(p)) =~= p) by {
        assert forall|i: int| 0 <= i < p.len() implies ascii_chars(ascii_bytes(p))[i] == p[i] by {
            let c = p[i];
            let v = c as u32;
            assert(v < 128);
            assert((v as u8) as u32 == v) by (bit_vector)
                requires
                    v < 128,
            ;
            vstd::utf8::char_u32_cast(c, v);
            vstd::utf8::char_u32_cast(((v as u8) as char), ((v as u8) as char) as u32);
            assert(((v as u8) as char) as u32 == v);
        }
    }
    assert forall|i: int| 0 <= i < ascii_bytes(p).len() implies #[trigger] ascii_bytes(p)[i] < 128 by {
        let v = p[i] as u32;
        assert(v < 128);
        assert((v as u8) < 128) by (bit_vector)
            requires
                v < 128,
        ;
    }
}

proof fn lemma_words_run(s: Seq<char>, i: int, j: int, cur: Seq<char>)
    requires
        0 <= i <= j <= s.len(),
        forall|k: int| i <= k < j ==> !is_ws(#[trigger] s[k]),
    ensures
        words_from(s, i, cur) == words_from(s, j, cur + s.subrange(i, j)),
    decreases j - i,
{
    if i == j {
        assert(cur + s.subrange(i, j) =~= cur);
    } else {
        lemma_words_run(s, i + 1, j, cur.push(s[i]));
        assert(cur.push(s[i]) + s.subrange(i + 1, j) =~= cur + s.subrange(i, j));
    }
}

proof fn lemma_words_tail(s: Seq<char>, i: int, cur: Seq<char>)
    requires
        0 <= i <= s.len(),
        cur.len() > 0,
        forall|k: int| i <= k < s.len() ==> is_ws(#[trigger] s[k]),
    ensures
        words_from(s, i, cur) == seq![cur],
    decreases s.len() - i,
{
    if i < s.len() {
        lemma_words_empty_tail(s, i + 1);
        assert(seq![cur] + Seq::<Seq<char>>::empty() =~= seq![cur]);
    }
}

proof fn lemma_words_empty_tail(s: Seq<char>, i: int)
    requires
        0 <= i <= s.len(),
        forall|k: int| i <= k < s.len() ==> is_ws(#[trigger] s[k]),
    ensures
        words_from(s, i, Seq::empty()) == Seq::<Seq<char>>::empty(),
    decreases s.len() - i,
{
    if i < s.len() {
        lemma_words_empty_tail(s, i + 1);
        assert(Seq::<Seq<char>>::empty() + Seq::<Seq<char>>::empty() =~= Seq::<Seq<char>>::empty());
    }
}

/// The words of `a b c d e` padded with blanks are `a`, `b`, `c`, `d`, `e`.
proof fn lemma_five_words(p: Seq<Seq<char>>, s: Seq<char>)
    requires
        p.len() == 5,
        forall|k: int| 0 <= k < 5 ==> plain_word(#[trigger] p[k]),
        s.len() >= p[0].len() + p[1].len() + p[2].len() + p[3].len() + p[4].len() + 4,
        s.subrange(0, (p[0].len() + p[1].len() + p[2].len() + p[3].len() + p[4].len() + 4) as int)
            == p[0] + seq![' '] + p[1] + seq![' '] + p[2] + seq![' '] + p[3] + seq![' '] + p[4],
        forall|k: int|
            p[0].len() + p[1].len() + p[2].len() + p[3].len() + p[4].len() + 4 <= k < s.len()
                ==> is_ws(#[trigger] s[k]),
    ensures
        words(s) == p,
{
    let l0 = p[0].len() as int;
    let l1 = p[1].len() as int;
    let l2 = p[2].len() as int;
    let l3 = p[3].len() as int;
    let l4 = p[4].len() as int;
    let e0 = l0;
    let e1 = e0 + 1 + l1;
    let e2 = e1 + 1 + l2;
    let e3 = e2 + 1 + l3;
    let e4 = e3 + 1 + l4;
    let body = p[0] + seq![' '] + p[1] + seq![' '] + p[2] + seq![' '] + p[3] + seq![' '] + p[4];
    assert forall|k: int| 0 <= k < e4 implies s[k] == #[trigger] body[k] by {
        assert(s.subrange(0, e4)[k] == s[k]);
    }
    assert forall|k: int| 0 <= k < e4 && k != e0 && k != e1 && k != e2 && k != e3 implies !is_ws(
        #[trigger] s[k],
    ) by {
        assert(plain_word(p[0]) && plain_word(p[1]) && plain_word(p[2]) && plain_word(p[3])
            && plain_word(p[4]));
        if k < e0 {
            assert(body[k] == p[0][k]);
        } else if k < e1 {
            assert(body[k] == p[1][k - e0 - 1]);
        } else if k < e2 {
            assert(body[k] == p[2][k - e1 - 1]);
        } else if k < e3 {
            assert(body[k] == p[3][k - e2 - 1]);
        } else {
            assert(body[k] == p[4][k - e3 - 1]);
        }
    }
    assert(s[e0] == ' ' && s[e1] == ' ' && s[e2] == ' ' && s[e3] == ' ') by {
        assert(body[e0] == ' ' && body[e1] == ' ' && body[e2] == ' ' && body[e3] == ' ');
    }
    assert(s.subrange(0, e0) =~= p[0]) by {
        assert forall|k: int| 0 <= k < e0 implies s.subrange(0, e0)[k] == p[0][k] by {
            assert(body[k] == p[0][k]);
        }
    }
    assert(s.subrange(e0 + 1, e1) =~= p[1]) by {
        assert forall|k: int| 0 <= k < l1 implies s.subrange(e0 + 1, e1)[k] == p[1][k] by {
            assert(body[e0 + 1 + k] == p[1][k]);
        }
    }
    assert(s.subrange(e1 + 1, e2) =~= p[2]) by {
        assert forall|k: int| 0 <= k < l2 implies s.subrange(e1 + 1, e2)[k] == p[2][k] by {
            assert(body[e1 + 1 + k] == p[2][k]);
        }
    }
    assert(s.subrange(e2 + 1, e3) =~= p[3]) by {
        assert forall|k: int| 0 <= k < l3 implies s.subrange(e2 + 1, e3)[k] == p[3][k] by {
            assert(body[e2 + 1 + k] == p[3][k]);
        }
    }
    assert(s.subrange(e3 + 1, e4) =~= p[4]) by {
        assert forall|k: int| 0 <= k < l4 implies s.subrange(e3 + 1, e4)[k] == p[4][k] by {
            assert(body[e3 + 1 + k] == p[4][k]);
        }
    }
    let em = Seq::<char>::empty();
    lemma_words_run(s, 0, e0, em);
    assert(em + s.subrange(0, e0) =~= p[0]);
    lemma_words_run(s, e0 + 1, e1, em);
    assert(em + s.subrange(e0 + 1, e1) =~= p[1]);
    lemma_words_run(s, e1 + 1, e2, em);
    assert(em + s.subrange(e1 + 1, e2) =~= p[2]);
    lemma_words_run(s, e2 + 1, e3, em);
    assert(em + s.subrange(e2 + 1, e3) =~= p[3]);
    lemma_words_run(s, e3 + 1, e4, em);
    assert(em + s.subrange(e3 + 1, e4) =~= p[4]);
    lemma_words_tail(s, e4, p[4]);
    assert(words(s) =~= seq![p[0]] + (seq![p[1]] + (seq![p[2]] + (seq![p[3]] + seq![p[4]]))));
    assert(p =~= seq![p[0], p[1], p[2], p[3], p[4]]);
}


/// The patient subfields fit the 80-byte field, separated by single spaces.
pub open spec fn patient_fits(p: Seq<Seq<char>>) -> bool {
    &&& p.len() == 5
    &&& forall|k: int| 0 <= k < 5 ==> plain_word(#[trigger] p[k])
    &&& p[0].len() + p[1].len() + p[2].len() + p[3].len() + p[4].len() + 4 <= 80
}

proof fn lemma_patient_reads_back(p: Seq<Seq<char>>)
    requires
        patient_fits(p),
    ensures
        words(trimmed(decoded_text(fit(patient_text(p), 80)))) == p,
{
    assert(plain_word(p[0]) && plain_word(p[1]) && plain_word(p[2]) && plain_word(p[3])
        && plain_word(p[4]));
    lemma_plain_word_bytes(p[0]);
    lemma_plain_word_bytes(p[1]);
    lemma_plain_word_bytes(p[2]);
    lemma_plain_word_bytes(p[3]);
    lemma_plain_word_bytes(p[4]);
    let b0 = ascii_bytes(p[0]);
    let b1 = ascii_bytes(p[1]);
    let b2 = ascii_bytes(p[2]);
    let b3 = ascii_bytes(p[3]);
    let b4 = ascii_bytes(p[4]);
    let sp = seq![32u8];
    let pt = patient_text(p);
    assert(pt == b0 + sp + b1 + sp + b2 + sp + b3 + sp + b4);
    let c = p[0] + seq![' '] + p[1] + seq![' '] + p[2] + seq![' '] + p[3] + seq![' '] + p[4];
    assert(ascii_chars(sp) =~= seq![' ']);
    assert(ascii_chars(pt) =~= c);
    assert(all_ascii(pt)) by {
        assert forall|i: int| 0 <= i < pt.len() implies #[trigger] pt[i] < 128 by {
            assert((pt[i] as char) == c[i]);
        }
    }
    assert(pt.len() == c.len());
    assert(pt[0] as char == p[0][0]);
    assert(pt[pt.len() - 1] as char == p[4][p[4].len() - 1]);
    lemma_padded_text(pt, 80);
    assert(c.subrange(0, c.len() as int) =~= c);
    lemma_five_words(p, c);
}

} // verus!
