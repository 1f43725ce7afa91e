use vstd::prelude::*;
use vstd::utf8::encode_utf8;

use crate::error::EdfError;
use crate::tal_encode::{lemma_ticks_text_len, nat_text, push_nat, push_ticks, ticks_text};
use crate::types::{SignalParam, StartDate, StartTime};

verus! {

/// Label that marks an annotation channel.
pub open spec fn annotation_label() -> Seq<u8> {
    seq![69u8, 68, 70, 32, 65, 110, 110, 111, 116, 97, 116, 105, 111, 110, 115, 32]
}

pub open spec fn spaces(n: nat) -> Seq<u8> {
    Seq::new(n, |i: int| 32u8)
}

/// `b` cut or padded with spaces to `w` bytes.
pub open spec fn fit(b: Seq<u8>, w: nat) -> Seq<u8> {
    if b.len() >= w {
        b.subrange(0, w as int)
    } else {
        b + spaces((w - b.len()) as nat)
    }
}

/// An integer in decimal, with `-` when negative.
pub open spec fn int_text(v: int) -> Seq<u8> {
    if v < 0 {
        seq![45u8] + nat_text((-v) as nat)
    } else {
        nat_text(v as nat)
    }
}

/// A value in units of 10^-7, in decimal.
pub open spec fn fixed_text(v: int) -> Seq<u8> {
    if v < 0 {
        seq![45u8] + ticks_text((-v) as nat)
    } else {
        ticks_text(v as nat)
    }
}

/// Appends `b` cut or padded with spaces to `w` bytes.
pub fn put_fit(out: &mut Vec<u8>, b: &[u8], w: usize)
    ensures
        final(out)@ == old(out)@ + fit(b@, w as nat),
{
    let n: usize = if b.len() < w {
        b.len()
    } else {
        w
    };
    let mut i: usize = 0;
    while i < n
        invariant
            i <= n <= b@.len(),
            n <= w,
            out@ == old(out)@ + b@.subrange(0, i as int),
        decreases n - i,
    {
        out.push(b[i]);
        i += 1;
        assert(out@ =~= old(out)@ + b@.subrange(0, i as int));
    }
    let mut j: usize = n;
    while j < w
        invariant
            n <= j <= w,
            out@ == old(out)@ + b@.subrange(0, n as int) + spaces((j - n) as nat),
        decreases w - j,
    {
        out.push(32u8);
        j += 1;
        assert(out@ =~= old(out)@ + b@.subrange(0, n as int) + spaces((j - n) as nat));
    }
    assert(fit(b@, w as nat) =~= b@.subrange(0, n as int) + spaces((w - n) as nat));
}

/// The decimal text of an integer.
pub fn int_bytes(v: i64) -> (r: Vec<u8>)
    ensures
        r@ == int_text(v as int),
{
    let mut r: Vec<u8> = Vec::new();
    if v < 0 {
        r.push(45u8);
        let m: u64 = if v == i64::MIN {
            0x8000_0000_0000_0000u64
        } else {
            (-v) as u64
        };
        push_nat(&mut r, m);
    } else {
        push_nat(&mut r, v as u64);
    }
    assert(r@ =~= int_text(v as int));
    r
}

/// The decimal text of a value in units of 10^-7.
pub fn fixed_bytes(v: i64) -> (r: Vec<u8>)
    ensures
        r@ == fixed_text(v as int),
{
    let mut r: Vec<u8> = Vec::new();
    if v < 0 {
        r.push(45u8);
        let m: u64 = if v == i64::MIN {
            0x8000_0000_0000_0000u64
        } else {
            (-v) as u64
        };
        push_ticks(&mut r, m);
    } else {
        push_ticks(&mut r, v as u64);
    }
    assert(r@ =~= fixed_text(v as int));
    r
}

/// Two decimal digits of `v % 100`.
pub open spec fn two_digits(v: nat) -> Seq<u8> {
    seq![(48 + (v % 100) / 10) as u8, (48 + v % 10) as u8]
}

fn put_two(out: &mut Vec<u8>, v: u32)
    ensures
        final(out)@ == old(out)@ + two_digits(v as nat),
{
    out.push((48 + (v % 100) / 10) as u8);
    out.push((48 + v % 10) as u8);
    assert(final(out)@ =~= old(out)@ + two_digits(v as nat));
}

/// The date field: `dd.mm.yy`.
pub open spec fn date_field(d: StartDate) -> Seq<u8> {
    two_digits(d.day as nat) + seq![46u8] + two_digits(d.month as nat) + seq![46u8] + two_digits(d.year as nat)
}

/// The time field: `hh.mm.ss`.
pub open spec fn time_field(t: StartTime) -> Seq<u8> {
    two_digits(t.hour as nat) + seq![46u8] + two_digits(t.minute as nat) + seq![46u8] + two_digits(
        t.second as nat,
    )
}

pub fn date_bytes(d: StartDate) -> (r: Vec<u8>)
    requires
        d.year >= 0,
    ensures
        r@ == date_field(d),
{
    let mut r: Vec<u8> = Vec::new();
    put_two(&mut r, d.day);
    r.push(46u8);
    put_two(&mut r, d.month);
    r.push(46u8);
    put_two(&mut r, d.year as u32);
    assert(r@ =~= date_field(d));
    r
}

pub fn time_bytes(t: StartTime) -> (r: Vec<u8>)
    ensures
        r@ == time_field(t),
{
    let mut r: Vec<u8> = Vec::new();
    put_two(&mut r, t.hour);
    r.push(46u8);
    put_two(&mut r, t.minute);
    r.push(46u8);
    put_two(&mut r, t.second);
    assert(r@ =~= time_field(t));
    r
}


/// The bytes a string is stored as.
pub open spec fn str_bytes(s: Seq<char>) -> Seq<u8> {
    encode_utf8(s)
}

/// Field `k` (label, transducer, dimension, physical min, physical max, digital min,
/// digital max, prefilter, samples per record, reserved) of entry `i` of the signal block:
/// the ordinary signals, then `nch` annotation channels.
pub open spec fn sig_field(sigs: Seq<SignalParam>, i: int, k: int) -> Seq<u8> {
    if i < sigs.len() {
        let s = sigs[i];
        if k == 0 {
            fit(str_bytes(s.label@), 16)
        } else if k == 1 {
            fit(str_bytes(s.transducer@), 80)
        } else if k == 2 {
            fit(str_bytes(s.physical_dimension@), 8)
        } else if k == 3 {
            fit(fixed_text(s.physical_min as int), 8)
        } else if k == 4 {
            fit(fixed_text(s.physical_max as int), 8)
        } else if k == 5 {
            fit(int_text(s.digital_min as int), 8)
        } else if k == 6 {
            fit(int_text(s.digital_max as int), 8)
        } else if k == 7 {
            fit(str_bytes(s.prefilter@), 80)
        } else if k == 8 {
            fit(int_text(s.samples_per_record as int), 8)
        } else {
            spaces(32)
        }
    } else {
        if k == 0 {
            annotation_label()
        } else if k == 1 || k == 7 {
            spaces(80)
        } else if k == 2 {
            spaces(8)
        } else if k == 3 {
            fit(fixed_text(-10_000_000), 8)
        } else if k == 4 {
            fit(fixed_text(10_000_000), 8)
        } else if k == 5 {
            fit(int_text(-32768), 8)
        } else if k == 6 {
            fit(int_text(32767), 8)
        } else if k == 8 {
            fit(int_text(60), 8)
        } else {
            spaces(32)
        }
    }
}

pub open spec fn field_width(k: int) -> nat {
    if k == 0 {
        16
    } else if k == 1 || k == 7 {
        80
    } else if k == 9 {
        32
    } else {
        8
    }
}

/// Field `k` of the first `n` entries, one after another.
pub open spec fn column(sigs: Seq<SignalParam>, k: int, n: int) -> Seq<u8>
    decreases n,
{
    if n <= 0 {
        Seq::empty()
    } else {
        column(sigs, k, n - 1) + sig_field(sigs, n - 1, k)
    }
}

/// The signal block: each field for all `n` entries, field after field.
pub open spec fn signal_block(sigs: Seq<SignalParam>, n: int) -> Seq<u8> {
    column(sigs, 0, n) + column(sigs, 1, n) + column(sigs, 2, n) + column(sigs, 3, n) + column(
        sigs,
        4,
        n,
    ) + column(sigs, 5, n) + column(sigs, 6, n) + column(sigs, 7, n) + column(sigs, 8, n) + column(
        sigs,
        9,
        n,
    )
}

pub proof fn lemma_column_len(sigs: Seq<SignalParam>, k: int, n: int)
    requires
        0 <= k <= 9,
        0 <= n,
    ensures
        column(sigs, k, n).len() == n * field_width(k),
    decreases n,
{
    if n > 0 {
        lemma_column_len(sigs, k, n - 1);
        assert(sig_field(sigs, n - 1, k).len() == field_width(k)) by {
            reveal_with_fuel(crate::tal_encode::nat_text, 2);
        }
        assert((n - 1) * field_width(k) + field_width(k) == n * field_width(k)) by (nonlinear_arith);
        assert(column(sigs, k, n) == column(sigs, k, n - 1) + sig_field(sigs, n - 1, k));
    } else {
        assert(n * field_width(k) == 0) by (nonlinear_arith)
            requires
                n == 0,
        ;
    }
}

fn put_field(out: &mut Vec<u8>, sigs: &Vec<SignalParam>, i: usize, k: u8)
    requires
        k <= 9,
    ensures
        final(out)@ == old(out)@ + sig_field(sigs@, i as int, k as int),
{
    if i < sigs.len() {
        let s = &sigs[i];
        if k == 0 {
            put_fit(out, s.label.as_str().as_bytes(), 16);
        } else if k == 1 {
            put_fit(out, s.transducer.as_str().as_bytes(), 80);
        } else if k == 2 {
            put_fit(out, s.physical_dimension.as_str().as_bytes(), 8);
        } else if k == 3 {
            put_fit(out, fixed_bytes(s.physical_min).as_slice(), 8);
        } else if k == 4 {
            put_fit(out, fixed_bytes(s.physical_max).as_slice(), 8);
        } else if k == 5 {
            put_fit(out, int_bytes(s.digital_min as i64).as_slice(), 8);
        } else if k == 6 {
            put_fit(out, int_bytes(s.digital_max as i64).as_slice(), 8);
        } else if k == 7 {
            put_fit(out, s.prefilter.as_str().as_bytes(), 80);
        } else if k == 8 {
            put_fit(out, int_bytes(s.samples_per_record as i64).as_slice(), 8);
        } else {
            put_fit(out, &[], 32);
            assert(fit(Seq::<u8>::empty(), 32) =~= spaces(32));
        }
    } else {
        if k == 0 {
            let l = [69u8, 68, 70, 32, 65, 110, 110, 111, 116, 97, 116, 105, 111, 110, 115, 32];
            put_fit(out, &l, 16);
            assert(fit(l@, 16) =~= annotation_label());
        } else if k == 1 || k == 7 {
            put_fit(out, &[], 80);
            assert(fit(Seq::<u8>::empty(), 80) =~= spaces(80));
        } else if k == 2 {
            put_fit(out, &[], 8);
            assert(fit(Seq::<u8>::empty(), 8) =~= spaces(8));
        } else if k == 3 {
            put_fit(out, fixed_bytes(-10_000_000).as_slice(), 8);
        } else if k == 4 {
            put_fit(out, fixed_bytes(10_000_000).as_slice(), 8);
        } else if k == 5 {
            put_fit(out, int_bytes(-32768).as_slice(), 8);
        } else if k == 6 {
            put_fit(out, int_bytes(32767).as_slice(), 8);
        } else if k == 8 {
            put_fit(out, int_bytes(60).as_slice(), 8);
        } else {
            put_fit(out, &[], 32);
            assert(fit(Seq::<u8>::empty(), 32) =~= spaces(32));
        }
    }
}

fn put_column(out: &mut Vec<u8>, sigs: &Vec<SignalParam>, n: usize, k: u8)
    requires
        k <= 9,
    ensures
        final(out)@ == old(out)@ + column(sigs@, k as int, n as int),
{
    let mut i: usize = 0;
    while i < n
        invariant
            i <= n,
            k <= 9,
            out@ == old(out)@ + column(sigs@, k as int, i as int),
        decreases n - i,
    {
        put_field(out, sigs, i, k);
        i += 1;
        assert(out@ =~= old(out)@ + column(sigs@, k as int, i as int));
    }
}

/// Writes the signal block for `sigs` followed by `nch` annotation channels.
pub fn write_signal_headers_with_annotations(sigs: &Vec<SignalParam>, nch: usize) -> (r: Vec<u8>)
    requires
        sigs@.len() + nch <= usize::MAX,
    ensures
        r@ == signal_block(sigs@, sigs@.len() + nch),
        r@.len() == 256 * (sigs@.len() + nch),
{
    let n = sigs.len() + nch;
    let mut out: Vec<u8> = Vec::new();
    let mut k: u8 = 0;
    while k < 10
        invariant
            k <= 10,
            n == sigs@.len() + nch,
            out@ == if k == 0 {
                Seq::<u8>::empty()
            } else if k == 1 {
                column(sigs@, 0, n as int)
            } else if k == 2 {
                column(sigs@, 0, n as int) + column(sigs@, 1, n as int)
            } else if k == 3 {
                column(sigs@, 0, n as int) + column(sigs@, 1, n as int) + column(sigs@, 2, n as int)
            } else if k == 4 {
                column(sigs@, 0, n as int) + column(sigs@, 1, n as int) + column(sigs@, 2, n as int)
                    + column(sigs@, 3, n as int)
            } else if k == 5 {
                column(sigs@, 0, n as int) + column(sigs@, 1, n as int) + column(sigs@, 2, n as int)
                    + column(sigs@, 3, n as int) + column(sigs@, 4, n as int)
            } else if k == 6 {
                column(sigs@, 0, n as int) + column(sigs@, 1, n as int) + column(sigs@, 2, n as int)
                    + column(sigs@, 3, n as int) + column(sigs@, 4, n as int) + column(sigs@, 5, n as int)
            } else if k == 7 {
                column(sigs@, 0, n as int) + column(sigs@, 1, n as int) + column(sigs@, 2, n as int)
                    + column(sigs@, 3, n as int) + column(sigs@, 4, n as int) + column(sigs@, 5, n as int)
                    + column(sigs@, 6, n as int)
            } else if k == 8 {
                column(sigs@, 0, n as int) + column(sigs@, 1, n as int) + column(sigs@, 2, n as int)
                    + column(sigs@, 3, n as int) + column(sigs@, 4, n as int) + column(sigs@, 5, n as int)
                    + column(sigs@, 6, n as int) + column(sigs@, 7, n as int)
            } else if k == 9 {
                column(sigs@, 0, n as int) + column(sigs@, 1, n as int) + column(sigs@, 2, n as int)
                    + column(sigs@, 3, n as int) + column(sigs@, 4, n as int) + column(sigs@, 5, n as int)
                    + column(sigs@, 6, n as int) + column(sigs@, 7, n as int) + column(sigs@, 8, n as int)
            } else {
                signal_block(sigs@, n as int)
            },
        decreases 10 - k,
    {
        put_column(&mut out, sigs, n, k);
        k += 1;
    }
    proof {
        lemma_column_len(sigs@, 0, n as int);
        lemma_column_len(sigs@, 1, n as int);
        lemma_column_len(sigs@, 2, n as int);
        lemma_column_len(sigs@, 3, n as int);
        lemma_column_len(sigs@, 4, n as int);
        lemma_column_len(sigs@, 5, n as int);
        lemma_column_len(sigs@, 6, n as int);
        lemma_column_len(sigs@, 7, n as int);
        lemma_column_len(sigs@, 8, n as int);
        lemma_column_len(sigs@, 9, n as int);
        assert(column(sigs@, 0, n as int).len() == n * 16);
        assert(column(sigs@, 1, n as int).len() == n * 80);
        assert(column(sigs@, 2, n as int).len() == n * 8);
        assert(column(sigs@, 3, n as int).len() == n * 8);
        assert(column(sigs@, 4, n as int).len() == n * 8);
        assert(column(sigs@, 5, n as int).len() == n * 8);
        assert(column(sigs@, 6, n as int).len() == n * 8);
        assert(column(sigs@, 7, n as int).len() == n * 80);
        assert(column(sigs@, 8, n as int).len() == n * 8);
        assert(column(sigs@, 9, n as int).len() == n * 32);
    }
    out
}

} // verus!
