use vstd::prelude::*;

use crate::tal_encode::{
    desc_room, fill, in_slot, nat_text, pad_digits, pow10, room_needed, stamp_bytes, strip_zeros,
    tal_block, ticks_text, time_part, unit_bytes, zero_pad,
};
use crate::tal_parse::{quick_count, quick_run, tal_annotations, tal_init};
use vstd::utf8::encode_utf8;
use crate::tal_parse::{
    decimal_bytes, duration_token_ok, is_digit_byte, onset_token_ok, sign_bytes, tal_run, tal_step,
    unit_annotation, TalState,
};
use crate::text::lossy_text;
use crate::types::AnnotationView;
use crate::text::{all_ascii, all_digits, ascii_chars, digit_of, digits_value, is_digit};
use crate::utils::{
    dot_split, frac_ticks, lemma_dot_split_unique, seven_zeros, time_chars_ok, time_chars_value,
    time_magnitude, unsigned_part,
};

verus! {

proof fn lemma_ascii_concat(a: Seq<u8>, b: Seq<u8>)
    ensures
        ascii_chars(a + b) == ascii_chars(a) + ascii_chars(b),
{
    assert(ascii_chars(a + b) =~= ascii_chars(a) + ascii_chars(b));
}

proof fn lemma_digit_char(x: u8)
    requires
        48 <= x <= 57,
    ensures
        is_digit(x as char),
        digit_of(x as char) == x - 48,
{
}

/// The decimal text of `n` reads back as `n`.
proof fn lemma_nat_text(n: nat)
    ensures
        nat_text(n).len() > 0,
        forall|i: int| 0 <= i < nat_text(n).len() ==> is_digit_byte(#[trigger] nat_text(n)[i]),
        all_digits(ascii_chars(nat_text(n))),
        digits_value(ascii_chars(nat_text(n))) == n,
    decreases n,
{
    let c = ascii_chars(nat_text(n));
    if n < 10 {
        lemma_digit_char((48 + n) as u8);
        assert(c.subrange(0, 0) =~= Seq::<char>::empty());
        assert(c[0] == ((48 + n) as u8) as char);
        assert(digits_value(c) == digits_value(c.subrange(0, 0)) * 10 + digit_of(c[0]));
    } else {
        lemma_nat_text(n / 10);
        let d = seq![(48 + n % 10) as u8];
        lemma_ascii_concat(nat_text(n / 10), d);
        lemma_digit_char((48 + n % 10) as u8);
        assert(c.subrange(0, c.len() - 1) =~= ascii_chars(nat_text(n / 10)));
        assert(c[c.len() - 1] == ((48 + n % 10) as u8) as char);
        assert((n / 10) * 10 + n % 10 == n);
        assert forall|i: int| 0 <= i < nat_text(n).len() implies is_digit_byte(
            #[trigger] nat_text(n)[i],
        ) by {
            if i < nat_text(n / 10).len() {
                assert(nat_text(n)[i] == nat_text(n / 10)[i]);
            }
        }
    }
}

/// `f` in exactly `w` digits reads back as `f` modulo `10^w`.
proof fn lemma_pad_digits(f: nat, w: nat)
    ensures
        pad_digits(f, w).len() == w,
        forall|i: int| 0 <= i < w ==> is_digit_byte(#[trigger] pad_digits(f, w)[i]),
        all_digits(ascii_chars(pad_digits(f, w))),
        digits_value(ascii_chars(pad_digits(f, w))) == f % pow10(w),
    decreases w,
{
    let c = ascii_chars(pad_digits(f, w));
    if w == 0 {
        assert(f % 1 == 0);
    } else {
        lemma_pad_digits(f / 10, (w - 1) as nat);
        let d = seq![(48 + f % 10) as u8];
        lemma_ascii_concat(pad_digits(f / 10, (w - 1) as nat), d);
        lemma_digit_char((48 + f % 10) as u8);
        assert(c.subrange(0, c.len() - 1) =~= ascii_chars(pad_digits(f / 10, (w - 1) as nat)));
        let p = pow10((w - 1) as nat);
        assert(p > 0) by {
            lemma_pow10_pos((w - 1) as nat);
        }
        assert(((f / 10) % p) * 10 + f % 10 == f % (10 * p)) by {
            vstd::arithmetic::div_mod::lemma_mod_mod(f as int, 10, p as int);
            vstd::arithmetic::div_mod::lemma_mul_mod_noop_right(10, (f / 10) as int, p as int);
            vstd::arithmetic::div_mod::lemma_fundamental_div_mod(f as int, 10);
            vstd::arithmetic::div_mod::lemma_mod_breakdown(f as int, 10, p as int);
        }
        assert forall|i: int| 0 <= i < w implies is_digit_byte(#[trigger] pad_digits(f, w)[i]) by {
            if i < w - 1 {
                assert(pad_digits(f, w)[i] == pad_digits(f / 10, (w - 1) as nat)[i]);
            }
        }
    }
}

proof fn lemma_pow10_pos(k: nat)
    ensures
        pow10(k) > 0,
    decreases k,
{
    if k > 0 {
        lemma_pow10_pos((k - 1) as nat);
    }
}


proof fn lemma_strip(s: Seq<u8>)
    ensures
        strip_zeros(s).len() <= s.len(),
        strip_zeros(s) == s.subrange(0, strip_zeros(s).len() as int),
        forall|i: int| strip_zeros(s).len() <= i < s.len() ==> #[trigger] s[i] == 48u8,
        strip_zeros(s).len() > 0 ==> strip_zeros(s)[strip_zeros(s).len() - 1] != 48u8,
    decreases s.len(),
{
    if s.len() > 0 && s[s.len() - 1] == 48u8 {
        let t = s.subrange(0, s.len() - 1);
        lemma_strip(t);
        let r = strip_zeros(t);
        assert(r =~= s.subrange(0, r.len() as int));
        assert forall|i: int| r.len() <= i < s.len() implies #[trigger] s[i] == 48u8 by {
            if i < s.len() - 1 {
                assert(s[i] == t[i]);
            }
        }
    } else {
        assert(s.subrange(0, s.len() as int) =~= s);
    }
}

proof fn lemma_zero_digits(s: Seq<u8>)
    requires
        forall|i: int| 0 <= i < s.len() ==> #[trigger] s[i] == 48u8,
    ensures
        digits_value(ascii_chars(s)) == 0,
    decreases s.len(),
{
    if s.len() > 0 {
        let t = s.subrange(0, s.len() - 1);
        lemma_zero_digits(t);
        assert(ascii_chars(s).subrange(0, s.len() - 1) =~= ascii_chars(t));
        lemma_digit_char(48u8);
        assert(ascii_chars(s)[s.len() - 1] == (48u8 as char));
    }
}

/// The fraction written for `f` ticks (stripped of trailing zeros) reads back as `f`.
proof fn lemma_frac_text(f: nat)
    requires
        0 < f < 10_000_000,
    ensures
        strip_zeros(pad_digits(f, 7)).len() > 0,
        forall|i: int|
            0 <= i < strip_zeros(pad_digits(f, 7)).len() ==> is_digit_byte(
                #[trigger] strip_zeros(pad_digits(f, 7))[i],
            ),
        is_digit_byte(strip_zeros(pad_digits(f, 7))[strip_zeros(pad_digits(f, 7)).len() - 1]),
        all_digits(ascii_chars(strip_zeros(pad_digits(f, 7)))),
        frac_ticks(ascii_chars(strip_zeros(pad_digits(f, 7)))) == f,
{
    let p = pad_digits(f, 7);
    let t = strip_zeros(p);
    lemma_pad_digits(f, 7);
    lemma_strip(p);
    assert(pow10(7) == 10_000_000) by {
        reveal_with_fuel(pow10, 8);
    }
    if t.len() == 0 {
        lemma_zero_digits(p);
    }
    assert forall|i: int| 0 <= i < t.len() implies is_digit_byte(#[trigger] t[i]) by {
        assert(t[i] == p[i]);
    }
    let d = ascii_chars(t);
    let e = (d + seven_zeros()).subrange(0, 7);
    assert(e =~= ascii_chars(p)) by {
        assert forall|i: int| 0 <= i < 7 implies e[i] == ascii_chars(p)[i] by {
            if i < t.len() {
                assert(t[i] == p[i]);
            } else {
                assert(p[i] == 48u8);
                lemma_digit_char(48u8);
            }
        }
    }
}

/// The text written for `t` ticks is a TAL time token and reads back as `t`.
pub proof fn lemma_ticks_text_reads_back(t: nat)
    requires
        t <= i64::MAX,
    ensures
        decimal_bytes(ticks_text(t)),
        all_ascii(ticks_text(t)),
        time_chars_ok(ascii_chars(ticks_text(t))),
        time_chars_value(ascii_chars(ticks_text(t))) == t,
{
    let q = t / 10_000_000;
    let f = t % 10_000_000;
    let n = nat_text(q);
    lemma_nat_text(q);
    let tt = ticks_text(t);
    let c = ascii_chars(tt);
    if f == 0 {
        assert(tt == n);
        assert(forall|i: int, j: int| 0 <= i < tt.len() && 0 <= j < tt.len() && #[trigger] tt[i] == 46u8 && #[trigger] tt[j] == 46u8 ==> false) by {
            assert forall|i: int| 0 <= i < tt.len() implies #[trigger] tt[i] != 46u8 by {
                assert(is_digit_byte(n[i]));
            }
        }
        assert(unsigned_part(c) =~= c) by {
            lemma_digit_char(n[0]);
        }
    } else {
        let st = strip_zeros(pad_digits(f, 7));
        lemma_frac_text(f);
        let pos = n.len() as int;
        assert(tt =~= n + seq![46u8] + st);
        lemma_ascii_concat(n + seq![46u8], st);
        lemma_ascii_concat(n, seq![46u8]);
        assert forall|i: int| 0 <= i < tt.len() implies is_digit_byte(#[trigger] tt[i]) || tt[i]
            == 46u8 by {
            if i < pos {
                assert(tt[i] == n[i]);
            } else if i > pos {
                assert(tt[i] == st[i - pos - 1]);
            }
        }
        assert forall|i: int, j: int|
            0 <= i < tt.len() && 0 <= j < tt.len() && #[trigger] tt[i] == 46u8 && #[trigger] tt[j]
                == 46u8 implies i == j by {
            assert forall|k: int| 0 <= k < tt.len() && tt[k] == 46u8 implies k == pos by {
                if k < pos {
                    assert(tt[k] == n[k]);
                } else if k > pos {
                    assert(tt[k] == st[k - pos - 1]);
                }
            }
        }
        assert(tt[tt.len() - 1] == st[st.len() - 1]);
        assert(tt[0] == n[0]);
        assert(unsigned_part(c) =~= c) by {
            lemma_digit_char(n[0]);
        }
        assert(c.subrange(0, pos) =~= ascii_chars(n));
        assert(c.subrange(pos + 1, c.len() as int) =~= ascii_chars(st));
        assert(c[pos] == (46u8 as char));
        assert(dot_split(c, pos));
        assert(!all_digits(c)) by {
            assert(!is_digit(c[pos]));
        }
        assert forall|r: int| dot_split(c, r) implies r == pos by {
            lemma_dot_split_unique(c, r, pos);
        }
    }
    assert forall|i: int| 0 <= i < tt.len() implies #[trigger] tt[i] < 128 by {
        if f == 0 {
            assert(is_digit_byte(n[i]));
        }
    }
}


/// One TAL: `+<t>`, an optional duration, one description, field end, TAL end.
pub open spec fn tal_unit(t: Seq<u8>, dur: Option<Seq<u8>>, desc: Seq<u8>) -> Seq<u8> {
    seq![43u8] + t + match dur {
        Some(x) => seq![21u8] + x,
        None => Seq::empty(),
    } + seq![20u8] + desc + seq![20u8, 0u8]
}

/// The decoder stands between two TALs.
pub open spec fn at_boundary(st: TalState) -> bool {
    !st.stopped && !st.onset && !st.dur_open && !st.dur_done && st.units == 0 && st.buf.len() == 0
        && st.zeros <= 1
}

/// A byte that is neither zero nor a TAL delimiter.
pub open spec fn plain_byte(x: u8) -> bool {
    x != 0 && x != 20 && x != 21
}

/// The annotation one TAL with a description stands for.
pub open spec fn unit_view(t: Seq<u8>, dur: Option<Seq<u8>>, desc: Seq<u8>) -> AnnotationView {
    AnnotationView {
        onset: time_chars_value(ascii_chars(t)) as i64,
        duration: match dur {
            Some(x) => time_chars_value(ascii_chars(x)) as i64,
            None => -1i64,
        },
        description: lossy_text(desc),
    }
}

/// The decoder's state after one TAL.
pub open spec fn after_unit(st: TalState, t: Seq<u8>, dur: Option<Seq<u8>>, desc: Seq<u8>) -> TalState {
    TalState {
        onset: false,
        dur_open: false,
        dur_done: false,
        zeros: 1,
        units: 0,
        buf: Seq::empty(),
        onset_txt: t,
        dur_txt: match dur {
            Some(x) => x,
            None => st.dur_txt,
        },
        stopped: false,
        out: if desc.len() > 0 {
            st.out.push(unit_view(t, dur, desc))
        } else {
            st.out
        },
    }
}

proof fn lemma_step(d: Seq<u8>, k: int, st: TalState)
    requires
        0 <= k < d.len() - 1,
        !st.stopped,
    ensures
        tal_run(d, k, st) == tal_run(d, k + 1, tal_step(d, k, st)),
{
}

/// The decoder gathers a run of plain bytes into the field under way.
proof fn lemma_run_plain(d: Seq<u8>, k: int, m: int, st: TalState)
    requires
        0 <= k,
        0 <= m,
        k + m < d.len(),
        !st.stopped,
        st.zeros <= 1,
        forall|j: int| k <= j < k + m ==> plain_byte(#[trigger] d[j]),
        m > 0 && !st.onset && st.buf.len() == 0 ==> d[k] != 43u8,
    ensures
        tal_run(d, k, st) == tal_run(
            d,
            k + m,
            TalState {
                zeros: if m > 0 {
                    0
                } else {
                    st.zeros
                },
                buf: st.buf + d.subrange(k, k + m),
                ..st
            },
        ),
    decreases m,
{
    if m == 0 {
        assert(st.buf + d.subrange(k, k) =~= st.buf);
        assert(st == TalState { zeros: st.zeros, buf: st.buf + d.subrange(k, k + m), ..st });
    } else {
        lemma_step(d, k, st);
        let nx = tal_step(d, k, st);
        assert(plain_byte(d[k]));
        assert(nx == TalState { zeros: 0, buf: st.buf.push(d[k]), ..st });
        lemma_run_plain(d, k + 1, m - 1, nx);
        assert(nx.buf + d.subrange(k + 1, k + m) =~= st.buf + d.subrange(k, k + m));
    }
}

/// A decimal token holds only digits and one point, none of them delimiters or signs.
proof fn lemma_decimal_plain(t: Seq<u8>)
    requires
        decimal_bytes(t),
    ensures
        forall|j: int| 0 <= j < t.len() ==> plain_byte(#[trigger] t[j]) && t[j] != 43u8,
        sign_bytes(t) == 0,
        onset_token_ok(t),
        duration_token_ok(t),
{
    assert(t.subrange(0, t.len() as int) =~= t);
}

/// One TAL decodes to the annotation it stands for (none when its description is empty).
pub proof fn lemma_run_unit(
    d: Seq<u8>,
    k: int,
    st: TalState,
    t: Seq<u8>,
    dur: Option<Seq<u8>>,
    desc: Seq<u8>,
)
    requires
        0 <= k,
        k + tal_unit(t, dur, desc).len() <= d.len(),
        d.subrange(k, k + tal_unit(t, dur, desc).len()) == tal_unit(t, dur, desc),
        at_boundary(st),
        decimal_bytes(t),
        time_chars_ok(ascii_chars(t)),
        dur is Some ==> decimal_bytes(dur->0) && time_chars_ok(ascii_chars(dur->0)),
        forall|j: int| 0 <= j < desc.len() ==> plain_byte(#[trigger] desc[j]),
    ensures
        tal_run(d, k, st) == tal_run(
            d,
            k + tal_unit(t, dur, desc).len(),
            after_unit(st, t, dur, desc),
        ),
{
    let u = tal_unit(t, dur, desc);
    let dl: int = match dur {
        Some(x) => x.len() + 1int,
        None => 0,
    };
    let t_at = k + 1;
    let t_end = t_at + t.len();
    let desc_at = t_end + dl + 1;
    let desc_end = desc_at + desc.len();
    let nul_at = desc_end + 1;
    assert(u.len() == 1 + t.len() + dl + 1 + desc.len() + 2);
    assert(nul_at + 1 == k + u.len());
    assert forall|j: int| 0 <= j < u.len() implies d[k + j] == #[trigger] u[j] by {
        assert(d.subrange(k, k + u.len())[j] == d[k + j]);
    }
    lemma_decimal_plain(t);
    // the sign
    assert(u[0] == 43u8);
    lemma_step(d, k, st);
    let s1 = TalState { zeros: 0, ..st };
    assert(tal_step(d, k, st) == s1);
    // the onset
    assert forall|j: int| t_at <= j < t_end implies plain_byte(#[trigger] d[j]) by {
        assert(u[j - k] == t[j - k - 1]);
        assert(d[j] == u[j - k]);
    }
    if t.len() > 0 {
        assert(u[1] == t[0]);
        assert(d[t_at] == t[0]);
    }
    lemma_run_plain(d, t_at, t.len() as int, s1);
    assert(d.subrange(t_at, t_end) =~= t) by {
        assert forall|j: int| 0 <= j < t.len() implies d.subrange(t_at, t_end)[j] == t[j] by {
            assert(u[1 + j] == t[j]);
            assert(d[k + 1 + j] == u[1 + j]);
        }
    }
    let s2 = TalState { zeros: 0, buf: t, ..st };
    assert(s1.buf + d.subrange(t_at, t_end) =~= t);
    let s5 = match dur {
        Some(x) => {
            // the duration mark closes the onset
            assert(u[t_end - k] == 21u8);
            lemma_step(d, t_end, s2);
            let s3 = TalState { zeros: 0, onset: true, dur_open: true, onset_txt: t, buf: Seq::empty(), ..st };
            assert(tal_step(d, t_end, s2) == s3);
            lemma_decimal_plain(x);
            let dur_at = t_end + 1;
            let dur_end = dur_at + x.len();
            assert forall|j: int| dur_at <= j < dur_end implies plain_byte(#[trigger] d[j]) by {
                assert(u[j - k] == x[j - dur_at]);
            }
            lemma_run_plain(d, dur_at, x.len() as int, s3);
            assert(d.subrange(dur_at, dur_end) =~= x) by {
                assert forall|j: int| 0 <= j < x.len() implies d.subrange(dur_at, dur_end)[j] == x[j] by {
                    assert(u[dur_at - k + j] == x[j]);
                }
            }
            let s4 = TalState { zeros: 0, onset: true, dur_open: true, onset_txt: t, buf: x, ..st };
            assert(s3.buf + d.subrange(dur_at, dur_end) =~= x);
            assert(u[dur_end - k] == 20u8);
            lemma_step(d, dur_end, s4);
            let s5 = TalState {
                zeros: 0,
                onset: true,
                dur_open: false,
                dur_done: true,
                onset_txt: t,
                dur_txt: x,
                buf: Seq::empty(),
                ..st
            };
            assert(tal_step(d, dur_end, s4) == s5);
            assert(tal_run(d, k, st) == tal_run(d, desc_at, s5));
            s5
        },
        None => {
            assert(u[t_end - k] == 20u8);
            lemma_step(d, t_end, s2);
            let s5 = TalState { zeros: 0, onset: true, onset_txt: t, buf: Seq::empty(), ..st };
            assert(tal_step(d, t_end, s2) == s5);
            assert(tal_run(d, k, st) == tal_run(d, desc_at, s5));
            s5
        },
    };
    // the description
    assert forall|j: int| desc_at <= j < desc_end implies plain_byte(#[trigger] d[j]) by {
        assert(u[j - k] == desc[j - desc_at]);
    }
    lemma_run_plain(d, desc_at, desc.len() as int, s5);
    assert(d.subrange(desc_at, desc_end) =~= desc) by {
        assert forall|j: int| 0 <= j < desc.len() implies d.subrange(desc_at, desc_end)[j] == desc[j] by {
            assert(u[desc_at - k + j] == desc[j]);
        }
    }
    let s6 = TalState {
        zeros: if desc.len() > 0 {
            0
        } else {
            s5.zeros
        },
        buf: desc,
        ..s5
    };
    assert(s5.buf + d.subrange(desc_at, desc_end) =~= desc);
    assert(u[desc_end - k] == 20u8);
    lemma_step(d, desc_end, s6);
    let s7 = tal_step(d, desc_end, s6);
    assert(s7.out == if desc.len() > 0 {
        st.out.push(unit_view(t, dur, desc))
    } else {
        st.out
    }) by {
        if desc.len() > 0 {
            assert(unit_annotation(s6) == Some(unit_view(t, dur, desc)));
        }
    }
    assert(s7.zeros == 0 && !s7.stopped);
    assert(u[nul_at - k] == 0u8);
    assert(d[nul_at - 1] == 20u8);
    if nul_at < d.len() - 1 {
        lemma_step(d, nul_at, s7);
        assert(tal_step(d, nul_at, s7) == after_unit(st, t, dur, desc));
    }
}


proof fn lemma_run_zeros(d: Seq<u8>, k: int, st: TalState)
    requires
        0 <= k,
        forall|j: int| k <= j < d.len() ==> #[trigger] d[j] == 0,
        !st.stopped,
        st.zeros > 0 || k == 0,
    ensures
        tal_run(d, k, st) == st.out,
    decreases d.len() - k,
{
    if k < d.len() - 1 {
        lemma_step(d, k, st);
        let nx = tal_step(d, k, st);
        assert(nx.out == st.out && !nx.stopped && nx.zeros > 0);
        lemma_run_zeros(d, k + 1, nx);
    }
}

/// The description bytes an annotation keeps when written after `used` bytes.
pub open spec fn desc_written(a: AnnotationView, used: int) -> Seq<u8> {
    encode_utf8(a.description).subrange(0, desc_room(used, a))
}

/// An annotation as it reads back after being written after `used` bytes.
pub open spec fn written_annotation(a: AnnotationView, used: int) -> AnnotationView {
    AnnotationView {
        onset: a.onset,
        duration: if a.duration >= 0 {
            a.duration
        } else {
            -1i64
        },
        description: lossy_text(desc_written(a, used)),
    }
}

/// The annotations a slot's block holds, in the order written: those that `fill` places.
pub open spec fn written_list(
    anns: Seq<AnnotationView>,
    i: int,
    used: int,
    start: int,
    end: int,
    ch: int,
    nch: int,
) -> Seq<AnnotationView>
    decreases anns.len() - i,
    when 0 <= i
{
    if i >= anns.len() {
        Seq::empty()
    } else if !in_slot(anns[i], i, start, end, ch, nch) {
        written_list(anns, i + 1, used, start, end, ch, nch)
    } else if used + room_needed(anns[i]) > 118 {
        Seq::empty()
    } else {
        seq![written_annotation(anns[i], used)] + written_list(
            anns,
            i + 1,
            used + unit_bytes(anns[i], used).len(),
            start,
            end,
            ch,
            nch,
        )
    }
}

/// An annotation that can be written and read back: onset and duration in range, and a
/// description with text and without zero bytes or TAL delimiters.
pub open spec fn writable(a: AnnotationView) -> bool {
    &&& a.onset >= 0
    &&& encode_utf8(a.description).len() > 0
    &&& forall|j: int|
        0 <= j < encode_utf8(a.description).len() ==> plain_byte(
            #[trigger] encode_utf8(a.description)[j],
        )
}

proof fn lemma_unit_shape(a: AnnotationView, used: int)
    requires
        writable(a),
        used >= 0,
        used + room_needed(a) <= 118,
    ensures
        unit_bytes(a, used) == tal_unit(
            ticks_text(a.onset as nat),
            if a.duration >= 0 {
                Some(ticks_text(a.duration as nat))
            } else {
                None
            },
            desc_written(a, used),
        ),
        used + unit_bytes(a, used).len() <= 120,
        unit_bytes(a, used)[unit_bytes(a, used).len() - 1] == 0,
        desc_written(a, used).len() > 0,
        forall|j: int| 0 <= j < desc_written(a, used).len() ==> plain_byte(#[trigger] desc_written(a, used)[j]),
        decimal_bytes(ticks_text(a.onset as nat)),
        time_chars_ok(ascii_chars(ticks_text(a.onset as nat))),
        time_chars_value(ascii_chars(ticks_text(a.onset as nat))) == a.onset,
        a.duration >= 0 ==> decimal_bytes(ticks_text(a.duration as nat)) && time_chars_ok(
            ascii_chars(ticks_text(a.duration as nat)),
        ) && time_chars_value(ascii_chars(ticks_text(a.duration as nat))) == a.duration,
{
    lemma_ticks_text_reads_back(a.onset as nat);
    if a.duration >= 0 {
        lemma_ticks_text_reads_back(a.duration as nat);
    }
    let dw = desc_written(a, used);
    assert forall|j: int| 0 <= j < dw.len() implies plain_byte(#[trigger] dw[j]) by {
        assert(dw[j] == encode_utf8(a.description)[j]);
    }
    assert(unit_bytes(a, used) =~= tal_unit(
        ticks_text(a.onset as nat),
        if a.duration >= 0 {
            Some(ticks_text(a.duration as nat))
        } else {
            None
        },
        desc_written(a, used),
    ));
}

proof fn lemma_fill_shape(
    anns: Seq<AnnotationView>,
    i: int,
    cur: Seq<u8>,
    start: int,
    end: int,
    ch: int,
    nch: int,
)
    requires
        0 <= i,
        cur.len() <= 120,
        forall|k: int| 0 <= k < anns.len() ==> writable(#[trigger] anns[k]),
    ensures
        fill(anns, i, cur, start, end, ch, nch).len() <= 120,
        cur.len() <= fill(anns, i, cur, start, end, ch, nch).len(),
        fill(anns, i, cur, start, end, ch, nch).subrange(0, cur.len() as int) == cur,
        (cur.len() == 0 || cur[cur.len() - 1] == 0) ==> (fill(anns, i, cur, start, end, ch, nch).len()
            == 0 || fill(anns, i, cur, start, end, ch, nch)[fill(
            anns,
            i,
            cur,
            start,
            end,
            ch,
            nch,
        ).len() - 1] == 0),
    decreases anns.len() - i,
{
    if i >= anns.len() {
        assert(cur.subrange(0, cur.len() as int) =~= cur);
    } else if !in_slot(anns[i], i, start, end, ch, nch) {
        lemma_fill_shape(anns, i + 1, cur, start, end, ch, nch);
    } else if cur.len() + room_needed(anns[i]) > 118 {
        assert(cur.subrange(0, cur.len() as int) =~= cur);
    } else {
        let u = unit_bytes(anns[i], cur.len() as int);
        lemma_unit_shape(anns[i], cur.len() as int);
        lemma_fill_shape(anns, i + 1, cur + u, start, end, ch, nch);
        let f = fill(anns, i + 1, cur + u, start, end, ch, nch);
        assert(f.subrange(0, cur.len() as int) =~= (cur + u).subrange(0, cur.len() as int));
        assert((cur + u)[(cur + u).len() - 1] == 0);
    }
}

proof fn lemma_run_fill(
    d: Seq<u8>,
    anns: Seq<AnnotationView>,
    i: int,
    cur: Seq<u8>,
    st: TalState,
    start: int,
    end: int,
    ch: int,
    nch: int,
)
    requires
        0 <= i,
        cur.len() <= 120,
        d == zero_pad(fill(anns, i, cur, start, end, ch, nch), 120),
        at_boundary(st),
        st.zeros > 0 || cur.len() == 0,
        forall|k: int| 0 <= k < anns.len() ==> writable(#[trigger] anns[k]),
    ensures
        tal_run(d, cur.len() as int, st) == st.out + written_list(
            anns,
            i,
            cur.len() as int,
            start,
            end,
            ch,
            nch,
        ),
    decreases anns.len() - i,
{
    let f = fill(anns, i, cur, start, end, ch, nch);
    lemma_fill_shape(anns, i, cur, start, end, ch, nch);
    if i >= anns.len() || (in_slot(anns[i], i, start, end, ch, nch) && cur.len() + room_needed(
        anns[i],
    ) > 118) {
        assert(f == cur);
        assert forall|j: int| cur.len() <= j < d.len() implies #[trigger] d[j] == 0 by {}
        lemma_run_zeros(d, cur.len() as int, st);
        assert(st.out + Seq::<AnnotationView>::empty() =~= st.out);
    } else if !in_slot(anns[i], i, start, end, ch, nch) {
        lemma_run_fill(d, anns, i + 1, cur, st, start, end, ch, nch);
    } else {
        let a = anns[i];
        let used = cur.len() as int;
        let u = unit_bytes(a, used);
        lemma_unit_shape(a, used);
        lemma_fill_shape(anns, i + 1, cur + u, start, end, ch, nch);
        let t = ticks_text(a.onset as nat);
        let dur = if a.duration >= 0 {
            Some(ticks_text(a.duration as nat))
        } else {
            None
        };
        let dw = desc_written(a, used);
        assert(d.subrange(used, used + u.len()) =~= u) by {
            let g = fill(anns, i + 1, cur + u, start, end, ch, nch);
            assert forall|j: int| 0 <= j < u.len() implies d.subrange(used, used + u.len())[j]
                == u[j] by {
                assert(g.subrange(0, (cur + u).len() as int)[used + j] == (cur + u)[used + j]);
            }
        }
        lemma_run_unit(d, used, st, t, dur, dw);
        let st2 = after_unit(st, t, dur, dw);
        assert(unit_view(t, dur, dw) == written_annotation(a, used));
        lemma_run_fill(d, anns, i + 1, cur + u, st2, start, end, ch, nch);
        assert(st2.out + written_list(anns, i + 1, used + u.len(), start, end, ch, nch) =~= st.out
            + written_list(anns, i, used, start, end, ch, nch));
    }
}

/// What the encoder writes is what the decoder reads: the block of a record and channel
/// decodes to exactly the annotations placed in it, in order, each with its onset and
/// duration, and its description as cut to fit (at most 40 bytes).
pub proof fn lemma_block_reads_back(
    anns: Seq<AnnotationView>,
    idx: int,
    ch: int,
    nch: int,
    dur: int,
    subsecond: int,
)
    requires
        idx >= 0,
        0 <= ch < nch,
        dur > 0,
        0 <= subsecond < 10_000_000,
        (idx + 1) * dur + 10_000_000 <= i64::MAX,
        forall|k: int| 0 <= k < anns.len() ==> writable(#[trigger] anns[k]),
    ensures
        tal_annotations(tal_block(anns, idx, ch, nch, dur, subsecond)) == written_list(
            anns,
            0,
            if ch == 0 {
                stamp_bytes(
                    (idx * dur + if subsecond > 0 {
                        subsecond
                    } else {
                        0
                    }) as nat,
                ).len() as int
            } else {
                0
            },
            idx * dur,
            idx * dur + dur,
            ch,
            nch,
        ),
{
    let start = idx * dur;
    assert(0 <= idx * dur && idx * dur + dur <= i64::MAX - 10_000_000) by (nonlinear_arith)
        requires
            idx >= 0,
            dur > 0,
            (idx + 1) * dur + 10_000_000 <= i64::MAX,
    ;
    let ts = start + if subsecond > 0 {
        subsecond
    } else {
        0
    };
    let stamp = if ch == 0 {
        stamp_bytes(ts as nat)
    } else {
        Seq::empty()
    };
    let d = tal_block(anns, idx, ch, nch, dur, subsecond);
    lemma_ticks_text_reads_back(ts as nat);
    crate::tal_encode::lemma_ticks_text_len(ts as nat);
    assert(stamp.len() <= 31);
    lemma_fill_shape(anns, 0, stamp, start, start + dur, ch, nch);
    let f = fill(anns, 0, stamp, start, start + dur, ch, nch);
    assert(d.len() == 120);
    assert(d[119] == 0) by {
        if f.len() < 120 {
        } else {
            assert(d[119] == f[119]);
        }
    }
    assert(tal_annotations(d) == tal_run(d, 0, tal_init()));
    if ch == 0 {
        let t = ticks_text(ts as nat);
        assert(stamp =~= tal_unit(t, None, Seq::empty()));
        assert(d.subrange(0, stamp.len() as int) =~= stamp) by {
            assert forall|j: int| 0 <= j < stamp.len() implies d.subrange(0, stamp.len() as int)[j]
                == stamp[j] by {
                assert(f.subrange(0, stamp.len() as int)[j] == stamp[j]);
            }
        }
        lemma_run_unit(d, 0, tal_init(), t, None, Seq::empty());
        let st = after_unit(tal_init(), t, None, Seq::empty());
        lemma_run_fill(d, anns, 0, stamp, st, start, start + dur, ch, nch);
        assert(st.out + written_list(anns, 0, stamp.len() as int, start, start + dur, ch, nch)
            =~= written_list(anns, 0, stamp.len() as int, start, start + dur, ch, nch));
    } else {
        lemma_run_fill(d, anns, 0, stamp, tal_init(), start, start + dur, ch, nch);
        assert(tal_init().out + written_list(anns, 0, 0, start, start + dur, ch, nch) =~= written_list(
            anns,
            0,
            0,
            start,
            start + dur,
            ch,
            nch,
        ));
    }
}


proof fn lemma_written_in_window(
    anns: Seq<AnnotationView>,
    i: int,
    used: int,
    start: int,
    end: int,
    ch: int,
    nch: int,
)
    requires
        0 <= i,
    ensures
        forall|k: int|
            0 <= k < written_list(anns, i, used, start, end, ch, nch).len() ==> start <= (
            #[trigger] written_list(anns, i, used, start, end, ch, nch)[k]).onset < end,
    decreases anns.len() - i,
{
    if i < anns.len() {
        if !in_slot(anns[i], i, start, end, ch, nch) {
            lemma_written_in_window(anns, i + 1, used, start, end, ch, nch);
            assert(written_list(anns, i, used, start, end, ch, nch) == written_list(
                anns,
                i + 1,
                used,
                start,
                end,
                ch,
                nch,
            ));
        } else if used + room_needed(anns[i]) > 118 {
            assert(written_list(anns, i, used, start, end, ch, nch).len() == 0);
        } else {
            let next = used + unit_bytes(anns[i], used).len();
            lemma_written_in_window(anns, i + 1, next, start, end, ch, nch);
            let w = written_list(anns, i, used, start, end, ch, nch);
            let r = written_list(anns, i + 1, next, start, end, ch, nch);
            assert(w == seq![written_annotation(anns[i], used)] + r);
            assert forall|k: int| 0 <= k < w.len() implies start <= (#[trigger] w[k]).onset < end by {
                if k > 0 {
                    assert(w[k] == r[k - 1]);
                } else {
                    assert(w[0] == written_annotation(anns[i], used));
                }
            }
        }
    }
}

/// Every annotation read back from the block of record `idx` has its onset within that
/// record. So a file of `n` records yields no annotation whose onset is at or past
/// `n * dur`, the file's duration.
pub proof fn lemma_block_onsets_in_record(
    anns: Seq<AnnotationView>,
    idx: int,
    ch: int,
    nch: int,
    dur: int,
    subsecond: int,
)
    requires
        idx >= 0,
        0 <= ch < nch,
        dur > 0,
        0 <= subsecond < 10_000_000,
        (idx + 1) * dur + 10_000_000 <= i64::MAX,
        forall|k: int| 0 <= k < anns.len() ==> writable(#[trigger] anns[k]),
    ensures
        forall|k: int|
            0 <= k < tal_annotations(tal_block(anns, idx, ch, nch, dur, subsecond)).len() ==> idx
                * dur <= (#[trigger] tal_annotations(
                tal_block(anns, idx, ch, nch, dur, subsecond),
            )[k]).onset < idx * dur + dur,
{
    lemma_block_reads_back(anns, idx, ch, nch, dur, subsecond);
    let used = if ch == 0 {
        stamp_bytes(
            (idx * dur + if subsecond > 0 {
                subsecond
            } else {
                0
            }) as nat,
        ).len() as int
    } else {
        0
    };
    lemma_written_in_window(anns, 0, used, idx * dur, idx * dur + dur, ch, nch);
}


/// A byte that the bounded count passes over: neither zero nor a field end.
pub open spec fn count_plain(x: u8) -> bool {
    x != 0 && x != 20
}

proof fn lemma_quick_plain(d: Seq<u8>, k: int, m: int, in_desc: bool, dl: nat)
    requires
        0 <= k,
        0 <= m,
        k + m < d.len(),
        forall|j: int| k <= j < k + m ==> count_plain(#[trigger] d[j]),
    ensures
        quick_run(d, k, in_desc, dl) == quick_run(d, k + m, in_desc, dl + m as nat),
    decreases m,
{
    if m > 0 {
        assert(count_plain(d[k]));
        lemma_quick_plain(d, k + 1, m - 1, in_desc, dl + 1);
    }
}

proof fn lemma_quick_zeros(d: Seq<u8>, k: int, in_desc: bool, dl: nat)
    requires
        0 <= k,
        forall|j: int| k <= j < d.len() ==> #[trigger] d[j] == 0,
    ensures
        quick_run(d, k, in_desc, dl) == 0,
    decreases d.len() - k,
{
    if k < d.len() - 1 {
        lemma_quick_zeros(d, k + 1, false, 0);
    }
}

/// The bounded count of one TAL: one when it has a description, none otherwise.
proof fn lemma_quick_unit(
    d: Seq<u8>,
    k: int,
    dl: nat,
    t: Seq<u8>,
    dur: Option<Seq<u8>>,
    desc: Seq<u8>,
)
    requires
        0 <= k,
        k + tal_unit(t, dur, desc).len() <= d.len(),
        d.subrange(k, k + tal_unit(t, dur, desc).len()) == tal_unit(t, dur, desc),
        decimal_bytes(t),
        dur is Some ==> decimal_bytes(dur->0),
        forall|j: int| 0 <= j < desc.len() ==> plain_byte(#[trigger] desc[j]),
    ensures
        quick_run(d, k, false, dl) == (if desc.len() > 0 {
            1int
        } else {
            0int
        }) + quick_run(d, k + tal_unit(t, dur, desc).len(), false, 0),
{
    let u = tal_unit(t, dur, desc);
    let dlen: int = match dur {
        Some(x) => x.len() + 1int,
        None => 0,
    };
    let mark = k + 1 + t.len() + dlen;
    let desc_at = mark + 1;
    let desc_end = desc_at + desc.len();
    let nul_at = desc_end + 1;
    assert(nul_at + 1 == k + u.len());
    assert forall|j: int| 0 <= j < u.len() implies d[k + j] == #[trigger] u[j] by {
        assert(d.subrange(k, k + u.len())[j] == d[k + j]);
    }
    lemma_decimal_plain(t);
    assert forall|j: int| k <= j < mark implies count_plain(#[trigger] d[j]) by {
        let q = j - k;
        assert(d[j] == u[q]);
        if q == 0 {
        } else if q < 1 + t.len() {
            assert(u[q] == t[q - 1]);
        } else if q == 1 + t.len() {
            assert(u[q] == 21u8);
        } else {
            let x = dur->0;
            lemma_decimal_plain(x);
            assert(u[q] == x[q - 2 - t.len()]);
        }
    }
    lemma_quick_plain(d, k, mark - k, false, dl);
    assert(u[mark - k] == 20u8);
    assert forall|j: int| desc_at <= j < desc_end implies count_plain(#[trigger] d[j]) by {
        assert(u[j - k] == desc[j - desc_at]);
        assert(plain_byte(desc[j - desc_at]));
    }
    let dm = (dl + (mark - k)) as nat;
    assert(quick_run(d, mark, false, dm) == quick_run(d, desc_at, true, 0));
    lemma_quick_plain(d, desc_at, desc.len() as int, true, 0);
    assert(u[desc_end - k] == 20u8);
    assert(quick_run(d, desc_end, true, desc.len() as nat) == (if desc.len() > 0 {
        1int
    } else {
        0int
    }) + quick_run(d, nul_at, true, 0));
    assert(u[nul_at - k] == 0u8);
    if nul_at < d.len() - 1 {
        assert(quick_run(d, nul_at, true, 0) == quick_run(d, nul_at + 1, false, 0));
    }
}

proof fn lemma_quick_fill(
    d: Seq<u8>,
    anns: Seq<AnnotationView>,
    i: int,
    cur: Seq<u8>,
    start: int,
    end: int,
    ch: int,
    nch: int,
)
    requires
        0 <= i,
        cur.len() <= 120,
        d == zero_pad(fill(anns, i, cur, start, end, ch, nch), 120),
        forall|k: int| 0 <= k < anns.len() ==> writable(#[trigger] anns[k]),
    ensures
        quick_run(d, cur.len() as int, false, 0) == written_list(
            anns,
            i,
            cur.len() as int,
            start,
            end,
            ch,
            nch,
        ).len(),
    decreases anns.len() - i,
{
    let f = fill(anns, i, cur, start, end, ch, nch);
    lemma_fill_shape(anns, i, cur, start, end, ch, nch);
    if i >= anns.len() || (in_slot(anns[i], i, start, end, ch, nch) && cur.len() + room_needed(
        anns[i],
    ) > 118) {
        assert(f == cur);
        assert forall|j: int| cur.len() <= j < d.len() implies #[trigger] d[j] == 0 by {}
        lemma_quick_zeros(d, cur.len() as int, false, 0);
    } else if !in_slot(anns[i], i, start, end, ch, nch) {
        lemma_quick_fill(d, anns, i + 1, cur, start, end, ch, nch);
    } else {
        let a = anns[i];
        let used = cur.len() as int;
        let u = unit_bytes(a, used);
        lemma_unit_shape(a, used);
        lemma_fill_shape(anns, i + 1, cur + u, start, end, ch, nch);
        let t = ticks_text(a.onset as nat);
        let dur = if a.duration >= 0 {
            Some(ticks_text(a.duration as nat))
        } else {
            None
        };
        let dw = desc_written(a, used);
        assert(d.subrange(used, used + u.len()) =~= u) by {
            let g = fill(anns, i + 1, cur + u, start, end, ch, nch);
            assert forall|j: int| 0 <= j < u.len() implies d.subrange(used, used + u.len())[j]
                == u[j] by {
                assert(g.subrange(0, (cur + u).len() as int)[used + j] == (cur + u)[used + j]);
            }
        }
        lemma_quick_unit(d, used, 0, t, dur, dw);
        lemma_quick_fill(d, anns, i + 1, cur + u, start, end, ch, nch);
    }
}

/// For a block the encoder wrote, the bounded count equals the number of annotations the
/// decoder reads from it; so over files of at most a hundred records the header's count
/// and the annotation list agree.
pub proof fn lemma_quick_count_matches(
    anns: Seq<AnnotationView>,
    idx: int,
    ch: int,
    nch: int,
    dur: int,
    subsecond: int,
)
    requires
        idx >= 0,
        0 <= ch < nch,
        dur > 0,
        0 <= subsecond < 10_000_000,
        (idx + 1) * dur + 10_000_000 <= i64::MAX,
        forall|k: int| 0 <= k < anns.len() ==> writable(#[trigger] anns[k]),
    ensures
        quick_count(tal_block(anns, idx, ch, nch, dur, subsecond)) == tal_annotations(
            tal_block(anns, idx, ch, nch, dur, subsecond),
        ).len(),
{
    lemma_block_reads_back(anns, idx, ch, nch, dur, subsecond);
    let start = idx * dur;
    assert(0 <= idx * dur && idx * dur + dur <= i64::MAX - 10_000_000) by (nonlinear_arith)
        requires
            idx >= 0,
            dur > 0,
            (idx + 1) * dur + 10_000_000 <= i64::MAX,
    ;
    let ts = start + if subsecond > 0 {
        subsecond
    } else {
        0
    };
    let stamp = if ch == 0 {
        stamp_bytes(ts as nat)
    } else {
        Seq::empty()
    };
    let d = tal_block(anns, idx, ch, nch, dur, subsecond);
    lemma_ticks_text_reads_back(ts as nat);
    crate::tal_encode::lemma_ticks_text_len(ts as nat);
    lemma_fill_shape(anns, 0, stamp, start, start + dur, ch, nch);
    let f = fill(anns, 0, stamp, start, start + dur, ch, nch);
    assert(d.len() == 120);
    assert(d[119] == 0) by {
        if f.len() >= 120 {
            assert(d[119] == f[119]);
        }
    }
    if ch == 0 {
        let t = ticks_text(ts as nat);
        assert(stamp =~= tal_unit(t, None, Seq::empty()));
        assert(d.subrange(0, stamp.len() as int) =~= stamp) by {
            assert forall|j: int| 0 <= j < stamp.len() implies d.subrange(0, stamp.len() as int)[j]
                == stamp[j] by {
                assert(f.subrange(0, stamp.len() as int)[j] == stamp[j]);
            }
        }
        lemma_quick_unit(d, 0, 0, t, None, Seq::empty());
    }
    lemma_quick_fill(d, anns, 0, stamp, start, start + dur, ch, nch);
}


/// The decimal text of `n` is non-empty digits that read back as `n`.
pub proof fn lemma_nat_text_pub(n: nat)
    ensures
        nat_text(n).len() > 0,
        forall|i: int| 0 <= i < nat_text(n).len() ==> is_digit_byte(#[trigger] nat_text(n)[i]),
        all_digits(ascii_chars(nat_text(n))),
        digits_value(ascii_chars(nat_text(n))) == n,
{
    lemma_nat_text(n);
}

/// Tick text starts and ends with a digit.
pub proof fn lemma_ticks_text_edges(t: nat)
    requires
        t <= i64::MAX,
    ensures
        ticks_text(t).len() > 0,
        is_digit_byte(ticks_text(t)[0]),
        is_digit_byte(ticks_text(t)[ticks_text(t).len() - 1]),
{
    lemma_ticks_text_reads_back(t);
}

} // verus!
