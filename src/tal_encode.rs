use vstd::prelude::*;
use vstd::utf8::encode_utf8;

use crate::tal_parse::{ann_views, TAL_DURATION_START, TAL_FIELD_END};
use crate::types::{Annotation, AnnotationView};

verus! {

/// Bytes of one annotation-channel block in every record.
pub const EDFLIB_ANNOTATION_BYTES: usize = 120;

/// Most bytes of a description that are written.
pub const EDFLIB_WRITE_MAX_ANNOTATION_LEN: usize = 40;

/// Decimal digits of `n`, most significant first.
pub open spec fn nat_text(n: nat) -> Seq<u8>
    decreases n,
{
    if n < 10 {
        seq![(48 + n) as u8]
    } else {
        nat_text(n / 10) + seq![(48 + n % 10) as u8]
    }
}

/// `f` written with exactly `w` digits (leading zeros).
pub open spec fn pad_digits(f: nat, w: nat) -> Seq<u8>
    decreases w,
{
    if w == 0 {
        Seq::empty()
    } else {
        pad_digits(f / 10, (w - 1) as nat) + seq![(48 + f % 10) as u8]
    }
}

pub open spec fn strip_zeros(s: Seq<u8>) -> Seq<u8>
    decreases s.len(),
{
    if s.len() > 0 && s[s.len() - 1] == 48u8 {
        strip_zeros(s.subrange(0, s.len() - 1))
    } else {
        s
    }
}

/// Ticks written as decimal seconds: up to seven decimals, no trailing zeros, no bare point.
pub open spec fn ticks_text(t: nat) -> Seq<u8> {
    let f = t % 10_000_000;
    if f == 0 {
        nat_text(t / 10_000_000)
    } else {
        nat_text(t / 10_000_000) + seq![46u8] + strip_zeros(pad_digits(f, 7))
    }
}

/// The record timestamp that opens the first annotation channel: `+<t>` and an empty
/// description, closing the TAL.
pub open spec fn stamp_bytes(t: nat) -> Seq<u8> {
    seq![43u8] + ticks_text(t) + seq![TAL_FIELD_END, TAL_FIELD_END, 0u8]
}

/// `+<onset>` with `<0x15><duration>` when the duration is known.
pub open spec fn time_part(a: AnnotationView) -> Seq<u8> {
    seq![43u8] + ticks_text(a.onset as nat) + if a.duration >= 0 {
        seq![TAL_DURATION_START] + ticks_text(a.duration as nat)
    } else {
        Seq::empty()
    }
}

/// Room an annotation needs besides its description.
pub open spec fn room_needed(a: AnnotationView) -> int {
    time_part(a).len() + 3int
}

/// How many description bytes fit after `used` bytes and the time part.
pub open spec fn desc_room(used: int, a: AnnotationView) -> int {
    let after = used + time_part(a).len() + 1;
    let room = if 120 - after - 2 < 40 {
        120 - after - 2
    } else {
        40
    };
    let n = encode_utf8(a.description).len() as int;
    if n < room {
        n
    } else {
        room
    }
}

/// One annotation as written after `used` bytes, a TAL of its own: time part, description
/// cut to fit, field end, TAL end.
pub open spec fn unit_bytes(a: AnnotationView, used: int) -> Seq<u8> {
    time_part(a) + seq![TAL_FIELD_END] + encode_utf8(a.description).subrange(
        0,
        desc_room(used, a),
    ) + seq![TAL_FIELD_END, 0u8]
}

/// The annotation belongs to the slot: its onset lies in `[start, end)` and its index
/// is the channel's, round robin over `nch` channels.
pub open spec fn in_slot(a: AnnotationView, i: int, start: int, end: int, ch: int, nch: int) -> bool {
    start <= a.onset < end && i % nch == ch
}

/// Appends the slot's annotations from index `i` on, in order, until one does not fit:
/// that one and all after it are dropped.
pub open spec fn fill(
    anns: Seq<AnnotationView>,
    i: int,
    cur: Seq<u8>,
    start: int,
    end: int,
    ch: int,
    nch: int,
) -> Seq<u8>
    decreases anns.len() - i,
    when 0 <= i
{
    if i >= anns.len() {
        cur
    } else if !in_slot(anns[i], i, start, end, ch, nch) {
        fill(anns, i + 1, cur, start, end, ch, nch)
    } else if cur.len() + room_needed(anns[i]) > 118 {
        cur
    } else {
        fill(anns, i + 1, cur + unit_bytes(anns[i], cur.len() as int), start, end, ch, nch)
    }
}

pub open spec fn zero_pad(s: Seq<u8>, n: int) -> Seq<u8> {
    s + Seq::new((n - s.len()) as nat, |i: int| 0u8)
}

/// The block that annotation channel `ch` carries in record `idx`.
pub open spec fn tal_block(
    anns: Seq<AnnotationView>,
    idx: int,
    ch: int,
    nch: int,
    dur: int,
    subsecond: int,
) -> Seq<u8> {
    let start = idx * dur;
    let stamp = if ch == 0 {
        stamp_bytes(
            (start + if subsecond > 0 {
                subsecond
            } else {
                0
            }) as nat,
        )
    } else {
        Seq::empty()
    };
    zero_pad(fill(anns, 0, stamp, start, start + dur, ch, nch), 120)
}

pub open spec fn pow10(k: nat) -> nat
    decreases k,
{
    if k == 0 {
        1
    } else {
        10 * pow10((k - 1) as nat)
    }
}

pub proof fn lemma_nat_text_len(n: nat, k: nat)
    requires
        k >= 1,
        n < pow10(k),
    ensures
        nat_text(n).len() <= k,
    decreases k,
{
    if n >= 10 {
        assert(k >= 2) by {
            if k == 1 {
                assert(pow10(1) == 10) by {
                    reveal_with_fuel(pow10, 2);
                }
            }
        }
        assert(n / 10 < pow10((k - 1) as nat)) by (nonlinear_arith)
            requires
                n < pow10(k),
                pow10(k) == 10 * pow10((k - 1) as nat),
        ;
        lemma_nat_text_len(n / 10, (k - 1) as nat);
    }
}

pub proof fn lemma_pow10_19()
    ensures
        pow10(19) == 10_000_000_000_000_000_000,
{
    reveal_with_fuel(pow10, 20);
}

proof fn lemma_pad_len(f: nat, w: nat)
    ensures
        pad_digits(f, w).len() == w,
    decreases w,
{
    if w > 0 {
        lemma_pad_len(f / 10, (w - 1) as nat);
    }
}

proof fn lemma_strip_len(s: Seq<u8>)
    ensures
        strip_zeros(s).len() <= s.len(),
    decreases s.len(),
{
    if s.len() > 0 && s[s.len() - 1] == 48u8 {
        lemma_strip_len(s.subrange(0, s.len() - 1));
    }
}

/// Tick text of a value that fits in `i64` takes at most 27 bytes.
pub proof fn lemma_ticks_text_len(t: nat)
    requires
        t <= i64::MAX,
    ensures
        ticks_text(t).len() <= 27,
{
    lemma_pow10_19();
    lemma_nat_text_len(t / 10_000_000, 19);
    lemma_pad_len(t % 10_000_000, 7);
    lemma_strip_len(pad_digits(t % 10_000_000, 7));
}

/// Appends the decimal digits of `n`.
pub fn push_nat(out: &mut Vec<u8>, n: u64)
    ensures
        final(out)@ == old(out)@ + nat_text(n as nat),
    decreases n,
{
    if n >= 10 {
        push_nat(out, n / 10);
    }
    out.push((48 + n % 10) as u8);
    proof {
        if n >= 10 {
            assert(final(out)@ =~= old(out)@ + nat_text(n as nat));
        } else {
            assert(final(out)@ =~= old(out)@ + nat_text(n as nat));
        }
    }
}

/// Appends `f` written with exactly `w` digits.
fn push_padded(out: &mut Vec<u8>, f: u64, w: u64)
    ensures
        final(out)@ == old(out)@ + pad_digits(f as nat, w as nat),
    decreases w,
{
    if w > 0 {
        push_padded(out, f / 10, w - 1);
        out.push((48 + f % 10) as u8);
        assert(final(out)@ =~= old(out)@ + pad_digits(f as nat, w as nat));
    } else {
        assert(final(out)@ =~= old(out)@ + pad_digits(f as nat, w as nat));
    }
}

proof fn lemma_strip_step(f: nat, w: nat)
    requires
        w > 0,
        f % 10 == 0,
    ensures
        strip_zeros(pad_digits(f, w)) == strip_zeros(pad_digits(f / 10, (w - 1) as nat)),
{
    let s = pad_digits(f, w);
    assert(s.subrange(0, s.len() - 1) =~= pad_digits(f / 10, (w - 1) as nat));
}

proof fn lemma_strip_stop(f: nat, w: nat)
    requires
        w > 0,
        f % 10 != 0,
    ensures
        strip_zeros(pad_digits(f, w)) == pad_digits(f, w),
{
}

/// Appends `t` ticks as decimal seconds.
pub fn push_ticks(out: &mut Vec<u8>, t: u64)
    ensures
        final(out)@ == old(out)@ + ticks_text(t as nat),
{
    push_nat(out, t / 10_000_000);
    let f0 = t % 10_000_000;
    if f0 == 0 {
        return;
    }
    out.push(46u8);
    let mut f = f0;
    let mut w: u64 = 7;
    assert(pow10(7) == 10_000_000) by {
        reveal_with_fuel(pow10, 8);
    }
    while f % 10 == 0
        invariant
            0 < f <= f0,
            1 <= w <= 7,
            strip_zeros(pad_digits(f0 as nat, 7)) == strip_zeros(pad_digits(f as nat, w as nat)),
            f < pow10(w as nat),
        decreases w,
    {
        proof {
            lemma_strip_step(f as nat, w as nat);
            if w == 1 {
                assert(pow10(1) == 10) by {
                    reveal_with_fuel(pow10, 2);
                }
            }
            assert(f / 10 < pow10((w - 1) as nat)) by (nonlinear_arith)
                requires
                    f < pow10(w as nat),
                    pow10(w as nat) == 10 * pow10((w - 1) as nat),
            ;
        }
        f = f / 10;
        w = w - 1;
    }
    proof {
        lemma_strip_stop(f as nat, w as nat);
    }
    push_padded(out, f, w);
    assert(final(out)@ =~= old(out)@ + ticks_text(t as nat)) by {
        assert(pow10(7) == 10_000_000) by {
            reveal_with_fuel(pow10, 8);
        }
    }
}

/// Appends the first `n` bytes of `b`.
pub fn append_prefix(out: &mut Vec<u8>, b: &[u8], n: usize)
    requires
        n <= b@.len(),
    ensures
        final(out)@ == old(out)@ + b@.subrange(0, n as int),
{
    let mut i: usize = 0;
    while i < n
        invariant
            i <= n <= b@.len(),
            out@ == old(out)@ + b@.subrange(0, i as int),
        decreases n - i,
    {
        out.push(b[i]);
        i += 1;
        assert(out@ =~= old(out)@ + b@.subrange(0, i as int));
    }
}

/// Pads a block with zero bytes to its full size.
fn finish_block(tal: Vec<u8>) -> (r: Vec<u8>)
    requires
        tal@.len() <= EDFLIB_ANNOTATION_BYTES,
    ensures
        r@ == zero_pad(tal@, 120),
{
    let mut r = tal;
    let ghost t = r@;
    while r.len() < EDFLIB_ANNOTATION_BYTES
        invariant
            t.len() <= r@.len() <= 120,
            r@ == zero_pad(t, r@.len() as int),
        decreases 120 - r@.len(),
    {
        r.push(0u8);
        assert(r@ =~= zero_pad(t, r@.len() as int));
    }
    r
}

/// The time part of an annotation: `+<onset>` and, when known, `<0x15><duration>`.
fn time_part_bytes(a: &Annotation) -> (r: Vec<u8>)
    requires
        a.onset >= 0,
    ensures
        r@ == time_part(a@),
        r@.len() <= 56,
{
    let mut r: Vec<u8> = Vec::new();
    r.push(43u8);
    push_ticks(&mut r, a.onset as u64);
    proof {
        lemma_ticks_text_len(a.onset as nat);
    }
    if a.duration >= 0 {
        r.push(TAL_DURATION_START);
        push_ticks(&mut r, a.duration as u64);
        proof {
            lemma_ticks_text_len(a.duration as nat);
        }
        assert(r@ =~= time_part(a@));
    } else {
        assert(r@ =~= time_part(a@));
    }
    r
}

/// Renders the 120-byte block that annotation channel `channel_idx` carries in record
/// `data_record_index`. The first channel opens with the record's timestamp (its start,
/// the sub-second start offset included); then come the
/// annotations whose onset lies in the record and whose index falls to this channel, round
/// robin, in the order added, each as a TAL of its own. Descriptions are cut to fit (40 bytes
/// at most); an annotation whose time part no longer fits is dropped, with all after it.
pub fn generate_annotation_tal_for_channel(
    annotations: &Vec<Annotation>,
    data_record_index: u64,
    channel_idx: usize,
    n_channels: usize,
    datarecord_duration: i64,
    starttime_subsecond: i64,
) -> (r: Vec<u8>)
    requires
        channel_idx < n_channels,
        datarecord_duration > 0,
        0 <= starttime_subsecond < 10_000_000,
        (data_record_index + 1) * datarecord_duration + 10_000_000 <= i64::MAX,
    ensures
        r@ == tal_block(
            ann_views(annotations@),
            data_record_index as int,
            channel_idx as int,
            n_channels as int,
            datarecord_duration as int,
            starttime_subsecond as int,
        ),
        r@.len() == 120,
{
    let ghost views = ann_views(annotations@);
    assert(data_record_index * datarecord_duration + datarecord_duration == (data_record_index
        + 1) * datarecord_duration) by (nonlinear_arith);
    assert(0 <= data_record_index <= data_record_index * datarecord_duration) by (nonlinear_arith)
        requires
            datarecord_duration > 0,
            data_record_index >= 0,
    ;
    let start: i64 = data_record_index as i64 * datarecord_duration;
    let end: i64 = start + datarecord_duration;
    let mut tal: Vec<u8> = Vec::new();
    if channel_idx == 0 {
        let extra: i64 = if starttime_subsecond > 0 {
            starttime_subsecond
        } else {
            0
        };
        tal.push(43u8);
        push_ticks(&mut tal, (start + extra) as u64);
        tal.push(TAL_FIELD_END);
        tal.push(TAL_FIELD_END);
        tal.push(0u8);
        proof {
            lemma_ticks_text_len((start + extra) as nat);
        }
    }
    let ghost stamp = tal@;
    assert(stamp == if channel_idx == 0 {
        stamp_bytes(
            (start + if starttime_subsecond > 0 {
                starttime_subsecond as int
            } else {
                0
            }) as nat,
        )
    } else {
        Seq::<u8>::empty()
    }) by {
        if channel_idx == 0 {
            assert(stamp =~= stamp_bytes(
                (start + if starttime_subsecond > 0 {
                    starttime_subsecond as int
                } else {
                    0
                }) as nat,
            ));
        }
    }
    let mut i: usize = 0;
    while i < annotations.len()
        invariant
            views == ann_views(annotations@),
            i <= annotations@.len(),
            0 <= start,
            start == data_record_index * datarecord_duration,
            end == start + datarecord_duration,
            stamp == if channel_idx == 0 {
                stamp_bytes(
                    (start + if starttime_subsecond > 0 {
                        starttime_subsecond as int
                    } else {
                        0
                    }) as nat,
                )
            } else {
                Seq::<u8>::empty()
            },
            channel_idx < n_channels,
            tal@.len() <= 120,
            fill(views, i as int, tal@, start as int, end as int, channel_idx as int, n_channels as int)
                == fill(views, 0, stamp, start as int, end as int, channel_idx as int, n_channels as int),
        decreases annotations@.len() - i,
    {
        let a = &annotations[i];
        assert(views[i as int] == a@);
        if start <= a.onset && a.onset < end && i % n_channels == channel_idx {
            let tp = time_part_bytes(a);
            if tal.len() + tp.len() + 3 > 118 {
                assert(fill(views, i as int, tal@, start as int, end as int, channel_idx as int, n_channels as int) == tal@);
                return finish_block(tal);
            }
            let ghost used = tal@.len() as int;
            let ghost old_tal = tal@;
            append_prefix(&mut tal, tp.as_slice(), tp.len());
            assert(tp@.subrange(0, tp@.len() as int) =~= tp@);
            tal.push(TAL_FIELD_END);
            let desc = a.description.as_str().as_bytes();
            let after = tal.len();
            let room: usize = if 120 - after - 2 < EDFLIB_WRITE_MAX_ANNOTATION_LEN {
                120 - after - 2
            } else {
                EDFLIB_WRITE_MAX_ANNOTATION_LEN
            };
            let take: usize = if desc.len() < room {
                desc.len()
            } else {
                room
            };
            assert(take == desc_room(used, a@));
            let ghost before = tal@;
            append_prefix(&mut tal, desc, take);
            tal.push(TAL_FIELD_END);
            tal.push(0u8);
            assert(tal@ =~= before + desc@.subrange(0, take as int) + seq![TAL_FIELD_END, 0u8]);
            assert(tal@ =~= old_tal + unit_bytes(a@, used));
            assert(fill(views, i as int, old_tal, start as int, end as int, channel_idx as int, n_channels as int)
                == fill(views, i + 1, tal@, start as int, end as int, channel_idx as int, n_channels as int));
        }
        i += 1;
    }
    finish_block(tal)
}


proof fn lemma_fill_ignores_outside(
    a1: Seq<AnnotationView>,
    a2: Seq<AnnotationView>,
    i: int,
    cur: Seq<u8>,
    start: int,
    end: int,
    ch: int,
    nch: int,
)
    requires
        0 <= i,
        a1.len() == a2.len(),
        forall|k: int|
            0 <= k < a1.len() && (start <= (#[trigger] a1[k]).onset < end || start <= a2[k].onset
                < end) ==> a1[k] == a2[k],
    ensures
        fill(a1, i, cur, start, end, ch, nch) == fill(a2, i, cur, start, end, ch, nch),
    decreases a1.len() - i,
{
    if i < a1.len() {
        if !in_slot(a1[i], i, start, end, ch, nch) {
            lemma_fill_ignores_outside(a1, a2, i + 1, cur, start, end, ch, nch);
        } else if cur.len() + room_needed(a1[i]) <= 118 {
            lemma_fill_ignores_outside(
                a1,
                a2,
                i + 1,
                cur + unit_bytes(a1[i], cur.len() as int),
                start,
                end,
                ch,
                nch,
            );
        }
    }
}

/// A record's annotation block does not depend on annotations whose onset lies outside the
/// record: two annotation lists that agree wherever either has an onset inside the record
/// give the same block. So an annotation whose onset is at or past the end of the last
/// record written never reaches the file.
pub proof fn lemma_block_ignores_outside(
    a1: Seq<AnnotationView>,
    a2: Seq<AnnotationView>,
    idx: int,
    ch: int,
    nch: int,
    dur: int,
    subsecond: int,
)
    requires
        a1.len() == a2.len(),
        forall|k: int|
            0 <= k < a1.len() && (idx * dur <= (#[trigger] a1[k]).onset < idx * dur + dur || idx
                * dur <= a2[k].onset < idx * dur + dur) ==> a1[k] == a2[k],
    ensures
        tal_block(a1, idx, ch, nch, dur, subsecond) == tal_block(a2, idx, ch, nch, dur, subsecond),
{
    let start = idx * dur;
    let stamp = if ch == 0 {
        stamp_bytes(
            (start + if subsecond > 0 {
                subsecond
            } else {
                0
            }) as nat,
        )
    } else {
        Seq::empty()
    };
    lemma_fill_ignores_outside(a1, a2, 0, stamp, start, start + dur, ch, nch);
}

} // verus!
