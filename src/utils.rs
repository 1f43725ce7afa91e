use vstd::prelude::*;
use vstd::string::*;

use crate::error::EdfError;
use crate::text::{
    all_digits, chars_of, digit_of, digits_upto, digits_value, is_digit, lemma_digits_step,
    trim_bounds, trimmed, trimmed_chars,
};

verus! {

/// Largest whole-second count whose ticks fit in `i64`.
pub const INT_PART_LIMIT: u64 = 922_337_203_685;

/// Length of a leading `+` or `-`.
pub open spec fn sign_len(t: Seq<char>) -> int {
    if t.len() > 0 && (t[0] == '+' || t[0] == '-') {
        1
    } else {
        0
    }
}

pub open spec fn unsigned_part(t: Seq<char>) -> Seq<char> {
    t.subrange(sign_len(t), t.len() as int)
}

pub open spec fn is_negative(t: Seq<char>) -> bool {
    t.len() > 0 && t[0] == '-'
}

/// `b` is split by a decimal point at `p` into two runs of digits.
pub open spec fn dot_split(b: Seq<char>, p: int) -> bool {
    0 <= p < b.len() && b[p] == '.' && all_digits(b.subrange(0, p)) && all_digits(
        b.subrange(p + 1, b.len() as int),
    )
}

pub open spec fn seven_zeros() -> Seq<char> {
    seq!['0', '0', '0', '0', '0', '0', '0']
}

/// Fractional digits as ticks: the first seven digits, right-padded with zeros.
pub open spec fn frac_ticks(d: Seq<char>) -> nat {
    digits_value((d + seven_zeros()).subrange(0, 7))
}

/// Text of an unsigned time in seconds: digits, optionally with one decimal point.
pub open spec fn time_text_ok(b: Seq<char>) -> bool {
    (b.len() > 0 && all_digits(b)) || exists|p: int| dot_split(b, p)
}

pub open spec fn time_magnitude(b: Seq<char>) -> int {
    if all_digits(b) {
        (digits_value(b) * 10_000_000) as int
    } else {
        let p = choose|p: int| dot_split(b, p);
        (digits_value(b.subrange(0, p)) * 10_000_000 + frac_ticks(
            b.subrange(p + 1, b.len() as int),
        )) as int
    }
}

/// `t` spells a time in seconds whose ticks fit in `i64`.
pub open spec fn time_chars_ok(t: Seq<char>) -> bool {
    let b = unsigned_part(t);
    time_text_ok(b) && time_magnitude(b) <= i64::MAX
}

/// The time `t` spells, in ticks (digits past the seventh decimal are dropped).
pub open spec fn time_chars_value(t: Seq<char>) -> int {
    let m = time_magnitude(unsigned_part(t));
    if is_negative(t) {
        -m
    } else {
        m
    }
}

/// `s` is a time in seconds that `parse_edf_time` accepts.
pub open spec fn edf_time_ok(s: Seq<char>) -> bool {
    time_chars_ok(trimmed(s))
}

/// The time `s` denotes, in ticks.
pub open spec fn edf_time_value(s: Seq<char>) -> int {
    time_chars_value(trimmed(s))
}

/// `s` is accepted by `i32`'s `from_str`.
pub open spec fn i32_text_ok(t: Seq<char>) -> bool {
    let b = unsigned_part(t);
    b.len() > 0 && all_digits(b) && (if is_negative(t) {
        digits_value(b) <= 0x8000_0000
    } else {
        digits_value(b) <= 0x7fff_ffff
    })
}

pub open spec fn signed_digits(t: Seq<char>) -> int {
    let v = digits_value(unsigned_part(t)) as int;
    if is_negative(t) {
        -v
    } else {
        v
    }
}

/// What `atoi_nonlocalized` reads from `s`: the trimmed integer, or zero.
pub open spec fn atoi_value(s: Seq<char>) -> int {
    let t = trimmed(s);
    if i32_text_ok(t) {
        signed_digits(t)
    } else {
        0
    }
}

/// Text that `is_integer_number` accepts.
pub open spec fn integer_text(s: Seq<char>) -> bool {
    let t = trimmed(s);
    &&& s.len() > 0
    &&& t.len() > 0
    &&& (t[0] == '+' || t[0] == '-' || is_digit(t[0]))
    &&& forall|i: int| sign_len(t) <= i < t.len() ==> is_digit(#[trigger] t[i]) || t[i] == ' '
    &&& exists|i: int| 0 <= i < t.len() && is_digit(#[trigger] t[i])
}

fn invalid(msg: &str) -> (r: EdfError)
    ensures
        r is InvalidFormat,
{
    EdfError::InvalidFormat(String::from_str(msg))
}

/// Whether `s`, trimmed, is a sign followed by digits and spaces, with at least one digit.
pub fn is_integer_number(s: &str) -> (r: bool)
    ensures
        r == integer_text(s@),
{
    if s.is_empty() {
        return false;
    }
    let t = trimmed_chars(s);
    let n = t.len();
    if n == 0 {
        return false;
    }
    if !(t[0] == '+' || t[0] == '-' || (48 <= t[0] as u32 && t[0] as u32 <= 57)) {
        return false;
    }
    let start: usize = if t[0] == '+' || t[0] == '-' {
        1
    } else {
        0
    };
    let mut seen = false;
    let mut i: usize = 0;
    while i < n
        invariant
            i <= n == t@.len(),
            t@ == trimmed(s@),
            start == sign_len(t@),
            forall|j: int| start <= j < i ==> is_digit(#[trigger] t@[j]) || t@[j] == ' ',
            seen <==> exists|j: int| 0 <= j < i && is_digit(#[trigger] t@[j]),
        decreases n - i,
    {
        let c = t[i];
        let d = 48 <= c as u32 && c as u32 <= 57;
        if i >= start && !d && c != ' ' {
            assert(!is_digit(t@[i as int]));
            return false;
        }
        if d {
            seen = true;
        }
        i += 1;
    }
    seen
}

/// Reads a decimal `i32` from the characters `v` with surrounding whitespace ignored;
/// anything else reads as zero.
pub fn int_of_chars(v: &Vec<char>) -> (r: i32)
    ensures
        r == atoi_value(v@),
{
    let (a, b) = trim_bounds(v);
    let mut t: Vec<char> = Vec::new();
    let mut i: usize = a;
    while i < b
        invariant
            a <= i <= b <= v@.len(),
            t@ == v@.subrange(a as int, i as int),
        decreases b - i,
    {
        t.push(v[i]);
        i += 1;
        assert(t@ =~= v@.subrange(a as int, i as int));
    }
    let n = t.len();
    if n == 0 {
        return 0;
    }
    let negative = t[0] == '-';
    let start: usize = if t[0] == '-' || t[0] == '+' {
        1
    } else {
        0
    };
    assert(unsigned_part(t@) == t@.subrange(start as int, n as int));
    if start == n {
        return 0;
    }
    let limit: u64 = if negative {
        0x8000_0000
    } else {
        0x7fff_ffff
    };
    match digits_upto(&t, start, n, limit) {
        None => 0,
        Some(v) => {
            if negative {
                (0 - (v as i64)) as i32
            } else {
                v as i32
            }
        },
    }
}

/// Reads a decimal `i32` from `s` with surrounding whitespace ignored, independent of locale;
/// text that is not such an integer reads as zero.
pub fn atoi_nonlocalized(s: &str) -> (r: i32)
    ensures
        r == atoi_value(s@),
{
    let v = chars_of(s);
    int_of_chars(&v)
}

/// What a header's numeric field holds in units of 10^-7: its decimal value, or zero when it
/// is not a plain decimal.
pub open spec fn fixed_value(s: Seq<char>) -> int {
    if edf_time_ok(s) {
        edf_time_value(s)
    } else {
        0
    }
}

/// Reads a plain decimal in units of 10^-7, independent of locale; anything else reads as
/// zero.
pub fn fixed_nonlocalized(s: &str) -> (r: i64)
    ensures
        r == fixed_value(s@),
{
    match parse_edf_time(s) {
        Ok(v) => v,
        Err(_) => 0,
    }
}

/// `s` without surrounding whitespace.
pub fn trim_string(s: &str) -> (r: String)
    ensures
        r@ == trimmed(s@),
{
    let v = chars_of(s);
    let (a, b) = trim_bounds(&v);
    String::from_str(s.substring_char(a, b))
}

/// Removes surrounding whitespace from `s` in place.
pub fn trim_padding_spaces(s: &mut String)
    ensures
        final(s)@ == trimmed(old(s)@),
{
    let t = trim_string(s.as_str());
    *s = t;
}

pub open spec fn to_lower(c: char) -> char {
    if 65 <= c as u32 && c as u32 <= 90 {
        ((c as u32) + 32) as char
    } else {
        c
    }
}

/// `u` equals the lower-case word `w` ignoring ASCII case.
pub open spec fn same_word(u: Seq<char>, w: Seq<char>) -> bool {
    u.len() == w.len() && forall|i: int| 0 <= i < u.len() ==> to_lower(#[trigger] u[i]) == w[i]
}

/// Digits with at most one decimal point, and at least one digit.
pub open spec fn mantissa_text(m: Seq<char>) -> bool {
    &&& forall|i: int| 0 <= i < m.len() ==> is_digit(#[trigger] m[i]) || m[i] == '.'
    &&& forall|i: int, j: int|
        0 <= i < m.len() && 0 <= j < m.len() && #[trigger] m[i] == '.' && #[trigger] m[j] == '.'
            ==> i == j
    &&& exists|i: int| 0 <= i < m.len() && is_digit(#[trigger] m[i])
}

/// An optional sign followed by at least one digit.
pub open spec fn exponent_text(x: Seq<char>) -> bool {
    let d = unsigned_part(x);
    d.len() > 0 && all_digits(d)
}

pub open spec fn is_e(c: char) -> bool {
    c == 'e' || c == 'E'
}

/// The grammar that `f64`'s `from_str` accepts: a sign, then `inf`, `infinity`, `nan`
/// (any case), or digits with an optional point and an optional exponent.
pub open spec fn float_text(t: Seq<char>) -> bool {
    let u = unsigned_part(t);
    ||| same_word(u, seq!['i', 'n', 'f'])
    ||| same_word(u, seq!['i', 'n', 'f', 'i', 'n', 'i', 't', 'y'])
    ||| same_word(u, seq!['n', 'a', 'n'])
    ||| mantissa_text(u)
    ||| exists|k: int|
        0 <= k < u.len() && is_e(#[trigger] u[k]) && mantissa_text(u.subrange(0, k))
            && exponent_text(u.subrange(k + 1, u.len() as int))
}

/// Whether the characters `s[from..to]` equal `w`, ignoring ASCII case.
fn word_at(s: &Vec<char>, from: usize, w: &Vec<char>) -> (r: bool)
    requires
        from <= s@.len(),
    ensures
        r == same_word(s@.subrange(from as int, s@.len() as int), w@),
{
    let n = s.len();
    let ghost u = s@.subrange(from as int, n as int);
    if n - from != w.len() {
        return false;
    }
    let mut i: usize = 0;
    while i < w.len()
        invariant
            from <= n == s@.len(),
            u == s@.subrange(from as int, n as int),
            n - from == w@.len(),
            i <= w@.len(),
            forall|j: int| 0 <= j < i ==> to_lower(#[trigger] u[j]) == w@[j],
        decreases w@.len() - i,
    {
        let c = s[from + i];
        let v = c as u32;
        let l = if 65 <= v && v <= 90 {
            ((v + 32) as u8) as char
        } else {
            c
        };
        assert(u[i as int] == c);
        if l != w[i] {
            return false;
        }
        i += 1;
    }
    true
}

/// Whether `s[from..to]` is a mantissa: digits, at most one point, at least one digit.
fn mantissa_at(s: &Vec<char>, from: usize, to: usize) -> (r: bool)
    requires
        from <= to <= s@.len(),
    ensures
        r == mantissa_text(s@.subrange(from as int, to as int)),
{
    let ghost m = s@.subrange(from as int, to as int);
    let mut dot: Option<usize> = None;
    let mut digit = false;
    let mut i: usize = from;
    while i < to
        invariant
            from <= i <= to <= s@.len(),
            m == s@.subrange(from as int, to as int),
            forall|j: int| 0 <= j < i - from ==> is_digit(#[trigger] m[j]) || m[j] == '.',
            dot is None ==> forall|j: int| 0 <= j < i - from ==> #[trigger] m[j] != '.',
            dot is Some ==> from <= dot->0 < i && m[dot->0 - from] == '.' && forall|j: int|
                0 <= j < i - from && #[trigger] m[j] == '.' ==> j == dot->0 - from,
            digit <==> exists|j: int| 0 <= j < i - from && is_digit(#[trigger] m[j]),
        decreases to - i,
    {
        let c = s[i];
        assert(m[i - from] == c);
        if c == '.' {
            if dot.is_some() {
                return false;
            }
            dot = Some(i);
        } else if 48 <= c as u32 && c as u32 <= 57 {
            digit = true;
        } else {
            return false;
        }
        i += 1;
    }
    digit
}

/// Whether `s`, trimmed, is text that `f64`'s `from_str` accepts.
pub fn is_number(s: &str) -> (r: bool)
    ensures
        r == (trimmed(s@).len() > 0 && float_text(trimmed(s@))),
{
    let t = trimmed_chars(s);
    let n = t.len();
    if n == 0 {
        return false;
    }
    let start: usize = if t[0] == '-' || t[0] == '+' {
        1
    } else {
        0
    };
    let ghost u = unsigned_part(t@);
    assert(u == t@.subrange(start as int, n as int));
    if word_at(&t, start, &vec!['i', 'n', 'f']) || word_at(
        &t,
        start,
        &vec!['i', 'n', 'f', 'i', 'n', 'i', 't', 'y'],
    ) || word_at(&t, start, &vec!['n', 'a', 'n']) {
        return true;
    }
    let mut k: usize = start;
    while k < n && t[k] != 'e' && t[k] != 'E'
        invariant
            start <= k <= n == t@.len(),
            forall|j: int| start <= j < k ==> !is_e(#[trigger] t@[j]),
        decreases n - k,
    {
        k += 1;
    }
    if k == n {
        let r = mantissa_at(&t, start, n);
        proof {
            if !r {
                assert forall|q: int|
                    0 <= q < u.len() && is_e(#[trigger] u[q]) implies !(mantissa_text(
                    u.subrange(0, q),
                ) && exponent_text(u.subrange(q + 1, u.len() as int))) by {
                    assert(u[q] == t@[start + q]);
                }
            }
        }
        return r;
    }
    let ghost q = k - start;
    assert(u[q] == t@[k as int]);
    assert(u.subrange(0, q) =~= t@.subrange(start as int, k as int));
    assert(u.subrange(q + 1, u.len() as int) =~= t@.subrange(k + 1, n as int));
    assert(!mantissa_text(u)) by {
        assert(!is_digit(u[q]) && u[q] != '.');
    }
    let m = mantissa_at(&t, start, k);
    let e_start: usize = if k + 1 < n && (t[k + 1] == '-' || t[k + 1] == '+') {
        k + 2
    } else {
        k + 1
    };
    let ghost x = t@.subrange(k + 1, n as int);
    assert(unsigned_part(x) =~= t@.subrange(e_start as int, n as int));
    let e = e_start < n && all_digits_in(&t, e_start, n);
    proof {
        assert forall|p: int|
            0 <= p < u.len() && is_e(#[trigger] u[p]) && mantissa_text(u.subrange(0, p))
                implies p == q by {
            if p < q {
                assert(u[p] == t@[start + p]);
            } else if p > q {
                let w = u.subrange(0, p);
                assert(w[q] == u[q]);
            }
        }
    }
    m && e
}

pub proof fn lemma_dot_split_unique(b: Seq<char>, p: int, q: int)
    requires
        dot_split(b, p),
        dot_split(b, q),
    ensures
        p == q,
{
    if p < q {
        assert(b.subrange(0, q)[p] == b[p]);
    } else if q < p {
        assert(b.subrange(0, p)[q] == b[q]);
    }
}

/// Seven digits of `d[from..to]` from the left, missing ones taken as zeros.
fn frac_digits(s: &Vec<char>, from: usize, to: usize) -> (r: u64)
    requires
        from <= to <= s@.len(),
        all_digits(s@.subrange(from as int, to as int)),
    ensures
        r == frac_ticks(s@.subrange(from as int, to as int)),
        r < 10_000_000,
{
    let ghost d = s@.subrange(from as int, to as int);
    let ghost p = (d + seven_zeros()).subrange(0, 7);
    let mut x: u64 = 0;
    let mut bound: u64 = 1;
    let mut k: usize = 0;
    assert(p.subrange(0, 0).len() == 0);
    while k < 7
        invariant
            k <= 7,
            from <= to <= s@.len(),
            d == s@.subrange(from as int, to as int),
            all_digits(d),
            p == (d + seven_zeros()).subrange(0, 7),
            x == digits_value(p.subrange(0, k as int)),
            x < bound,
            bound <= 10_000_000,
            k == 0 ==> bound == 1,
            k == 1 ==> bound == 10,
            k == 2 ==> bound == 100,
            k == 3 ==> bound == 1000,
            k == 4 ==> bound == 10000,
            k == 5 ==> bound == 100000,
            k == 6 ==> bound == 1000000,
            k == 7 ==> bound == 10000000,
        decreases 7 - k,
    {
        let dg: u64 = if k < to - from {
            assert(is_digit(d[k as int]));
            (s[from + k] as u32 - 48) as u64
        } else {
            0
        };
        proof {
            lemma_digits_step(p, 0, k as int);
            assert(p.subrange(0, k as int) =~= p.subrange(0, k as int));
            if k < to - from {
                assert(p[k as int] == s@[from + k]);
            } else {
                assert(p[k as int] == seven_zeros()[k - d.len()]);
            }
        }
        assert(x * 10 + dg < bound * 10) by (nonlinear_arith)
            requires
                x < bound,
                dg <= 9,
        ;
        x = x * 10 + dg;
        bound = bound * 10;
        k += 1;
    }
    assert(p.subrange(0, 7) =~= p);
    x
}

/// Reads the time in seconds that the characters `t` spell (`[+-]digits[.digits]`)
/// as ticks of 100 ns; digits past the seventh decimal are dropped.
pub fn time_from_chars(t: &Vec<char>) -> (r: Result<i64, EdfError>)
    ensures
        r is Ok <==> time_chars_ok(t@),
        r is Ok ==> r->Ok_0 == time_chars_value(t@),
        r is Err ==> r->Err_0 is InvalidFormat,
{
    let n = t.len();
    if n == 0 {
        assert(!time_text_ok(unsigned_part(t@))) by {
            if exists|p: int| dot_split(unsigned_part(t@), p) {
                let p = choose|p: int| dot_split(unsigned_part(t@), p);
            }
        }
        return Err(invalid("Empty time string"));
    }
    let negative = t[0] == '-';
    let start: usize = if t[0] == '-' || t[0] == '+' {
        1
    } else {
        0
    };
    let ghost b = unsigned_part(t@);
    assert(b == t@.subrange(start as int, n as int));
    let mut p: usize = start;
    while p < n && t[p] != '.'
        invariant
            start <= p <= n == t@.len(),
            forall|j: int| start <= j < p ==> t@[j] != '.',
        decreases n - p,
    {
        p += 1;
    }
    if p == n {
        // no decimal point
        proof {
            if exists|q: int| dot_split(b, q) {
                let q = choose|q: int| dot_split(b, q);
                assert(b[q] == t@[start + q]);
            }
        }
        if start == n {
            return Err(invalid("Invalid integer"));
        }
        match digits_upto(t, start, n, INT_PART_LIMIT) {
            None => {
                proof {
                    if all_digits(b) {
                        assert(digits_value(b) * 10_000_000 > i64::MAX) by (nonlinear_arith)
                            requires
                                digits_value(b) > 922_337_203_685,
                        ;
                    }
                }
                Err(invalid("Invalid integer"))
            },
            Some(v) => {
                let m = (v * 10_000_000) as i64;
                if negative {
                    Ok(-m)
                } else {
                    Ok(m)
                }
            },
        }
    } else {
        let ghost q = p - start;
        assert(b.subrange(0, q) =~= t@.subrange(start as int, p as int));
        assert(b.subrange(q + 1, b.len() as int) =~= t@.subrange(p + 1, n as int));
        assert(b[q] == '.');
        assert(!all_digits(b)) by {
            assert(!is_digit(b[q]));
        }
        match digits_upto(t, start, p, INT_PART_LIMIT) {
            None => {
                proof {
                    if exists|r: int| dot_split(b, r) {
                        let r = choose|r: int| dot_split(b, r);
                        if r != q {
                            if r < q {
                                assert(b[r] == t@[start + r]);
                            } else {
                                assert(b.subrange(0, r)[q] == b[q]);
                            }
                        }
                        assert(digits_value(b.subrange(0, q)) * 10_000_000 > i64::MAX)
                            by (nonlinear_arith)
                            requires
                                digits_value(b.subrange(0, q)) > 922_337_203_685,
                        ;
                    }
                }
                Err(invalid("Invalid integer part"))
            },
            Some(iv) => {
                if !all_digits_in(t, p + 1, n) {
                    proof {
                        if exists|r: int| dot_split(b, r) {
                            let r = choose|r: int| dot_split(b, r);
                            if r < q {
                                assert(b[r] == t@[start + r]);
                            } else if r > q {
                                assert(b.subrange(0, r)[q] == b[q]);
                            }
                        }
                    }
                    return Err(invalid("Invalid decimal part"));
                }
                assert(dot_split(b, q as int));
                proof {
                    assert forall|r: int| dot_split(b, r) implies r == q by {
                        lemma_dot_split_unique(b, r, q as int);
                    }
                }
                let f = frac_digits(t, p + 1, n);
                let m: u64 = iv * 10_000_000;
                if m > (i64::MAX as u64) - f {
                    return Err(invalid("Time value out of range"));
                }
                let v = (m + f) as i64;
                if negative {
                    Ok(-v)
                } else {
                    Ok(v)
                }
            },
        }
    }
}

/// Parses a time in seconds (`[+-]digits[.digits]`, surrounding whitespace allowed)
/// into ticks of 100 ns; digits past the seventh decimal are dropped.
pub fn parse_edf_time(s: &str) -> (r: Result<i64, EdfError>)
    ensures
        r is Ok <==> edf_time_ok(s@),
        r is Ok ==> r->Ok_0 == edf_time_value(s@),
        r is Err ==> r->Err_0 is InvalidFormat,
{
    let t = trimmed_chars(s);
    time_from_chars(&t)
}

/// Whether `s[from..to]` holds only digits.
fn all_digits_in(s: &Vec<char>, from: usize, to: usize) -> (r: bool)
    requires
        from <= to <= s@.len(),
    ensures
        r == all_digits(s@.subrange(from as int, to as int)),
{
    let ghost sub = s@.subrange(from as int, to as int);
    let mut i: usize = from;
    while i < to
        invariant
            from <= i <= to <= s@.len(),
            sub == s@.subrange(from as int, to as int),
            forall|j: int| from <= j < i ==> is_digit(#[trigger] s@[j]),
        decreases to - i,
    {
        let v = s[i] as u32;
        if v < 48 || v > 57 {
            assert(!is_digit(sub[i - from]));
            return false;
        }
        i += 1;
    }
    assert forall|j: int| 0 <= j < sub.len() implies is_digit(#[trigger] sub[j]) by {
        assert(sub[j] == s@[from + j]);
    }
    true
}

} // verus!
