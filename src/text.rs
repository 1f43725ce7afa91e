use vstd::prelude::*;
use vstd::string::*;

verus! {

/// The characters that `char::is_whitespace` accepts (Unicode White_Space).
pub open spec fn is_ws(c: char) -> bool {
    let v = c as u32;
    (9 <= v && v <= 13) || v == 32 || v == 0x85 || v == 0xa0 || v == 0x1680 || (0x2000 <= v
        && v <= 0x200a) || v == 0x2028 || v == 0x2029 || v == 0x202f || v == 0x205f || v
        == 0x3000
}

pub open spec fn trim_start(s: Seq<char>) -> Seq<char>
    decreases s.len(),
{
    if s.len() > 0 && is_ws(s[0]) {
        trim_start(s.subrange(1, s.len() as int))
    } else {
        s
    }
}

pub open spec fn trim_end(s: Seq<char>) -> Seq<char>
    decreases s.len(),
{
    if s.len() > 0 && is_ws(s[s.len() - 1]) {
        trim_end(s.subrange(0, s.len() - 1))
    } else {
        s
    }
}

/// What `str::trim` leaves of `s`.
pub open spec fn trimmed(s: Seq<char>) -> Seq<char> {
    trim_end(trim_start(s))
}

pub open spec fn is_digit(c: char) -> bool {
    48 <= c as u32 && c as u32 <= 57
}

pub open spec fn digit_of(c: char) -> nat {
    (c as u32 - 48) as nat
}

pub open spec fn all_digits(s: Seq<char>) -> bool {
    forall|i: int| 0 <= i < s.len() ==> is_digit(#[trigger] s[i])
}

/// The value of a string of decimal digits, most significant first.
pub open spec fn digits_value(s: Seq<char>) -> nat
    decreases s.len(),
{
    if s.len() == 0 {
        0
    } else {
        digits_value(s.subrange(0, s.len() - 1)) * 10 + digit_of(s[s.len() - 1])
    }
}

pub fn is_whitespace(c: char) -> (r: bool)
    ensures
        r == is_ws(c),
{
    let v = c as u32;
    (9 <= v && v <= 13) || v == 32 || v == 0x85 || v == 0xa0 || v == 0x1680 || (0x2000 <= v
        && v <= 0x200a) || v == 0x2028 || v == 0x2029 || v == 0x202f || v == 0x205f || v
        == 0x3000
}

/// The characters of `s`, in order.
pub fn chars_of(s: &str) -> (r: Vec<char>)
    ensures
        r@ == s@,
{
    let n = s.unicode_len();
    let mut v: Vec<char> = Vec::new();
    let mut i: usize = 0;
    while i < n
        invariant
            n == s@.len(),
            i <= n,
            v@ == s@.subrange(0, i as int),
        decreases n - i,
    {
        v.push(s.get_char(i));
        i += 1;
        assert(v@ =~= s@.subrange(0, i as int));
    }
    assert(v@ =~= s@);
    v
}

proof fn lemma_trim_start_skip(s: Seq<char>, i: int)
    requires
        0 <= i < s.len(),
        is_ws(s[i]),
    ensures
        trim_start(s.subrange(i, s.len() as int)) == trim_start(s.subrange(i + 1, s.len() as int)),
{
    let t = s.subrange(i, s.len() as int);
    assert(t.subrange(1, t.len() as int) =~= s.subrange(i + 1, s.len() as int));
}

proof fn lemma_trim_end_skip(s: Seq<char>, j: int)
    requires
        0 < j <= s.len(),
        is_ws(s[j - 1]),
    ensures
        trim_end(s.subrange(0, j)) == trim_end(s.subrange(0, j - 1)),
{
    let t = s.subrange(0, j);
    assert(t.subrange(0, t.len() - 1) =~= s.subrange(0, j - 1));
}

/// Bounds `(a, b)` such that `s[a..b]` is `s` trimmed of surrounding whitespace.
pub fn trim_bounds(s: &Vec<char>) -> (r: (usize, usize))
    ensures
        r.0 <= r.1 <= s@.len(),
        s@.subrange(r.0 as int, r.1 as int) == trimmed(s@),
{
    let n = s.len();
    let mut a: usize = 0;
    assert(s@.subrange(0, n as int) =~= s@);
    while a < n && is_whitespace(s[a])
        invariant
            a <= n == s@.len(),
            trim_start(s@) == trim_start(s@.subrange(a as int, n as int)),
        decreases n - a,
    {
        proof {
            lemma_trim_start_skip(s@, a as int);
        }
        a += 1;
    }
    assert(s@.subrange(0, n as int) =~= s@);
    let ghost t = s@.subrange(a as int, n as int);
    assert(trim_start(s@) == t);
    let mut b: usize = n;
    while b > a && is_whitespace(s[b - 1])
        invariant
            a <= b <= n == s@.len(),
            t == s@.subrange(a as int, n as int),
            trim_end(t) == trim_end(s@.subrange(a as int, b as int)),
        decreases b,
    {
        proof {
            let u = s@.subrange(a as int, n as int);
            lemma_trim_end_skip(u, b - a);
            assert(u.subrange(0, b - a) =~= s@.subrange(a as int, b as int));
            assert(u.subrange(0, b - a - 1) =~= s@.subrange(a as int, b - 1));
        }
        b -= 1;
    }
    assert(t.subrange(0, t.len() as int) =~= t);
    (a, b)
}

} // verus!

verus! {

/// `s` trimmed of surrounding whitespace, as characters.
pub fn trimmed_chars(s: &str) -> (r: Vec<char>)
    ensures
        r@ == trimmed(s@),
{
    let v = chars_of(s);
    let (a, b) = trim_bounds(&v);
    let mut r: Vec<char> = Vec::new();
    let mut i: usize = a;
    while i < b
        invariant
            a <= i <= b <= v@.len(),
            r@ == v@.subrange(a as int, i as int),
        decreases b - i,
    {
        r.push(v[i]);
        i += 1;
        assert(r@ =~= v@.subrange(a as int, i as int));
    }
    r
}

pub proof fn lemma_digits_prefix(s: Seq<char>, k: int)
    requires
        all_digits(s),
        0 <= k <= s.len(),
    ensures
        digits_value(s.subrange(0, k)) <= digits_value(s),
    decreases s.len(),
{
    if k < s.len() {
        let t = s.subrange(0, s.len() - 1);
        assert(t.subrange(0, k) =~= s.subrange(0, k));
        lemma_digits_prefix(t, k);
    } else {
        assert(s.subrange(0, k) =~= s);
    }
}

pub proof fn lemma_digits_step(s: Seq<char>, from: int, i: int)
    requires
        0 <= from <= i < s.len(),
    ensures
        digits_value(s.subrange(from, i + 1)) == digits_value(s.subrange(from, i)) * 10
            + digit_of(s[i]),
{
    let t = s.subrange(from, i + 1);
    assert(t.subrange(0, t.len() - 1) =~= s.subrange(from, i));
}

/// The value of the digits `s[from..to]`, if they are all digits and the value is at most `limit`.
pub fn digits_upto(s: &Vec<char>, from: usize, to: usize, limit: u64) -> (r: Option<u64>)
    requires
        from <= to <= s@.len(),
    ensures
        r is Some <==> all_digits(s@.subrange(from as int, to as int)) && digits_value(
            s@.subrange(from as int, to as int),
        ) <= limit,
        r is Some ==> r->0 == digits_value(s@.subrange(from as int, to as int)),
{
    let ghost sub = s@.subrange(from as int, to as int);
    let mut i: usize = from;
    while i < to
        invariant
            from <= i <= to <= s@.len(),
            sub == s@.subrange(from as int, to as int),
            forall|j: int| from <= j < i ==> is_digit(#[trigger] s@[j]),
        decreases to - i,
    {
        let v = s[i] as u32;
        if v < 48 || v > 57 {
            assert(!is_digit(sub[i - from]));
            return None;
        }
        i += 1;
    }
    assert(all_digits(sub)) by {
        assert forall|j: int| 0 <= j < sub.len() implies is_digit(#[trigger] sub[j]) by {
            assert(sub[j] == s@[from + j]);
        }
    }
    let mut x: u64 = 0;
    let mut i: usize = from;
    assert(s@.subrange(from as int, from as int).len() == 0);
    while i < to
        invariant
            from <= i <= to <= s@.len(),
            sub == s@.subrange(from as int, to as int),
            all_digits(sub),
            x == digits_value(s@.subrange(from as int, i as int)),
            x <= limit,
        decreases to - i,
    {
        proof {
            assert(is_digit(sub[i - from]));
            assert(sub[i - from] == s@[i as int]);
            lemma_digits_step(s@, from as int, i as int);
        }
        let d = (s[i] as u32 - 48) as u64;
        if d > limit || x > (limit - d) / 10 {
            proof {
                assert(x * 10 + d > limit) by (nonlinear_arith)
                    requires
                        d > limit || x > (limit - d) / 10,
                        d <= 9,
                ;
                assert(sub.subrange(0, i + 1 - from) =~= s@.subrange(from as int, i + 1));
                lemma_digits_prefix(sub, i + 1 - from);
            }
            return None;
        }
        assert(x * 10 + d <= limit) by (nonlinear_arith)
            requires
                x <= (limit - d) / 10,
                d <= limit,
        ;
        x = x * 10 + d;
        i += 1;
    }
    Some(x)
}

} // verus!

verus! {

/// Names what `String::from_utf8_lossy` makes of a byte sequence.
pub uninterp spec fn lossy_text(b: Seq<u8>) -> Seq<char>;

pub open spec fn all_ascii(b: Seq<u8>) -> bool {
    forall|i: int| 0 <= i < b.len() ==> #[trigger] b[i] < 128
}

/// The characters whose codes are the bytes `b`.
pub open spec fn ascii_chars(b: Seq<u8>) -> Seq<char> {
    b.map_values(|x: u8| x as char)
}

/// What `String::from_utf8_lossy` makes of `b`, spelled out where the bytes are ASCII.
pub open spec fn decoded_text(b: Seq<u8>) -> Seq<char> {
    if all_ascii(b) {
        ascii_chars(b)
    } else {
        lossy_text(b)
    }
}

/// Relies on `String::from_utf8_lossy`: valid UTF-8 (so ASCII) decodes unchanged, and
/// every byte yields at least one character.
#[verifier::external_body]
pub(crate) fn text_from_bytes(b: &[u8]) -> (r: String)
    ensures
        r@ == lossy_text(b@),
        all_ascii(b@) ==> r@ == ascii_chars(b@),
        r@ == decoded_text(b@),
        (r@.len() == 0) == (b@.len() == 0),
{
    String::from_utf8_lossy(b).into_owned()
}

/// The characters whose codes are the ASCII bytes `b`.
pub fn chars_of_ascii(b: &[u8]) -> (r: Vec<char>)
    requires
        all_ascii(b@),
    ensures
        r@ == ascii_chars(b@),
{
    let mut r: Vec<char> = Vec::new();
    let mut i: usize = 0;
    while i < b.len()
        invariant
            i <= b@.len(),
            all_ascii(b@),
            r@ == ascii_chars(b@.subrange(0, i as int)),
        decreases b@.len() - i,
    {
        let x = b[i];
        assert(x < 128);
        r.push(x as char);
        i += 1;
        assert(r@ =~= ascii_chars(b@.subrange(0, i as int)));
    }
    assert(b@.subrange(0, b@.len() as int) =~= b@);
    r
}

} // verus!
