use vstd::prelude::*;
use vstd::string::*;
use vstd::utf8::valid_utf8;

use crate::error::EdfError;
use crate::text::{all_ascii, ascii_chars, chars_of, text_from_bytes};
use vstd::utf8::{encode_utf8, encode_utf8_valid_utf8, is_ascii_chars, is_ascii_chars_encode_utf8};

verus! {

/// Relies on `std::str::from_utf8`: it accepts exactly the valid UTF-8 sequences.
#[verifier::external_body]
fn utf8_ok(b: &[u8]) -> (r: bool)
    ensures
        r == valid_utf8(b@),
{
    std::str::from_utf8(b).is_ok()
}

/// The bytes of `s` with every character outside ASCII replaced by `_`.
pub open spec fn ascii_bytes(s: Seq<char>) -> Seq<u8> {
    s.map_values(|c: char| if (c as u32) < 128 { c as u32 as u8 } else { 95u8 })
}

/// The bytes of `s` with every character outside ASCII replaced by `_`.
pub fn ascii_bytes_of(s: &str) -> (r: Vec<u8>)
    ensures
        r@ == ascii_bytes(s@),
        forall|i: int| 0 <= i < r@.len() ==> #[trigger] r@[i] < 128,
{
    let v = chars_of(s);
    let mut r: Vec<u8> = Vec::new();
    let mut i: usize = 0;
    while i < v.len()
        invariant
            v@ == s@,
            i <= v@.len(),
            r@ == ascii_bytes(v@.subrange(0, i as int)),
            forall|j: int| 0 <= j < r@.len() ==> #[trigger] r@[j] < 128,
        decreases v@.len() - i,
    {
        let c = v[i];
        let cv = c as u32;
        let b: u8 = if cv < 128 {
            cv as u8
        } else {
            95u8
        };
        assert(b < 128) by (bit_vector)
            requires
                b == (if cv < 128 { cv as u8 } else { 95u8 }),
        ;
        r.push(b);
        i += 1;
        assert(r@ =~= ascii_bytes(v@.subrange(0, i as int)));
    }
    assert(v@.subrange(0, v@.len() as int) =~= v@);
    r
}

/// `s` with every character outside ASCII replaced by `_`.
pub fn to_ascii(s: &str) -> (r: String)
    ensures
        r@ == ascii_chars(ascii_bytes(s@)),
        r@.len() == s@.len(),
{
    let b = ascii_bytes_of(s);
    text_from_bytes(b.as_slice())
}

/// ASCII bytes are valid UTF-8: they are the encoding of their own characters.
pub proof fn lemma_ascii_valid_utf8(b: Seq<u8>)
    requires
        all_ascii(b),
    ensures
        valid_utf8(b),
{
    let c = ascii_chars(b);
    assert(is_ascii_chars(c)) by {
        assert forall|i: int| 0 <= i < c.len() implies '\0' <= #[trigger] c[i] <= '\u{7f}' by {
            assert(b[i] < 128);
        }
    }
    is_ascii_chars_encode_utf8(c);
    assert(encode_utf8(c) =~= b) by {
        assert forall|i: int| 0 <= i < b.len() implies encode_utf8(c)[i] == b[i] by {
            assert(c[i] as u8 == encode_utf8(c)[i]);
            assert(b[i] < 128);
            assert((b[i] as char) as u8 == b[i]);
        }
    }
    encode_utf8_valid_utf8(c);
}

/// Every byte is printable ASCII and there are exactly 80 of them.
pub open spec fn printable_field(f: Seq<u8>) -> bool {
    f.len() == 80 && forall|i: int| 0 <= i < f.len() ==> 32 <= #[trigger] f[i] <= 126
}

/// Whether a recording field is 80 printable ASCII bytes.
pub fn validate_recording_field(field: &[u8]) -> (r: bool)
    ensures
        r == printable_field(field@),
{
    if field.len() != 80 {
        return false;
    }
    let mut i: usize = 0;
    while i < field.len()
        invariant
            i <= field@.len() == 80,
            forall|j: int| 0 <= j < i ==> 32 <= #[trigger] field@[j] <= 126,
        decreases field@.len() - i,
    {
        if field[i] < 32 || field[i] > 126 {
            return false;
        }
        i += 1;
    }
    true
}

pub open spec fn is_digit_u8(b: u8) -> bool {
    48 <= b <= 57
}

/// The three-letter upper-case month names of a recording start date.
pub open spec fn month_name(a: u8, b: u8, c: u8) -> bool {
    ||| (a == 74u8 && b == 65u8 && c == 78u8)
    ||| (a == 70u8 && b == 69u8 && c == 66u8)
    ||| (a == 77u8 && b == 65u8 && c == 82u8)
    ||| (a == 65u8 && b == 80u8 && c == 82u8)
    ||| (a == 77u8 && b == 65u8 && c == 89u8)
    ||| (a == 74u8 && b == 85u8 && c == 78u8)
    ||| (a == 74u8 && b == 85u8 && c == 76u8)
    ||| (a == 65u8 && b == 85u8 && c == 71u8)
    ||| (a == 83u8 && b == 69u8 && c == 80u8)
    ||| (a == 79u8 && b == 67u8 && c == 84u8)
    ||| (a == 78u8 && b == 79u8 && c == 86u8)
    ||| (a == 68u8 && b == 69u8 && c == 67u8)
}

/// The start date `dd-MMM-yyyy` at byte 10 of the field, followed by one space.
pub open spec fn dated_ok(f: Seq<u8>) -> bool {
    &&& f[21] == 32u8 && f[22] != 32u8
    &&& f[12] == 45u8 && f[16] == 45u8
    &&& is_digit_u8(f[10]) && is_digit_u8(f[11])
    &&& is_digit_u8(f[17]) && is_digit_u8(f[18]) && is_digit_u8(f[19]) && is_digit_u8(f[20])
    &&& 1 <= (f[10] - 48) * 10 + (f[11] - 48) <= 31
    &&& month_name(f[13], f[14], f[15])
}

/// From byte `i` on: the first two spaces come before the last byte, and neither is
/// followed by another space.
pub open spec fn spaces_scan(f: Seq<u8>, i: int, n: int) -> bool
    decreases 80 - i,
{
    if i >= 80 {
        true
    } else if i > 78 {
        false
    } else if f[i] == 32u8 && f[i + 1] == 32u8 {
        false
    } else if f[i] == 32u8 && n >= 1 {
        true
    } else {
        spaces_scan(f, i + 1, if f[i] == 32u8 { n + 1 } else { n })
    }
}

/// The rules an EDF+ recording field obeys: `Startdate `, then `X` or a date, then
/// subfields separated by single spaces.
pub open spec fn recording_field_ok(f: Seq<u8>) -> bool {
    &&& f.len() == 80
    &&& f.subrange(0, 10) == seq![83u8, 116, 97, 114, 116, 100, 97, 116, 101, 32]
    &&& if f[10] == 88u8 {
        f[11] == 32u8 && f[12] != 32u8 && spaces_scan(f, 12, 0)
    } else {
        dated_ok(f) && spaces_scan(f, 22, 0)
    }
}

fn month_ok(a: u8, b: u8, c: u8) -> (r: bool)
    ensures
        r == month_name(a, b, c),
{
    (a == 74u8 && b == 65u8 && c == 78u8)
        || (a == 70u8 && b == 69u8 && c == 66u8)
        || (a == 77u8 && b == 65u8 && c == 82u8)
        || (a == 65u8 && b == 80u8 && c == 82u8)
        || (a == 77u8 && b == 65u8 && c == 89u8)
        || (a == 74u8 && b == 85u8 && c == 78u8)
        || (a == 74u8 && b == 85u8 && c == 76u8)
        || (a == 65u8 && b == 85u8 && c == 71u8)
        || (a == 83u8 && b == 69u8 && c == 80u8)
        || (a == 79u8 && b == 67u8 && c == 84u8)
        || (a == 78u8 && b == 79u8 && c == 86u8)
        || (a == 68u8 && b == 69u8 && c == 67u8)
}

fn spaces_ok(f: &[u8], p: usize) -> (r: bool)
    requires
        f@.len() == 80,
        p <= 80,
    ensures
        r == spaces_scan(f@, p as int, 0),
{
    let mut i: usize = p;
    let mut n: u64 = 0;
    while i < 80
        invariant
            f@.len() == 80,
            p <= i <= 80,
            n <= 1,
            spaces_scan(f@, p as int, 0) == spaces_scan(f@, i as int, n as int),
        decreases 80 - i,
    {
        if i > 78 {
            return false;
        }
        if f[i] == 32u8 && f[i + 1] == 32u8 {
            return false;
        }
        if f[i] == 32u8 && n >= 1 {
            return true;
        }
        if f[i] == 32u8 {
            n += 1;
        }
        i += 1;
    }
    true
}

fn field_error() -> (r: EdfError)
    ensures
        r is InvalidFormat,
{
    EdfError::InvalidFormat(String::from_str("Recording field does not comply with EDF+"))
}

/// Checks the recording field (bytes 88 to 168 of a main header) against the EDF+ rules
/// when the file is marked EDF+ or BDF+.
pub fn check_recording_field(edfplus: bool, bdfplus: bool, header: &[u8]) -> (r: Result<
    (),
    EdfError,
>)
    ensures
        r is Ok <==> (!edfplus && !bdfplus) || (header@.len() >= 168 && valid_utf8(
            header@.subrange(88, 168),
        ) && recording_field_ok(header@.subrange(88, 168))),
        r is Err ==> r->Err_0 is InvalidFormat,
{
    if !edfplus && !bdfplus {
        return Ok(());
    }
    if header.len() < 168 {
        return Err(field_error());
    }
    let mut f: Vec<u8> = Vec::new();
    let mut i: usize = 88;
    while i < 168
        invariant
            88 <= i <= 168 <= header@.len(),
            f@ == header@.subrange(88, i as int),
        decreases 168 - i,
    {
        f.push(header[i]);
        i += 1;
        assert(f@ =~= header@.subrange(88, i as int));
    }
    let g = f.as_slice();
    if !utf8_ok(g) {
        return Err(field_error());
    }
    let prefix = [83u8, 116, 97, 114, 116, 100, 97, 116, 101, 32];
    let mut k: usize = 0;
    while k < 10
        invariant
            k <= 10,
            g@.len() == 80,
            g@ == header@.subrange(88, 168),
            edfplus || bdfplus,
            prefix@ == seq![83u8, 116, 97, 114, 116, 100, 97, 116, 101, 32],
            g@.subrange(0, k as int) == prefix@.subrange(0, k as int),
        decreases 10 - k,
    {
        if g[k] != prefix[k] {
            assert(g@.subrange(0, 10)[k as int] != prefix@[k as int]);
            return Err(field_error());
        }
        k += 1;
        assert(g@.subrange(0, k as int) =~= prefix@.subrange(0, k as int));
    }
    assert(prefix@.subrange(0, 10) =~= prefix@);
    let ok = if g[10] == 88u8 {
        g[11] == 32u8 && g[12] != 32u8 && spaces_ok(g, 12)
    } else {
        let day_ok = 48 <= g[10] && g[10] <= 57 && 48 <= g[11] && g[11] <= 57 && {
            let day = (g[10] - 48) as u32 * 10 + (g[11] - 48) as u32;
            1 <= day && day <= 31
        };
        let form = g[21] == 32u8 && g[22] != 32u8 && g[12] == 45u8 && g[16] == 45u8;
        let year = 48 <= g[17] && g[17] <= 57 && 48 <= g[18] && g[18] <= 57 && 48 <= g[19]
            && g[19] <= 57 && 48 <= g[20] && g[20] <= 57;
        let month = month_ok(g[13], g[14], g[15]);
        let sp = spaces_ok(g, 22);
        form && day_ok && year && month && sp
    };
    if ok {
        Ok(())
    } else {
        Err(field_error())
    }
}

} // verus!
