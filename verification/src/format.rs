//! Sizes in bytes as short human-readable text: "500 B", "1.5 KB",
//! "512.0 MB", "2.0 GB".
use vstd::prelude::*;
use crate::domain::CPU_UNITS_PER_PERCENT;
use crate::text::chars_of;

verus! {

/// The decimal digit for `d` (below ten).
pub open spec fn digit_char(d: int) -> char {
    if d == 0 {
        '0'
    } else if d == 1 {
        '1'
    } else if d == 2 {
        '2'
    } else if d == 3 {
        '3'
    } else if d == 4 {
        '4'
    } else if d == 5 {
        '5'
    } else if d == 6 {
        '6'
    } else if d == 7 {
        '7'
    } else if d == 8 {
        '8'
    } else {
        '9'
    }
}

/// The decimal digits of `n`, without leading zeros ("0" for zero).
pub open spec fn digits(n: nat) -> Seq<char>
    decreases n,
{
    if n < 10 {
        seq![digit_char(n as int)]
    } else {
        digits(n / 10).push(digit_char((n % 10) as int))
    }
}

/// `bytes / unit` in tenths, rounded to the nearest tenth, a tie going to
/// the even tenth.
pub open spec fn rounded_tenths(bytes: nat, unit: nat) -> nat {
    let q = (bytes * 10) / unit;
    let r = (bytes * 10) % unit;
    if 2 * r > unit || (2 * r == unit && q % 2 == 1) {
        q + 1
    } else {
        q
    }
}

/// A number of tenths written with one decimal place.
pub open spec fn one_decimal(tenths: nat) -> Seq<char> {
    digits(tenths / 10).push('.').push(digit_char((tenths % 10) as int))
}

/// A size in bytes as text: whole bytes below 1024, else kilobytes,
/// megabytes or gigabytes (of 1024 of the unit below) with one decimal
/// place.
pub open spec fn size_text(bytes: nat) -> Seq<char> {
    if bytes < 1024 {
        digits(bytes) + " B"@
    } else if bytes < 1024 * 1024 {
        one_decimal(rounded_tenths(bytes, 1024)) + " KB"@
    } else if bytes < 1024 * 1024 * 1024 {
        one_decimal(rounded_tenths(bytes, 1024 * 1024)) + " MB"@
    } else {
        one_decimal(rounded_tenths(bytes, 1024 * 1024 * 1024)) + " GB"@
    }
}

/// Builds a `String` from characters with `Iterator::collect`; the result
/// holds exactly those characters, in order.
#[verifier::external_body]
pub(crate) fn string_from_chars(chars: &Vec<char>) -> (s: String)
    ensures
        s@ == chars@,
{
    chars.iter().collect()
}

/// The decimal digit for `d`.
fn digit(d: u64) -> (c: char)
    requires
        d < 10,
    ensures
        c == digit_char(d as int),
{
    match d {
        0 => '0',
        1 => '1',
        2 => '2',
        3 => '3',
        4 => '4',
        5 => '5',
        6 => '6',
        7 => '7',
        8 => '8',
        _ => '9',
    }
}

/// Appends the decimal digits of `n` to `out`.
pub(crate) fn push_digits(n: u64, out: &mut Vec<char>)
    ensures
        final(out)@ == old(out)@ + digits(n as nat),
    decreases n,
{
    if n < 10 {
        out.push(digit(n));
    } else {
        push_digits(n / 10, out);
        out.push(digit(n % 10));
    }
}

/// Appends the characters of `text` to `out`.
pub(crate) fn push_text(text: &str, out: &mut Vec<char>)
    ensures
        final(out)@ == old(out)@ + text@,
{
    let cs = chars_of(text);
    let mut i: usize = 0;
    let ghost start = out@;
    while i < cs.len()
        invariant
            cs@ == text@,
            i <= cs@.len(),
            out@ == start + cs@.take(i as int),
        decreases cs@.len() - i,
    {
        out.push(cs[i]);
        i = i + 1;
        assert(out@ =~= start + cs@.take(i as int));
    }
    assert(cs@.take(cs@.len() as int) =~= cs@);
}

/// `bytes / unit` in tenths, rounded half to even.
fn tenths_of(bytes: u64, unit: u64) -> (t: u64)
    requires
        unit >= 100,
    ensures
        t == rounded_tenths(bytes as nat, unit as nat),
{
    let scaled: u128 = (bytes as u128) * 10;
    let q: u128 = scaled / (unit as u128);
    let r: u128 = scaled % (unit as u128);
    assert(q <= 0x1999_9999_9999_9999u128) by (nonlinear_arith)
        requires
            scaled <= 0xffff_ffff_ffff_ffffu128 * 10,
            unit >= 100,
            q == scaled / (unit as u128),
    ;
    let t: u128 = if 2 * r > (unit as u128) || (2 * r == (unit as u128) && q % 2 == 1) {
        q + 1
    } else {
        q
    };
    t as u64
}

/// A size in bytes as short text (see `size_text`).
pub fn format_memory(bytes: u64) -> (s: String)
    ensures
        s@ == size_text(bytes as nat),
{
    let mut out: Vec<char> = Vec::new();
    if bytes < 1024 {
        push_digits(bytes, &mut out);
        push_text(" B", &mut out);
    } else {
        let (unit, suffix): (u64, &str) = if bytes < 1024 * 1024 {
            (1024, " KB")
        } else if bytes < 1024 * 1024 * 1024 {
            (1024 * 1024, " MB")
        } else {
            (1024 * 1024 * 1024, " GB")
        };
        let t = tenths_of(bytes, unit);
        push_digits(t / 10, &mut out);
        out.push('.');
        out.push(digit(t % 10));
        push_text(suffix, &mut out);
    }
    string_from_chars(&out)
}

/// A CPU usage given in units of `CPU_UNITS_PER_PERCENT` per percent, as
/// a percentage with one decimal place (rounded half to even) and a
/// percent sign.
pub open spec fn percent_text(units: nat) -> Seq<char> {
    one_decimal(rounded_tenths(units, CPU_UNITS_PER_PERCENT as nat)).push('%')
}

/// A CPU usage as text (see `percent_text`).
pub fn format_percent(units: u64) -> (s: String)
    ensures
        s@ == percent_text(units as nat),
{
    let mut out: Vec<char> = Vec::new();
    let t = tenths_of(units, CPU_UNITS_PER_PERCENT);
    push_digits(t / 10, &mut out);
    out.push('.');
    out.push(digit(t % 10));
    out.push('%');
    string_from_chars(&out)
}

/// A count of bytes read or written as short text (see `size_text`).
pub fn format_bytes(bytes: u64) -> (s: String)
    ensures
        s@ == size_text(bytes as nat),
{
    format_memory(bytes)
}

} // verus!
