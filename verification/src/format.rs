//! Byte counts as short human-readable text.

use vstd::prelude::*;

verus! {

/// Bytes in a kibibyte.
pub const KIB: u64 = 1_024;

/// Bytes in a mebibyte.
pub const MIB: u64 = 1_048_576;

/// Bytes in a gibibyte.
pub const GIB: u64 = 1_073_741_824;

/// Bytes in a tebibyte.
pub const TIB: u64 = 1_099_511_627_776;

/// The one-character text of a decimal digit.
pub open spec fn digit_text(d: nat) -> Seq<char>
    recommends
        d < 10,
{
    if d == 0 {
        "0"@
    } else if d == 1 {
        "1"@
    } else if d == 2 {
        "2"@
    } else if d == 3 {
        "3"@
    } else if d == 4 {
        "4"@
    } else if d == 5 {
        "5"@
    } else if d == 6 {
        "6"@
    } else if d == 7 {
        "7"@
    } else if d == 8 {
        "8"@
    } else {
        "9"@
    }
}

/// The decimal numeral of `n`, most significant digit first, without leading
/// zeros (`0` is written "0").
pub open spec fn decimal_text(n: nat) -> Seq<char>
    decreases n,
{
    if n < 10 {
        digit_text(n)
    } else {
        decimal_text(n / 10) + digit_text(n % 10)
    }
}

/// The text shown for a count of `n` bytes: the count in the largest binary
/// unit of which it holds at least ten (bytes below ten kibibytes, tebibytes
/// at most), rounded down to a whole number, a space, and the unit's symbol.
/// So the number shown has two to five digits wherever the count allows it.
pub open spec fn format_number_text(n: nat) -> Seq<char> {
    if n < 10 * KIB {
        decimal_text(n) + " B"@
    } else if n < 10 * MIB {
        decimal_text(n / (KIB as nat)) + " KiB"@
    } else if n < 10 * GIB {
        decimal_text(n / (MIB as nat)) + " MiB"@
    } else if n < 10 * TIB {
        decimal_text(n / (GIB as nat)) + " GiB"@
    } else {
        decimal_text(n / (TIB as nat)) + " TiB"@
    }
}

fn digit_str(d: u64) -> (s: &'static str)
    requires
        d < 10,
    ensures
        s@ == digit_text(d as nat),
{
    if d == 0 {
        "0"
    } else if d == 1 {
        "1"
    } else if d == 2 {
        "2"
    } else if d == 3 {
        "3"
    } else if d == 4 {
        "4"
    } else if d == 5 {
        "5"
    } else if d == 6 {
        "6"
    } else if d == 7 {
        "7"
    } else if d == 8 {
        "8"
    } else {
        "9"
    }
}

/// Writes `n` in decimal.
pub fn decimal(n: u64) -> (text: String)
    ensures
        text@ == decimal_text(n as nat),
    decreases n,
{
    if n < 10 {
        String::from_str(digit_str(n))
    } else {
        let mut text = decimal(n / 10);
        text.append(digit_str(n % 10));
        text
    }
}

/// Formats a byte count for display, as [`format_number_text`] defines it.
pub fn format_number(nb: u64) -> (text: String)
    ensures
        text@ == format_number_text(nb as nat),
{
    if nb < 10 * KIB {
        decimal(nb).concat(" B")
    } else if nb < 10 * MIB {
        decimal(nb / KIB).concat(" KiB")
    } else if nb < 10 * GIB {
        decimal(nb / MIB).concat(" MiB")
    } else if nb < 10 * TIB {
        decimal(nb / GIB).concat(" GiB")
    } else {
        decimal(nb / TIB).concat(" TiB")
    }
}

} // verus!
