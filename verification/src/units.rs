//! Human-readable formatting of byte counts.
//!
//! A size is shown in the largest unit of {T, G, M, K} whose marker
//! (1024^4 .. 1024^1) it reaches; below 1024 it is shown as a plain
//! number of bytes. When the integer quotient in the chosen unit is a
//! single digit, one (truncated) decimal place is appended.

use vstd::prelude::*;

verus! {

pub const KILO: u64 = 1024;

pub const MEGA: u64 = 1048576;

pub const GIGA: u64 = 1073741824;

pub const TERA: u64 = 1099511627776;

/// The character for a single decimal digit.
pub open spec fn digit_char(d: nat) -> char {
    if d == 0 {
        '0'
    } else if d == 1 {
        '1'
    } else if d == 2 {
        '2'
    } else if d == 3 {
        '3'
    } else if d == 4 {
        '4'
    } else if d == 5 {
        '5'
    } else if d == 6 {
        '6'
    } else if d == 7 {
        '7'
    } else if d == 8 {
        '8'
    } else {
        '9'
    }
}

/// Decimal digits of `n`, most significant first, no leading zeros
/// (a single `'0'` for zero).
pub open spec fn dec_str(n: nat) -> Seq<char>
    decreases n,
{
    if n < 10 {
        seq![digit_char(n)]
    } else {
        dec_str(n / 10).push(digit_char(n % 10))
    }
}

/// `size` rendered in the unit whose marker is `marker` and whose letter is
/// `unit`: the integer quotient, with one truncated decimal place when the
/// quotient is a single digit.
pub open spec fn scaled_str(size: u64, marker: u64, unit: char) -> Seq<char>
    recommends
        1 <= marker <= size,
{
    if size / marker < 10 {
        dec_str((size / marker) as nat) + seq![
            '.',
            digit_char((((size % marker) as int) * 10 / (marker as int)) as nat),
            unit,
        ]
    } else {
        dec_str((size / marker) as nat).push(unit)
    }
}

/// What `human_readable_number` returns: the largest reached unit wins;
/// below 1K the size is printed in bytes.
pub open spec fn human_readable(size: u64) -> Seq<char> {
    if size >= TERA {
        scaled_str(size, TERA, 'T')
    } else if size >= GIGA {
        scaled_str(size, GIGA, 'G')
    } else if size >= MEGA {
        scaled_str(size, MEGA, 'M')
    } else if size >= KILO {
        scaled_str(size, KILO, 'K')
    } else {
        dec_str(size as nat).push('B')
    }
}

fn digit_str(d: u64) -> (r: &'static str)
    requires
        d < 10,
    ensures
        r@ =~= seq![digit_char(d as nat)],
{
    proof {
        reveal_strlit("0");
        reveal_strlit("1");
        reveal_strlit("2");
        reveal_strlit("3");
        reveal_strlit("4");
        reveal_strlit("5");
        reveal_strlit("6");
        reveal_strlit("7");
        reveal_strlit("8");
        reveal_strlit("9");
    }
    if d == 0 {
        "0"
    } else if d == 1 {
        "1"
    } else if d == 2 {
        "2"
    } else if d == 3 {
        "3"
    } else if d == 4 {
        "4"
    } else if d == 5 {
        "5"
    } else if d == 6 {
        "6"
    } else if d == 7 {
        "7"
    } else if d == 8 {
        "8"
    } else {
        "9"
    }
}

/// `n` in decimal.
pub fn u64_to_string(n: u64) -> (r: String)
    ensures
        r@ == dec_str(n as nat),
    decreases n,
{
    let last = digit_str(n % 10);
    if n < 10 {
        String::from_str(last)
    } else {
        let mut s = u64_to_string(n / 10);
        s.append(last);
        proof {
            assert(s@ =~= dec_str((n / 10) as nat).push(digit_char((n % 10) as nat)));
        }
        s
    }
}

fn scaled_string(size: u64, marker: u64, unit: &str) -> (r: String)
    requires
        1 <= marker <= size,
        marker <= TERA,
        unit@.len() == 1,
    ensures
        r@ == scaled_str(size, marker, unit@[0]),
{
    let whole = size / marker;
    proof {
        reveal_strlit(".");
        assert(((size % marker) as int) * 10 / (marker as int) < 10) by (nonlinear_arith)
            requires
                marker >= 1,
                size % marker < marker,
        ;
    }
    let mut s = u64_to_string(whole);
    if whole < 10 {
        let tenth = (size % marker) * 10 / marker;
        s.append(".");
        s.append(digit_str(tenth));
        s.append(unit);
        proof {
            assert(s@ =~= scaled_str(size, marker, unit@[0]));
        }
        s
    } else {
        s.append(unit);
        proof {
            assert(s@ =~= scaled_str(size, marker, unit@[0]));
        }
        s
    }
}

/// The display form of a byte count, e.g. 1536 bytes as "1.5K".
pub fn human_readable_number(size: u64) -> (r: String)
    ensures
        r@ == human_readable(size),
{
    proof {
        reveal_strlit("T");
        reveal_strlit("G");
        reveal_strlit("M");
        reveal_strlit("K");
        reveal_strlit("B");
    }
    if size >= TERA {
        scaled_string(size, TERA, "T")
    } else if size >= GIGA {
        scaled_string(size, GIGA, "G")
    } else if size >= MEGA {
        scaled_string(size, MEGA, "M")
    } else if size >= KILO {
        scaled_string(size, KILO, "K")
    } else {
        let mut s = u64_to_string(size);
        s.append("B");
        proof {
            assert(s@ =~= human_readable(size));
        }
        s
    }
}

/// The marker (bytes per unit) that `human_readable` scales by; 1 when the
/// size is below 1K and printed in plain bytes.
pub open spec fn chosen_marker(size: u64) -> u64 {
    if size >= TERA {
        TERA
    } else if size >= GIGA {
        GIGA
    } else if size >= MEGA {
        MEGA
    } else if size >= KILO {
        KILO
    } else {
        1
    }
}

/// The unit is the smallest one that keeps the displayed integer part in
/// [1, 1023]: the quotient by the chosen marker reaches 1 and, for sizes
/// under 1024 terabyte-markers, stays below 1024 (above that bound every
/// size overflows the largest unit and the claim fails, e.g. at 1024^5).
pub proof fn lemma_smallest_unit(size: u64)
    requires
        size < 1125899906842624,  // 1024^5 == 1024 * TERA
    ensures
        size >= KILO ==> 1 <= size / chosen_marker(size) <= 1023,
        size >= KILO ==> human_readable(size) == scaled_str(
            size,
            chosen_marker(size),
            unit_letter(chosen_marker(size)),
        ),
        size < KILO ==> human_readable(size) == dec_str(size as nat).push('B'),
{
    if size >= KILO {
        let m = chosen_marker(size);
        assert(m <= size);
        assert((size as int) < 1024 * (m as int));
        assert(1 <= (size as int) / (m as int) <= 1023) by (nonlinear_arith)
            requires
                m as int >= 1,
                m as int <= size as int,
                (size as int) < 1024 * (m as int),
        ;
    }
}

/// The letter printed for a marker.
pub open spec fn unit_letter(marker: u64) -> char {
    if marker == TERA {
        'T'
    } else if marker == GIGA {
        'G'
    } else if marker == MEGA {
        'M'
    } else {
        'K'
    }
}

} // verus!
