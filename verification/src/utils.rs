//! Byte-count formatting: the number rendered with two decimals and a
//! binary unit suffix, exactly as specified over the integers.

use vstd::prelude::*;
use vstd::string::StringExecFns;

verus! {

/// Decimal digit characters of `n`, most significant first, no leading
/// zeros (a single zero for zero).
pub open spec fn spec_decimal(n: nat) -> Seq<char>
    decreases n,
{
    if n < 10 {
        seq![spec_digit_char(n)]
    } else {
        spec_decimal(n / 10).push(spec_digit_char(n % 10))
    }
}

/// The character for one decimal digit.
pub open spec fn spec_digit_char(d: nat) -> char {
    if d == 0 {
        '0'
    } else if d == 1 {
        '1'
    } else if d == 2 {
        '2'
    } else if d == 3 {
        '3'
    } else if d == 4 {
        '4'
    } else if d == 5 {
        '5'
    } else if d == 6 {
        '6'
    } else if d == 7 {
        '7'
    } else if d == 8 {
        '8'
    } else {
        '9'
    }
}

/// One binary order of magnitude.
pub const KB: u64 = 1024;

/// Two binary orders of magnitude.
pub const MB: u64 = 1048576;

/// Three binary orders of magnitude.
pub const GB: u64 = 1073741824;

/// Four binary orders of magnitude.
pub const TB: u64 = 1099511627776;

/// The divisor the formatter scales by: the largest binary unit at or
/// below the value.
pub open spec fn spec_divisor(b: u64) -> nat {
    if b < KB {
        1
    } else if b < MB {
        1024
    } else if b < GB {
        1048576
    } else if b < TB {
        1073741824
    } else {
        1099511627776
    }
}

/// The value scaled to hundredths of its unit, rounded to nearest.
pub open spec fn spec_scaled(b: u64) -> nat {
    ((b * 100 + spec_divisor(b) / 2) / spec_divisor(b) as int) as nat
}

/// The unit suffix the formatter appends.
pub open spec fn spec_unit_suffix(b: u64) -> Seq<char> {
    if b < KB {
        seq![' ', 'B']
    } else if b < MB {
        seq![' ', 'K', 'i', 'B']
    } else if b < GB {
        seq![' ', 'M', 'i', 'B']
    } else if b < TB {
        seq![' ', 'G', 'i', 'B']
    } else {
        seq![' ', 'T', 'i', 'B']
    }
}

/// The full rendering: whole part, point, two fraction digits, suffix.
pub open spec fn spec_format_bytes(b: u64) -> Seq<char> {
    spec_decimal(spec_scaled(b) / 100) + seq!['.'] + seq![
        spec_digit_char((spec_scaled(b) % 100) / 10),
        spec_digit_char(spec_scaled(b) % 10),
    ] + spec_unit_suffix(b)
}

/// One decimal digit as a string slice.
fn digit_str(d: u64) -> (r: &'static str)
    requires
        d < 10,
    ensures
        r@ == seq![spec_digit_char(d as nat)],
{
    if d == 0 {
        proof {
            reveal_strlit("0");
            assert("0"@ =~= seq![spec_digit_char(0)]);
        }
        "0"
    } else if d == 1 {
        proof {
            reveal_strlit("1");
            assert("1"@ =~= seq![spec_digit_char(1)]);
        }
        "1"
    } else if d == 2 {
        proof {
            reveal_strlit("2");
            assert("2"@ =~= seq![spec_digit_char(2)]);
        }
        "2"
    } else if d == 3 {
        proof {
            reveal_strlit("3");
            assert("3"@ =~= seq![spec_digit_char(3)]);
        }
        "3"
    } else if d == 4 {
        proof {
            reveal_strlit("4");
            assert("4"@ =~= seq![spec_digit_char(4)]);
        }
        "4"
    } else if d == 5 {
        proof {
            reveal_strlit("5");
            assert("5"@ =~= seq![spec_digit_char(5)]);
        }
        "5"
    } else if d == 6 {
        proof {
            reveal_strlit("6");
            assert("6"@ =~= seq![spec_digit_char(6)]);
        }
        "6"
    } else if d == 7 {
        proof {
            reveal_strlit("7");
            assert("7"@ =~= seq![spec_digit_char(7)]);
        }
        "7"
    } else if d == 8 {
        proof {
            reveal_strlit("8");
            assert("8"@ =~= seq![spec_digit_char(8)]);
        }
        "8"
    } else {
        proof {
            reveal_strlit("9");
            assert("9"@ =~= seq![spec_digit_char(9)]);
        }
        "9"
    }
}

/// Render an unsigned number in decimal.
pub fn u64_to_dec(n: u64) -> (r: String)
    ensures
        r@ == spec_decimal(n as nat),
    decreases n,
{
    if n < 10 {
        let mut s = String::new();
        s.append(digit_str(n));
        proof {
            assert(s@ =~= seq![spec_digit_char(n as nat)]);
        }
        s
    } else {
        let mut s = u64_to_dec(n / 10);
        s.append(digit_str(n % 10));
        proof {
            assert(s@ =~= spec_decimal((n / 10) as nat).push(spec_digit_char((n % 10) as nat)));
        }
        s
    }
}

/// Render a byte count with two decimals and the largest binary unit at or
/// below it, to the letter of `spec_format_bytes`.
pub fn format_bytes(bytes: u64) -> (r: String)
    ensures
        r@ == spec_format_bytes(bytes),
{
    let divisor: u64 = if bytes < KB {
        1
    } else if bytes < MB {
        1024
    } else if bytes < GB {
        1048576
    } else if bytes < TB {
        1073741824
    } else {
        1099511627776
    };
    let wide: u128 = (bytes as u128) * 100 + ((divisor / 2) as u128);
    let scaled_wide: u128 = wide / (divisor as u128);
    proof {
        assert(scaled_wide <= wide) by (nonlinear_arith)
            requires
                divisor >= 1,
                scaled_wide == wide / (divisor as u128),
                wide >= 0,
        ;
        if bytes >= TB {
            assert(wide / (divisor as u128) <= wide / 1099511627776) by (nonlinear_arith)
                requires
                    divisor == 1099511627776,
                    wide >= 0,
            ;
            assert(wide <= 0xffffffffffffffffu128 * 100 + 549755813888);
            assert(wide / 1099511627776 <= u64::MAX as u128) by (nonlinear_arith)
                requires
                    wide <= 0xffffffffffffffffu128 * 100 + 549755813888,
            ;
        }
    }
    let scaled: u64 = scaled_wide as u64;
    let whole = scaled / 100;
    let frac = scaled % 100;
    let mut s = u64_to_dec(whole);
    proof {
        reveal_strlit(".");
        assert("."@ =~= seq!['.']);
    }
    s.append(".");
    s.append(digit_str(frac / 10));
    s.append(digit_str(frac % 10));
    let suffix: &str = if bytes < KB {
        proof {
            reveal_strlit(" B");
            assert(" B"@ =~= spec_unit_suffix(bytes));
        }
        " B"
    } else if bytes < MB {
        proof {
            reveal_strlit(" KiB");
            assert(" KiB"@ =~= spec_unit_suffix(bytes));
        }
        " KiB"
    } else if bytes < GB {
        proof {
            reveal_strlit(" MiB");
            assert(" MiB"@ =~= spec_unit_suffix(bytes));
        }
        " MiB"
    } else if bytes < TB {
        proof {
            reveal_strlit(" GiB");
            assert(" GiB"@ =~= spec_unit_suffix(bytes));
        }
        " GiB"
    } else {
        proof {
            reveal_strlit(" TiB");
            assert(" TiB"@ =~= spec_unit_suffix(bytes));
        }
        " TiB"
    };
    s.append(suffix);
    proof {
        assert(s@ =~= spec_format_bytes(bytes));
    }
    s
}

} // verus!
