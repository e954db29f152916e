//! Decimal and duration rendering over integers.
use vstd::prelude::*;
use vstd::string::*;

verus! {

/// The character of a decimal digit.
pub open spec fn digit_char(d: int) -> char {
    if d == 0 {
        '0'
    } else if d == 1 {
        '1'
    } else if d == 2 {
        '2'
    } else if d == 3 {
        '3'
    } else if d == 4 {
        '4'
    } else if d == 5 {
        '5'
    } else if d == 6 {
        '6'
    } else if d == 7 {
        '7'
    } else if d == 8 {
        '8'
    } else {
        '9'
    }
}

/// Decimal digits of a natural number, most significant first, no leading zeros.
pub open spec fn decimal(n: nat) -> Seq<char>
    decreases n,
{
    if n < 10 {
        seq![digit_char(n as int)]
    } else {
        decimal(n / 10).push(digit_char((n % 10) as int))
    }
}

/// Decimal text of an integer, with a leading `-` when it is negative.
pub open spec fn signed_decimal(i: int) -> Seq<char> {
    if i < 0 {
        seq!['-'] + decimal((-i) as nat)
    } else {
        decimal(i as nat)
    }
}

fn digit_str(d: u128) -> (r: &'static str)
    requires
        d < 10,
    ensures
        r@ == seq![digit_char(d as int)],
{
    proof {
        reveal_strlit("0");
        reveal_strlit("1");
        reveal_strlit("2");
        reveal_strlit("3");
        reveal_strlit("4");
        reveal_strlit("5");
        reveal_strlit("6");
        reveal_strlit("7");
        reveal_strlit("8");
        reveal_strlit("9");
    }
    if d == 0 {
        "0"
    } else if d == 1 {
        "1"
    } else if d == 2 {
        "2"
    } else if d == 3 {
        "3"
    } else if d == 4 {
        "4"
    } else if d == 5 {
        "5"
    } else if d == 6 {
        "6"
    } else if d == 7 {
        "7"
    } else if d == 8 {
        "8"
    } else {
        "9"
    }
}

/// Renders a natural number in decimal.
pub fn unsigned_text(n: u128) -> (r: String)
    ensures
        r@ == decimal(n as nat),
    decreases n,
{
    if n < 10 {
        String::from_str(digit_str(n))
    } else {
        let mut s = unsigned_text(n / 10);
        s.append(digit_str(n % 10));
        s
    }
}

/// Renders an integer in decimal, with a leading `-` when it is negative.
pub fn signed_text(i: i128) -> (r: String)
    ensures
        r@ == signed_decimal(i as int),
{
    if i < 0 {
        let m: u128 = ((-(i + 1)) as u128) + 1;
        proof {
            reveal_strlit("-");
        }
        let mut s = String::from_str("-");
        let d = unsigned_text(m);
        s.append(d.as_str());
        s
    } else {
        unsigned_text(i as u128)
    }
}

/// The divisor of the unit chosen for a magnitude of `a` nanoseconds.
pub open spec fn unit_divisor(a: int) -> int {
    if a >= 1_000_000_000 {
        1_000_000_000
    } else if a >= 1_000_000 {
        1_000_000
    } else if a >= 1_000 {
        1_000
    } else {
        1
    }
}

/// The suffix of the unit chosen for a magnitude of `a` nanoseconds.
pub open spec fn unit_suffix(a: int) -> Seq<char> {
    if a >= 1_000_000_000 {
        seq!['s']
    } else if a >= 1_000_000 {
        seq!['m', 's']
    } else if a >= 1_000 {
        seq!['\u{3bc}', 's']
    } else {
        seq!['n', 's']
    }
}

/// A magnitude of `a` nanoseconds in thousandths of its unit, halves rounded up.
pub open spec fn thousandths(a: int) -> int {
    (a * 1000 + unit_divisor(a) / 2) / unit_divisor(a)
}

/// Exactly three decimal digits of `m`, with leading zeros.
pub open spec fn three_digits(m: int) -> Seq<char> {
    seq![digit_char(m / 100), digit_char((m / 10) % 10), digit_char(m % 10)]
}

/// The text of a duration: its sign, the magnitude in the chosen unit with three
/// decimals, and the unit.
pub open spec fn duration_text(ns: int) -> Seq<char> {
    let a = if ns < 0 { -ns } else { ns };
    let t = thousandths(a);
    let sign = if ns < 0 { seq!['-'] } else { Seq::<char>::empty() };
    sign + decimal((t / 1000) as nat) + seq!['.'] + three_digits(t % 1000) + unit_suffix(a)
}

/// Renders a duration in nanoseconds with three decimals in seconds, milliseconds,
/// microseconds or nanoseconds, whichever the magnitude reaches first.
pub fn format_duration(ns: i128) -> (r: String)
    ensures
        r@ == duration_text(ns as int),
{
    let a: u128 = if ns < 0 {
        ((-(ns + 1)) as u128) + 1
    } else {
        ns as u128
    };
    let t: u128;
    let unit: &str;
    proof {
        reveal_strlit("s");
        reveal_strlit("ms");
        reveal_strlit("\u{3bc}s");
        reveal_strlit("ns");
        reveal_strlit("-");
        reveal_strlit(".");
        reveal_strlit("");
    }
    if a >= 1_000_000_000 {
        t = (a + 500_000) / 1_000_000;
        unit = "s";
        assert(t as int == thousandths(a as int)) by (nonlinear_arith)
            requires
                t == (a + 500_000) / 1_000_000,
                a >= 1_000_000_000,
                thousandths(a as int) == (a * 1000 + 500_000_000) / 1_000_000_000,
        ;
    } else if a >= 1_000_000 {
        t = (a + 500) / 1000;
        unit = "ms";
        assert(t as int == thousandths(a as int)) by (nonlinear_arith)
            requires
                t == (a + 500) / 1000,
                thousandths(a as int) == (a * 1000 + 500_000) / 1_000_000,
        ;
    } else if a >= 1000 {
        t = a;
        unit = "\u{3bc}s";
        assert(t as int == thousandths(a as int)) by (nonlinear_arith)
            requires
                t == a,
                thousandths(a as int) == (a * 1000 + 500) / 1000,
        ;
    } else {
        t = a * 1000;
        unit = "ns";
    }
    let mut s = if ns < 0 {
        String::from_str("-")
    } else {
        String::from_str("")
    };
    let whole = unsigned_text(t / 1000);
    s.append(whole.as_str());
    s.append(".");
    let m = t % 1000;
    s.append(digit_str(m / 100));
    s.append(digit_str((m / 10) % 10));
    s.append(digit_str(m % 10));
    s.append(unit);
    assert(s@ =~= duration_text(ns as int));
    s
}

} // verus!
