//! Human-readable byte sizes in base-1000 units.

use vstd::prelude::*;
use vstd::string::*;

verus! {

/// The character for a decimal digit.
pub open spec fn digit_char(d: nat) -> char {
    if d == 0 { '0' }
    else if d == 1 { '1' }
    else if d == 2 { '2' }
    else if d == 3 { '3' }
    else if d == 4 { '4' }
    else if d == 5 { '5' }
    else if d == 6 { '6' }
    else if d == 7 { '7' }
    else if d == 8 { '8' }
    else { '9' }
}

/// Decimal notation of `n`, without leading zeros.
pub open spec fn decimal(n: nat) -> Seq<char>
    decreases n,
{
    if n < 10 {
        seq![digit_char(n)]
    } else {
        decimal(n / 10).push(digit_char(n % 10))
    }
}

/// The divisor and the name of the unit a size is shown in.
pub open spec fn unit_for(size: nat) -> (nat, Seq<char>) {
    if size < 1_000_000 {
        (1000, seq!['K', 'B'])
    } else if size < 1_000_000_000 {
        (1_000_000, seq!['M', 'B'])
    } else if size < 1_000_000_000_000 {
        (1_000_000_000, seq!['G', 'B'])
    } else {
        (1_000_000_000_000, seq!['T', 'B'])
    }
}

/// `size / unit` rounded to the nearest hundredth (halves go up), in hundredths.
pub open spec fn hundredths(size: nat, unit: nat) -> nat
    recommends
        unit > 0,
{
    (size * 100 + unit / 2) / unit
}

/// The label of a size: whole bytes below 1000, otherwise the value in the
/// largest unit up to TB that it reaches, with two decimals.
pub open spec fn size_text(size: nat) -> Seq<char> {
    if size < 1000 {
        decimal(size) + seq![' ', 'B']
    } else {
        let (unit, name) = unit_for(size);
        let h = hundredths(size, unit);
        decimal(h / 100) + seq!['.'] + seq![digit_char((h % 100) / 10), digit_char(h % 10)]
            + seq![' '] + name
    }
}

fn digit_str(d: u64) -> (r: &'static str)
    requires
        d < 10,
    ensures
        r@ == seq![digit_char(d as nat)],
{
    proof {
        reveal_strlit("0");
        reveal_strlit("1");
        reveal_strlit("2");
        reveal_strlit("3");
        reveal_strlit("4");
        reveal_strlit("5");
        reveal_strlit("6");
        reveal_strlit("7");
        reveal_strlit("8");
        reveal_strlit("9");
    }
    if d == 0 { "0" }
    else if d == 1 { "1" }
    else if d == 2 { "2" }
    else if d == 3 { "3" }
    else if d == 4 { "4" }
    else if d == 5 { "5" }
    else if d == 6 { "6" }
    else if d == 7 { "7" }
    else if d == 8 { "8" }
    else { "9" }
}

/// Appends the decimal notation of `n`.
fn push_decimal(s: &mut String, n: u64)
    ensures
        final(s)@ == old(s)@ + decimal(n as nat),
    decreases n,
{
    if n < 10 {
        s.append(digit_str(n));
    } else {
        push_decimal(s, n / 10);
        s.append(digit_str(n % 10));
        assert(final(s)@ =~= old(s)@ + decimal(n as nat));
    }
}

proof fn lemma_hundredths_split(size: nat, unit: nat)
    requires
        unit > 0,
    ensures
        hundredths(size, unit) == (size / unit) * 100
            + ((size % unit) * 100 + unit / 2) / unit,
{
    let q = (size / unit) as int;
    let r = (size % unit) as int;
    let t = r * 100 + unit / 2;
    let a = t / unit as int;
    let b = t % unit as int;
    assert(size == q * unit + r) by {
        vstd::arithmetic::div_mod::lemma_fundamental_div_mod(size as int, unit as int);
    }
    assert(t == a * unit + b) by {
        vstd::arithmetic::div_mod::lemma_fundamental_div_mod(t, unit as int);
    }
    assert(0 <= b < unit) by {
        vstd::arithmetic::div_mod::lemma_mod_bound(t, unit as int);
    }
    assert(size * 100 + unit / 2 == (q * 100 + a) * unit + b) by (nonlinear_arith)
        requires
            size == q * unit + r,
            t == r * 100 + unit / 2,
            t == a * unit + b,
    ;
    vstd::arithmetic::div_mod::lemma_fundamental_div_mod_converse(
        (size * 100 + unit / 2) as int,
        unit as int,
        q * 100 + a,
        b,
    );
}

/// `size / unit` in hundredths, rounded to the nearest.
fn rounded_hundredths(size: u64, unit: u64) -> (h: u64)
    requires
        1000 <= unit <= 1_000_000_000_000,
    ensures
        h as nat == hundredths(size as nat, unit as nat),
{
    let rem = size % unit;
    let part = (rem * 100 + unit / 2) / unit;
    let q = size / unit;
    proof {
        lemma_hundredths_split(size as nat, unit as nat);
        assert(part <= 100) by (nonlinear_arith)
            requires
                rem < unit,
                part == (rem * 100 + unit / 2) / (unit as int),
                unit > 0,
        ;
        assert(q * 100 <= u64::MAX - 100) by (nonlinear_arith)
            requires
                q == size / unit,
                unit >= 1000,
                size <= u64::MAX,
        ;
    }
    q * 100 + part
}

/// The label shown for a size in bytes: `"500 B"`, `"1.50 KB"`, `"1.50 MB"`,
/// `"1.50 GB"`, `"1.50 TB"`; sizes of 1000 TB and more stay in TB.
pub fn format_sizes(size: u64) -> (r: String)
    ensures
        r@ == size_text(size as nat),
{
    let mut s = String::new();
    if size < 1000 {
        push_decimal(&mut s, size);
        proof {
            reveal_strlit(" B");
        }
        s.append(" B");
        assert(s@ =~= size_text(size as nat));
        return s;
    }
    let unit: u64;
    let name: &str;
    proof {
        reveal_strlit("KB");
        reveal_strlit("MB");
        reveal_strlit("GB");
        reveal_strlit("TB");
        reveal_strlit(".");
        reveal_strlit(" ");
    }
    if size < 1_000_000 {
        unit = 1000;
        name = "KB";
    } else if size < 1_000_000_000 {
        unit = 1_000_000;
        name = "MB";
    } else if size < 1_000_000_000_000 {
        unit = 1_000_000_000;
        name = "GB";
    } else {
        unit = 1_000_000_000_000;
        name = "TB";
    }
    assert(unit_for(size as nat) == (unit as nat, name@));
    let total = rounded_hundredths(size, unit);
    let whole = total / 100;
    let frac = total % 100;
    push_decimal(&mut s, whole);
    s.append(".");
    s.append(digit_str(frac / 10));
    s.append(digit_str(frac % 10));
    s.append(" ");
    s.append(name);
    assert(s@ =~= size_text(size as nat));
    s
}

} // verus!
