use vstd::prelude::*;

verus! {

/// The decimal digit character for `d` (which is below 10).
pub open spec fn digit_char(d: nat) -> char {
    (48 + d) as char
}

/// The decimal representation of `n`, without leading zeros.
pub open spec fn decimal(n: nat) -> Seq<char>
    decreases n,
{
    if n < 10 {
        seq![digit_char(n)]
    } else {
        decimal(n / 10).push(digit_char(n % 10))
    }
}

/// The decimal representation of `n`, padded with a zero to at least two digits.
pub open spec fn two_digits(n: nat) -> Seq<char> {
    if n < 10 {
        seq!['0', digit_char(n)]
    } else {
        decimal(n)
    }
}

/// `secs` as `HH:MM:SS`: hours (at least two digits), minutes and seconds.
pub open spec fn clock_text(secs: nat) -> Seq<char> {
    two_digits(secs / 3600) + seq![':'] + two_digits((secs % 3600) / 60) + seq![':'] + two_digits(
        secs % 60,
    )
}

/// `n host`, or `n hosts` unless `n` is 1.
pub open spec fn hosts_text(n: nat) -> Seq<char> {
    decimal(n) + seq![' ', 'h', 'o', 's', 't'] + if n != 1 {
        seq!['s']
    } else {
        Seq::empty()
    }
}

/// The one-character string of a decimal digit.
fn digit_str(d: u64) -> (res: &'static str)
    requires
        d < 10,
    ensures
        res@ == seq![digit_char(d as nat)],
{
    proof {
        reveal_strlit("0");
        reveal_strlit("1");
        reveal_strlit("2");
        reveal_strlit("3");
        reveal_strlit("4");
        reveal_strlit("5");
        reveal_strlit("6");
        reveal_strlit("7");
        reveal_strlit("8");
        reveal_strlit("9");
    }
    let res = match d {
        0 => "0",
        1 => "1",
        2 => "2",
        3 => "3",
        4 => "4",
        5 => "5",
        6 => "6",
        7 => "7",
        8 => "8",
        _ => "9",
    };
    assert(res@ =~= seq![digit_char(d as nat)]);
    res
}

/// Appends the decimal representation of `n` to `out`.
fn push_decimal(out: &mut String, n: u64)
    ensures
        final(out)@ == old(out)@ + decimal(n as nat),
    decreases n,
{
    if n >= 10 {
        push_decimal(out, n / 10);
    }
    out.append(digit_str(n % 10));
    assert(final(out)@ =~= old(out)@ + decimal(n as nat));
}

/// Appends `n` padded with a zero to at least two digits.
fn push_two_digits(out: &mut String, n: u64)
    ensures
        final(out)@ == old(out)@ + two_digits(n as nat),
{
    if n < 10 {
        out.append("0");
        proof {
            reveal_strlit("0");
        }
    }
    push_decimal(out, n);
    assert(final(out)@ =~= old(out)@ + two_digits(n as nat));
}

/// The time elapsed since `secs` seconds ago, as `HH:MM:SS`.
pub fn elapsed_str(secs: u64) -> (res: String)
    ensures
        res@ == clock_text(secs as nat),
{
    let h = secs / 3600;
    let m = (secs % 3600) / 60;
    let s = secs % 60;
    let mut out = String::new();
    push_two_digits(&mut out, h);
    out.append(":");
    push_two_digits(&mut out, m);
    out.append(":");
    push_two_digits(&mut out, s);
    proof {
        reveal_strlit(":");
    }
    assert(out@ =~= clock_text(secs as nat));
    out
}

/// How many hosts are monitored: `1 host`, `3 hosts`.
pub fn hosts_label(n: usize) -> (res: String)
    ensures
        res@ == hosts_text(n as nat),
{
    let mut out = String::new();
    push_decimal(&mut out, n as u64);
    out.append(" host");
    if n != 1 {
        out.append("s");
    }
    proof {
        reveal_strlit(" host");
        reveal_strlit("s");
    }
    assert(out@ =~= hosts_text(n as nat));
    out
}

} // verus!
