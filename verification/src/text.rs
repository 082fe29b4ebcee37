//! Numbers as text.

use vstd::prelude::*;
use vstd::string::*;

verus! {

/// The digit character of `d`, decimal up to nine and lower-case hexadecimal up to fifteen.
pub open spec fn digit(d: nat) -> char {
    if d == 0 { '0' }
    else if d == 1 { '1' }
    else if d == 2 { '2' }
    else if d == 3 { '3' }
    else if d == 4 { '4' }
    else if d == 5 { '5' }
    else if d == 6 { '6' }
    else if d == 7 { '7' }
    else if d == 8 { '8' }
    else if d == 9 { '9' }
    else if d == 10 { 'a' }
    else if d == 11 { 'b' }
    else if d == 12 { 'c' }
    else if d == 13 { 'd' }
    else if d == 14 { 'e' }
    else { 'f' }
}

/// The decimal numeral of `n`, without leading zeros.
pub open spec fn decimal(n: nat) -> Seq<char>
    decreases n,
{
    if n < 10 {
        seq![digit(n)]
    } else {
        decimal(n / 10).push(digit(n % 10))
    }
}

/// A byte as two hexadecimal digits.
pub open spec fn hex_byte(b: u8) -> Seq<char> {
    seq![digit((b / 16) as nat), digit((b % 16) as nat)]
}

fn digit_str(d: u8) -> (s: &'static str)
    requires
        d < 16,
    ensures
        s@ == seq![digit(d as nat)],
{
    proof {
        reveal_strlit("0");
        reveal_strlit("1");
        reveal_strlit("2");
        reveal_strlit("3");
        reveal_strlit("4");
        reveal_strlit("5");
        reveal_strlit("6");
        reveal_strlit("7");
        reveal_strlit("8");
        reveal_strlit("9");
        reveal_strlit("a");
        reveal_strlit("b");
        reveal_strlit("c");
        reveal_strlit("d");
        reveal_strlit("e");
        reveal_strlit("f");
    }
    let s = match d {
        0 => "0",
        1 => "1",
        2 => "2",
        3 => "3",
        4 => "4",
        5 => "5",
        6 => "6",
        7 => "7",
        8 => "8",
        9 => "9",
        10 => "a",
        11 => "b",
        12 => "c",
        13 => "d",
        14 => "e",
        _ => "f",
    };
    assert(s@ =~= seq![digit(d as nat)]);
    s
}

/// Appends the decimal numeral of `n`.
pub fn push_decimal(out: &mut String, n: u64)
    ensures
        final(out)@ == old(out)@ + decimal(n as nat),
    decreases n,
{
    let ghost before = out@;
    if n < 10 {
        out.append(digit_str(n as u8));
    } else {
        push_decimal(out, n / 10);
        out.append(digit_str((n % 10) as u8));
        assert(out@ =~= before + decimal(n as nat));
    }
}

/// Appends a byte as two hexadecimal digits.
pub fn push_hex_byte(out: &mut String, b: u8)
    ensures
        final(out)@ == old(out)@ + hex_byte(b),
{
    let ghost before = out@;
    out.append(digit_str(b / 16));
    out.append(digit_str(b % 16));
    assert(out@ =~= before + hex_byte(b));
}

/// A text.
pub fn say(a: &str) -> (text: String)
    ensures
        text@ == a@,
{
    String::from_str(a)
}

/// A number between two texts.
pub fn say1(a: &str, n: u64, b: &str) -> (text: String)
    ensures
        text@ == a@ + decimal(n as nat) + b@,
{
    let mut text = String::from_str(a);
    push_decimal(&mut text, n);
    text.append(b);
    text
}

/// Two numbers between three texts.
pub fn say2(a: &str, n: u64, b: &str, m: u64, c: &str) -> (text: String)
    ensures
        text@ == a@ + decimal(n as nat) + b@ + decimal(m as nat) + c@,
{
    let mut text = say1(a, n, b);
    push_decimal(&mut text, m);
    text.append(c);
    text
}

/// Three numbers between four texts.
pub fn say3(a: &str, n: u64, b: &str, m: u64, c: &str, k: u64, d: &str) -> (text: String)
    ensures
        text@ == a@ + decimal(n as nat) + b@ + decimal(m as nat) + c@ + decimal(k as nat) + d@,
{
    let mut text = say2(a, n, b, m, c);
    push_decimal(&mut text, k);
    text.append(d);
    text
}

/// A byte in hexadecimal between two texts.
pub fn say_hex(a: &str, n: u8, b: &str) -> (text: String)
    ensures
        text@ == a@ + hex_byte(n) + b@,
{
    let mut text = String::from_str(a);
    push_hex_byte(&mut text, n);
    text.append(b);
    text
}

/// What a digit character stands for.
pub open spec fn digit_value(c: char) -> nat {
    if '0' <= c && c <= '9' {
        (c as nat - '0' as nat) as nat
    } else {
        (10 + (c as nat - 'a' as nat)) as nat
    }
}

/// The number that digits stand for, the first of them highest.
pub open spec fn number(text: Seq<char>, base: nat) -> nat
    decreases text.len(),
{
    if text.len() == 0 {
        0
    } else {
        number(text.drop_last(), base) * base + digit_value(text.last())
    }
}

/// A decimal numeral stands for its number, has no leading zero and no digit but the ten decimal
/// ones.
pub proof fn law_decimal_reads_back(n: nat)
    ensures
        number(decimal(n), 10) == n,
        decimal(n).len() > 0,
        n > 0 ==> decimal(n)[0] != '0',
        forall|i: int| 0 <= i < decimal(n).len() ==> '0' <= #[trigger] decimal(n)[i] <= '9',
    decreases n,
{
    if n < 10 {
        assert(decimal(n).drop_last() =~= Seq::empty());
        assert(number(decimal(n).drop_last(), 10) == 0);
    } else {
        law_decimal_reads_back(n / 10);
        assert(decimal(n).drop_last() =~= decimal(n / 10));
    }
}

/// Two hexadecimal digits stand for their byte.
pub proof fn law_hex_reads_back(b: u8)
    ensures
        number(hex_byte(b), 16) == b,
        hex_byte(b).len() == 2,
{
    let text = hex_byte(b);
    assert(text.drop_last() =~= seq![digit((b / 16) as nat)]);
    assert(text.drop_last().drop_last() =~= Seq::empty());
    assert(number(text.drop_last().drop_last(), 16) == 0);
    assert(number(text.drop_last(), 16) == b / 16);
}

} // verus!
