//! Decimal and hexadecimal renderings of integers for the labels of the panel.

use vstd::prelude::*;
use vstd::string::{StrSliceExecFns, StringExecFns};

verus! {

/// The character of digit `d` (`0`-`9`, then `A`-`F`).
pub open spec fn digit_char(d: int) -> char {
    if d < 10 {
        (48 + d) as char
    } else {
        (55 + d) as char
    }
}

/// The digits of `n` in base `b`, most significant first, without leading zeros
/// (`0` is a single digit).
pub open spec fn digits(n: nat, b: nat) -> Seq<char>
    decreases n,
{
    if b < 2 || n < b {
        seq![digit_char(n as int)]
    } else {
        proof {
            vstd::arithmetic::div_mod::lemma_div_decreases(n as int, b as int);
        }
        digits(n / b, b).push(digit_char((n % b) as int))
    }
}

/// The decimal text of `v`, with a leading `-` when negative.
pub open spec fn decimal(v: int) -> Seq<char> {
    if v < 0 {
        seq!['-'] + digits((-v) as nat, 10)
    } else {
        digits(v as nat, 10)
    }
}

/// The upper-case hexadecimal text of `v`, padded with `0` to at least two digits.
pub open spec fn hex2(v: nat) -> Seq<char> {
    if v < 16 {
        seq!['0', digit_char(v as int)]
    } else {
        digits(v, 16)
    }
}

/// The one-character text of digit `d`.
fn digit_str(d: u64) -> (s: &'static str)
    requires
        d < 16,
    ensures
        s@ == seq![digit_char(d as int)],
{
    proof {
        reveal_strlit("0");
        reveal_strlit("1");
        reveal_strlit("2");
        reveal_strlit("3");
        reveal_strlit("4");
        reveal_strlit("5");
        reveal_strlit("6");
        reveal_strlit("7");
        reveal_strlit("8");
        reveal_strlit("9");
        reveal_strlit("A");
        reveal_strlit("B");
        reveal_strlit("C");
        reveal_strlit("D");
        reveal_strlit("E");
        reveal_strlit("F");
    }
    match d {
        0 => "0",
        1 => "1",
        2 => "2",
        3 => "3",
        4 => "4",
        5 => "5",
        6 => "6",
        7 => "7",
        8 => "8",
        9 => "9",
        10 => "A",
        11 => "B",
        12 => "C",
        13 => "D",
        14 => "E",
        _ => "F",
    }
}

/// Appends the base-`b` digits of `n`.
fn push_digits(s: &mut String, n: u64, b: u64)
    requires
        2 <= b <= 16,
    ensures
        final(s)@ == old(s)@ + digits(n as nat, b as nat),
    decreases n,
{
    if n >= b {
        proof {
            vstd::arithmetic::div_mod::lemma_div_decreases(n as int, b as int);
        }
        push_digits(s, n / b, b);
    } else {
        proof {
            vstd::arithmetic::div_mod::lemma_small_mod(n as nat, b as nat);
        }
    }
    s.append(digit_str(n % b));
}

/// The decimal text of `v`.
pub fn decimal_string(v: i64) -> (s: String)
    ensures
        s@ == decimal(v as int),
{
    let mut s = String::new();
    if v < 0 {
        proof {
            reveal_strlit("-");
        }
        s.append("-");
        let m: u64 = (0i128 - v as i128) as u64;
        push_digits(&mut s, m, 10);
    } else {
        push_digits(&mut s, v as u64, 10);
    }
    s
}

/// The decimal text of an unsigned `v`.
pub fn unsigned_string(v: u64) -> (s: String)
    ensures
        s@ == decimal(v as int),
{
    let mut s = String::new();
    push_digits(&mut s, v, 10);
    s
}

/// The upper-case hexadecimal text of `v`, at least two digits.
pub fn hex2_string(v: u32) -> (s: String)
    ensures
        s@ == hex2(v as nat),
{
    let mut s = String::new();
    if v < 16 {
        proof {
            reveal_strlit("0");
        }
        s.append("0");
    }
    push_digits(&mut s, v as u64, 16);
    s
}

/// The one-character text of a digit or capital letter (codes `0x30..=0x39`, `0x41..=0x5A`).
pub fn char_text(c: u32) -> (s: String)
    requires
        0x30 <= c <= 0x39 || 0x41 <= c <= 0x5A,
    ensures
        s@ == seq![c as char],
{
    proof {
        reveal_strlit("0123456789ABCDEFGHIJKLMNOPQRSTUVWXYZ");
    }
    let table = "0123456789ABCDEFGHIJKLMNOPQRSTUVWXYZ";
    assert(table.is_ascii());
    let i: usize = if c <= 0x39 {
        (c - 0x30) as usize
    } else {
        (c - 0x41 + 10) as usize
    };
    let one = table.substring_ascii(i, i + 1);
    assert(one@ =~= seq![c as char]);
    String::from_str(one)
}

} // verus!
