//! Building human-readable text: decimal numbers and padding.

use vstd::prelude::*;
use vstd::string::StringExecFns;

verus! {

/// The character of a decimal digit.
pub open spec fn digit_char(d: nat) -> char {
    if d == 0 { '0' } else if d == 1 { '1' } else if d == 2 { '2' } else if d == 3 { '3' }
    else if d == 4 { '4' } else if d == 5 { '5' } else if d == 6 { '6' } else if d == 7 { '7' }
    else if d == 8 { '8' } else { '9' }
}

/// The decimal representation of `x`, without leading zeros.
pub open spec fn decimal(x: nat) -> Seq<char>
    decreases x,
{
    if x < 10 {
        seq![digit_char(x)]
    } else {
        decimal(x / 10) + seq![digit_char(x % 10)]
    }
}

/// `n` spaces.
pub open spec fn spaces(n: nat) -> Seq<char> {
    Seq::new(n, |i: int| ' ')
}

/// `s` right-aligned in a field of `width` characters.
pub open spec fn pad_left_spec(s: Seq<char>, width: nat) -> Seq<char> {
    if s.len() >= width {
        s
    } else {
        spaces((width - s.len()) as nat) + s
    }
}

/// `s` left-aligned in a field of `width` characters.
pub open spec fn pad_right_spec(s: Seq<char>, width: nat) -> Seq<char> {
    if s.len() >= width {
        s
    } else {
        s + spaces((width - s.len()) as nat)
    }
}

fn digit_str(d: u64) -> (r: &'static str)
    requires
        d < 10,
    ensures
        r@ == seq![digit_char(d as nat)],
{
    if d == 0 {
        proof { reveal_strlit("0"); }
        "0"
    } else if d == 1 {
        proof { reveal_strlit("1"); }
        "1"
    } else if d == 2 {
        proof { reveal_strlit("2"); }
        "2"
    } else if d == 3 {
        proof { reveal_strlit("3"); }
        "3"
    } else if d == 4 {
        proof { reveal_strlit("4"); }
        "4"
    } else if d == 5 {
        proof { reveal_strlit("5"); }
        "5"
    } else if d == 6 {
        proof { reveal_strlit("6"); }
        "6"
    } else if d == 7 {
        proof { reveal_strlit("7"); }
        "7"
    } else if d == 8 {
        proof { reveal_strlit("8"); }
        "8"
    } else {
        proof { reveal_strlit("9"); }
        "9"
    }
}

/// Appends the decimal representation of `x`.
pub fn push_decimal(s: &mut String, x: u64)
    ensures
        final(s)@ == old(s)@ + decimal(x as nat),
    decreases x,
{
    if x >= 10 {
        push_decimal(s, x / 10);
    }
    let d = digit_str(x % 10);
    s.append(d);
    proof {
        if x >= 10 {
            assert(final(s)@ =~= old(s)@ + decimal(x as nat));
        } else {
            assert(final(s)@ =~= old(s)@ + decimal(x as nat));
        }
    }
}

/// The decimal representation of `x`.
pub fn to_decimal(x: u64) -> (r: String)
    ensures
        r@ == decimal(x as nat),
{
    let mut s = String::new();
    push_decimal(&mut s, x);
    proof {
        assert(s@ =~= decimal(x as nat));
    }
    s
}

/// Appends `n` spaces.
pub fn push_spaces(s: &mut String, n: usize)
    ensures
        final(s)@ == old(s)@ + spaces(n as nat),
{
    let mut i: usize = 0;
    proof {
        reveal_strlit(" ");
        assert(s@ =~= old(s)@ + spaces(0));
    }
    while i < n
        invariant
            i <= n,
            s@ == old(s)@ + spaces(i as nat),
            " "@ == seq![' '],
        decreases n - i,
    {
        s.append(" ");
        i = i + 1;
        proof {
            assert(s@ =~= old(s)@ + spaces(i as nat));
        }
    }
}

/// The number of decimal digits of `x`.
pub fn decimal_len(x: u64) -> (r: usize)
    ensures
        r == decimal(x as nat).len(),
        1 <= r <= 20,
    decreases x,
{
    if x >= 10 {
        let r = decimal_len(x / 10);
        proof {
            lemma_decimal_len_bound(x as nat);
        }
        r + 1
    } else {
        1
    }
}

/// `10^k`.
pub open spec fn pow10(k: nat) -> nat
    decreases k,
{
    if k == 0 {
        1
    } else {
        10 * pow10((k - 1) as nat)
    }
}

/// Below `10^k`, at most `k` digits.
proof fn lemma_decimal_len_pow10(x: nat, k: nat)
    requires
        k >= 1,
        x < pow10(k),
    ensures
        decimal(x).len() <= k,
    decreases k,
{
    if x >= 10 {
        assert(k >= 2) by {
            if k == 1 {
                assert(pow10(1) == 10 * pow10(0));
            }
        }
        assert(x / 10 < pow10((k - 1) as nat));
        lemma_decimal_len_pow10(x / 10, (k - 1) as nat);
    }
}

/// Decimal representations of `u64` values have at most 20 digits.
proof fn lemma_decimal_len_bound(x: nat)
    requires
        x < 0x1_0000_0000_0000_0000,
    ensures
        1 <= decimal(x).len() <= 20,
{
    reveal_with_fuel(pow10, 21);
    assert(pow10(20) == 100_000_000_000_000_000_000);
    lemma_decimal_len_pow10(x, 20);
}

/// `text`, of `len` characters, right-aligned in a field of `width` characters.
pub fn pad_left(text: &str, len: usize, width: usize) -> (r: String)
    requires
        len == text@.len(),
    ensures
        r@ == pad_left_spec(text@, width as nat),
{
    let mut s = String::new();
    if len < width {
        push_spaces(&mut s, width - len);
    }
    s.append(text);
    proof {
        assert(s@ =~= pad_left_spec(text@, width as nat));
    }
    s
}

/// `text`, of `len` characters, left-aligned in a field of `width` characters.
pub fn pad_right(text: &str, len: usize, width: usize) -> (r: String)
    requires
        len == text@.len(),
    ensures
        r@ == pad_right_spec(text@, width as nat),
{
    let mut s = String::from_str(text);
    if len < width {
        push_spaces(&mut s, width - len);
    }
    proof {
        assert(s@ =~= pad_right_spec(text@, width as nat));
    }
    s
}

} // verus!
