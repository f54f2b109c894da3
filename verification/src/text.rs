//! Decimal text for the numbers and lists that error messages quote.
use vstd::prelude::*;

verus! {

/// The decimal digit `d`.
pub open spec fn digit(d: int) -> char {
    if d == 0 {
        '0'
    } else if d == 1 {
        '1'
    } else if d == 2 {
        '2'
    } else if d == 3 {
        '3'
    } else if d == 4 {
        '4'
    } else if d == 5 {
        '5'
    } else if d == 6 {
        '6'
    } else if d == 7 {
        '7'
    } else if d == 8 {
        '8'
    } else {
        '9'
    }
}

/// Decimal text of a natural number, without leading zeros.
pub open spec fn decimal(n: nat) -> Seq<char>
    decreases n,
{
    if n < 10 {
        seq![digit(n as int)]
    } else {
        decimal(n / 10).push(digit((n % 10) as int))
    }
}

/// Decimal text of an integer, with a minus sign where it is negative.
pub open spec fn signed_decimal(i: int) -> Seq<char> {
    if i < 0 {
        seq!['-'] + decimal((-i) as nat)
    } else {
        decimal(i as nat)
    }
}

/// The items of a list, each but the first led in by a comma and a space.
pub open spec fn items(s: Seq<usize>) -> Seq<char>
    decreases s.len(),
{
    if s.len() == 0 {
        Seq::empty()
    } else if s.len() == 1 {
        decimal(s[0] as nat)
    } else {
        items(s.drop_last()) + seq![',', ' '] + decimal(s.last() as nat)
    }
}

/// A list in square brackets.
pub open spec fn list(s: Seq<usize>) -> Seq<char> {
    seq!['['] + items(s) + seq![']']
}

fn digit_text(d: u128) -> (r: &'static str)
    requires
        d < 10,
    ensures
        r@ == seq![digit(d as int)],
{
    proof {
        reveal_strlit("0");
        reveal_strlit("1");
        reveal_strlit("2");
        reveal_strlit("3");
        reveal_strlit("4");
        reveal_strlit("5");
        reveal_strlit("6");
        reveal_strlit("7");
        reveal_strlit("8");
        reveal_strlit("9");
    }
    match d {
        0 => "0",
        1 => "1",
        2 => "2",
        3 => "3",
        4 => "4",
        5 => "5",
        6 => "6",
        7 => "7",
        8 => "8",
        _ => "9",
    }
}

/// Appends the decimal text of `n`.
pub fn push_decimal(s: &mut String, n: u128)
    ensures
        final(s)@ == old(s)@ + decimal(n as nat),
    decreases n,
{
    if n >= 10 {
        push_decimal(s, n / 10);
    }
    s.append(digit_text(n % 10));
}

/// Appends the decimal text of `i`, with its sign where it is negative.
pub fn push_signed(s: &mut String, i: isize)
    ensures
        final(s)@ == old(s)@ + signed_decimal(i as int),
{
    if i < 0 {
        proof {
            reveal_strlit("-");
        }
        s.append("-");
        let m: i128 = -(i as i128);
        push_decimal(s, m as u128);
    } else {
        push_decimal(s, i as u128);
    }
}

/// Appends the list `v` in square brackets.
pub fn push_list(s: &mut String, v: &[usize])
    ensures
        final(s)@ == old(s)@ + list(v@),
{
    proof {
        reveal_strlit("[");
        reveal_strlit("]");
        reveal_strlit(", ");
    }
    s.append("[");
    let mut i: usize = 0;
    while i < v.len()
        invariant
            i <= v@.len(),
            s@ == old(s)@ + seq!['['] + items(v@.take(i as int)),
            ", "@ == seq![',', ' '],
        decreases v@.len() - i,
    {
        if i > 0 {
            s.append(", ");
        }
        push_decimal(s, v[i] as u128);
        proof {
            assert(v@.take(i + 1).drop_last() =~= v@.take(i as int));
        }
        i = i + 1;
    }
    proof {
        assert(v@.take(i as int) =~= v@);
    }
    s.append("]");
}

/// `lead` followed by the decimal text of `n`.
pub fn with_number(lead: &str, n: usize) -> (r: String)
    ensures
        r@ == lead@ + decimal(n as nat),
{
    let mut s: String = lead.to_owned();
    push_decimal(&mut s, n as u128);
    s
}

/// `a` and `b`, each led in by its own text.
pub fn with_two_numbers(first: &str, a: usize, second: &str, b: usize) -> (r: String)
    ensures
        r@ == first@ + decimal(a as nat) + second@ + decimal(b as nat),
{
    let mut s: String = with_number(first, a);
    s.append(second);
    push_decimal(&mut s, b as u128);
    s
}

} // verus!
