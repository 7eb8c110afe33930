//! What the guest script gets from the engine and what it hands back: the
//! table behind its element handles, and the text of its errors.

use vstd::prelude::*;

pub mod binding;

verus! {

/// The decimal digit for a number below ten.
pub open spec fn digit(d: nat) -> char {
    if d == 0 {
        '0'
    } else if d == 1 {
        '1'
    } else if d == 2 {
        '2'
    } else if d == 3 {
        '3'
    } else if d == 4 {
        '4'
    } else if d == 5 {
        '5'
    } else if d == 6 {
        '6'
    } else if d == 7 {
        '7'
    } else if d == 8 {
        '8'
    } else {
        '9'
    }
}

/// The number written in decimal, without leading zeros.
pub open spec fn decimal(n: nat) -> Seq<char>
    decreases n,
{
    if n < 10 {
        seq![digit(n)]
    } else {
        decimal(n / 10).push(digit(n % 10))
    }
}

/// The text of a guest error: the label of the script, the line, and the
/// error's own message, as `label:line: message`.
pub open spec fn error_text(label: Seq<char>, line: nat, message: Seq<char>) -> Seq<char> {
    label + ":"@ + decimal(line) + ": "@ + message
}

/// The decimal digit for a number below ten.
fn digit_of(d: usize) -> (c: char)
    requires
        d < 10,
    ensures
        c == digit(d as nat),
{
    if d == 0 {
        '0'
    } else if d == 1 {
        '1'
    } else if d == 2 {
        '2'
    } else if d == 3 {
        '3'
    } else if d == 4 {
        '4'
    } else if d == 5 {
        '5'
    } else if d == 6 {
        '6'
    } else if d == 7 {
        '7'
    } else if d == 8 {
        '8'
    } else {
        '9'
    }
}

/// The digits of a number that is still to be written: none for zero.
spec fn leading(n: nat) -> Seq<char> {
    if n == 0 {
        Seq::empty()
    } else {
        decimal(n)
    }
}

/// The number written in decimal.
pub fn to_decimal(n: usize) -> (text: String)
    ensures
        text@ == decimal(n as nat),
{
    let mut digits: Vec<char> = Vec::new();
    digits.push(digit_of(n % 10));
    let mut rest: usize = n / 10;
    proof {
        assert(decimal(n as nat) =~= leading(rest as nat) + digits@.reverse());
    }
    while rest > 0
        invariant
            digits@.len() > 0,
            decimal(n as nat) == leading(rest as nat) + digits@.reverse(),
        decreases rest,
    {
        let ghost before = digits@;
        digits.push(digit_of(rest % 10));
        proof {
            assert(digits@.reverse() =~= seq![digit((rest % 10) as nat)] + before.reverse());
            assert(leading(rest as nat) =~= leading((rest / 10) as nat) + seq![
                digit((rest % 10) as nat),
            ]);
            assert(leading((rest / 10) as nat) + digits@.reverse() =~= leading(rest as nat)
                + before.reverse());
        }
        rest = rest / 10;
    }
    let mut text = String::new();
    let mut left: usize = digits.len();
    let ghost reversed = digits@.reverse();
    proof {
        assert(reversed.take(0) =~= Seq::<char>::empty());
    }
    while left > 0
        invariant
            left <= digits@.len(),
            reversed == digits@.reverse(),
            text@ == reversed.take(digits@.len() - left),
        decreases left,
    {
        left -= 1;
        text.push(digits[left]);
        proof {
            let done = digits@.len() - left;
            assert(reversed.take(done) =~= reversed.take(done - 1).push(digits@[left as int]));
        }
    }
    proof {
        assert(reversed.take(digits@.len() as int) =~= reversed);
        assert(leading(0) + reversed =~= reversed);
    }
    text
}

/// The text of a guest error that the script with the given label raised on
/// the given line.
pub fn format_error(label: &str, line: usize, message: &str) -> (text: String)
    ensures
        text@ == error_text(label@, line as nat, message@),
{
    let number = to_decimal(line);
    let mut text = String::from_str(label);
    text.append(":");
    text.append(number.as_str());
    text.append(": ");
    text.append(message);
    text
}

} // verus!
