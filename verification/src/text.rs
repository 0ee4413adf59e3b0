//! Decimal rendering of integers.
use vstd::arithmetic::power::*;
use vstd::prelude::*;
use vstd::string::StringExecFns;

verus! {

/// The character of a decimal digit.
pub open spec fn digit_char(d: nat) -> char
    recommends
        d < 10,
{
    (d + 48) as char
}

/// The decimal representation of a natural number, without leading zeros.
pub open spec fn decimal(n: nat) -> Seq<char>
    decreases n,
{
    if n < 10 {
        seq![digit_char(n)]
    } else {
        decimal(n / 10).push(digit_char(n % 10))
    }
}

/// The last `width` decimal digits of `n`.
pub open spec fn padded(n: nat, width: nat) -> Seq<char>
    decreases width,
{
    if width == 0 {
        Seq::empty()
    } else {
        padded(n / 10, (width - 1) as nat).push(digit_char(n % 10))
    }
}

fn digit_text(d: u128) -> (text: &'static str)
    requires
        d < 10,
    ensures
        text@ == seq![digit_char(d as nat)],
{
    proof {
        reveal_strlit("0");
        reveal_strlit("1");
        reveal_strlit("2");
        reveal_strlit("3");
        reveal_strlit("4");
        reveal_strlit("5");
        reveal_strlit("6");
        reveal_strlit("7");
        reveal_strlit("8");
        reveal_strlit("9");
    }
    match d {
        0 => "0",
        1 => "1",
        2 => "2",
        3 => "3",
        4 => "4",
        5 => "5",
        6 => "6",
        7 => "7",
        8 => "8",
        _ => "9",
    }
}

/// Renders `n` in base ten.
pub fn to_decimal(n: u128) -> (text: String)
    ensures
        text@ == decimal(n as nat),
    decreases n,
{
    if n < 10 {
        String::from_str(digit_text(n))
    } else {
        let mut text = to_decimal(n / 10);
        text.append(digit_text(n % 10));
        text
    }
}

/// Renders the last `width` digits of `n`.
pub fn to_padded(n: u128, width: u32) -> (text: String)
    ensures
        text@ == padded(n as nat, width as nat),
    decreases width,
{
    if width == 0 {
        String::new()
    } else {
        let mut text = to_padded(n / 10, width - 1);
        text.append(digit_text(n % 10));
        text
    }
}

/// `prefix` followed by the decimal form of `n`.
pub fn labelled(prefix: &str, n: u64) -> (text: String)
    ensures
        text@ == prefix@ + decimal(n as nat),
{
    let mut text = String::from_str(prefix);
    let number = to_decimal(n as u128);
    text.append(number.as_str());
    text
}

/// The number that decimal digits stand for.
pub open spec fn number_of(digits: Seq<char>) -> int
    decreases digits.len(),
{
    if digits.len() == 0 {
        0
    } else {
        10 * number_of(digits.drop_last()) + (digits.last() as int - '0' as int)
    }
}

/// Whether every character is a decimal digit.
pub open spec fn all_digits(digits: Seq<char>) -> bool {
    forall|i: int| 0 <= i < digits.len() ==> '0' as int <= (#[trigger] digits[i]) as int <= '9' as int
}

/// The decimal text of a number stands for that number, and has no leading zero.
pub proof fn decimal_reads_back(n: nat)
    ensures
        number_of(decimal(n)) == n,
        all_digits(decimal(n)),
        decimal(n).len() > 0,
        n > 0 ==> decimal(n)[0] != '0',
        n == 0 ==> decimal(n).len() == 1,
    decreases n,
{
    let text = decimal(n);
    if n < 10 {
        assert(text.drop_last() =~= Seq::<char>::empty());
        assert(number_of(text.drop_last()) == 0);
    } else {
        decimal_reads_back(n / 10);
        assert(text.drop_last() =~= decimal(n / 10));
    }
}

/// A padded text has the given width and stands for what is left of the number within it:
/// the number without the multiple of a power of ten that is returned.
pub proof fn padded_reads_back(n: nat, width: nat) -> (rest: nat)
    ensures
        padded(n, width).len() == width,
        all_digits(padded(n, width)),
        n == number_of(padded(n, width)) + rest * pow(10, width),
        0 <= number_of(padded(n, width)) < pow(10, width),
    decreases width,
{
    reveal(pow);
    let text = padded(n, width);
    if width == 0 {
        assert(n * 1 == n);
        n
    } else {
        let less = (width - 1) as nat;
        let rest = padded_reads_back(n / 10, less);
        assert(text.drop_last() =~= padded(n / 10, less));
        let p = pow(10, less);
        assert(pow(10, width) == 10 * p);
        assert(rest * (10 * p) == 10 * (rest * p)) by (nonlinear_arith);
        rest
    }
}

} // verus!
