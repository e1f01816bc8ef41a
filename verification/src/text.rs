//! Numbers as decimal text.

use vstd::prelude::*;
use vstd::string::StringExecFns;

verus! {

/// The character of a decimal digit.
pub open spec fn digit(d: nat) -> char {
    (d % 10 + 48) as char
}

/// A number written out in decimal.
pub open spec fn decimal(n: nat) -> Seq<char>
    decreases n,
{
    if n < 10 {
        seq![digit(n)]
    } else {
        decimal(n / 10).push(digit(n % 10))
    }
}

/// The text of a decimal digit.
fn digit_text(d: u64) -> (s: &'static str)
    requires
        d < 10,
    ensures
        s@ == seq![digit(d as nat)],
{
    proof {
        reveal_strlit("0");
        reveal_strlit("1");
        reveal_strlit("2");
        reveal_strlit("3");
        reveal_strlit("4");
        reveal_strlit("5");
        reveal_strlit("6");
        reveal_strlit("7");
        reveal_strlit("8");
        reveal_strlit("9");
    }
    let s: &'static str = match d {
        0 => "0",
        1 => "1",
        2 => "2",
        3 => "3",
        4 => "4",
        5 => "5",
        6 => "6",
        7 => "7",
        8 => "8",
        _ => "9",
    };
    assert(s@ =~= seq![digit(d as nat)]);
    s
}

/// Append a number in decimal.
pub fn push_number(out: &mut String, n: u64)
    ensures
        final(out)@ == old(out)@ + decimal(n as nat),
    decreases n,
{
    if n >= 10 {
        push_number(out, n / 10);
    }
    out.append(digit_text(n % 10));
    assert(out@ =~= old(out)@ + decimal(n as nat));
}

/// A number in decimal.
pub fn number(n: u64) -> (s: String)
    ensures
        s@ == decimal(n as nat),
{
    let mut s = String::new();
    push_number(&mut s, n);
    assert(s@ =~= decimal(n as nat));
    s
}

/// A number is written with digits, and with one at least.
pub proof fn lemma_decimal_digits(n: nat)
    ensures
        decimal(n).len() > 0,
        forall|i: int| 0 <= i < decimal(n).len() ==> '0' <= #[trigger] decimal(n)[i] <= '9',
    decreases n,
{
    if n >= 10 {
        lemma_decimal_digits(n / 10);
    }
}

/// Different numbers are written differently.
pub proof fn law_decimal_is_one_to_one(a: nat, b: nat)
    requires
        decimal(a) == decimal(b),
    ensures
        a == b,
    decreases a,
{
    lemma_decimal_digits(a);
    lemma_decimal_digits(b);
    lemma_decimal_digits(a / 10);
    lemma_decimal_digits(b / 10);
    let x = decimal(a);
    let y = decimal(b);
    assert(x.last() == digit(a % 10));
    assert(y.last() == digit(b % 10));
    assert(a % 10 == b % 10);
    if a >= 10 && b >= 10 {
        assert(x.drop_last() =~= decimal(a / 10));
        assert(y.drop_last() =~= decimal(b / 10));
        law_decimal_is_one_to_one(a / 10, b / 10);
    }
}

/// A text of digits followed by a text that is empty or begins with a point determines
/// both.
pub proof fn lemma_number_ends(a: nat, s: Seq<char>, b: nat, t: Seq<char>)
    requires
        decimal(a) + s == decimal(b) + t,
        s.len() > 0 ==> s[0] == '.',
        t.len() > 0 ==> t[0] == '.',
    ensures
        a == b,
        s == t,
{
    lemma_decimal_digits(a);
    lemma_decimal_digits(b);
    let x = decimal(a) + s;
    let y = decimal(b) + t;
    let n = decimal(a).len() as int;
    let m = decimal(b).len() as int;
    if n < m {
        assert(y[n] == decimal(b)[n]);
        assert(x[n] == s[0]);
    }
    if m < n {
        assert(x[m] == decimal(a)[m]);
        assert(y[m] == t[0]);
    }
    assert(decimal(a) =~= x.take(n));
    assert(decimal(b) =~= y.take(m));
    assert(s =~= x.skip(n));
    assert(t =~= y.skip(m));
    law_decimal_is_one_to_one(a, b);
}

} // verus!
