//! Decimal text of unsigned numbers.
use vstd::prelude::*;

verus! {

/// The text of a decimal digit.
pub open spec fn digit_text(d: nat) -> Seq<char> {
    if d == 0 {
        "0"@
    } else if d == 1 {
        "1"@
    } else if d == 2 {
        "2"@
    } else if d == 3 {
        "3"@
    } else if d == 4 {
        "4"@
    } else if d == 5 {
        "5"@
    } else if d == 6 {
        "6"@
    } else if d == 7 {
        "7"@
    } else if d == 8 {
        "8"@
    } else {
        "9"@
    }
}

/// The decimal text of `n`, without leading zeros.
pub open spec fn decimal_text(n: nat) -> Seq<char>
    decreases n,
{
    if n < 10 {
        digit_text(n)
    } else {
        decimal_text(n / 10) + digit_text(n % 10)
    }
}

/// Whether `c` is one of the characters `0` to `9`.
pub open spec fn is_digit_char(c: char) -> bool {
    48 <= c as int <= 57
}

/// The number a string of digit characters spells in base ten, most
/// significant digit first.
pub open spec fn decimal_value(s: Seq<char>) -> int
    decreases s.len(),
{
    if s.len() == 0 {
        0
    } else {
        decimal_value(s.drop_last()) * 10 + (s.last() as int - 48)
    }
}

/// The text of digit `d` is the one character whose code is that of `0`
/// plus `d`; so the ten digit texts differ from one another.
pub proof fn law_digit_text(d: nat)
    requires
        d < 10,
    ensures
        digit_text(d).len() == 1,
        digit_text(d)[0] as int == 48 + d,
        is_digit_char(digit_text(d)[0]),
        forall|e: nat| e < 10 && e != d ==> #[trigger] digit_text(e) != digit_text(d),
{
    reveal_strlit("0");
    reveal_strlit("1");
    reveal_strlit("2");
    reveal_strlit("3");
    reveal_strlit("4");
    reveal_strlit("5");
    reveal_strlit("6");
    reveal_strlit("7");
    reveal_strlit("8");
    reveal_strlit("9");
    assert forall|e: nat| e < 10 && e != d implies #[trigger] digit_text(e) != digit_text(d) by {
        assert(digit_text(e)[0] as int == 48 + e);
    }
}

/// The decimal text of `n` is the base-ten numeral of `n`: it is not empty,
/// holds only digit characters, starts with `0` only for `n == 0`, and reads
/// back as `n`.
pub proof fn law_decimal_text(n: nat)
    ensures
        decimal_text(n).len() >= 1,
        forall|j: int| 0 <= j < decimal_text(n).len() ==> is_digit_char(#[trigger] decimal_text(n)[j]),
        n > 0 ==> decimal_text(n)[0] as int != 48,
        decimal_value(decimal_text(n)) == n,
    decreases n,
{
    if n < 10 {
        law_digit_text(n);
        let s = decimal_text(n);
        assert(s.drop_last() =~= Seq::<char>::empty());
        assert(decimal_value(s) == decimal_value(s.drop_last()) * 10 + (s.last() as int - 48));
        assert(decimal_value(Seq::<char>::empty()) == 0);
    } else {
        let q = n / 10;
        let d = n % 10;
        law_decimal_text(q);
        law_digit_text(d);
        let a = decimal_text(q);
        let b = digit_text(d);
        let s = decimal_text(n);
        assert(s == a + b);
        assert(s.drop_last() =~= a);
        assert(s.last() == b[0]);
        assert forall|j: int| 0 <= j < s.len() implies is_digit_char(#[trigger] s[j]) by {
            if j < a.len() {
                assert(s[j] == a[j]);
            } else {
                assert(s[j] == b[0]);
            }
        }
        assert(s[0] == a[0]);
        assert(decimal_value(s) == decimal_value(a) * 10 + (s.last() as int - 48));
        assert(n == q * 10 + d) by (nonlinear_arith)
            requires
                q == n / 10,
                d == n % 10,
        ;
    }
}

/// Two numbers have the same decimal text only when they are equal.
pub proof fn law_decimal_text_distinct(a: nat, b: nat)
    ensures
        decimal_text(a) == decimal_text(b) ==> a == b,
{
    law_decimal_text(a);
    law_decimal_text(b);
}

/// The decimal text of `10 * q + d`, for `q > 0` and a digit `d`, is that of
/// `q` followed by the digit.
pub proof fn law_decimal_text_append(q: nat, d: nat)
    requires
        q > 0,
        d < 10,
    ensures
        decimal_text(10 * q + d) == decimal_text(q) + digit_text(d),
{
    assert((10 * q + d) / 10 == q);
    assert((10 * q + d) % 10 == d);
}

/// The text of one decimal digit.
pub fn digit_str(d: usize) -> (text: &'static str)
    requires
        d < 10,
    ensures
        text@ == digit_text(d as nat),
        text@.len() == 1,
        text@[0] as int == 48 + d,
{
    proof {
        law_digit_text(d as nat);
    }
    if d == 0 {
        "0"
    } else if d == 1 {
        "1"
    } else if d == 2 {
        "2"
    } else if d == 3 {
        "3"
    } else if d == 4 {
        "4"
    } else if d == 5 {
        "5"
    } else if d == 6 {
        "6"
    } else if d == 7 {
        "7"
    } else if d == 8 {
        "8"
    } else {
        "9"
    }
}

/// Appends the decimal text of `n`.
pub fn push_decimal(text: &mut String, n: usize)
    ensures
        final(text)@ == old(text)@ + decimal_text(n as nat),
        decimal_value(final(text)@.subrange(old(text)@.len() as int, final(text)@.len() as int)) == n,
    decreases n,
{
    proof {
        law_decimal_text(n as nat);
    }
    if n >= 10 {
        push_decimal(text, n / 10);
    }
    text.append(digit_str(n % 10));
    proof {
        if n >= 10 {
            assert(text@ =~= old(text)@ + decimal_text(n as nat));
        }
        assert(text@.subrange(old(text)@.len() as int, text@.len() as int) =~= decimal_text(
            n as nat,
        ));
    }
}

} // verus!
