//! Numbers written out in decimal.

use crate::numbers::{all_digits, digits_value};
use vstd::prelude::*;

verus! {

/// The decimal digit `d`.
pub open spec fn digit_text(d: nat) -> Seq<char> {
    if d == 0 {
        "0"@
    } else if d == 1 {
        "1"@
    } else if d == 2 {
        "2"@
    } else if d == 3 {
        "3"@
    } else if d == 4 {
        "4"@
    } else if d == 5 {
        "5"@
    } else if d == 6 {
        "6"@
    } else if d == 7 {
        "7"@
    } else if d == 8 {
        "8"@
    } else {
        "9"@
    }
}

/// `x` in decimal, without leading zeros.
pub open spec fn decimal(x: nat) -> Seq<char>
    decreases x,
{
    if x < 10 {
        digit_text(x)
    } else {
        decimal(x / 10) + digit_text(x % 10)
    }
}

/// Appends the decimal digit `d`.
pub fn append_digit(out: &mut String, d: u64)
    requires
        d < 10,
    ensures
        final(out)@ == old(out)@ + digit_text(d as nat),
{
    if d == 0 {
        out.append("0");
    } else if d == 1 {
        out.append("1");
    } else if d == 2 {
        out.append("2");
    } else if d == 3 {
        out.append("3");
    } else if d == 4 {
        out.append("4");
    } else if d == 5 {
        out.append("5");
    } else if d == 6 {
        out.append("6");
    } else if d == 7 {
        out.append("7");
    } else if d == 8 {
        out.append("8");
    } else {
        out.append("9");
    }
}

/// Appends `x` in decimal.
pub fn append_decimal(out: &mut String, x: u64)
    ensures
        final(out)@ == old(out)@ + decimal(x as nat),
    decreases x,
{
    if x >= 10 {
        append_decimal(out, x / 10);
    }
    append_digit(out, x % 10);
    proof {
        if x < 10 {
            assert(x % 10 == x);
        }
        assert(old(out)@ + decimal(x as nat) == old(out)@ + (if x < 10 {
            Seq::empty()
        } else {
            decimal((x / 10) as nat)
        }) + digit_text((x % 10) as nat));
    }
}


/// The text of a digit is that one ASCII digit.
pub proof fn lemma_digit_text(d: nat)
    requires
        d < 10,
    ensures
        digit_text(d).len() == 1,
        digit_text(d)[0] as int - '0' as int == d,
{
    reveal_strlit("0");
    reveal_strlit("1");
    reveal_strlit("2");
    reveal_strlit("3");
    reveal_strlit("4");
    reveal_strlit("5");
    reveal_strlit("6");
    reveal_strlit("7");
    reveal_strlit("8");
    reveal_strlit("9");
}

/// A number written in decimal reads back as itself: its text is ASCII digits whose
/// value is the number, with no leading zero unless the number is zero.
pub proof fn lemma_decimal_reads_back(x: nat)
    ensures
        all_digits(decimal(x)),
        digits_value(decimal(x)) == x,
        x > 0 ==> decimal(x)[0] != '0',
    decreases x,
{
    let s = decimal(x);
    if x < 10 {
        lemma_digit_text(x);
        assert(s.drop_last() =~= Seq::<char>::empty());
        assert(digits_value(Seq::<char>::empty()) == 0);
        assert(s.last() == s[0]);
        assert(digits_value(s) == 10 * digits_value(s.drop_last()) + (s.last() as int - '0' as int));
    } else {
        lemma_decimal_reads_back(x / 10);
        lemma_digit_text(x % 10);
        let head = decimal(x / 10);
        assert(s.drop_last() =~= head);
        assert(s.last() == digit_text(x % 10)[0]);
        assert forall|i: int| 0 <= i < s.len() implies '0' <= #[trigger] s[i] <= '9' by {
            if i < head.len() {
                assert(s[i] == head[i]);
            }
        }
        assert(s[0] == head[0]);
        assert(digits_value(s) == 10 * digits_value(head) + (s.last() as int - '0' as int));
        assert(x == 10 * (x / 10) + x % 10);
    }
}

} // verus!
