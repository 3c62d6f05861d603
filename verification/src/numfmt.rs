//! Rendering counts as decimal digit strings.

use vstd::arithmetic::div_mod::lemma_div_decreases;
use vstd::prelude::*;
use vstd::string::StringExecFns;

verus! {

/// The digit character for a value below ten.
pub open spec fn digit_char(d: nat) -> char {
    if d == 0 {
        '0'
    } else if d == 1 {
        '1'
    } else if d == 2 {
        '2'
    } else if d == 3 {
        '3'
    } else if d == 4 {
        '4'
    } else if d == 5 {
        '5'
    } else if d == 6 {
        '6'
    } else if d == 7 {
        '7'
    } else if d == 8 {
        '8'
    } else {
        '9'
    }
}

/// The decimal rendering of `n`, most significant digit first, without
/// leading zeros (a single `'0'` for zero).
pub open spec fn dec_chars(n: nat) -> Seq<char>
    decreases n,
    via dec_chars_decreases
{
    if n < 10 {
        seq![digit_char(n)]
    } else {
        dec_chars(n / 10).push(digit_char(n % 10))
    }
}

#[via_fn]
proof fn dec_chars_decreases(n: nat) {
    if n >= 10 {
        lemma_div_decreases(n as int, 10int);
    }
}

/// Whether `c` is one of the ten decimal digit characters.
pub open spec fn is_digit_char(c: char) -> bool {
    c == '0' || c == '1' || c == '2' || c == '3' || c == '4' || c == '5' || c == '6' || c == '7'
        || c == '8' || c == '9'
}

/// Every character of a decimal rendering is a digit, and there is at
/// least one. In particular a rendering holds no separator of the CSV
/// format and never ends in a carriage return.
pub proof fn lemma_dec_chars_digits(n: nat)
    ensures
        dec_chars(n).len() >= 1,
        forall|k: int| 0 <= k < dec_chars(n).len() ==> is_digit_char(#[trigger] dec_chars(n)[k]),
    decreases n,
{
    if n < 10 {
        assert(dec_chars(n)[0] == digit_char(n));
    } else {
        lemma_div_decreases(n as int, 10int);
        lemma_dec_chars_digits(n / 10);
        let s = dec_chars(n);
        let s0 = dec_chars(n / 10);
        assert forall|k: int| 0 <= k < s.len() implies is_digit_char(#[trigger] s[k]) by {
            if k < s0.len() {
                assert(s[k] == s0[k]);
            } else {
                assert(s[k] == digit_char(n % 10));
            }
        }
    }
}

fn digit_str(d: usize) -> (r: &'static str)
    requires
        d < 10,
    ensures
        r@ == seq![digit_char(d as nat)],
{
    if d == 0 {
        proof {
            reveal_strlit("0");
            assert("0"@ =~= seq![digit_char(0)]);
        }
        "0"
    } else if d == 1 {
        proof {
            reveal_strlit("1");
            assert("1"@ =~= seq![digit_char(1)]);
        }
        "1"
    } else if d == 2 {
        proof {
            reveal_strlit("2");
            assert("2"@ =~= seq![digit_char(2)]);
        }
        "2"
    } else if d == 3 {
        proof {
            reveal_strlit("3");
            assert("3"@ =~= seq![digit_char(3)]);
        }
        "3"
    } else if d == 4 {
        proof {
            reveal_strlit("4");
            assert("4"@ =~= seq![digit_char(4)]);
        }
        "4"
    } else if d == 5 {
        proof {
            reveal_strlit("5");
            assert("5"@ =~= seq![digit_char(5)]);
        }
        "5"
    } else if d == 6 {
        proof {
            reveal_strlit("6");
            assert("6"@ =~= seq![digit_char(6)]);
        }
        "6"
    } else if d == 7 {
        proof {
            reveal_strlit("7");
            assert("7"@ =~= seq![digit_char(7)]);
        }
        "7"
    } else if d == 8 {
        proof {
            reveal_strlit("8");
            assert("8"@ =~= seq![digit_char(8)]);
        }
        "8"
    } else {
        proof {
            reveal_strlit("9");
            assert("9"@ =~= seq![digit_char(9)]);
        }
        "9"
    }
}

/// Append the decimal rendering of `n` to `s`.
pub fn append_dec(s: &mut String, n: usize)
    ensures
        final(s)@ == old(s)@ + dec_chars(n as nat),
    decreases n,
{
    if n < 10 {
        s.append(digit_str(n));
        proof {
            assert(old(s)@ + seq![digit_char(n as nat)] =~= old(s)@ + dec_chars(n as nat));
        }
    } else {
        append_dec(s, n / 10);
        s.append(digit_str(n % 10));
        proof {
            assert((old(s)@ + dec_chars((n / 10) as nat)) + seq![digit_char((n % 10) as nat)]
                =~= old(s)@ + dec_chars(n as nat));
        }
    }
}

} // verus!
