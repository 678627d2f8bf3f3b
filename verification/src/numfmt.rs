//! Decimal formatting of the unsigned counters that the audit trail and the
//! snapshot print.

use vstd::prelude::*;

verus! {

/// The character of one decimal digit.
pub open spec fn digit_char(d: int) -> char {
    if d == 0 {
        '0'
    } else if d == 1 {
        '1'
    } else if d == 2 {
        '2'
    } else if d == 3 {
        '3'
    } else if d == 4 {
        '4'
    } else if d == 5 {
        '5'
    } else if d == 6 {
        '6'
    } else if d == 7 {
        '7'
    } else if d == 8 {
        '8'
    } else {
        '9'
    }
}

/// The decimal writing of `n`: most significant digit first, no leading
/// zeros, a single `'0'` for zero.
pub open spec fn dec_str(n: nat) -> Seq<char>
    decreases n,
{
    if n < 10 {
        seq![digit_char(n as int)]
    } else {
        dec_str(n / 10).push(digit_char((n % 10) as int))
    }
}

/// Every character of `s` is a decimal digit.
pub open spec fn is_digit_seq(s: Seq<char>) -> bool {
    forall|i: int| 0 <= i < s.len() ==> '0' <= #[trigger] s[i] <= '9'
}

/// The decimal writing is never empty and holds digits only.
pub proof fn lemma_dec_str_digits(n: nat)
    ensures
        dec_str(n).len() >= 1,
        is_digit_seq(dec_str(n)),
    decreases n,
{
    if n >= 10 {
        lemma_dec_str_digits(n / 10);
    }
}

/// The digit characters of `s`, last byte first.
spec fn rev_chars(s: Seq<u8>) -> Seq<char>
    decreases s.len(),
{
    if s.len() == 0 {
        Seq::empty()
    } else {
        seq![digit_char(s.last() as int)] + rev_chars(s.drop_last())
    }
}

proof fn lemma_rev_chars_len(s: Seq<u8>)
    ensures
        rev_chars(s).len() == s.len(),
    decreases s.len(),
{
    if s.len() > 0 {
        lemma_rev_chars_len(s.drop_last());
    }
}

proof fn lemma_rev_chars_index(s: Seq<u8>, p: int)
    requires
        0 <= p < s.len(),
    ensures
        rev_chars(s).len() == s.len(),
        rev_chars(s)[p] == digit_char(s[s.len() - 1 - p] as int),
    decreases s.len(),
{
    lemma_rev_chars_len(s);
    if p > 0 {
        lemma_rev_chars_index(s.drop_last(), p - 1);
    }
}

/// The one-character string of a decimal digit.
fn digit_str(d: u8) -> (r: &'static str)
    requires
        d < 10,
    ensures
        r@ == seq![digit_char(d as int)],
{
    proof {
        reveal_strlit("0");
        reveal_strlit("1");
        reveal_strlit("2");
        reveal_strlit("3");
        reveal_strlit("4");
        reveal_strlit("5");
        reveal_strlit("6");
        reveal_strlit("7");
        reveal_strlit("8");
        reveal_strlit("9");
    }
    let r = if d == 0 {
        "0"
    } else if d == 1 {
        "1"
    } else if d == 2 {
        "2"
    } else if d == 3 {
        "3"
    } else if d == 4 {
        "4"
    } else if d == 5 {
        "5"
    } else if d == 6 {
        "6"
    } else if d == 7 {
        "7"
    } else if d == 8 {
        "8"
    } else {
        "9"
    };
    proof {
        assert(r@ =~= seq![digit_char(d as int)]);
    }
    r
}

/// Format `n` in decimal.
pub fn u64_to_string(n: u64) -> (r: String)
    ensures
        r@ == dec_str(n as nat),
{
    let mut digits: Vec<u8> = Vec::new();
    digits.push((n % 10) as u8);
    let mut m: u64 = n / 10;
    proof {
        assert(digits@.drop_last() =~= Seq::<u8>::empty());
        assert(rev_chars(Seq::<u8>::empty()) =~= Seq::<char>::empty());
        assert(digits@.last() == (n % 10) as u8);
        assert(rev_chars(digits@) =~= seq![digit_char((n % 10) as int)]);
        if m == 0 {
            assert(dec_str(n as nat) == rev_chars(digits@));
        } else {
            assert(dec_str(n as nat) =~= dec_str(m as nat) + rev_chars(digits@));
        }
    }
    while m > 0
        invariant
            dec_str(n as nat) == (if m > 0 {
                dec_str(m as nat) + rev_chars(digits@)
            } else {
                rev_chars(digits@)
            }),
            forall|i: int| 0 <= i < digits@.len() ==> #[trigger] digits@[i] < 10,
            digits@.len() >= 1,
        decreases m,
    {
        let ghost prev = digits@;
        let d = (m % 10) as u8;
        digits.push(d);
        let m_old = m;
        m = m / 10;
        proof {
            assert(digits@.drop_last() =~= prev);
            assert(rev_chars(digits@) =~= seq![digit_char(d as int)] + rev_chars(prev));
            if m > 0 {
                assert(dec_str(m_old as nat) == dec_str(m as nat).push(
                    digit_char((m_old % 10) as int),
                ));
                assert(dec_str(m as nat).push(digit_char(d as int)) =~= dec_str(m as nat) + seq![
                    digit_char(d as int),
                ]);
                assert((dec_str(m as nat) + seq![digit_char(d as int)]) + rev_chars(prev)
                    =~= dec_str(m as nat) + (seq![digit_char(d as int)] + rev_chars(prev)));
                assert(dec_str(n as nat) == dec_str(m as nat) + rev_chars(digits@));
            } else {
                assert(dec_str(m_old as nat) =~= seq![digit_char(m_old as int)]);
                assert(m_old % 10 == m_old as int);
                assert(dec_str(n as nat) =~= rev_chars(digits@));
            }
        }
    }
    let nd = digits.len();
    proof {
        lemma_rev_chars_len(digits@);
    }
    let mut s = String::new();
    let mut i: usize = nd;
    while i > 0
        invariant
            i <= nd,
            nd == digits@.len(),
            forall|p: int| 0 <= p < digits@.len() ==> #[trigger] digits@[p] < 10,
            dec_str(n as nat) == rev_chars(digits@),
            rev_chars(digits@).len() == nd,
            s@.len() == nd - i,
            forall|p: int| 0 <= p < nd - i ==> #[trigger] s@[p] == rev_chars(digits@)[p],
        decreases i,
    {
        i -= 1;
        let ghost s_prev = s@;
        s.append(digit_str(digits[i]));
        proof {
            lemma_rev_chars_index(digits@, nd - 1 - i as int);
            assert(s@.len() == nd - i);
            assert forall|p: int| 0 <= p < nd - i implies #[trigger] s@[p] == rev_chars(digits@)[p]
            by {
                if p < nd - i - 1 {
                    assert(s@[p] == s_prev[p]);
                } else {
                    assert(p == nd - 1 - i as int);
                    assert(s@[p] == digit_char(digits@[i as int] as int));
                }
            }
        }
    }
    proof {
        assert(s@ =~= dec_str(n as nat));
    }
    s
}

} // verus!
