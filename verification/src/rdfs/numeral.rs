//! Decimal numerals as the rendering writes them (variable names such as
//! `x7`): what they are made of and the numbers they read back as.
use vstd::prelude::*;
use vstd::arithmetic::div_mod::lemma_fundamental_div_mod;

use crate::rdfs::html::{decimal, digit, display_name};

verus! {

/// The number a base-10 numeral stands for, each character read as the
/// digit of its distance from `'0'`.
pub open spec fn numeral_value(s: Seq<char>) -> int
    decreases s.len(),
{
    if s.len() == 0 {
        0
    } else {
        numeral_value(s.drop_last()) * 10 + (s.last() as int - '0' as int)
    }
}

/// The digit written for `d` is the character `d` places after `'0'`.
pub proof fn lemma_digit_code(d: nat)
    requires
        d < 10,
    ensures
        digit(d) as int == '0' as int + d,
{
}

/// What is written for `n` is made of the characters `'0'` to `'9'`, has
/// no leading zero, and reads back, as a base-10 numeral, as `n`.
pub proof fn lemma_decimal_reads_back(n: nat)
    ensures
        decimal(n).len() > 0,
        decimal(n).len() == 1 <==> n < 10,
        forall|i: int| 0 <= i < decimal(n).len() ==> '0' <= #[trigger] decimal(n)[i] <= '9',
        decimal(n).len() > 1 ==> decimal(n)[0] != '0',
        numeral_value(decimal(n)) == n,
    decreases n,
{
    if n < 10 {
        lemma_digit_code(n);
        let s = decimal(n);
        assert(s.drop_last() =~= Seq::<char>::empty());
        assert(numeral_value(s.drop_last()) == 0);
        assert(s.last() == digit(n));
    } else {
        lemma_decimal_reads_back(n / 10);
        lemma_fundamental_div_mod(n as int, 10);
        lemma_digit_code(n % 10);
        let s = decimal(n);
        let p = decimal(n / 10);
        assert(s.drop_last() =~= p);
        assert(s.last() == digit(n % 10));
        assert forall|i: int| 0 <= i < s.len() implies '0' <= #[trigger] s[i] <= '9' by {
            if i < p.len() {
                assert(s[i] == p[i]);
            }
        }
        assert(s[0] == p[0]);
        if n / 10 < 10 {
            assert(p[0] == digit(n / 10));
            lemma_digit_code(n / 10);
        }
    }
}

/// Two numbers are written alike only if they are equal.
pub proof fn lemma_decimal_injective(a: nat, b: nat)
    requires
        decimal(a) == decimal(b),
    ensures
        a == b,
{
    lemma_decimal_reads_back(a);
    lemma_decimal_reads_back(b);
}

/// Unnamed variables of different indexes are written under different
/// names: `x` followed by the index in decimal.
pub proof fn lemma_unnamed_variables_distinct(a: usize, b: usize)
    requires
        display_name((a, None)) == display_name((b, None)),
    ensures
        a == b,
{
    let pa = "x"@ + decimal(a as nat);
    let pb = "x"@ + decimal(b as nat);
    assert(decimal(a as nat) =~= pa.skip(1)) by {
        reveal_strlit("x");
    }
    assert(decimal(b as nat) =~= pb.skip(1)) by {
        reveal_strlit("x");
    }
    lemma_decimal_injective(a as nat, b as nat);
}

} // verus!
