//! Decimal digits: the parser for the judgment date's numeric segments and
//! the decimal rendering used in export filenames.
use crate::normalize::chars_of;
use vstd::prelude::*;

verus! {

pub open spec fn is_digit(c: char) -> bool {
    48 <= c as u32 <= 57
}

pub open spec fn all_digits(s: Seq<char>) -> bool {
    s.len() > 0 && forall|i: int| 0 <= i < s.len() ==> is_digit(#[trigger] s[i])
}

/// The value of a digit run, most significant first.
pub open spec fn dec_val(s: Seq<char>) -> int
    decreases s.len(),
{
    if s.len() == 0 {
        0
    } else {
        dec_val(s.drop_last()) * 10 + (s.last() as u32 - 48)
    }
}

pub open spec fn pow10(n: nat) -> int
    decreases n,
{
    if n == 0 {
        1
    } else {
        10 * pow10((n - 1) as nat)
    }
}

pub proof fn lemma_pow10_pos(n: nat)
    ensures
        pow10(n) >= 1,
    decreases n,
{
    if n > 0 {
        lemma_pow10_pos((n - 1) as nat);
    }
}

pub proof fn lemma_pow10_le(a: nat, b: nat)
    requires
        a <= b,
    ensures
        pow10(a) <= pow10(b),
    decreases b,
{
    if a < b {
        lemma_pow10_le(a, (b - 1) as nat);
        lemma_pow10_pos((b - 1) as nat);
    }
}

/// Parses a run of at most 19 decimal digits; anything else, including a
/// longer run, does not count as a date segment.
pub fn parse_u64_digits(s: &str) -> (r: Option<u64>)
    ensures
        r matches Some(v) ==> all_digits(s@) && s@.len() <= 19 && v as int == dec_val(s@),
        r is Some <==> (all_digits(s@) && s@.len() <= 19),
{
    let v = chars_of(s);
    if v.len() == 0 || v.len() > 19 {
        return None;
    }
    proof {
        assert(pow10(19) == 10_000_000_000_000_000_000) by {
            reveal_with_fuel(pow10, 20);
        }
        assert(v@.take(0) =~= Seq::<char>::empty());
    }
    let mut acc: u64 = 0;
    let mut i: usize = 0;
    while i < v.len()
        invariant
            i <= v.len(),
            v.len() <= 19,
            v@ == s@,
            forall|k: int| 0 <= k < i ==> is_digit(#[trigger] v@[k]),
            acc as int == dec_val(v@.take(i as int)),
            (acc as int) < pow10(i as nat),
            pow10(19) == 10_000_000_000_000_000_000,
        decreases v.len() - i,
    {
        let u = v[i] as u32;
        if u < 48 || u > 57 {
            return None;
        }
        let d = (u - 48) as u64;
        proof {
            lemma_pow10_le(i as nat, 18);
            assert(pow10(18) <= pow10(19)) by {
                lemma_pow10_le(18, 19);
            }
            assert((acc as int) * 10 <= (pow10(18) - 1) * 10);
            assert(v@.take(i + 1).drop_last() =~= v@.take(i as int));
            assert(v@.take(i + 1).last() == v@[i as int]);
        }
        acc = acc * 10 + d;
        i = i + 1;
    }
    proof {
        assert(v@.take(v@.len() as int) =~= v@);
    }
    Some(acc)
}

pub open spec fn digit_char(d: int) -> char {
    ((48 + d) as u8) as char
}

/// The decimal digit characters of a non-negative number, no leading zeros.
pub open spec fn dec_str(n: int) -> Seq<char>
    decreases n,
{
    if n <= 9 {
        seq![digit_char(if n < 0 {
            0
        } else {
            n
        })]
    } else {
        dec_str(n / 10).push(digit_char(n % 10))
    }
}

/// Renders a number's decimal digits, most significant first, with no
/// sign and no leading zeros.
pub fn usize_to_string(n: usize) -> (r: String)
    ensures
        r@ == dec_str(n as int),
{
    let mut digits: Vec<char> = Vec::new();
    let mut m: usize = n;
    proof {
        assert(digits@.reverse() =~= Seq::<char>::empty());
        assert(dec_str(n as int) =~= dec_str(n as int) + digits@.reverse());
    }
    loop
        invariant_except_break
            dec_str(n as int) =~= dec_str(m as int) + digits@.reverse(),
        ensures
            dec_str(n as int) =~= digits@.reverse(),
        decreases m,
    {
        let ghost pre = digits@;
        let ghost m0 = m as int;
        let d = (48 + (m % 10) as u8) as char;
        proof {
            assert(d == digit_char(m0 % 10));
        }
        digits.push(d);
        proof {
            assert(digits@.reverse() =~= seq![digit_char(m0 % 10)] + pre.reverse());
        }
        if m <= 9 {
            proof {
                assert(m0 % 10 == m0);
                assert(dec_str(m0) =~= seq![digit_char(m0)]);
                assert(seq![digit_char(m0)] + pre.reverse() =~= dec_str(m0) + pre.reverse());
            }
            break;
        }
        m = m / 10;
        proof {
            assert(dec_str(m0) == dec_str(m0 / 10).push(digit_char(m0 % 10)));
            assert(dec_str(m0 / 10).push(digit_char(m0 % 10)) + pre.reverse() =~= dec_str(
                m0 / 10,
            ) + (seq![digit_char(m0 % 10)] + pre.reverse()));
        }
    }
    let mut r = String::new();
    let mut k: usize = 0;
    proof {
        assert(digits@.reverse().take(0) =~= Seq::<char>::empty());
    }
    while k < digits.len()
        invariant
            k <= digits.len(),
            dec_str(n as int) =~= digits@.reverse(),
            r@ == digits@.reverse().take(k as int),
        decreases digits.len() - k,
    {
        crate::normalize::push_char(&mut r, digits[digits.len() - 1 - k]);
        k = k + 1;
        proof {
            assert(digits@.reverse()[k - 1] == digits@[digits@.len() - 1 - (k - 1)]);
            assert(digits@.reverse().take(k as int) =~= digits@.reverse().take(k - 1).push(
                digits@.reverse()[k - 1],
            ));
        }
    }
    proof {
        assert(digits@.reverse().take(digits@.reverse().len() as int) =~= digits@.reverse());
    }
    r
}

} // verus!
