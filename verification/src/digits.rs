//! Decimal notation for deployment ids: the canonical digit string of a
//! number, its numeric value, and the lemmas tying the two together.

use vstd::prelude::*;

verus! {

/// `b` is an ASCII decimal digit.
pub open spec fn is_dec_digit(b: u8) -> bool {
    48 <= b <= 57
}

/// Decimal digits of `n`, most significant first, with no leading zeros.
pub open spec fn dec_digits(n: nat) -> Seq<u8>
    decreases n,
{
    if n < 10 {
        seq![(48 + n) as u8]
    } else {
        dec_digits(n / 10).push((48 + n % 10) as u8)
    }
}

/// Numeric value of a digit string (most significant digit first).
pub open spec fn dec_value(s: Seq<u8>) -> nat
    decreases s.len(),
{
    if s.len() == 0 {
        0
    } else {
        dec_value(s.drop_last()) * 10 + (if is_dec_digit(s.last()) {
            (s.last() - 48) as nat
        } else {
            0
        })
    }
}

/// Powers of ten.
pub open spec fn pow10(k: nat) -> nat
    decreases k,
{
    if k == 0 {
        1
    } else {
        10 * pow10((k - 1) as nat)
    }
}

/// The digit string of `n` holds only digits and is never empty.
pub proof fn lemma_dec_digits_are_digits(n: nat)
    ensures
        dec_digits(n).len() >= 1,
        forall|i: int| 0 <= i < dec_digits(n).len() ==> is_dec_digit(#[trigger] dec_digits(n)[i]),
    decreases n,
{
    if n >= 10 {
        lemma_dec_digits_are_digits(n / 10);
    }
}

/// Reading the digit string of `n` back yields `n`.
pub proof fn lemma_dec_value_of_digits(n: nat)
    ensures
        dec_value(dec_digits(n)) == n,
    decreases n,
{
    if n < 10 {
        let s = dec_digits(n);
        assert(s =~= seq![(48 + n) as u8]);
        assert(s.drop_last() =~= Seq::<u8>::empty());
        assert(s.last() == (48 + n) as u8);
        assert(dec_value(s) == dec_value(Seq::<u8>::empty()) * 10 + n);
    } else {
        lemma_dec_value_of_digits(n / 10);
        let s = dec_digits(n);
        assert(s =~= dec_digits(n / 10).push((48 + n % 10) as u8));
        assert(s.drop_last() =~= dec_digits(n / 10));
        assert(s.last() == (48 + n % 10) as u8);
        assert(dec_value(s) == (n / 10) * 10 + n % 10);
    }
}

/// Distinct numbers have distinct digit strings.
pub proof fn lemma_dec_digits_injective(a: nat, b: nat)
    requires
        dec_digits(a) == dec_digits(b),
    ensures
        a == b,
{
    lemma_dec_value_of_digits(a);
    lemma_dec_value_of_digits(b);
}

/// A number below `pow10(k)` has at most `k` digits.
pub proof fn lemma_dec_digits_len(n: nat, k: nat)
    requires
        k >= 1,
        n < pow10(k),
    ensures
        dec_digits(n).len() <= k,
    decreases n,
{
    if n >= 10 {
        assert(pow10(k) == 10 * pow10((k - 1) as nat));
        lemma_dec_digits_len(n / 10, (k - 1) as nat);
    }
}

/// A `u32` has at most ten digits.
pub proof fn lemma_dec_digits_len_u32(n: u32)
    ensures
        1 <= dec_digits(n as nat).len() <= 10,
{
    lemma_dec_digits_are_digits(n as nat);
    assert(pow10(10) == 10_000_000_000) by {
        reveal_with_fuel(pow10, 11);
    }
    lemma_dec_digits_len(n as nat, 10);
}

/// The digit string of `n` has a leading zero only as the single digit 0.
pub proof fn lemma_dec_digits_no_leading_zero(n: nat)
    ensures
        dec_digits(n).len() > 1 ==> dec_digits(n)[0] != 48,
    decreases n,
{
    if n >= 10 {
        lemma_dec_digits_no_leading_zero(n / 10);
        lemma_dec_digits_are_digits(n / 10);
        assert(dec_digits(n)[0] == dec_digits(n / 10)[0]);
        if n / 10 < 10 {
            assert(dec_digits(n / 10) =~= seq![(48 + n / 10) as u8]);
            assert(n / 10 >= 1);
        } else {
            lemma_dec_digits_are_digits(n / 10 / 10);
            assert(dec_digits(n / 10) == dec_digits(n / 10 / 10).push(
                (48 + (n / 10) % 10) as u8,
            ));
            assert(dec_digits(n / 10).len() > 1);
        }
    }
}

/// A digit string without a leading zero is the canonical notation of its
/// value.
pub proof fn lemma_canonical_digits(s: Seq<u8>)
    requires
        s.len() > 0,
        forall|i: int| 0 <= i < s.len() ==> is_dec_digit(#[trigger] s[i]),
        s.len() > 1 ==> s[0] != 48,
    ensures
        s == dec_digits(dec_value(s)),
    decreases s.len(),
{
    if s.len() == 1 {
        assert(s.drop_last() =~= Seq::<u8>::empty());
        assert(s.last() == s[0]);
        assert(is_dec_digit(s[0]));
        assert(dec_value(s) == dec_value(s.drop_last()) * 10 + (s.last() - 48));
        assert(dec_value(s) == (s.last() - 48) as nat);
        assert(dec_value(s) < 10);
        assert(dec_digits(dec_value(s)) == seq![(48 + dec_value(s)) as u8]);
        assert(s =~= dec_digits(dec_value(s)));
    } else {
        let head = s.drop_last();
        let v = dec_value(s);
        let hv = dec_value(head);
        lemma_canonical_digits(head);
        assert(hv >= 1) by {
            lemma_digits_value_pos(head);
        }
        assert(v == hv * 10 + (s.last() - 48));
        assert(v >= 10);
        assert(v / 10 == hv && v % 10 == (s.last() - 48) as nat) by {
            assert(v == hv * 10 + (s.last() - 48));
        }
        assert(dec_digits(v) == dec_digits(hv).push((48 + v % 10) as u8));
        assert(s =~= head.push(s.last()));
        assert(s =~= dec_digits(v));
    }
}

/// A digit string that does not start with `0` has a positive value.
proof fn lemma_digits_value_pos(s: Seq<u8>)
    requires
        s.len() > 0,
        forall|i: int| 0 <= i < s.len() ==> is_dec_digit(#[trigger] s[i]),
        s[0] != 48,
    ensures
        dec_value(s) >= 1,
    decreases s.len(),
{
    if s.len() == 1 {
        assert(s.last() == s[0]);
    } else {
        lemma_digits_value_pos(s.drop_last());
        assert(dec_value(s) == dec_value(s.drop_last()) * 10 + (if is_dec_digit(s.last()) {
            (s.last() - 48) as nat
        } else {
            0
        }));
    }
}

/// Appends the decimal digits of `n` to `out`.
pub fn push_dec(out: &mut Vec<u8>, n: u32)
    ensures
        final(out)@ == old(out)@ + dec_digits(n as nat),
    decreases n,
{
    if n < 10 {
        out.push(48 + n as u8);
        assert(out@ =~= old(out)@ + dec_digits(n as nat));
    } else {
        push_dec(out, n / 10);
        out.push(48 + (n % 10) as u8);
        assert(out@ =~= old(out)@ + dec_digits(n as nat));
    }
}

} // verus!
