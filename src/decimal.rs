use vstd::prelude::*;

verus! {

/// The ASCII code of `0`.
pub const ZERO: u8 = 48;

pub open spec fn is_digit(c: u8) -> bool {
    48 <= c && c <= 57
}

/// Canonical decimal text of `n`: no sign, no leading zero.
pub open spec fn digits(n: nat) -> Seq<u8>
    decreases n,
{
    if n < 10 {
        seq![(48 + n) as u8]
    } else {
        digits(n / 10).push((48 + n % 10) as u8)
    }
}

/// Value of a run of decimal digits.
pub open spec fn value(d: Seq<u8>) -> nat
    decreases d.len(),
{
    if d.len() == 0 {
        0
    } else {
        value(d.drop_last()) * 10 + (d.last() - 48) as nat
    }
}

pub open spec fn all_digits(d: Seq<u8>) -> bool {
    forall|i: int| 0 <= i < d.len() ==> is_digit(#[trigger] d[i])
}

/// A digit run with no superfluous leading zero.
pub open spec fn canonical(d: Seq<u8>) -> bool {
    d.len() >= 1 && all_digits(d) && (d.len() == 1 || d[0] != 48)
}

pub open spec fn pow10(n: nat) -> nat
    decreases n,
{
    if n == 0 {
        1
    } else {
        10 * pow10((n - 1) as nat)
    }
}

pub proof fn lemma_digits_canonical(n: nat)
    ensures
        canonical(digits(n)),
        digits(n)[0] == 48 ==> n == 0,
    decreases n,
{
    if n >= 10 {
        lemma_digits_canonical(n / 10);
        let p = digits(n / 10);
        assert(digits(n)[0] == p[0]);
    }
}

pub proof fn lemma_value_of_digits(n: nat)
    ensures
        value(digits(n)) == n,
    decreases n,
{
    if n >= 10 {
        lemma_value_of_digits(n / 10);
        assert(digits(n).drop_last() =~= digits(n / 10));
        assert((n / 10) * 10 + n % 10 == n) by (nonlinear_arith);
        assert(digits(n).last() == 48 + n % 10);
        assert(value(digits(n)) == value(digits(n / 10)) * 10 + n % 10);
    } else {
        assert(digits(n).drop_last() =~= Seq::<u8>::empty());
        assert(digits(n).last() == 48 + n);
        assert(value(digits(n)) == value(Seq::<u8>::empty()) * 10 + n);
    }
}

proof fn lemma_value_positive(d: Seq<u8>)
    requires
        d.len() >= 1,
        all_digits(d),
        d[0] != 48,
    ensures
        value(d) >= 1,
    decreases d.len(),
{
    if d.len() > 1 {
        let p = d.drop_last();
        assert(p[0] == d[0]);
        lemma_value_positive(p);
    }
}

pub proof fn lemma_digits_of_value(d: Seq<u8>)
    requires
        canonical(d),
    ensures
        digits(value(d)) == d,
    decreases d.len(),
{
    if d.len() == 1 {
        assert(is_digit(d[0]));
        assert(d.drop_last() =~= Seq::<u8>::empty());
        assert(d.last() == d[0]);
        assert(value(d.drop_last()) == 0);
        assert(value(d) == (d[0] - 48) as nat);
        assert(digits(value(d)) == seq![(48 + value(d)) as u8]);
        assert(digits(value(d)) =~= d);
    } else {
        let p = d.drop_last();
        assert(p[0] == d[0]);
        assert(all_digits(p)) by {
            assert forall|i: int| 0 <= i < p.len() implies is_digit(#[trigger] p[i]) by {
                assert(p[i] == d[i]);
            }
        }
        lemma_digits_of_value(p);
        lemma_value_positive(p);
        assert(is_digit(d[d.len() - 1]));
        let a = value(p);
        let b = (d.last() - 48) as nat;
        assert(b < 10);
        assert((a * 10 + b) / 10 == a && (a * 10 + b) % 10 == b) by (nonlinear_arith)
            requires
                b < 10,
        ;
        assert(value(d) == a * 10 + b);
        assert(value(d) >= 10);
        assert(digits(value(d)) == digits(a).push((48 + b) as u8));
        assert(((48 + b) as u8) == d.last());
        assert(p.push(d.last()) =~= d);
    }
}

pub proof fn lemma_digits_len(n: nat, k: nat)
    requires
        k >= 1,
        n < pow10(k),
    ensures
        digits(n).len() <= k,
    decreases n,
{
    if n >= 10 {
        if k == 1 {
            assert(pow10(1) == 10) by {
                reveal_with_fuel(pow10, 2);
            }
        }
        let q = pow10((k - 1) as nat);
        assert(n / 10 < q) by (nonlinear_arith)
            requires
                n < 10 * q,
        ;
        lemma_digits_len(n / 10, (k - 1) as nat);
    }
}

/// Appends the canonical decimal text of `n` to `out`.
pub fn push_decimal(out: &mut Vec<u8>, n: u32)
    ensures
        final(out)@ == old(out)@ + digits(n as nat),
    decreases n,
{
    if n >= 10 {
        push_decimal(out, n / 10);
    }
    out.push(ZERO + (n % 10) as u8);
    proof {
        if n >= 10 {
            assert(digits(n as nat) == digits((n / 10) as nat).push((48 + n % 10) as u8));
        }
    }
}

} // verus!
