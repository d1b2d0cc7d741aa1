use vstd::prelude::*;

verus! {

/// ASCII code of the digit zero.
pub const ZERO: u8 = 48;

/// An ASCII decimal digit.
pub open spec fn is_digit(b: u8) -> bool {
    ZERO <= b && b <= 57
}

/// Every byte is a decimal digit.
pub open spec fn all_digits(s: Seq<u8>) -> bool {
    forall|i: int| 0 <= i < s.len() ==> is_digit(#[trigger] s[i])
}

/// The number that a string of decimal digits denotes.
pub open spec fn digits_value(s: Seq<u8>) -> nat
    decreases s.len(),
{
    if s.len() == 0 {
        0
    } else {
        digits_value(s.drop_last()) * 10 + (s.last() - ZERO) as nat
    }
}

/// The shortest decimal spelling of `n`, most significant digit first.
pub open spec fn decimal_of(n: nat) -> Seq<u8>
    decreases n,
{
    if n < 10 {
        seq![(ZERO + n) as u8]
    } else {
        decimal_of(n / 10).push((ZERO + n % 10) as u8)
    }
}

/// The body of an unsigned number as Rust's `from_str` reads it: an optional
/// `+`, then at least one decimal digit.
pub open spec fn number_body(s: Seq<u8>) -> Seq<u8> {
    if s.len() > 0 && s[0] == 43u8 {
        s.drop_first()
    } else {
        s
    }
}

/// The value of `s` read as an unsigned decimal number not above `bound`,
/// or `None` where `s` is no such number.
pub open spec fn parse_bounded_spec(s: Seq<u8>, bound: nat) -> Option<nat> {
    let d = number_body(s);
    if d.len() > 0 && all_digits(d) && digits_value(d) <= bound {
        Some(digits_value(d))
    } else {
        None
    }
}

/// A longer digit string never denotes a smaller number.
pub proof fn lemma_digits_value_grows(s: Seq<u8>, i: int, j: int)
    requires
        0 <= i <= j <= s.len(),
        all_digits(s),
    ensures
        digits_value(s.take(i)) <= digits_value(s.take(j)),
    decreases j - i,
{
    if i < j {
        lemma_digits_value_grows(s, i, j - 1);
        assert(s.take(j).drop_last() =~= s.take(j - 1));
        assert(is_digit(s[j - 1]));
    }
}

/// The decimal spelling of `n` is a non-empty digit string that denotes `n`.
pub proof fn lemma_decimal_of(n: nat)
    ensures
        decimal_of(n).len() > 0,
        all_digits(decimal_of(n)),
        digits_value(decimal_of(n)) == n,
        decimal_of(n)[0] != 43u8,
    decreases n,
{
    if n < 10 {
        assert(digits_value(decimal_of(n).drop_last()) == 0) by {
            assert(decimal_of(n).drop_last() =~= Seq::<u8>::empty());
        }
    } else {
        lemma_decimal_of(n / 10);
        let d = decimal_of(n);
        assert(d.drop_last() =~= decimal_of(n / 10));
        assert forall|i: int| 0 <= i < d.len() implies is_digit(#[trigger] d[i]) by {
            if i < d.len() - 1 {
                assert(d[i] == decimal_of(n / 10)[i]);
            }
        }
        assert(n == (n / 10) * 10 + n % 10) by (nonlinear_arith);
    }
}

/// Reads `s` as an unsigned decimal number not above `bound`.
pub fn parse_bounded(s: &[u8], bound: u64) -> (r: Option<u64>)
    ensures
        match parse_bounded_spec(s@, bound as nat) {
            Some(v) => r == Some(v as u64),
            None => r.is_none(),
        },
{
    let start: usize = if s.len() > 0 && s[0] == 43u8 { 1 } else { 0 };
    let ghost d = number_body(s@);
    assert(d =~= s@.subrange(start as int, s@.len() as int));
    if start >= s.len() {
        return None;
    }
    let mut acc: u64 = 0;
    let mut i: usize = start;
    while i < s.len()
        invariant
            start <= i <= s.len(),
            d == number_body(s@),
            d =~= s@.subrange(start as int, s@.len() as int),
            all_digits(d.take(i - start)),
            acc as nat == digits_value(d.take(i - start)),
            acc <= bound,
        decreases s.len() - i,
    {
        let b = s[i];
        let ghost k = i - start;
        assert(d[k] == b);
        if b < ZERO || b > 57 {
            assert(!is_digit(d[k]));
            return None;
        }
        let digit = (b - ZERO) as u64;
        assert(d.take(k + 1).drop_last() =~= d.take(k));
        assert(d.take(k + 1).last() == b);
        assert(digits_value(d.take(k + 1)) == acc * 10 + digit);
        if digit > bound || acc > (bound - digit) / 10 {
            proof {
                if digit <= bound {
                    assert(acc * 10 + digit > bound) by (nonlinear_arith)
                        requires acc > (bound - digit) / 10, digit <= bound;
                }
                if all_digits(d) {
                    lemma_digits_value_grows(d, k + 1, d.len() as int);
                    assert(d.take(d.len() as int) =~= d);
                }
            }
            return None;
        }
        assert(acc * 10 + digit <= bound) by (nonlinear_arith)
            requires acc <= (bound - digit) / 10, digit <= bound;
        acc = acc * 10 + digit;
        i = i + 1;
        assert forall|j: int| 0 <= j < d.take(i - start).len() implies is_digit(
            #[trigger] d.take(i - start)[j],
        ) by {
            if j < k {
                assert(d.take(k)[j] == d.take(i - start)[j]);
            }
        }
    }
    assert(d.take(d.len() as int) =~= d);
    Some(acc)
}

/// Appends the shortest decimal spelling of `n` to `out`.
pub fn push_decimal(n: u64, out: &mut Vec<u8>)
    ensures
        final(out)@ == old(out)@ + decimal_of(n as nat),
    decreases n,
{
    if n >= 10 {
        push_decimal(n / 10, out);
    }
    out.push(ZERO + (n % 10) as u8);
    proof {
        if n < 10 {
            assert(decimal_of(n as nat) =~= seq![(ZERO + n) as u8]);
        }
    }
    assert(out@ =~= old(out)@ + decimal_of(n as nat));
}

} // verus!
