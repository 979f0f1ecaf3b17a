//! Decimal text of 64-bit signed integers, as bytes.

use vstd::prelude::*;

verus! {

/// The byte of an ASCII decimal digit.
pub open spec fn is_digit(b: u8) -> bool {
    48 <= b <= 57
}

/// The decimal digits of `n`, most significant first, without leading zeros.
pub open spec fn digits_of(n: nat) -> Seq<u8>
    decreases n,
{
    if n < 10 {
        seq![(48 + n) as u8]
    } else {
        digits_of(n / 10).push((48 + n % 10) as u8)
    }
}

/// The value of a string of decimal digits.
pub open spec fn decimal_value(s: Seq<u8>) -> nat
    decreases s.len(),
{
    if s.len() == 0 {
        0
    } else {
        decimal_value(s.drop_last()) * 10 + (s.last() - 48) as nat
    }
}

/// The text of `v`: a minus sign for a negative value, then its digits.
pub open spec fn render_int(v: int) -> Seq<u8> {
    if v < 0 {
        seq![45u8] + digits_of((-v) as nat)
    } else {
        digits_of(v as nat)
    }
}

proof fn lemma_digits(n: nat)
    ensures
        digits_of(n).len() > 0,
        all_digits(digits_of(n)),
        decimal_value(digits_of(n)) == n,
    decreases n,
{
    if n >= 10 {
        lemma_digits(n / 10);
        assert(digits_of(n).drop_last() =~= digits_of(n / 10));
        assert(digits_of(n).last() - 48 == n % 10);
        assert((n / 10) * 10 + n % 10 == n) by (nonlinear_arith);
    } else {
        assert(digits_of(n).drop_last() =~= Seq::<u8>::empty());
        assert(decimal_value(Seq::<u8>::empty()) == 0);
    }
}

/// The text of an `i64` reads back as that same value; it is made of digits
/// and at most a leading minus sign, and ends in a digit.
pub proof fn lemma_render_parses(v: i64)
    ensures
        parses_as_i64(render_int(v as int)),
        field_value(render_int(v as int)) == v,
        render_int(v as int).len() > 0,
        is_digit(render_int(v as int).last()),
        forall|k: int|
            0 <= k < render_int(v as int).len() ==> (#[trigger] render_int(v as int)[k] == 45
                || is_digit(render_int(v as int)[k])),
{
    let r = render_int(v as int);
    if v < 0 {
        let d = digits_of((-v) as nat);
        lemma_digits((-v) as nat);
        assert(r.drop_first() =~= d);
        assert(unsigned_part(r) == d);
        assert(r.last() == d.last());
        assert forall|k: int| 0 <= k < r.len() implies (#[trigger] r[k] == 45 || is_digit(r[k])) by {
            if k > 0 {
                assert(r[k] == d[k - 1]);
            }
        }
    } else {
        lemma_digits(v as nat);
        assert(is_digit(r[0]));
        assert(unsigned_part(r) == r);
    }
}

/// Appends the digits of `n` to `out`.
fn push_digits(out: &mut Vec<u8>, n: u64)
    ensures
        final(out)@ == old(out)@ + digits_of(n as nat),
    decreases n,
{
    if n >= 10 {
        push_digits(out, n / 10);
    }
    out.push((48 + n % 10) as u8);
    proof {
        assert(old(out)@ + digits_of(n as nat) =~= final(out)@);
    }
}

/// Every byte of `s` is a decimal digit.
pub open spec fn all_digits(s: Seq<u8>) -> bool {
    forall|i: int| 0 <= i < s.len() ==> is_digit(#[trigger] s[i])
}

/// The field has a leading sign byte, `+` or `-`.
pub open spec fn has_sign(f: Seq<u8>) -> bool {
    f.len() > 0 && (f[0] == 43 || f[0] == 45)
}

/// The digits of a field, after its sign if it has one.
pub open spec fn unsigned_part(f: Seq<u8>) -> Seq<u8> {
    if has_sign(f) {
        f.drop_first()
    } else {
        f
    }
}

/// The integer a field denotes: its digits' value, negated after a `-`.
pub open spec fn field_value(f: Seq<u8>) -> int {
    if f.len() > 0 && f[0] == 45 {
        -decimal_value(unsigned_part(f))
    } else {
        decimal_value(unsigned_part(f)) as int
    }
}

/// The field is an optional sign followed by at least one digit, and its
/// value fits in an `i64`.
pub open spec fn parses_as_i64(f: Seq<u8>) -> bool {
    &&& unsigned_part(f).len() > 0
    &&& all_digits(unsigned_part(f))
    &&& i64::MIN <= field_value(f) <= i64::MAX
}

/// Reads the field `s[start..end]` as an `i64`.
pub fn parse_field(s: &[u8], start: usize, end: usize) -> (r: Option<i64>)
    requires
        start <= end <= s@.len(),
    ensures
        r is Some <==> parses_as_i64(s@.subrange(start as int, end as int)),
        r matches Some(v) ==> v as int == field_value(s@.subrange(start as int, end as int)),
{
    let ghost f = s@.subrange(start as int, end as int);
    let negative = start < end && s[start] == 45;
    let ds: usize = if start < end && (s[start] == 43 || s[start] == 45) {
        start + 1
    } else {
        start
    };
    assert(unsigned_part(f) =~= s@.subrange(ds as int, end as int));
    let limit: u64 = if negative {
        9223372036854775808
    } else {
        9223372036854775807
    };
    let mut acc: u64 = 0;
    let mut big = false;
    let mut i: usize = ds;
    while i < end
        invariant
            ds <= i <= end <= s@.len(),
            start <= ds,
            f == s@.subrange(start as int, end as int),
            unsigned_part(f) == s@.subrange(ds as int, end as int),
            all_digits(s@.subrange(ds as int, i as int)),
            !big ==> acc == decimal_value(s@.subrange(ds as int, i as int)) && acc <= limit,
            big ==> decimal_value(s@.subrange(ds as int, i as int)) > limit,
        decreases end - i,
    {
        let b = s[i];
        if b < 48 || b > 57 {
            proof {
                assert(unsigned_part(f)[i - ds] == b);
            }
            return None;
        }
        let ghost prev = s@.subrange(ds as int, i as int);
        let ghost next = s@.subrange(ds as int, i + 1);
        assert(next.drop_last() =~= prev);
        assert(decimal_value(next) == decimal_value(prev) * 10 + (b - 48) as nat);
        if !big {
            let n: u128 = acc as u128 * 10 + (b - 48) as u128;
            if n > limit as u128 {
                big = true;
            } else {
                acc = n as u64;
            }
        } else {
            assert(decimal_value(next) >= decimal_value(prev)) by (nonlinear_arith)
                requires
                    decimal_value(next) == decimal_value(prev) * 10 + (b - 48) as nat,
            ;
        }
        i = i + 1;
    }
    if ds == end || big {
        return None;
    }
    if negative {
        Some((-(acc as i128)) as i64)
    } else {
        Some(acc as i64)
    }
}

/// Appends the text of `v` to `out`.
pub fn push_int(out: &mut Vec<u8>, v: i64)
    ensures
        final(out)@ == old(out)@ + render_int(v as int),
{
    if v < 0 {
        out.push(45);
        push_digits(out, (-(v as i128)) as u64);
        proof {
            assert(final(out)@ =~= old(out)@ + render_int(v as int));
        }
    } else {
        push_digits(out, v as u64);
    }
}

} // verus!
