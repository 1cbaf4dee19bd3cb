//! Strict decimal parsing and rendering of port indices.
//!
//! An index occurrence in the document is accepted only when its text is a
//! non-empty run of ASCII digits whose value fits in `u32`; anything else is
//! rejected and the occurrence left untouched.  A resolved index is written
//! back in minimal decimal form (no sign, no leading zeros).

use vstd::prelude::*;

verus! {

/// True when `b` is an ASCII decimal digit.
pub open spec fn is_digit(b: u8) -> bool {
    48 <= b && b <= 57
}

/// True when every byte of `s` is an ASCII decimal digit.
pub open spec fn all_digits(s: Seq<u8>) -> bool {
    forall|i: int| 0 <= i < s.len() ==> is_digit(#[trigger] s[i])
}

/// Numeric value of a digit string, most significant digit first.
pub open spec fn digits_val(s: Seq<u8>) -> nat
    decreases s.len(),
{
    if s.len() == 0 {
        0
    } else {
        (digits_val(s.drop_last()) * 10 + (s.last() - 48)) as nat
    }
}

/// Minimal decimal rendering of `n`: at least one digit, no leading zeros.
pub open spec fn dec_rep(n: nat) -> Seq<u8>
    decreases n,
{
    if n < 10 {
        seq![(48 + n) as u8]
    } else {
        dec_rep(n / 10).push((48 + n % 10) as u8)
    }
}

/// What strict parsing of an index occurrence yields: the value when the
/// text is a non-empty all-digit run that fits in `u32`, nothing otherwise.
pub open spec fn spec_parse_u32(s: Seq<u8>) -> Option<u32> {
    if s.len() != 0 && all_digits(s) && digits_val(s) <= u32::MAX {
        Some(digits_val(s) as u32)
    } else {
        None
    }
}

/// Extending a digit string never decreases its value.
proof fn lemma_digits_val_step(s: Seq<u8>, i: int)
    requires
        0 <= i < s.len(),
        all_digits(s),
    ensures
        digits_val(s.take(i)) <= digits_val(s.take(i + 1)),
{
    assert(s.take(i + 1).drop_last() =~= s.take(i));
    assert(s.take(i + 1).last() == s[i]);
}

/// Value of a digit-string prefix is at most the value of the whole string.
pub proof fn lemma_digits_val_prefix(s: Seq<u8>, i: int)
    requires
        0 <= i <= s.len(),
        all_digits(s),
    ensures
        digits_val(s.take(i)) <= digits_val(s),
    decreases s.len() - i,
{
    if i < s.len() {
        lemma_digits_val_step(s, i);
        lemma_digits_val_prefix(s, i + 1);
    } else {
        assert(s.take(i) =~= s);
    }
}

/// The decimal rendering consists of digits and is never empty.
pub proof fn lemma_dec_rep_digits(n: nat)
    ensures
        dec_rep(n).len() >= 1,
        all_digits(dec_rep(n)),
    decreases n,
{
    if n >= 10 {
        lemma_dec_rep_digits(n / 10);
    }
}

/// The decimal rendering never carries a leading zero.
pub proof fn lemma_dec_rep_minimal(n: nat)
    ensures
        dec_rep(n).len() > 1 ==> dec_rep(n)[0] != 48,
        n == 0 ==> dec_rep(n) =~= seq![48u8],
    decreases n,
{
    if n >= 10 {
        lemma_dec_rep_minimal(n / 10);
        lemma_dec_rep_digits(n / 10);
        assert(dec_rep(n)[0] == dec_rep(n / 10)[0]);
        if n / 10 < 10 {
            assert(dec_rep(n / 10) =~= seq![(48 + n / 10) as u8]);
            assert(n / 10 >= 1);
            assert(dec_rep(n / 10)[0] == (48 + n / 10) as u8);
        } else {
            lemma_dec_rep_digits(n / 10 / 10);
            assert(dec_rep(n / 10).len() >= 2);
        }
    }
}

/// Rendering then evaluating a number gives the number back.
pub proof fn lemma_dec_rep_value(n: nat)
    ensures
        digits_val(dec_rep(n)) == n,
    decreases n,
{
    if n < 10 {
        assert(dec_rep(n) =~= seq![(48 + n) as u8]);
        assert(dec_rep(n).drop_last() =~= Seq::<u8>::empty());
        assert(dec_rep(n).last() == (48 + n) as u8);
        assert(digits_val(Seq::<u8>::empty()) == 0);
        assert(digits_val(dec_rep(n)) == (digits_val(dec_rep(n).drop_last()) * 10 + (dec_rep(n).last() - 48)) as nat);
    } else {
        lemma_dec_rep_value(n / 10);
        assert(dec_rep(n).drop_last() =~= dec_rep(n / 10));
        assert(dec_rep(n).last() == (48 + n % 10) as u8);
        assert(n / 10 * 10 + n % 10 == n) by (nonlinear_arith);
        assert(digits_val(dec_rep(n)) == (digits_val(dec_rep(n).drop_last()) * 10 + (dec_rep(n).last() - 48)) as nat);
    }
}

/// A rendered index parses back to itself: the round trip that keeps a
/// second patch run from generating further edits.
pub proof fn lemma_dec_round_trip(v: u32)
    ensures
        spec_parse_u32(dec_rep(v as nat)) == Some(v),
{
    lemma_dec_rep_digits(v as nat);
    lemma_dec_rep_value(v as nat);
}

/// Strict parse of an index occurrence: `Some` exactly on non-empty
/// all-digit text whose value fits in `u32`.
pub fn parse_u32(s: &[u8]) -> (r: Option<u32>)
    ensures
        r == spec_parse_u32(s@),
{
    if s.len() == 0 {
        return None;
    }
    let mut i: usize = 0;
    let mut acc: u64 = 0;
    while i < s.len()
        invariant
            0 <= i <= s.len(),
            forall|j: int| 0 <= j < i ==> is_digit(#[trigger] s@[j]),
            acc == digits_val(s@.take(i as int)),
            acc <= u32::MAX,
        decreases s.len() - i,
    {
        let b = s[i];
        if b < 48 || b > 57 {
            assert(!all_digits(s@));
            return None;
        }
        acc = acc * 10 + (b - 48) as u64;
        i += 1;
        assert(s@.take(i as int).drop_last() =~= s@.take(i - 1));
        assert(s@.take(i as int).last() == s@[i - 1]);
        if acc > u32::MAX as u64 {
            assert(digits_val(s@.take(i as int)) > u32::MAX);
            proof {
                if all_digits(s@) {
                    lemma_digits_val_prefix(s@, i as int);
                }
            }
            return None;
        }
    }
    assert(s@.take(i as int) =~= s@);
    assert(all_digits(s@));
    Some(acc as u32)
}

/// Appends the minimal decimal rendering of `v` to `out`.
pub fn push_decimal(v: u32, out: &mut Vec<u8>)
    ensures
        final(out)@ == old(out)@ + dec_rep(v as nat),
    decreases v,
{
    if v < 10 {
        out.push(48 + v as u8);
        assert(out@ =~= old(out)@ + dec_rep(v as nat));
    } else {
        push_decimal(v / 10, out);
        out.push(48 + (v % 10) as u8);
        assert(out@ =~= old(out)@ + dec_rep(v as nat));
    }
}

} // verus!
