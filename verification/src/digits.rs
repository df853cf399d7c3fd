//! Decimal digit strings: the one place where lengths and counts are turned
//! into ASCII and back, shared by the size calculator, the serializer and the
//! parser so that the three can never disagree.

use vstd::prelude::*;

verus! {

use vstd::arithmetic::div_mod::lemma_fundamental_div_mod;
use vstd::arithmetic::div_mod::lemma_div_is_ordered;
use vstd::arithmetic::div_mod::lemma_div_is_strictly_smaller;

/// The ASCII decimal digits of `n`, most significant first; `0` is `"0"`.
pub open spec fn digits_of(n: nat) -> Seq<u8>
    decreases n,
{
    if n < 10 {
        seq![(48 + n) as u8]
    } else {
        digits_of(n / 10).push((48 + n % 10) as u8)
    }
}

/// Every byte of `s` is an ASCII digit.
pub open spec fn all_digits(s: Seq<u8>) -> bool {
    forall|i: int| 0 <= i < s.len() ==> 48 <= #[trigger] s[i] <= 57
}

/// `s` is the canonical decimal form of some number: non-empty, digits only,
/// and no leading zero (except for `"0"` itself).
pub open spec fn canonical_digits(s: Seq<u8>) -> bool {
    &&& s.len() >= 1
    &&& all_digits(s)
    &&& (s.len() > 1 ==> s[0] != 48)
}

/// The number denoted by a digit string.
pub open spec fn dec_val(s: Seq<u8>) -> nat
    decreases s.len(),
{
    if s.len() == 0 {
        0
    } else {
        dec_val(s.drop_last()) * 10 + (s.last() - 48) as nat
    }
}

/// `digits_of` always yields a canonical digit string denoting `n` back.
pub proof fn lemma_digits_of_wf(n: nat)
    ensures
        digits_of(n).len() >= 1,
        all_digits(digits_of(n)),
        n >= 1 ==> digits_of(n)[0] != 48,
        canonical_digits(digits_of(n)),
        dec_val(digits_of(n)) == n,
    decreases n,
{
    if n < 10 {
        let s = digits_of(n);
        assert(s == seq![(48 + n) as u8]);
        assert(s.drop_last() =~= Seq::<u8>::empty());
        assert(dec_val(Seq::<u8>::empty()) == 0);
        assert(dec_val(s) == n);
    } else {
        lemma_digits_of_wf(n / 10);
        lemma_fundamental_div_mod(n as int, 10);
        let q = digits_of(n / 10);
        let d = (48 + n % 10) as u8;
        let s = digits_of(n);
        assert(s == q.push(d));
        assert(s[0] == q[0]);
        assert(s.drop_last() =~= q);
        assert(s.last() == d);
        assert(n / 10 >= 1);
        assert(dec_val(s) == (n / 10) * 10 + n % 10);
    }
}

/// A canonical digit string with a non-zero leading digit denotes at least 1.
pub proof fn lemma_dec_val_pos(s: Seq<u8>)
    requires
        s.len() >= 1,
        all_digits(s),
        s[0] != 48,
    ensures
        dec_val(s) >= 1,
    decreases s.len(),
{
    if s.len() == 1 {
        assert(s.drop_last() =~= Seq::<u8>::empty());
        assert(dec_val(Seq::<u8>::empty()) == 0);
        assert(dec_val(s) == (s[0] - 48) as nat);
    } else {
        let s0 = s.drop_last();
        assert(s0[0] == s[0]);
        assert(all_digits(s0));
        lemma_dec_val_pos(s0);
    }
}

/// `digits_of` inverts `dec_val` on canonical digit strings.
pub proof fn lemma_canonical_digits_of(s: Seq<u8>)
    requires
        canonical_digits(s),
    ensures
        digits_of(dec_val(s)) == s,
    decreases s.len(),
{
    let v = dec_val(s);
    let d = (s.last() - 48) as nat;
    if s.len() == 1 {
        assert(s.drop_last() =~= Seq::<u8>::empty());
        assert(dec_val(Seq::<u8>::empty()) == 0);
        assert(v == d);
        assert(digits_of(v) =~= s);
    } else {
        let s0 = s.drop_last();
        assert(s0[0] == s[0]);
        assert(all_digits(s0));
        assert(canonical_digits(s0));
        lemma_canonical_digits_of(s0);
        lemma_dec_val_pos(s0);
        let a = dec_val(s0);
        assert(v == a * 10 + d);
        assert(v >= 10) by {
            assert(a >= 1);
            assert(a * 10 >= 10) by (nonlinear_arith)
                requires a >= 1;
        }
        lemma_fundamental_div_mod(v as int, 10);
        assert(v == 10 * (v / 10) + v % 10);
        assert(v / 10 == a && v % 10 == d) by {
            assert(v == a * 10 + d);
            assert(0 <= d < 10);
            assert(10 * (v / 10) + v % 10 == a * 10 + d);
        }
        assert(digits_of(v) == digits_of(a).push((48 + d) as u8));
        assert((48 + d) as u8 == s.last());
        assert(s0.push(s.last()) =~= s);
    }
}

/// A digit string is far shorter than the number it denotes.
pub proof fn lemma_digits_of_len_le(n: nat)
    ensures
        digits_of(n).len() <= 1 + n / 10,
    decreases n,
{
    if n >= 10 {
        lemma_div_is_strictly_smaller(n as int, 10);
        lemma_digits_of_len_le(n / 10);
        let a = n / 10;
        assert(a >= 1);
        if a < 10 {
            assert(a / 10 == 0);
        } else {
            lemma_div_is_strictly_smaller(a as int, 10);
        }
        assert(a / 10 + 1 <= a);
    }
}

/// Extending a digit string on the right never decreases its value.
pub proof fn lemma_dec_val_prefix_le(s: Seq<u8>, i: int)
    requires
        0 <= i <= s.len(),
        all_digits(s),
    ensures
        dec_val(s.take(i)) <= dec_val(s),
    decreases s.len() - i,
{
    if i == s.len() {
        assert(s.take(i) =~= s);
    } else {
        lemma_dec_val_prefix_le(s, i + 1);
        let t = s.take(i + 1);
        assert(t.drop_last() =~= s.take(i));
        assert(t.last() == s[i]);
        assert(dec_val(s.take(i)) <= dec_val(s.take(i)) * 10 + (s[i] - 48) as nat) by (nonlinear_arith);
    }
}

/// Appending one digit multiplies by ten and adds that digit.
pub proof fn lemma_dec_val_take_step(s: Seq<u8>, i: int)
    requires
        0 <= i < s.len(),
    ensures
        dec_val(s.take(i + 1)) == dec_val(s.take(i)) * 10 + (s[i] - 48) as nat,
{
    let t = s.take(i + 1);
    assert(t.drop_last() =~= s.take(i));
    assert(t.last() == s[i]);
}

/// Number of ASCII digits in the decimal form of `n`; agrees exactly with
/// what the serializer writes, because both are defined by `digits_of`.
pub fn dec_len(n: usize) -> (r: usize)
    ensures
        r == digits_of(n as nat).len(),
{
    proof {
        lemma_digits_of_len_le(n as nat);
    }
    let mut x: usize = n;
    let mut len: usize = 1;
    while x >= 10
        invariant
            digits_of(n as nat).len() == len + digits_of(x as nat).len() - 1,
            len >= 1,
            digits_of(x as nat).len() >= 1,
        decreases x,
    {
        proof {
            lemma_fundamental_div_mod(x as int, 10);
            assert(digits_of(x as nat) == digits_of((x as nat) / 10).push((48 + (x as nat) % 10) as u8));
            lemma_digits_of_wf((x as nat) / 10);
            lemma_digits_of_len_le(n as nat);
            lemma_div_is_ordered(n as int, usize::MAX as int, 10);
            assert(len < digits_of(n as nat).len());
            assert(len + 1 <= 1 + (n as nat) / 10);
        }
        x = x / 10;
        len = len + 1;
    }
    proof {
        assert(digits_of(x as nat).len() == 1);
    }
    len
}

/// Appends the decimal form of `n` to `out`.
pub fn push_decimal(n: usize, out: &mut Vec<u8>)
    ensures
        final(out)@ == old(out)@ + digits_of(n as nat),
    decreases n,
{
    if n >= 10 {
        proof {
            lemma_fundamental_div_mod(n as int, 10);
        }
        push_decimal(n / 10, out);
    }
    let d: u8 = 48 + (n % 10) as u8;
    out.push(d);
    proof {
        lemma_fundamental_div_mod(n as int, 10);
        if n < 10 {
            assert(digits_of(n as nat) =~= seq![(48 + n as nat) as u8]);
            assert(out@ =~= old(out)@ + digits_of(n as nat));
        } else {
            assert(digits_of(n as nat) == digits_of((n as nat) / 10).push((48 + (n as nat) % 10) as u8));
            assert(out@ =~= old(out)@ + digits_of(n as nat));
        }
    }
}

} // verus!
