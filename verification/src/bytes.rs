//! Big-endian byte strings read as natural numbers.

use vstd::arithmetic::div_mod::*;
use vstd::arithmetic::power::*;
use vstd::prelude::*;

verus! {

/// The number that a big-endian byte string denotes; the empty string
/// denotes zero.
pub open spec fn be_value(s: Seq<u8>) -> nat
    decreases s.len(),
{
    if s.len() == 0 {
        0
    } else {
        be_value(s.drop_last()) * 256 + s.last() as nat
    }
}

/// A byte string with no superfluous leading zero: at least one byte, and
/// a leading zero byte only when that byte is the whole string.
pub open spec fn is_canonical(s: Seq<u8>) -> bool {
    s.len() >= 1 && (s[0] == 0 ==> s.len() == 1)
}

/// The base-256 digits of `n`, most significant first; none for zero.
pub open spec fn be_digits(n: nat) -> Seq<u8>
    decreases n,
{
    if n == 0 {
        Seq::empty()
    } else {
        be_digits(n / 256).push((n % 256) as u8)
    }
}

/// The canonical big-endian encoding of `n`: its base-256 digits, or a
/// single zero byte for zero.
pub open spec fn be_bytes(n: nat) -> Seq<u8> {
    if n == 0 {
        seq![0u8]
    } else {
        be_digits(n)
    }
}

/// Appending a byte shifts the value by one digit and adds the byte.
pub proof fn lemma_be_value_push(s: Seq<u8>, b: u8)
    ensures
        be_value(s.push(b)) == be_value(s) * 256 + b as nat,
{
    assert(s.push(b).drop_last() =~= s);
}

/// A single byte denotes itself.
pub proof fn lemma_be_value_single(s: Seq<u8>)
    requires
        s.len() == 1,
    ensures
        be_value(s) == s[0] as nat,
{
    reveal_with_fuel(be_value, 2);
    assert(s.drop_last().len() == 0);
}

/// A string of `n` bytes denotes a number below `256^n`.
pub proof fn lemma_be_value_bound(s: Seq<u8>)
    ensures
        be_value(s) < pow(256, s.len()),
    decreases s.len(),
{
    reveal(pow);
    if s.len() > 0 {
        lemma_be_value_bound(s.drop_last());
        assert(pow(256, s.len()) == 256 * pow(256, (s.len() - 1) as nat));
    }
}

/// The value of a string splits at any position into the value of the
/// front part, shifted, plus the value of the back part.
pub proof fn lemma_be_value_split(s: Seq<u8>, k: int)
    requires
        0 <= k <= s.len(),
    ensures
        be_value(s) == be_value(s.take(k)) * pow(256, (s.len() - k) as nat) + be_value(s.skip(k)),
    decreases s.len(),
{
    reveal(pow);
    if k == s.len() {
        assert(s.take(k) =~= s);
        assert(s.skip(k) =~= Seq::<u8>::empty());
        assert(be_value(s) * 1 == be_value(s)) by (nonlinear_arith);
    } else {
        let front = s.drop_last();
        lemma_be_value_split(front, k);
        assert(front.take(k) =~= s.take(k));
        assert(front.skip(k) =~= s.skip(k).drop_last());
        assert(s.skip(k).last() == s.last());
        let a = be_value(s.take(k)) as int;
        let b = be_value(front.skip(k)) as int;
        let w = pow(256, (front.len() - k) as nat);
        assert(pow(256, (s.len() - k) as nat) == 256 * w);
        assert((a * w + b) * 256 + s.last() as int == a * (256 * w) + (b * 256 + s.last() as int))
            by (nonlinear_arith);
    }
}

/// Leading zero bytes do not change the value.
pub proof fn lemma_be_value_skip_zeros(s: Seq<u8>, k: int)
    requires
        0 <= k <= s.len(),
        forall|i: int| 0 <= i < k ==> s[i] == 0,
    ensures
        be_value(s) == be_value(s.skip(k)),
    decreases k,
{
    if k > 0 {
        lemma_be_value_skip_zeros(s, k - 1);
        let t = s.skip(k - 1);
        lemma_be_value_split(t, 1);
        lemma_be_value_single(t.take(1));
        assert(t.skip(1) =~= s.skip(k));
        assert(0 * pow(256, (t.len() - 1) as nat) == 0) by (nonlinear_arith);
    } else {
        assert(s.skip(0) =~= s);
    }
}

/// A string whose first byte is not zero denotes at least `256^(n-1)`.
pub proof fn lemma_be_value_lower_bound(s: Seq<u8>)
    requires
        s.len() >= 1,
        s[0] != 0,
    ensures
        be_value(s) >= pow(256, (s.len() - 1) as nat),
{
    lemma_be_value_split(s, 1);
    lemma_be_value_single(s.take(1));
    let w = pow(256, (s.len() - 1) as nat);
    lemma_pow_positive(256, (s.len() - 1) as nat);
    assert(s[0] as int * w >= w) by (nonlinear_arith)
        requires
            s[0] as int >= 1,
            w > 0,
    ;
}

/// The digits of a number denote that number, and begin with a non-zero
/// byte.
pub proof fn lemma_be_digits_value(n: nat)
    ensures
        be_value(be_digits(n)) == n,
        n > 0 ==> be_digits(n).len() >= 1 && be_digits(n)[0] != 0,
        n == 0 ==> be_digits(n).len() == 0,
    decreases n,
{
    if n > 0 {
        lemma_be_digits_value(n / 256);
        lemma_be_value_push(be_digits(n / 256), (n % 256) as u8);
    }
}

/// The canonical encoding of a number is canonical and denotes it.
pub proof fn lemma_be_bytes_value(n: nat)
    ensures
        is_canonical(be_bytes(n)),
        be_value(be_bytes(n)) == n,
{
    lemma_be_digits_value(n);
    if n == 0 {
        lemma_be_value_single(seq![0u8]);
    }
}

proof fn lemma_digits_of_value(s: Seq<u8>)
    requires
        s.len() >= 1,
        s[0] != 0,
    ensures
        be_digits(be_value(s)) == s,
    decreases s.len(),
{
    let front = s.drop_last();
    lemma_be_value_lower_bound(s);
    lemma_pow_positive(256, (s.len() - 1) as nat);
    let v = be_value(s);
    assert(v / 256 == be_value(front) && v % 256 == s.last() as nat) by {
        lemma_fundamental_div_mod_converse(v as int, 256, be_value(front) as int, s.last() as int);
    }
    if front.len() == 0 {
        assert(be_digits(0).push(s.last()) =~= s);
    } else {
        lemma_digits_of_value(front);
        assert(front.push(s.last()) =~= s);
    }
}

/// A canonical string is the canonical encoding of its own value.
pub proof fn lemma_canonical_encoding(s: Seq<u8>)
    requires
        is_canonical(s),
    ensures
        be_bytes(be_value(s)) == s,
{
    if s[0] == 0 {
        lemma_be_value_single(s);
        assert(s =~= seq![0u8]);
    } else {
        lemma_be_value_lower_bound(s);
        lemma_pow_positive(256, (s.len() - 1) as nat);
        lemma_digits_of_value(s);
    }
}

/// Of two canonical strings, the shorter denotes the smaller number.
pub proof fn lemma_shorter_is_smaller(s: Seq<u8>, t: Seq<u8>)
    requires
        is_canonical(s),
        is_canonical(t),
        s.len() < t.len(),
    ensures
        be_value(s) < be_value(t),
{
    lemma_be_value_bound(s);
    lemma_be_value_lower_bound(t);
    lemma_pow_increases(256, s.len(), (t.len() - 1) as nat);
}

/// Two strings of one length that agree up to position `k` and differ
/// there are ordered as their bytes at `k` are.
pub proof fn lemma_first_difference(s: Seq<u8>, t: Seq<u8>, k: int)
    requires
        s.len() == t.len(),
        0 <= k < s.len(),
        s.take(k) == t.take(k),
        s[k] < t[k],
    ensures
        be_value(s) < be_value(t),
{
    lemma_be_value_split(s, k + 1);
    lemma_be_value_split(t, k + 1);
    assert(s.take(k + 1).drop_last() =~= s.take(k));
    assert(t.take(k + 1).drop_last() =~= t.take(k));
    lemma_be_value_bound(s.skip(k + 1));
    let w = pow(256, (s.len() - k - 1) as nat);
    let a = be_value(s.take(k + 1)) as int;
    let b = be_value(t.take(k + 1)) as int;
    assert(a + 1 <= b);
    assert(a * w + w <= b * w) by (nonlinear_arith)
        requires
            a + 1 <= b,
            w >= 0,
    ;
}

} // verus!
