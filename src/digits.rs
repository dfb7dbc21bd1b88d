//! Decimal numerals in their minimal form: reading them back and telling them apart.
use vstd::prelude::*;
use crate::wire::{dec_int, dec_nat, is_digit};

verus! {

/// The number that a string of decimal digits denotes.
pub open spec fn digits_value(s: Seq<u8>) -> nat
    decreases s.len(),
{
    if s.len() == 0 {
        0
    } else {
        digits_value(s.drop_last()) * 10 + (s.last() - 48) as nat
    }
}

pub proof fn lemma_dec_nat_shape(n: nat)
    ensures
        dec_nat(n).len() >= 1,
        forall|i: int| 0 <= i < dec_nat(n).len() ==> is_digit(#[trigger] dec_nat(n)[i]),
        digits_value(dec_nat(n)) == n,
        dec_nat(n).len() > 1 ==> dec_nat(n)[0] != 48,
    decreases n,
{
    if n >= 10 {
        lemma_dec_nat_shape(n / 10);
        assert(dec_nat(n).drop_last() =~= dec_nat(n / 10));
        assert(dec_nat(n).last() == (n % 10 + 48) as u8);
        assert((n / 10) * 10 + n % 10 == n) by (nonlinear_arith);
        assert(digits_value(dec_nat(n)) == digits_value(dec_nat(n / 10)) * 10 + n % 10);
        assert(dec_nat(n)[0] == dec_nat(n / 10)[0]);
        if n / 10 >= 10 {
            lemma_dec_nat_shape(n / 10 / 10);
            assert(dec_nat(n / 10).len() > 1);
        } else {
            assert(n / 10 >= 1);
        }
    } else {
        assert(dec_nat(n).drop_last() =~= Seq::<u8>::empty());
        assert(digits_value(Seq::<u8>::empty()) == 0);
    }
}

/// Distinct numbers have distinct minimal numerals.
pub proof fn lemma_dec_nat_injective(a: nat, b: nat)
    requires
        dec_nat(a) == dec_nat(b),
    ensures
        a == b,
{
    lemma_dec_nat_shape(a);
    lemma_dec_nat_shape(b);
}

pub proof fn lemma_dec_int_injective(a: int, b: int)
    requires
        dec_int(a) == dec_int(b),
    ensures
        a == b,
{
    lemma_dec_nat_shape((-a) as nat);
    lemma_dec_nat_shape((-b) as nat);
    lemma_dec_nat_shape(a as nat);
    lemma_dec_nat_shape(b as nat);
    if a < 0 && b < 0 {
        assert(dec_nat((-a) as nat) =~= dec_int(a).skip(1));
        assert(dec_nat((-b) as nat) =~= dec_int(b).skip(1));
        lemma_dec_nat_injective((-a) as nat, (-b) as nat);
    } else if a >= 0 && b >= 0 {
        lemma_dec_nat_injective(a as nat, b as nat);
    } else {
        assert(dec_int(a)[0] != dec_int(b)[0]);
    }
}

proof fn lemma_value_prefix(s: Seq<u8>, i: int)
    requires
        0 <= i <= s.len(),
    ensures
        digits_value(s.take(i)) <= digits_value(s),
    decreases s.len() - i,
{
    if i < s.len() {
        lemma_value_prefix(s, i + 1);
        assert(s.take(i + 1).drop_last() =~= s.take(i));
    } else {
        assert(s.take(i) =~= s);
    }
}

/// Reads a minimal decimal numeral from `s[lo..hi]`: digits only, no leading
/// zero unless the numeral is `0`, and a value that fits in 64 bits.
pub fn parse_dec_u64(s: &[u8], lo: usize, hi: usize) -> (r: Option<u64>)
    requires
        lo <= hi <= s@.len(),
    ensures
        r matches Some(v) ==> s@.subrange(lo as int, hi as int) == dec_nat(v as nat),
        forall|n: nat| n <= u64::MAX && s@.subrange(lo as int, hi as int) == dec_nat(n) ==> r == Some(n as u64),
{
    let ghost b = s@.subrange(lo as int, hi as int);
    if hi == lo || (hi - lo > 1 && s[lo] == 48) {
        proof {
            assert forall|n: nat| n <= u64::MAX && b == dec_nat(n) implies false by {
                lemma_dec_nat_shape(n);
            };
        }
        return None;
    }
    let mut acc: u64 = 0;
    let mut i: usize = 0;
    while i < hi - lo
        invariant
            lo <= hi <= s@.len(),
            b == s@.subrange(lo as int, hi as int),
            i <= b.len(),
            b.len() >= 1,
            b.len() > 1 ==> b[0] != 48,
            forall|j: int| 0 <= j < i ==> is_digit(#[trigger] b[j]),
            acc as nat == digits_value(b.take(i as int)),
        decreases b.len() - i,
    {
        let c = s[lo + i];
        assert(c == b[i as int]);
        if c < 48 || c > 57 {
            proof {
                assert forall|n: nat| n <= u64::MAX && b == dec_nat(n) implies false by {
                    lemma_dec_nat_shape(n);
                    assert(is_digit(dec_nat(n)[i as int]));
                };
            }
            return None;
        }
        let next: u128 = acc as u128 * 10 + (c - 48) as u128;
        assert(b.take(i + 1).drop_last() =~= b.take(i as int));
        if next > u64::MAX as u128 {
            proof {
                assert forall|n: nat| n <= u64::MAX && b == dec_nat(n) implies false by {
                    lemma_dec_nat_shape(n);
                    lemma_value_prefix(b, i + 1);
                };
            }
            return None;
        }
        acc = next as u64;
        i = i + 1;
    }
    assert(b.take(b.len() as int) =~= b);
    proof {
        lemma_canonical(b);
        assert forall|n: nat| n <= u64::MAX && b == dec_nat(n) implies Some(acc) == Some(n as u64) by {
            lemma_dec_nat_shape(n);
        };
    }
    Some(acc)
}

/// A string of digits without a leading zero is the minimal numeral of its value.
proof fn lemma_canonical(s: Seq<u8>)
    requires
        s.len() >= 1,
        forall|j: int| 0 <= j < s.len() ==> is_digit(#[trigger] s[j]),
        s.len() > 1 ==> s[0] != 48,
    ensures
        dec_nat(digits_value(s)) == s,
        s.len() > 1 ==> digits_value(s) >= 10,
        s[0] != 48 ==> digits_value(s) >= 1,
    decreases s.len(),
{
    let t = s.drop_last();
    if s.len() == 1 {
        assert(t =~= Seq::<u8>::empty());
        assert(digits_value(t) == 0);
        assert(digits_value(s) == (s[0] - 48) as nat);
        assert(dec_nat(digits_value(s)) =~= s);
    } else {
        assert(t[0] == s[0]);
        lemma_canonical(t);
        let v = digits_value(s);
        assert(v == digits_value(t) * 10 + (s.last() - 48) as nat);
        assert(v / 10 == digits_value(t) && v % 10 == (s.last() - 48) as nat) by (nonlinear_arith)
            requires
                v == digits_value(t) * 10 + (s.last() - 48) as nat,
                0 <= (s.last() - 48) as nat <= 9,
        ;
        assert(dec_nat(v) =~= s);
    }
}

/// Reads a minimal signed decimal numeral from `s[lo..hi]` that fits in an `i64`.
pub fn parse_dec_i64(s: &[u8], lo: usize, hi: usize) -> (r: Option<i64>)
    requires
        lo <= hi <= s@.len(),
    ensures
        r matches Some(v) ==> s@.subrange(lo as int, hi as int) == dec_int(v as int),
        forall|i: i64| s@.subrange(lo as int, hi as int) == dec_int(i as int) ==> r == Some(i),
{
    let ghost b = s@.subrange(lo as int, hi as int);
    if hi > lo && s[lo] == 45 {
        let mag = parse_dec_u64(s, lo + 1, hi);
        assert(s@.subrange(lo + 1, hi as int) =~= b.skip(1));
        proof {
            assert forall|i: i64| b == dec_int(i as int) implies i < 0 by {
                if i >= 0 {
                    lemma_dec_nat_shape(i as nat);
                    assert(is_digit(dec_nat(i as nat)[0]));
                }
            };
            assert forall|i: i64| i < 0 implies dec_int(i as int).skip(1) =~= dec_nat((-i) as nat) by {};
        }
        match mag {
            Some(m) => {
                if m == 0 || m > 9223372036854775808u64 {
                    proof {
                        assert forall|i: i64| b == dec_int(i as int) implies false by {
                            assert(b.skip(1) == dec_nat((-i) as nat));
                            lemma_dec_nat_injective(m as nat, (-i) as nat);
                        };
                    }
                    None
                } else {
                    let v: i64 = (-(m as i128)) as i64;
                    assert(b =~= dec_int(v as int));
                    proof {
                        assert forall|i: i64| b == dec_int(i as int) implies Some(v) == Some(i) by {
                            lemma_dec_int_injective(v as int, i as int);
                        };
                    }
                    Some(v)
                }
            },
            None => {
                proof {
                    assert forall|i: i64| b == dec_int(i as int) implies false by {
                        assert(b.skip(1) == dec_nat((-i) as nat));
                    };
                }
                None
            },
        }
    } else {
        let mag = parse_dec_u64(s, lo, hi);
        proof {
            assert forall|i: i64| b == dec_int(i as int) implies i >= 0 by {
                if i < 0 {
                    lemma_dec_nat_shape((-i) as nat);
                    assert(dec_int(i as int)[0] == 45);
                    assert(b.len() >= 1);
                    assert(hi > lo);
                    assert(b[0] == s@[lo as int]);
                }
            };
        }
        match mag {
            Some(m) => {
                if m > 9223372036854775807u64 {
                    proof {
                        assert forall|i: i64| b == dec_int(i as int) implies false by {
                            lemma_dec_nat_injective(m as nat, i as nat);
                        };
                    }
                    None
                } else {
                    let v: i64 = m as i64;
                    Some(v)
                }
            },
            None => None,
        }
    }
}

} // verus!
