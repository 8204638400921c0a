//! The lossless decimal form in which entries leave the library: ASCII
//! digits, with a leading `-` for negative values.

use vstd::prelude::*;

verus! {

/// The decimal digits of `v`, most significant first, with no leading zero.
pub open spec fn digits_of(v: nat) -> Seq<u8>
    decreases v,
{
    if v < 10 {
        seq![(48 + v) as u8]
    } else {
        digits_of(v / 10).push((48 + v % 10) as u8)
    }
}

/// The decimal text of `v`.
pub open spec fn decimal(v: int) -> Seq<u8> {
    if v < 0 {
        seq![45u8] + digits_of((-v) as nat)
    } else {
        digits_of(v as nat)
    }
}

pub open spec fn is_digit(b: u8) -> bool {
    48 <= b <= 57
}

pub open spec fn all_digits(s: Seq<u8>) -> bool {
    forall|i: int| 0 <= i < s.len() ==> #[trigger] is_digit(s[i])
}

/// The number that a string of decimal digits spells.
pub open spec fn digits_value(s: Seq<u8>) -> nat
    decreases s.len(),
{
    if s.len() == 0 {
        0
    } else {
        digits_value(s.drop_last()) * 10 + (s.last() - 48) as nat
    }
}

/// The integer that `s` spells: digits, optionally after a `-`.
pub open spec fn parse_spec(s: Seq<u8>) -> Option<int> {
    if s.len() > 0 && s[0] == 45u8 {
        let rest = s.subrange(1, s.len() as int);
        if rest.len() > 0 && all_digits(rest) {
            Some(-(digits_value(rest) as int))
        } else {
            None
        }
    } else if s.len() > 0 && all_digits(s) {
        Some(digits_value(s) as int)
    } else {
        None
    }
}

/// `parse_spec`, kept only where the integer fits in `i128`.
pub open spec fn parse_i128(s: Seq<u8>) -> Option<i128> {
    match parse_spec(s) {
        Some(v) => if i128::MIN <= v <= i128::MAX {
            Some(v as i128)
        } else {
            None
        },
        None => None,
    }
}

proof fn lemma_digits_of(v: nat)
    ensures
        digits_of(v).len() > 0,
        all_digits(digits_of(v)),
        digits_value(digits_of(v)) == v,
    decreases v,
{
    if v >= 10 {
        lemma_digits_of(v / 10);
        let s = digits_of(v);
        assert(s.drop_last() =~= digits_of(v / 10));
        assert(s.last() == 48 + v % 10);
        assert((v / 10) * 10 + v % 10 == v);
        assert(digits_value(s) == digits_value(s.drop_last()) * 10 + (s.last() - 48) as nat);
        assert forall|i: int| 0 <= i < s.len() implies #[trigger] is_digit(s[i]) by {
            if i < s.len() - 1 {
                assert(is_digit(digits_of(v / 10)[i]));
            }
        }
    } else {
        assert(digits_of(v).drop_last() =~= Seq::<u8>::empty());
        assert(digits_value(Seq::<u8>::empty()) == 0);
    }
}

/// Reading back the decimal text of any integer gives that integer.
pub proof fn lemma_decimal_round_trip(v: int)
    ensures
        parse_spec(decimal(v)) == Some(v),
        i128::MIN <= v <= i128::MAX ==> parse_i128(decimal(v)) == Some(v as i128),
{
    if v < 0 {
        let d = digits_of((-v) as nat);
        lemma_digits_of((-v) as nat);
        let s = seq![45u8] + d;
        assert(s.subrange(1, s.len() as int) =~= d);
        assert(s[0] == 45u8);
    } else {
        lemma_digits_of(v as nat);
        let d = digits_of(v as nat);
        assert(is_digit(d[0]));
    }
}

fn push_digits(out: &mut Vec<u8>, x: u128)
    ensures
        final(out)@ == old(out)@ + digits_of(x as nat),
    decreases x,
{
    if x >= 10 {
        push_digits(out, x / 10);
    }
    out.push((48 + x % 10) as u8);
    proof {
        assert(out@ =~= old(out)@ + digits_of(x as nat));
    }
}

/// The decimal text of `v`.
pub fn to_decimal(v: i128) -> (r: Vec<u8>)
    ensures
        r@ == decimal(v as int),
{
    let mut out: Vec<u8> = Vec::new();
    if v < 0 {
        out.push(45u8);
        let mag: u128 = (-(v + 1)) as u128 + 1;
        push_digits(&mut out, mag);
        proof {
            assert(out@ =~= seq![45u8] + digits_of((-v) as nat));
        }
    } else {
        push_digits(&mut out, v as u128);
        proof {
            assert(out@ =~= digits_of(v as nat));
        }
    }
    out
}

/// The integer that the decimal text `s` spells, if it spells one that fits
/// in `i128`.
pub fn parse_decimal(s: &[u8]) -> (r: Option<i128>)
    ensures
        r == parse_i128(s@),
{
    let len = s.len();
    if len == 0 {
        return None;
    }
    let neg = s[0] == 45u8;
    let start: usize = if neg {
        1
    } else {
        0
    };
    if start == len {
        return None;
    }
    let ghost bound: int = if neg {
        0x8000_0000_0000_0000_0000_0000_0000_0000
    } else {
        0x7fff_ffff_ffff_ffff_ffff_ffff_ffff_ffff
    };
    let mut acc: i128 = 0;
    let mut fits = true;
    let mut i: usize = start;
    assert(digits_value(s@.subrange(start as int, start as int)) == 0);
    while i < len
        invariant
            start <= i <= len,
            len == s@.len(),
            start == (if neg { 1int } else { 0int }),
            neg == (s@[0] == 45u8),
            bound == (if neg {
                0x8000_0000_0000_0000_0000_0000_0000_0000int
            } else {
                0x7fff_ffff_ffff_ffff_ffff_ffff_ffff_ffffint
            }),
            all_digits(s@.subrange(start as int, i as int)),
            fits ==> digits_value(s@.subrange(start as int, i as int)) <= bound,
            fits ==> acc == (if neg {
                -(digits_value(s@.subrange(start as int, i as int)) as int)
            } else {
                digits_value(s@.subrange(start as int, i as int)) as int
            }),
            !fits ==> digits_value(s@.subrange(start as int, i as int)) > bound,
        decreases len - i,
    {
        let b = s[i];
        let ghost prev = s@.subrange(start as int, i as int);
        let ghost next = s@.subrange(start as int, i as int + 1);
        if b < 48 || b > 57 {
            proof {
                let rest = s@.subrange(start as int, len as int);
                assert(!is_digit(rest[i - start]));
                if !neg {
                    assert(rest =~= s@);
                }
            }
            return None;
        }
        proof {
            assert(next.drop_last() =~= prev);
            assert(next.last() == b);
            assert(digits_value(next) == digits_value(prev) * 10 + (b - 48) as nat);
            assert forall|j: int| 0 <= j < next.len() implies #[trigger] is_digit(next[j]) by {
                if j < prev.len() {
                    assert(next[j] == prev[j]);
                }
            }
        }
        let digit = (b - 48) as i128;
        if fits {
            let scaled = acc.checked_mul(10);
            let stepped = match scaled {
                Some(t) => if neg {
                    t.checked_sub(digit)
                } else {
                    t.checked_add(digit)
                },
                None => None,
            };
            match stepped {
                Some(t) => {
                    acc = t;
                },
                None => {
                    fits = false;
                },
            }
        }
        i = i + 1;
    }
    proof {
        let rest = s@.subrange(start as int, len as int);
        if !neg {
            assert(rest =~= s@);
        }
    }
    if fits {
        Some(acc)
    } else {
        None
    }
}

} // verus!
