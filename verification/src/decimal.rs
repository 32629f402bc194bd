//! Decimal ASCII text for integers: the length prefixes of byte strings
//! and the bodies of `i...e` integer terms.

use vstd::prelude::*;

verus! {

/// The ASCII code of `-`.
pub const MINUS: u8 = 45;

/// True when the byte is an ASCII digit.
pub open spec fn is_digit(b: u8) -> bool {
    48 <= b <= 57
}

/// True when every byte of the sequence is an ASCII digit.
pub open spec fn all_digits(s: Seq<u8>) -> bool {
    forall|i: int| 0 <= i < s.len() ==> is_digit(#[trigger] s[i])
}

/// The canonical decimal digits of `n`, most significant first: no sign,
/// and no leading zero except for `n == 0` itself.
pub open spec fn udec(n: nat) -> Seq<u8>
    decreases n,
{
    if n < 10 {
        seq![(48 + n) as u8]
    } else {
        udec(n / 10).push((48 + n % 10) as u8)
    }
}

/// The canonical decimal text of a signed integer: a `-` for negative
/// values, then the digits of the magnitude.
pub open spec fn idec(i: int) -> Seq<u8> {
    if i < 0 {
        seq![MINUS] + udec((-i) as nat)
    } else {
        udec(i as nat)
    }
}

/// The number denoted by a sequence of ASCII digits, read in base 10.
pub open spec fn digits_val(s: Seq<u8>) -> nat
    recommends
        all_digits(s),
    decreases s.len(),
{
    if s.len() == 0 {
        0
    } else {
        (digits_val(s.drop_last()) * 10 + (s.last() - 48)) as nat
    }
}

/// Whether the bytes have the shape of an `i...e` body: an optional `-`,
/// then at least one digit and nothing else.
pub open spec fn int_body_shape_ok(s: Seq<u8>) -> bool {
    if s.len() == 0 {
        false
    } else if s[0] == MINUS {
        s.len() >= 2 && all_digits(s.subrange(1, s.len() as int))
    } else {
        all_digits(s)
    }
}

/// The magnitude denoted by an `i...e` body.
pub open spec fn int_body_mag(s: Seq<u8>) -> nat
    recommends
        int_body_shape_ok(s),
{
    if s[0] == MINUS {
        digits_val(s.subrange(1, s.len() as int))
    } else {
        digits_val(s)
    }
}

/// The signed value denoted by an `i...e` body.
pub open spec fn int_body_val(s: Seq<u8>) -> int
    recommends
        int_body_shape_ok(s),
{
    if s[0] == MINUS {
        -(int_body_mag(s) as int)
    } else {
        int_body_mag(s) as int
    }
}

/// Whether the bytes denote a signed 64-bit integer: the right shape and
/// a value in range.
pub open spec fn int_body_valid(s: Seq<u8>) -> bool {
    &&& int_body_shape_ok(s)
    &&& i64::MIN <= int_body_val(s) <= i64::MAX
}

/// The canonical digits of `n` are digits and denote `n` again.
pub proof fn lemma_udec(n: nat)
    ensures
        udec(n).len() >= 1,
        all_digits(udec(n)),
        digits_val(udec(n)) == n,
    decreases n,
{
    if n < 10 {
        let s = udec(n);
        assert(s =~= seq![(48 + n) as u8]);
        assert(s.drop_last() =~= Seq::<u8>::empty());
        assert(digits_val(s.drop_last()) == 0);
    } else {
        lemma_udec(n / 10);
        assert(udec(n).drop_last() =~= udec(n / 10));
        assert(digits_val(udec(n)) == (n / 10) * 10 + n % 10);
        assert((n / 10) * 10 + n % 10 == n) by (nonlinear_arith);
    }
}

/// The canonical text of a signed integer is a sign and digits, and
/// denotes the integer again.
pub proof fn lemma_idec(i: int)
    requires
        i64::MIN <= i <= i64::MAX,
    ensures
        idec(i).len() >= 1,
        forall|k: int|
            0 <= k < idec(i).len() ==> ((#[trigger] idec(i)[k]) == MINUS || is_digit(idec(i)[k])),
        int_body_valid(idec(i)),
        int_body_val(idec(i)) == i,
{
    let s = idec(i);
    if i < 0 {
        lemma_udec((-i) as nat);
        assert(s[0] == MINUS);
        assert(s.subrange(1, s.len() as int) =~= udec((-i) as nat));
        assert forall|k: int| 0 <= k < s.len() implies ((#[trigger] s[k]) == MINUS || is_digit(
            s[k],
        )) by {
            if k >= 1 {
                assert(s[k] == udec((-i) as nat)[k - 1]);
            }
        }
        assert(int_body_mag(s) == digits_val(udec((-i) as nat)));
        assert(int_body_val(s) == i);
    } else {
        lemma_udec(i as nat);
        assert(s =~= udec(i as nat));
        assert(is_digit(s[0]));
        assert(s[0] != MINUS);
        assert(int_body_val(s) == i);
    }
}

/// Reading more digits can only make the denoted number larger.
pub proof fn lemma_digits_val_mono(s: Seq<u8>, k: int)
    requires
        0 <= k <= s.len(),
        all_digits(s),
    ensures
        digits_val(s) >= digits_val(s.subrange(0, k)),
    decreases s.len() - k,
{
    if k < s.len() {
        lemma_digits_val_mono(s, k + 1);
        let pre = s.subrange(0, k);
        let post = s.subrange(0, k + 1);
        assert(post.drop_last() =~= pre);
        assert(is_digit(post.last()));
        assert(digits_val(post) == digits_val(pre) * 10 + (post.last() - 48));
        assert(digits_val(pre) * 10 >= digits_val(pre));
    } else {
        assert(s.subrange(0, k) =~= s);
    }
}

/// True when the byte is an ASCII digit; dispatch and the length scan
/// test bytes with it.
pub(crate) fn is_num(b: u8) -> (r: bool)
    ensures
        r == is_digit(b),
{
    48 <= b && b <= 57
}

/// Appends the canonical decimal digits of `n`.
pub(crate) fn push_udec(n: u64, out: &mut Vec<u8>)
    ensures
        final(out)@ == old(out)@ + udec(n as nat),
    decreases n,
{
    if n < 10 {
        let d: u8 = 48 + (n as u8);
        out.push(d);
        proof {
            assert(udec(n as nat) =~= seq![d]);
            assert(old(out)@ + udec(n as nat) =~= old(out)@.push(d));
        }
    } else {
        push_udec(n / 10, out);
        let d: u8 = 48 + ((n % 10) as u8);
        out.push(d);
        proof {
            assert((n / 10) as nat == (n as nat) / 10);
            assert((n % 10) as nat == (n as nat) % 10);
            assert(udec(n as nat) =~= udec((n as nat) / 10).push(d));
            assert(old(out)@ + udec(n as nat) =~= (old(out)@ + udec((n as nat) / 10)).push(d));
        }
    }
}

/// Reads a run of ASCII digits as a machine-sized length, or reports that
/// the denoted number does not fit.
pub(crate) fn parse_usize_decimal(digits: &Vec<u8>) -> (r: Option<usize>)
    requires
        all_digits(digits@),
        digits@.len() >= 1,
    ensures
        match r {
            Some(n) => n as nat == digits_val(digits@),
            None => digits_val(digits@) > usize::MAX,
        },
{
    let mut acc: usize = 0;
    let mut i: usize = 0;
    while i < digits.len()
        invariant
            0 <= i <= digits@.len(),
            all_digits(digits@),
            acc as nat == digits_val(digits@.subrange(0, i as int)),
        decreases digits@.len() - i,
    {
        let d: u8 = digits[i] - 48;
        proof {
            let pre = digits@.subrange(0, i as int);
            let post = digits@.subrange(0, i as int + 1);
            assert(post.drop_last() =~= pre);
            assert(post.last() == digits@[i as int]);
            assert(digits_val(post) == digits_val(pre) * 10 + (d as nat));
        }
        if acc > (usize::MAX - (d as usize)) / 10 {
            proof {
                assert((acc as int) * 10 + (d as int) > usize::MAX as int) by (nonlinear_arith)
                    requires
                        acc as int > (usize::MAX as int - d as int) / 10,
                        0 <= d as int <= 9,
                ;
                lemma_digits_val_mono(digits@, i as int + 1);
            }
            return None;
        }
        proof {
            assert((acc as int) * 10 + (d as int) <= usize::MAX as int) by (nonlinear_arith)
                requires
                    acc as int <= (usize::MAX as int - d as int) / 10,
                    0 <= d as int <= 9,
            ;
        }
        acc = acc * 10 + (d as usize);
        i = i + 1;
    }
    proof {
        assert(digits@.subrange(0, digits@.len() as int) =~= digits@);
    }
    Some(acc)
}

/// Reads an `i...e` body as a signed 64-bit integer, or reports that the
/// bytes are not the decimal text of one.
pub(crate) fn parse_i64_decimal(body: &Vec<u8>) -> (r: Option<i64>)
    ensures
        match r {
            Some(v) => int_body_valid(body@) && v as int == int_body_val(body@),
            None => !int_body_valid(body@),
        },
{
    if body.len() == 0 {
        return None;
    }
    let neg = body[0] == MINUS;
    let start: usize = if neg {
        1
    } else {
        0
    };
    if body.len() == start {
        return None;
    }
    let limit: u64 = if neg {
        9223372036854775808
    } else {
        9223372036854775807
    };
    let ghost digit_part = body@.subrange(start as int, body@.len() as int);
    let mut acc: u64 = 0;
    let mut i: usize = start;
    while i < body.len()
        invariant
            start <= i <= body@.len(),
            body@.len() >= start + 1,
            neg == (body@[0] == MINUS),
            start == if neg { 1int } else { 0int },
            limit == if neg { 9223372036854775808u64 } else { 9223372036854775807u64 },
            digit_part == body@.subrange(start as int, body@.len() as int),
            all_digits(body@.subrange(start as int, i as int)),
            acc as nat == digits_val(body@.subrange(start as int, i as int)),
            acc <= limit,
        decreases body@.len() - i,
    {
        let b = body[i];
        if !(48 <= b && b <= 57) {
            proof {
                assert(!is_digit(digit_part[i - start]));
                assert(!int_body_shape_ok(body@));
            }
            return None;
        }
        let d: u8 = b - 48;
        proof {
            let pre = body@.subrange(start as int, i as int);
            let post = body@.subrange(start as int, i as int + 1);
            assert(post.drop_last() =~= pre);
            assert(post.last() == body@[i as int]);
            assert(digits_val(post) == digits_val(pre) * 10 + (d as nat));
        }
        if acc > (limit - (d as u64)) / 10 {
            proof {
                assert((acc as int) * 10 + (d as int) > limit as int) by (nonlinear_arith)
                    requires
                        acc as int > (limit as int - d as int) / 10,
                        0 <= d as int <= 9,
                ;
                if int_body_shape_ok(body@) {
                    let post = body@.subrange(start as int, i as int + 1);
                    assert(post =~= digit_part.subrange(0, i - start + 1));
                    lemma_digits_val_mono(digit_part, i - start + 1);
                    if !neg {
                        assert(digit_part =~= body@);
                    }
                    assert(int_body_mag(body@) == digits_val(digit_part));
                    assert(int_body_mag(body@) > limit);
                }
            }
            return None;
        }
        proof {
            assert((acc as int) * 10 + (d as int) <= limit as int) by (nonlinear_arith)
                requires
                    acc as int <= (limit as int - d as int) / 10,
                    0 <= d as int <= 9,
            ;
        }
        acc = acc * 10 + (d as u64);
        i = i + 1;
    }
    proof {
        assert(body@.subrange(start as int, i as int) =~= digit_part);
        if !neg {
            assert(digit_part =~= body@);
        }
        assert(int_body_shape_ok(body@));
        assert(int_body_mag(body@) == acc as nat);
    }
    if neg {
        if acc == 9223372036854775808 {
            Some(i64::MIN)
        } else {
            Some(-(acc as i64))
        }
    } else {
        Some(acc as i64)
    }
}

} // verus!
