//! Decimal codec for the 32-bit integer parameters of the protocol.

use vstd::prelude::*;
use vstd::wrapping::i32_specs;

verus! {

/// Greatest number of bytes a formatted 32-bit integer occupies: a minus sign
/// and the ten digits of the largest magnitudes.
pub const MAX_INT_DIGITS: usize = 11;

pub open spec fn is_decimal_digit(b: u8) -> bool {
    48 <= b && b <= 57
}

/// Decimal digits of `n`, most significant first, as ASCII bytes.
pub open spec fn spec_digits(n: nat) -> Seq<u8>
    decreases n,
{
    if n < 10 {
        seq![(48 + n) as u8]
    } else {
        spec_digits(n / 10).push((48 + n % 10) as u8)
    }
}

/// The bytes `write_int` emits for `v`: a minus sign for a negative value,
/// then the decimal digits of its magnitude.
pub open spec fn spec_int_bytes(v: int) -> Seq<u8> {
    if v < 0 {
        seq![45u8] + spec_digits((-v) as nat)
    } else {
        spec_digits(v as nat)
    }
}

/// Folds decimal digit bytes into a value, accumulating negatively so that
/// the magnitude of `i32::MIN` is reachable.  The arithmetic wraps, exactly
/// as the executable code's does on out-of-range eleven-digit inputs.
pub open spec fn spec_parse_digits(s: Seq<u8>, acc: i32) -> Option<i32>
    decreases s.len(),
{
    if s.len() == 0 {
        Some(acc)
    } else if !is_decimal_digit(s[0]) {
        None
    } else {
        spec_parse_digits(
            s.drop_first(),
            i32_specs::wrapping_sub(i32_specs::wrapping_mul(acc, 10), (s[0] - 48) as i32),
        )
    }
}

/// What `parse_int` returns: an optional minus sign followed by one or more
/// digits, at most `MAX_INT_DIGITS` bytes in all; anything else is rejected.
pub open spec fn spec_parse_int(s: Seq<u8>) -> Option<i32> {
    if s.len() == 0 || s.len() > MAX_INT_DIGITS {
        None
    } else if s[0] == 45 {
        if s.len() == 1 {
            None
        } else {
            spec_parse_digits(s.subrange(1, s.len() as int), 0)
        }
    } else {
        match spec_parse_digits(s, 0) {
            Some(m) => Some(i32_specs::wrapping_sub(0, m)),
            None => None,
        }
    }
}

pub open spec fn pow10(k: nat) -> nat
    decreases k,
{
    if k == 0 {
        1
    } else {
        10 * pow10((k - 1) as nat)
    }
}

proof fn lemma_digits_len_bound(n: nat, k: nat)
    requires
        k >= 1,
        n < pow10(k),
    ensures
        spec_digits(n).len() <= k,
    decreases k,
{
    if n < 10 {
    } else {
        assert(pow10(k) == 10 * pow10((k - 1) as nat));
        vstd::arithmetic::div_mod::lemma_fundamental_div_mod(n as int, 10);
        assert(10 * (n / 10) <= n);
        assert(n / 10 < pow10((k - 1) as nat));
        lemma_digits_len_bound(n / 10, (k - 1) as nat);
    }
}

proof fn lemma_pow10_ten()
    ensures
        pow10(10) == 10000000000,
{
    reveal_with_fuel(pow10, 11);
}

/// The codec never needs more than `MAX_INT_DIGITS` bytes of scratch space.
pub proof fn lemma_int_bytes_len(v: i32)
    ensures
        1 <= spec_int_bytes(v as int).len() <= MAX_INT_DIGITS,
{
    lemma_pow10_ten();
    if v < 0 {
        lemma_digits_len_bound((-(v as int)) as nat, 10);
    } else {
        lemma_digits_len_bound(v as nat, 10);
    }
}

proof fn lemma_digits_first(n: nat)
    ensures
        is_decimal_digit(spec_digits(n)[0]),
    decreases n,
{
    if n < 10 {
    } else {
        lemma_digits_first(n / 10);
    }
}

proof fn lemma_parse_digits_push(s: Seq<u8>, d: u8, acc: i32)
    requires
        is_decimal_digit(d),
    ensures
        spec_parse_digits(s.push(d), acc) == match spec_parse_digits(s, acc) {
            Some(m) => Some(
                i32_specs::wrapping_sub(i32_specs::wrapping_mul(m, 10), (d - 48) as i32),
            ),
            None => None::<i32>,
        },
    decreases s.len(),
{
    if s.len() == 0 {
        let acc2 = i32_specs::wrapping_sub(i32_specs::wrapping_mul(acc, 10), (d - 48) as i32);
        assert(s.push(d)[0] == d);
        assert(s.push(d).drop_first() =~= Seq::<u8>::empty());
        assert(spec_parse_digits(s.push(d), acc) == spec_parse_digits(
            s.push(d).drop_first(),
            acc2,
        ));
        assert(spec_parse_digits(Seq::<u8>::empty(), acc2) == Some(acc2));
        assert(spec_parse_digits(s, acc) == Some(acc));
    } else {
        assert(s.push(d)[0] == s[0]);
        if is_decimal_digit(s[0]) {
            let acc2 = i32_specs::wrapping_sub(
                i32_specs::wrapping_mul(acc, 10),
                (s[0] - 48) as i32,
            );
            assert(s.push(d).drop_first() =~= s.drop_first().push(d));
            assert(spec_parse_digits(s.push(d), acc) == spec_parse_digits(
                s.drop_first().push(d),
                acc2,
            ));
            assert(spec_parse_digits(s, acc) == spec_parse_digits(s.drop_first(), acc2));
            lemma_parse_digits_push(s.drop_first(), d, acc2);
        } else {
            assert(spec_parse_digits(s.push(d), acc) == None::<i32>);
            assert(spec_parse_digits(s, acc) == None::<i32>);
        }
    }
}

proof fn lemma_parse_of_digits(n: nat)
    requires
        n <= 2147483648,
    ensures
        spec_parse_digits(spec_digits(n), 0) == Some((-(n as int)) as i32),
    decreases n,
{
    if n < 10 {
        let s = spec_digits(n);
        let acc2 = i32_specs::wrapping_sub(i32_specs::wrapping_mul(0, 10), (s[0] - 48) as i32);
        assert(s =~= seq![(48 + n) as u8]);
        assert(s.drop_first() =~= Seq::<u8>::empty());
        assert(spec_parse_digits(s, 0) == spec_parse_digits(s.drop_first(), acc2));
        assert(spec_parse_digits(Seq::<u8>::empty(), acc2) == Some(acc2));
        assert(acc2 == (-(n as int)) as i32);
    } else {
        lemma_parse_of_digits(n / 10);
        lemma_parse_digits_push(spec_digits(n / 10), (48 + n % 10) as u8, 0);
        vstd::arithmetic::div_mod::lemma_fundamental_div_mod(n as int, 10);
        let m = (-((n / 10) as int)) as i32;
        assert(spec_digits(n) == spec_digits(n / 10).push((48 + n % 10) as u8));
        assert(spec_parse_digits(spec_digits(n / 10), 0) == Some(m));
        assert(i32_specs::wrapping_mul(m, 10) == -10 * ((n / 10) as int));
        assert(i32_specs::wrapping_sub(i32_specs::wrapping_mul(m, 10), ((48 + n % 10) as u8 - 48) as i32)
            == (-(n as int)) as i32);
    }
}

/// Formatting then parsing gives the value back, for every 32-bit integer.
pub proof fn lemma_int_round_trip(v: i32)
    ensures
        spec_parse_int(spec_int_bytes(v as int)) == Some(v),
{
    lemma_int_bytes_len(v);
    if v < 0 {
        let mag = (-(v as int)) as nat;
        lemma_parse_of_digits(mag);
        lemma_digits_first(mag);
        let s = spec_int_bytes(v as int);
        assert(s[0] == 45);
        assert(s.subrange(1, s.len() as int) =~= spec_digits(mag));
    } else {
        lemma_parse_of_digits(v as nat);
        lemma_digits_first(v as nat);
        let s = spec_int_bytes(v as int);
        assert(s[0] != 45);
        assert(spec_parse_digits(s, 0) == Some((-(v as int)) as i32));
    }
}

proof fn lemma_digits_all(n: nat)
    ensures
        forall|t: int|
            0 <= t < spec_digits(n).len() ==> is_decimal_digit(#[trigger] spec_digits(n)[t]),
    decreases n,
{
    if n < 10 {
    } else {
        lemma_digits_all(n / 10);
        assert forall|t: int|
            0 <= t < spec_digits(n).len() implies is_decimal_digit(
            #[trigger] spec_digits(n)[t],
        ) by {
            if t < spec_digits(n / 10).len() {
                assert(spec_digits(n)[t] == spec_digits(n / 10)[t]);
            }
        }
    }
}

/// Every byte of a formatted integer is a digit or the minus sign.
pub proof fn lemma_int_bytes_shape(v: i32)
    ensures
        forall|t: int|
            0 <= t < spec_int_bytes(v as int).len() ==> (is_decimal_digit(
                #[trigger] spec_int_bytes(v as int)[t],
            ) || spec_int_bytes(v as int)[t] == 45),
{
    if v < 0 {
        let mag = (-(v as int)) as nat;
        lemma_digits_all(mag);
        assert forall|t: int|
            0 <= t < spec_int_bytes(v as int).len() implies (is_decimal_digit(
            #[trigger] spec_int_bytes(v as int)[t],
        ) || spec_int_bytes(v as int)[t] == 45) by {
            if t >= 1 {
                assert(spec_int_bytes(v as int)[t] == spec_digits(mag)[t - 1]);
            }
        }
    } else {
        lemma_digits_all(v as nat);
    }
}

/// Writes `value` in ASCII decimal at the start of `buffer` and returns the
/// slice holding exactly the written bytes.  The buffer must offer at least
/// `MAX_INT_DIGITS` bytes; bytes past the written prefix are left unchanged.
pub fn write_int<'a>(buffer: &'a mut [u8], value: i32) -> (r: &'a [u8])
    requires
        old(buffer)@.len() >= MAX_INT_DIGITS,
    ensures
        r@ == spec_int_bytes(value as int),
        (*final(buffer))@ == spec_int_bytes(value as int) + old(buffer)@.skip(
            spec_int_bytes(value as int).len() as int,
        ),
{
    proof {
        lemma_int_bytes_len(value);
    }
    let (bytes, count) = int_to_bytes(value);
    let mut i: usize = 0;
    while i < count
        invariant
            i <= count,
            count <= MAX_INT_DIGITS,
            bytes@.subrange(0, count as int) == spec_int_bytes(value as int),
            buffer@.len() == old(buffer)@.len(),
            old(buffer)@.len() >= MAX_INT_DIGITS,
            forall|t: int| 0 <= t < i ==> buffer@[t] == bytes@[t],
            forall|t: int|
                i <= t < buffer@.len() ==> buffer@[t] == old(buffer)@[t],
        decreases count - i,
    {
        buffer[i] = bytes[i];
        i += 1;
    }
    let r = &buffer[0..i];
    proof {
        assert forall|t: int| 0 <= t < count implies buffer@[t] == spec_int_bytes(
            value as int,
        )[t] by {
            assert(bytes@.subrange(0, count as int)[t] == bytes@[t]);
        }
        assert(r@ =~= spec_int_bytes(value as int));
        assert((*final(buffer))@ =~= spec_int_bytes(value as int) + old(buffer)@.skip(
            spec_int_bytes(value as int).len() as int,
        ));
    }
    r
}

/// When `m` is not zero, its digits are those of `m / 10` followed by the
/// digit of `m % 10`; `spec_digits_rest` smooths over the empty case.
pub open spec fn spec_digits_rest(n: nat) -> Seq<u8> {
    if n == 0 {
        Seq::empty()
    } else {
        spec_digits(n)
    }
}

proof fn lemma_digits_step(n: nat)
    requires
        n > 0,
    ensures
        spec_digits(n) == spec_digits_rest(n / 10) + seq![(48 + n % 10) as u8],
{
    if n < 10 {
        assert(spec_digits(n) =~= spec_digits_rest(n / 10) + seq![(48 + n % 10) as u8]);
    } else {
        assert(spec_digits(n) =~= spec_digits_rest(n / 10) + seq![(48 + n % 10) as u8]);
    }
}

/// The formatted bytes of `value`, built in a fixed scratch array: the
/// first element holds the bytes, the second says how many are in use.
pub(crate) fn int_to_bytes(value: i32) -> (r: ([u8; 11], usize))
    ensures
        r.1 <= MAX_INT_DIGITS,
        r.0@.subrange(0, r.1 as int) == spec_int_bytes(value as int),
{
    let is_negative = value < 0;
    let mag: u32 = if value < 0 {
        (-(value as i64)) as u32
    } else {
        value as u32
    };
    let ghost sign: Seq<u8> = if is_negative {
        seq![45u8]
    } else {
        Seq::empty()
    };
    proof {
        assert(spec_int_bytes(value as int) =~= sign + spec_digits(mag as nat));
        lemma_pow10_ten();
        lemma_digits_len_bound(mag as nat, 10);
    }
    let mut rev: [u8; 11] = [0u8; 11];
    let mut ri: usize = 0;
    if mag == 0 {
        rev[0] = 48;
        ri = 1;
        proof {
            assert(Seq::new(ri as nat, |t: int| rev@[ri - 1 - t]) =~= spec_digits(0));
        }
    }
    let mut m = mag;
    while m != 0
        invariant
            ri <= 10,
            spec_digits(mag as nat).len() <= 10,
            spec_digits(mag as nat) == spec_digits_rest(m as nat) + Seq::new(
                ri as nat,
                |t: int| rev@[ri - 1 - t],
            ),
            mag != 0 || ri == 1,
        decreases m,
    {
        let d: u8 = 48 + (m % 10) as u8;
        let ghost old_rev = rev@;
        let ghost old_ri = ri as int;
        proof {
            assert(spec_digits_rest(m as nat).len() >= 1);
        }
        rev[ri] = d;
        ri = ri + 1;
        proof {
            lemma_digits_step(m as nat);
            assert(Seq::new(ri as nat, |t: int| rev@[ri - 1 - t]) =~= seq![d] + Seq::new(
                old_ri as nat,
                |t: int| old_rev[old_ri - 1 - t],
            ));
            assert(spec_digits_rest(m as nat) + Seq::new(
                old_ri as nat,
                |t: int| old_rev[old_ri - 1 - t],
            ) =~= spec_digits_rest((m / 10) as nat) + Seq::new(
                ri as nat,
                |t: int| rev@[ri - 1 - t],
            ));
        }
        m = m / 10;
    }
    proof {
        assert(spec_digits(mag as nat) =~= Seq::new(ri as nat, |t: int| rev@[ri - 1 - t]));
    }
    let mut out: [u8; 11] = [0u8; 11];
    let mut n: usize = 0;
    if is_negative {
        out[0] = 45;
        n = 1;
        proof {
            assert(out@.subrange(0, 1) =~= sign);
        }
    } else {
        proof {
            assert(out@.subrange(0, 0) =~= sign);
        }
    }
    let mut j = ri;
    while j > 0
        invariant
            j <= ri,
            ri <= 10,
            n as int == (if is_negative {
                1int
            } else {
                0int
            }) + (ri - j),
            spec_digits(mag as nat) == Seq::new(ri as nat, |t: int| rev@[ri - 1 - t]),
            out@.subrange(0, n as int) == sign + spec_digits(mag as nat).subrange(
                0,
                ri - j,
            ),
        decreases j,
    {
        let ghost old_out = out@;
        let ghost n0 = n as int;
        j = j - 1;
        let b = rev[j];
        out[n] = b;
        n = n + 1;
        proof {
            assert(spec_digits(mag as nat)[ri - 1 - j] == rev@[j as int]);
            assert(out@.subrange(0, n as int) =~= old_out.subrange(0, n0).push(b));
            assert(sign + spec_digits(mag as nat).subrange(0, ri - j) =~= (sign + spec_digits(
                mag as nat,
            ).subrange(0, ri - j - 1)).push(spec_digits(mag as nat)[ri - 1 - j]));
            assert(out@.subrange(0, n as int) =~= sign + spec_digits(mag as nat).subrange(
                0,
                ri - j,
            ));
        }
    }
    proof {
        assert(spec_digits(mag as nat).subrange(0, ri as int) =~= spec_digits(mag as nat));
    }
    (out, n)
}

/// Parses an optionally signed ASCII decimal number.
///
/// Accepts a leading minus sign followed by at least one digit, at most
/// `MAX_INT_DIGITS` bytes in all; any other byte, an empty input, or a longer
/// input yields `None`.  Eleven-digit magnitudes beyond the 32-bit range wrap
/// rather than fail, a boundary quirk the wire format tolerates.
pub fn parse_int(buffer: &[u8]) -> (r: Option<i32>)
    ensures
        r == spec_parse_int(buffer@),
{
    if buffer.len() == 0 || buffer.len() > MAX_INT_DIGITS {
        return None;
    }
    let is_negative = buffer[0] == 45;
    if is_negative && buffer.len() == 1 {
        return None;
    }
    let start: usize = if is_negative {
        1
    } else {
        0
    };
    let ghost digits: Seq<u8> = buffer@.subrange(start as int, buffer@.len() as int);
    let mut value: i32 = 0;
    let mut i: usize = start;
    while i < buffer.len()
        invariant
            start <= i <= buffer@.len(),
            start < buffer@.len(),
            is_negative == (buffer@[0] == 45),
            start == if is_negative { 1int } else { 0int },
            buffer@.len() <= MAX_INT_DIGITS,
            digits == buffer@.subrange(start as int, buffer@.len() as int),
            spec_parse_digits(digits, 0) == spec_parse_digits(
                buffer@.subrange(i as int, buffer@.len() as int),
                value,
            ),
        decreases buffer@.len() - i,
    {
        let b = buffer[i];
        let ghost tail = buffer@.subrange(i as int, buffer@.len() as int);
        if b < 48 || b > 57 {
            proof {
                assert(tail[0] == b);
                assert(spec_parse_digits(tail, value) == None::<i32>);
                assert(spec_parse_digits(digits, 0) == None::<i32>);
                if is_negative {
                    assert(digits =~= buffer@.subrange(1, buffer@.len() as int));
                } else {
                    assert(digits =~= buffer@);
                }
            }
            return None;
        }
        let d: i32 = (b - 48) as i32;
        proof {
            assert(tail[0] == b);
            assert(tail.drop_first() =~= buffer@.subrange(i as int + 1, buffer@.len() as int));
        }
        value = value.wrapping_mul(10).wrapping_sub(d);
        i += 1;
    }
    proof {
        assert(buffer@.subrange(i as int, buffer@.len() as int) =~= Seq::<u8>::empty());
        if !is_negative {
            assert(digits =~= buffer@);
        }
    }
    if is_negative {
        Some(value)
    } else {
        Some(0i32.wrapping_sub(value))
    }
}

} // verus!
