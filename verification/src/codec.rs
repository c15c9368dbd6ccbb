use vstd::prelude::*;
use vstd::arithmetic::power::pow;

verus! {

/// Why bytes could not be read back into a value.
#[derive(PartialEq, Eq, Structural, Clone, Copy, Debug)]
pub enum DecodeError {
    /// The input ended before the value did.
    InputTooShort,
    /// Bytes were left over after the value.
    InputTooLong,
    /// A discriminant or flag byte has no meaning.
    InvalidValue,
    /// A number does not fit in its type.
    ValueTooLarge,
}

// ------------------------------------------------------------------ fixed-width numbers

/// The 8 bytes of `v`, most significant first.
pub open spec fn u64_bytes(v: u64) -> Seq<u8> {
    seq![
        (v >> 56u64) as u8,
        (v >> 48u64) as u8,
        (v >> 40u64) as u8,
        (v >> 32u64) as u8,
        (v >> 24u64) as u8,
        (v >> 16u64) as u8,
        (v >> 8u64) as u8,
        v as u8,
    ]
}

/// The number whose 8 bytes, most significant first, are `b[0..8]`.
pub open spec fn u64_of(b0: u8, b1: u8, b2: u8, b3: u8, b4: u8, b5: u8, b6: u8, b7: u8) -> u64 {
    ((b0 as u64) << 56u64) | ((b1 as u64) << 48u64) | ((b2 as u64) << 40u64) | ((b3 as u64) << 32u64) | ((
    b4 as u64) << 24u64) | ((b5 as u64) << 16u64) | ((b6 as u64) << 8u64) | (b7 as u64)
}

/// The 4 bytes of `v`, most significant first.
pub open spec fn u32_bytes(v: u32) -> Seq<u8> {
    seq![(v >> 24u32) as u8, (v >> 16u32) as u8, (v >> 8u32) as u8, v as u8]
}

pub open spec fn u32_of(b0: u8, b1: u8, b2: u8, b3: u8) -> u32 {
    ((b0 as u32) << 24u32) | ((b1 as u32) << 16u32) | ((b2 as u32) << 8u32) | (b3 as u32)
}

pub proof fn lemma_u64_bytes_roundtrip(v: u64)
    ensures
        u64_of(
            u64_bytes(v)[0],
            u64_bytes(v)[1],
            u64_bytes(v)[2],
            u64_bytes(v)[3],
            u64_bytes(v)[4],
            u64_bytes(v)[5],
            u64_bytes(v)[6],
            u64_bytes(v)[7],
        ) == v,
{
    let b = u64_bytes(v);
    assert((((v >> 56u64) as u8 as u64) << 56u64) | (((v >> 48u64) as u8 as u64) << 48u64) | (((v >> 40u64) as u8 as u64)
        << 40u64) | (((v >> 32u64) as u8 as u64) << 32u64) | (((v >> 24u64) as u8 as u64) << 24u64) | (((v
        >> 16u64) as u8 as u64) << 16u64) | (((v >> 8u64) as u8 as u64) << 8u64) | (v as u8 as u64) == v)
        by (bit_vector);
}

pub proof fn lemma_u64_of_roundtrip(b0: u8, b1: u8, b2: u8, b3: u8, b4: u8, b5: u8, b6: u8, b7: u8)
    ensures
        u64_bytes(u64_of(b0, b1, b2, b3, b4, b5, b6, b7)) == seq![b0, b1, b2, b3, b4, b5, b6, b7],
{
    let x = u64_of(b0, b1, b2, b3, b4, b5, b6, b7);
    assert((x >> 56u64) as u8 == b0 && (x >> 48u64) as u8 == b1 && (x >> 40u64) as u8 == b2 && (x >> 32u64) as u8
        == b3 && (x >> 24u64) as u8 == b4 && (x >> 16u64) as u8 == b5 && (x >> 8u64) as u8 == b6 && x as u8 == b7)
        by (bit_vector)
        requires
            x == ((b0 as u64) << 56u64) | ((b1 as u64) << 48u64) | ((b2 as u64) << 40u64) | ((b3 as u64) << 32u64)
                | ((b4 as u64) << 24u64) | ((b5 as u64) << 16u64) | ((b6 as u64) << 8u64) | (b7 as u64),
    ;
    assert(u64_bytes(x) =~= seq![b0, b1, b2, b3, b4, b5, b6, b7]);
}

pub proof fn lemma_u32_bytes_roundtrip(v: u32)
    ensures
        u32_of(u32_bytes(v)[0], u32_bytes(v)[1], u32_bytes(v)[2], u32_bytes(v)[3]) == v,
{
    assert((((v >> 24u32) as u8 as u32) << 24u32) | (((v >> 16u32) as u8 as u32) << 16u32) | (((v >> 8u32) as u8 as u32)
        << 8u32) | (v as u8 as u32) == v) by (bit_vector);
}

/// Appends the 8 bytes of `v`, most significant first.
pub fn push_u64(out: &mut Vec<u8>, v: u64)
    ensures
        final(out)@ == old(out)@ + u64_bytes(v),
{
    out.push((v >> 56u64) as u8);
    out.push((v >> 48u64) as u8);
    out.push((v >> 40u64) as u8);
    out.push((v >> 32u64) as u8);
    out.push((v >> 24u64) as u8);
    out.push((v >> 16u64) as u8);
    out.push((v >> 8u64) as u8);
    out.push(v as u8);
    assert(final(out)@ =~= old(out)@ + u64_bytes(v));
}

/// Appends the 4 bytes of `v`, most significant first.
pub fn push_u32(out: &mut Vec<u8>, v: u32)
    ensures
        final(out)@ == old(out)@ + u32_bytes(v),
{
    out.push((v >> 24u32) as u8);
    out.push((v >> 16u32) as u8);
    out.push((v >> 8u32) as u8);
    out.push(v as u8);
    assert(final(out)@ =~= old(out)@ + u32_bytes(v));
}

/// Reads 8 bytes at `pos` as a number, most significant first; returns it and the position after.
pub fn read_u64(input: &Vec<u8>, pos: usize) -> (r: Result<(u64, usize), DecodeError>)
    ensures
        pos + 8 > input@.len() ==> r == Err::<(u64, usize), DecodeError>(DecodeError::InputTooShort),
        pos + 8 <= input@.len() ==> r == Ok::<(u64, usize), DecodeError>(
            (
                u64_of(
                    input@[pos as int],
                    input@[pos + 1],
                    input@[pos + 2],
                    input@[pos + 3],
                    input@[pos + 4],
                    input@[pos + 5],
                    input@[pos + 6],
                    input@[pos + 7],
                ),
                (pos + 8) as usize,
            ),
        ),
{
    if input.len() < 8 || pos > input.len() - 8 {
        return Err(DecodeError::InputTooShort);
    }
    let v = ((input[pos] as u64) << 56u64) | ((input[pos + 1] as u64) << 48u64) | ((input[pos + 2] as u64) << 40u64) | ((
    input[pos + 3] as u64) << 32u64) | ((input[pos + 4] as u64) << 24u64) | ((input[pos + 5] as u64) << 16u64) | ((
    input[pos + 6] as u64) << 8u64) | (input[pos + 7] as u64);
    Ok((v, pos + 8))
}

/// Reads 4 bytes at `pos` as a number, most significant first; returns it and the position after.
pub fn read_u32(input: &Vec<u8>, pos: usize) -> (r: Result<(u32, usize), DecodeError>)
    ensures
        pos + 4 > input@.len() ==> r == Err::<(u32, usize), DecodeError>(DecodeError::InputTooShort),
        pos + 4 <= input@.len() ==> r == Ok::<(u32, usize), DecodeError>(
            (u32_of(input@[pos as int], input@[pos + 1], input@[pos + 2], input@[pos + 3]), (pos + 4) as usize),
        ),
{
    if input.len() < 4 || pos > input.len() - 4 {
        return Err(DecodeError::InputTooShort);
    }
    let v = ((input[pos] as u32) << 24u32) | ((input[pos + 1] as u32) << 16u32) | ((input[pos + 2] as u32) << 8u32) | (
    input[pos + 3] as u32);
    Ok((v, pos + 4))
}

/// Reads one byte at `pos`; returns it and the position after.
pub fn read_byte(input: &Vec<u8>, pos: usize) -> (r: Result<(u8, usize), DecodeError>)
    ensures
        pos >= input@.len() ==> r == Err::<(u8, usize), DecodeError>(DecodeError::InputTooShort),
        pos < input@.len() ==> r == Ok::<(u8, usize), DecodeError>((input@[pos as int], (pos + 1) as usize)),
{
    if pos >= input.len() {
        return Err(DecodeError::InputTooShort);
    }
    Ok((input[pos], pos + 1))
}

// ------------------------------------------------------------------ flags

/// A flag is one byte, 1 for true and 0 for false.
pub open spec fn bool_bytes(b: bool) -> Seq<u8> {
    seq![if b { 1u8 } else { 0u8 }]
}

pub fn push_bool(out: &mut Vec<u8>, b: bool)
    ensures
        final(out)@ == old(out)@ + bool_bytes(b),
{
    out.push(if b { 1u8 } else { 0u8 });
    assert(final(out)@ =~= old(out)@ + bool_bytes(b));
}

/// Reads a flag at `pos`: byte 0 or 1, anything else is invalid.
pub fn read_bool(input: &Vec<u8>, pos: usize) -> (r: Result<(bool, usize), DecodeError>)
    ensures
        pos >= input@.len() ==> r == Err::<(bool, usize), DecodeError>(DecodeError::InputTooShort),
        pos < input@.len() && input@[pos as int] == 0 ==> r == Ok::<(bool, usize), DecodeError>((false, (pos + 1) as usize)),
        pos < input@.len() && input@[pos as int] == 1 ==> r == Ok::<(bool, usize), DecodeError>((true, (pos + 1) as usize)),
        pos < input@.len() && input@[pos as int] > 1 ==> r == Err::<(bool, usize), DecodeError>(DecodeError::InvalidValue),
{
    let (b, p) = read_byte(input, pos)?;
    if b == 0 {
        Ok((false, p))
    } else if b == 1 {
        Ok((true, p))
    } else {
        Err(DecodeError::InvalidValue)
    }
}

// ------------------------------------------------------------------ arbitrary-size numbers

/// The number whose bytes, most significant first, are `s`.
pub open spec fn be_value(s: Seq<u8>) -> nat
    decreases s.len(),
{
    if s.len() == 0 {
        0
    } else {
        be_value(s.drop_last()) * 256 + (s.last() as nat)
    }
}

/// The shortest bytes of `v`, most significant first; none for zero.
pub open spec fn min_be(v: nat) -> Seq<u8>
    decreases v,
{
    if v == 0 {
        Seq::empty()
    } else {
        min_be(v / 256).push((v % 256) as u8)
    }
}

/// A big number: its byte count on 4 bytes, then its shortest bytes.
pub open spec fn biguint_bytes(v: u128) -> Seq<u8> {
    u32_bytes(min_be(v as nat).len() as u32) + min_be(v as nat)
}

pub proof fn lemma_min_be(v: nat)
    ensures
        be_value(min_be(v)) == v,
        min_be(v).len() == 0 <==> v == 0,
        min_be(v).len() > 0 ==> min_be(v)[0] != 0,
        v < pow(256, 16) ==> min_be(v).len() <= 16,
    decreases v,
{
    if v > 0 {
        lemma_min_be(v / 256);
        let s = min_be(v);
        assert(s.drop_last() =~= min_be(v / 256));
        if v / 256 == 0 {
            assert(s.len() == 1);
            assert(s[0] == (v % 256) as u8);
        } else {
            assert(s[0] == min_be(v / 256)[0]);
        }
        if v < pow(256, 16) {
            lemma_len_bound(v, 16);
        }
    }
}

/// A positive number below `256^k` has at most `k` shortest bytes.
proof fn lemma_len_bound(v: nat, k: nat)
    requires
        v < pow(256, k),
    ensures
        min_be(v).len() <= k,
    decreases v,
{
    if v > 0 {
        vstd::arithmetic::power::lemma_pow_positive(256, k);
        if k == 0 {
            vstd::arithmetic::power::lemma_pow0(256);
        } else {
            vstd::arithmetic::power::lemma_pow_adds(256, 1, (k - 1) as nat);
            vstd::arithmetic::power::lemma_pow1(256);
            let p = pow(256, (k - 1) as nat);
            assert(v / 256 < p) by (nonlinear_arith)
                requires
                    v < 256 * p,
                    0 < p,
            ;
            lemma_len_bound(v / 256, (k - 1) as nat);
        }
    }
}

/// A number of `n` bytes is below `256^n`.
pub proof fn lemma_be_value_bound(s: Seq<u8>)
    ensures
        be_value(s) < pow(256, s.len()),
    decreases s.len(),
{
    if s.len() == 0 {
        vstd::arithmetic::power::lemma_pow0(256);
    } else {
        lemma_be_value_bound(s.drop_last());
        let n = (s.len() - 1) as nat;
        vstd::arithmetic::power::lemma_pow_adds(256, 1, n);
        vstd::arithmetic::power::lemma_pow1(256);
        let p = pow(256, n);
        let x = be_value(s.drop_last());
        let d = s.last() as int;
        assert(x * 256 + d < 256 * p) by (nonlinear_arith)
            requires
                x < p,
                0 <= d < 256,
        ;
    }
}

pub proof fn lemma_pow_256_16()
    ensures
        pow(256, 16) == 0x1_0000_0000_0000_0000_0000_0000_0000_0000,
{
    reveal_with_fuel(pow, 17);
    assert(pow(256, 16) == 0x1_0000_0000_0000_0000_0000_0000_0000_0000);
}

fn min_be_exec(v: u128) -> (r: Vec<u8>)
    ensures
        r@ == min_be(v as nat),
    decreases v,
{
    if v == 0 {
        Vec::new()
    } else {
        let mut r = min_be_exec(v / 256);
        r.push((v % 256) as u8);
        r
    }
}

/// The 4 bytes at `pos`, read as a number, most significant first.
pub open spec fn u32_of_at(s: Seq<u8>, pos: int) -> u32 {
    u32_of(s[pos], s[pos + 1], s[pos + 2], s[pos + 3])
}

/// The big number at `pos` of `s` and the position after it, when the bytes there hold one:
/// a byte count of at most 16 on 4 bytes, then that many bytes, most significant first.
pub open spec fn biguint_at(s: Seq<u8>, pos: int) -> Option<(u128, int)> {
    if 0 <= pos && pos + 4 <= s.len() && u32_of_at(s, pos) <= 16 && pos + 4 + u32_of_at(s, pos) <= s.len() {
        let e = pos + 4 + u32_of_at(s, pos);
        Some((be_value(s.subrange(pos + 4, e)) as u128, e))
    } else {
        None
    }
}

/// Appends `v` as a big number: its byte count on 4 bytes, then its shortest bytes.
pub fn push_biguint(out: &mut Vec<u8>, v: u128)
    ensures
        final(out)@ == old(out)@ + biguint_bytes(v),
{
    let bytes = min_be_exec(v);
    proof {
        lemma_min_be(v as nat);
        lemma_pow_256_16();
    }
    push_u32(out, bytes.len() as u32);
    let ghost mid = out@;
    let mut i: usize = 0;
    while i < bytes.len()
        invariant
            i <= bytes@.len(),
            out@ == mid + bytes@.take(i as int),
        decreases bytes@.len() - i,
    {
        out.push(bytes[i]);
        i = i + 1;
        assert(out@ =~= mid + bytes@.take(i as int));
    }
    assert(bytes@.take(bytes@.len() as int) =~= bytes@);
    assert(final(out)@ =~= old(out)@ + biguint_bytes(v));
}

/// Reads a big number at `pos`: a byte count on 4 bytes, then that many bytes, most
/// significant first. Numbers of more than 16 bytes do not fit.
pub fn read_biguint(input: &Vec<u8>, pos: usize) -> (r: Result<(u128, usize), DecodeError>)
    ensures
        r matches Ok((v, p)) ==> {
            &&& pos + 4 <= input@.len()
            &&& u32_of(input@[pos as int], input@[pos + 1], input@[pos + 2], input@[pos + 3]) <= 16
            &&& p == pos + 4 + u32_of(input@[pos as int], input@[pos + 1], input@[pos + 2], input@[pos + 3])
            &&& p <= input@.len()
            &&& v == be_value(input@.subrange(pos + 4, p as int))
        },
        r is Err ==> {
            ||| pos + 4 > input@.len()
            ||| pos + 4 + u32_of(input@[pos as int], input@[pos + 1], input@[pos + 2], input@[pos + 3]) > input@.len()
            ||| u32_of(input@[pos as int], input@[pos + 1], input@[pos + 2], input@[pos + 3]) > 16
        },
        pos + 4 <= input@.len() && pos + 4 + u32_of(input@[pos as int], input@[pos + 1], input@[pos + 2], input@[pos + 3])
            <= input@.len() && u32_of(input@[pos as int], input@[pos + 1], input@[pos + 2], input@[pos + 3]) <= 16
            ==> r is Ok,
        r is Ok <==> biguint_at(input@, pos as int) is Some,
        r matches Ok((v, p)) ==> biguint_at(input@, pos as int) == Some((v, p as int)),
{
    let (n, start) = read_u32(input, pos)?;
    if n > 16 {
        return Err(DecodeError::ValueTooLarge);
    }
    let n = n as usize;
    if start > input.len() || n > input.len() - start {
        return Err(DecodeError::InputTooShort);
    }
    let mut acc: u128 = 0;
    let mut i: usize = 0;
    let ghost s = input@.subrange(start as int, (start + n) as int);
    proof {
        assert(s.take(0) =~= Seq::<u8>::empty());
        lemma_pow_256_16();
    }
    while i < n
        invariant
            i <= n <= 16,
            start + n <= input@.len(),
            input@.len() <= usize::MAX,
            s == input@.subrange(start as int, (start + n) as int),
            acc == be_value(s.take(i as int)),
            pow(256, 16) == 0x1_0000_0000_0000_0000_0000_0000_0000_0000,
        decreases n - i,
    {
        proof {
            lemma_be_value_bound(s.take(i + 1));
            assert(s.take(i + 1).drop_last() =~= s.take(i as int));
            assert(s.take(i + 1).last() == input@[start + i]);
            vstd::arithmetic::power::lemma_pow_increases(256, (i + 1) as nat, 16);
        }
        assert(start + i < input@.len());
        acc = acc * 256 + input[start + i] as u128;
        i = i + 1;
    }
    proof {
        assert(s.take(n as int) =~= s);
    }
    Ok((acc, start + n))
}

} // verus!
