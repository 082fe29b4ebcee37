//! Little-endian integers and variable-length counts on byte sequences.
//!
//! A count is written in one to nine bytes. The position of the lowest set bit of the first byte
//! says how many: with the bit at position `k`, the `k + 1` bytes, read as a little-endian
//! integer, hold the count above that bit. A first byte of zero announces eight raw bytes.

use vstd::prelude::*;

use crate::error::{DeserializationError, InvalidValue};

verus! {

// MODEL
// ================================================================================================

/// `256` to the power `k`.
pub open spec fn pow256(k: nat) -> nat
    decreases k,
{
    if k == 0 {
        1
    } else {
        256 * pow256((k - 1) as nat)
    }
}

/// The value of a little-endian byte sequence.
pub open spec fn le_value(s: Seq<u8>) -> nat
    decreases s.len(),
{
    if s.len() == 0 {
        0
    } else {
        s[0] as nat + 256 * le_value(s.skip(1))
    }
}

/// The `k` low bytes of `n`, lowest first.
pub open spec fn le_bytes(n: nat, k: nat) -> Seq<u8>
    decreases k,
{
    if k == 0 {
        Seq::empty()
    } else {
        seq![(n % 256) as u8] + le_bytes(n / 256, (k - 1) as nat)
    }
}

/// The sequence `piece` stands in `bytes` at offset `at`.
pub open spec fn holds_at(bytes: Seq<u8>, at: int, piece: Seq<u8>) -> bool {
    &&& 0 <= at
    &&& at + piece.len() <= bytes.len()
    &&& bytes.subrange(at, at + piece.len()) == piece
}

/// How many bytes a count occupies, told by its first byte.
pub open spec fn count_len(first: u8) -> nat {
    if first % 2 == 1 { 1 }
    else if first % 4 == 2 { 2 }
    else if first % 8 == 4 { 3 }
    else if first % 16 == 8 { 4 }
    else if first % 32 == 16 { 5 }
    else if first % 64 == 32 { 6 }
    else if first % 128 == 64 { 7 }
    else if first == 128 { 8 }
    else { 9 }
}

/// The fewest bytes in which the count `value` can be written.
pub open spec fn encoded_len(value: nat) -> nat {
    if value < 0x80 { 1 }
    else if value < 0x4000 { 2 }
    else if value < 0x20_0000 { 3 }
    else if value < 0x1000_0000 { 4 }
    else if value < 0x8_0000_0000 { 5 }
    else if value < 0x400_0000_0000 { 6 }
    else if value < 0x2_0000_0000_0000 { 7 }
    else if value < 0x100_0000_0000_0000 { 8 }
    else { 9 }
}

/// `2` to the power `k`, for the shifts of a count.
pub open spec fn pow2_of(k: nat) -> nat
    decreases k,
{
    if k == 0 {
        1
    } else {
        2 * pow2_of((k - 1) as nat)
    }
}

/// The bytes of the count `value`.
pub open spec fn count_bytes(value: nat) -> Seq<u8> {
    let len = encoded_len(value);
    if len == 9 {
        seq![0u8] + le_bytes(value, 8)
    } else {
        le_bytes((2 * value + 1) * pow2_of((len - 1) as nat), len)
    }
}

/// The `len` bytes at offset `at`.
pub open spec fn slice_at(bytes: Seq<u8>, at: nat, len: nat) -> Result<
    Seq<u8>,
    DeserializationError,
> {
    if at + len > usize::MAX {
        Err(DeserializationError::InvalidValue(InvalidValue::OffsetOverflow))
    } else if at + len > bytes.len() {
        Err(DeserializationError::UnexpectedEOF)
    } else {
        Ok(bytes.subrange(at as int, (at + len) as int))
    }
}

/// The variable-length integer at offset `at`, and how many bytes it occupies.
pub open spec fn integer_at(bytes: Seq<u8>, at: nat) -> Result<(nat, nat), DeserializationError> {
    if at >= bytes.len() {
        Err(DeserializationError::UnexpectedEOF)
    } else {
        let len = count_len(bytes[at as int]);
        match slice_at(bytes, at, len) {
            Err(e) => Err(e),
            Ok(s) => Ok(
                (
                    if len == 9 {
                        le_value(s.skip(1))
                    } else {
                        le_value(s) / pow2_of(len)
                    },
                    len,
                ),
            ),
        }
    }
}

/// The count at offset `at`, and how many bytes it occupies. A count fits in `usize`.
pub open spec fn count_at(bytes: Seq<u8>, at: nat) -> Result<(nat, nat), DeserializationError> {
    match integer_at(bytes, at) {
        Err(e) => Err(e),
        Ok((value, len)) => if value > usize::MAX {
            Err(
                DeserializationError::InvalidValue(
                    InvalidValue::UsizeOutOfRange { value: value as u64 },
                ),
            )
        } else {
            Ok((value, len))
        },
    }
}

// LEMMAS
// ================================================================================================

pub proof fn lemma_pow256_values()
    ensures
        pow256(0) == 1,
        pow256(1) == 0x100,
        pow256(2) == 0x1_0000,
        pow256(3) == 0x100_0000,
        pow256(4) == 0x1_0000_0000,
        pow256(5) == 0x100_0000_0000,
        pow256(6) == 0x1_0000_0000_0000,
        pow256(7) == 0x100_0000_0000_0000,
        pow256(8) == 0x1_0000_0000_0000_0000,
{
    reveal_with_fuel(pow256, 10);
}

pub proof fn lemma_pow2_values()
    ensures
        pow2_of(0) == 1,
        pow2_of(1) == 2,
        pow2_of(2) == 4,
        pow2_of(3) == 8,
        pow2_of(4) == 16,
        pow2_of(5) == 32,
        pow2_of(6) == 64,
        pow2_of(7) == 128,
        pow2_of(8) == 256,
{
    reveal_with_fuel(pow2_of, 10);
}

pub proof fn lemma_le_value_bound(s: Seq<u8>)
    ensures
        le_value(s) < pow256(s.len()),
    decreases s.len(),
{
    if s.len() > 0 {
        lemma_le_value_bound(s.skip(1));
    }
}

pub proof fn lemma_le_bytes_len(n: nat, k: nat)
    ensures
        le_bytes(n, k).len() == k,
    decreases k,
{
    if k > 0 {
        lemma_le_bytes_len(n / 256, (k - 1) as nat);
    }
}

/// Writing an integer in enough bytes and reading it gives it back.
pub proof fn law_le_round_trip(n: nat, k: nat)
    requires
        n < pow256(k),
    ensures
        le_value(le_bytes(n, k)) == n,
    decreases k,
{
    lemma_le_bytes_len(n, k);
    if k > 0 {
        law_le_round_trip(n / 256, (k - 1) as nat);
        assert(le_bytes(n, k).skip(1) =~= le_bytes(n / 256, (k - 1) as nat));
    }
}

/// Reading a byte sequence and writing the integer gives the bytes back.
pub proof fn lemma_le_value_bytes(s: Seq<u8>)
    ensures
        le_bytes(le_value(s), s.len()) == s,
    decreases s.len(),
{
    if s.len() > 0 {
        lemma_le_value_bytes(s.skip(1));
        let v = le_value(s);
        assert(v / 256 == le_value(s.skip(1)) && v % 256 == s[0]);
        assert(s =~= seq![s[0]] + s.skip(1));
    }
}

pub proof fn lemma_count_bytes_len(value: nat)
    ensures
        count_bytes(value).len() == encoded_len(value),
        1 <= encoded_len(value) <= 9,
{
    let len = encoded_len(value);
    if len == 9 {
        lemma_le_bytes_len(value, 8);
    } else {
        lemma_le_bytes_len((2 * value + 1) * pow2_of((len - 1) as nat), len);
    }
}

/// An odd multiple of `c` leaves `c` when it is divided by `2 * c`, also behind its low byte.
proof fn lemma_residue(v: nat, c: nat, k: nat)
    requires
        c > 0,
        k > 0,
        (2 * c) * k == 256,
    ensures
        (((2 * v + 1) * c) % 256) % (2 * c) == c,
{
    let e = (2 * v + 1) * c;
    assert(e == v * (2 * c) + c) by (nonlinear_arith)
        requires
            e == (2 * v + 1) * c,
    ;
    vstd::arithmetic::div_mod::lemma_fundamental_div_mod_converse(
        e as int,
        (2 * c) as int,
        v as int,
        c as int,
    );
    vstd::arithmetic::div_mod::lemma_mod_mod(e as int, (2 * c) as int, k as int);
}

/// The first byte of a count tells its length.
proof fn lemma_count_head(value: nat)
    requires
        encoded_len(value) != 9,
    ensures
        ({
            let len = encoded_len(value);
            let e = (2 * value + 1) * pow2_of((len - 1) as nat);
            e < pow256(len) && count_len((e % 256) as u8) == len
        }),
{
    lemma_pow256_values();
    lemma_pow2_values();
    let len = encoded_len(value);
    let p = pow2_of((len - 1) as nat);
    let x = (((2 * value + 1) * p) % 256) as u8;
    if len == 1 {
        lemma_residue(value, 1, 128);
        assert(p == 1);
    } else if len == 2 {
        lemma_residue(value, 2, 64);
        assert(p == 2);
        assert(x % 2 == 0) by (bit_vector)
            requires
                x % 4 == 2,
        ;
    } else if len == 3 {
        lemma_residue(value, 4, 32);
        assert(p == 4);
        assert(x % 2 == 0 && x % 4 == 0) by (bit_vector)
            requires
                x % 8 == 4,
        ;
    } else if len == 4 {
        lemma_residue(value, 8, 16);
        assert(p == 8);
        assert(x % 2 == 0 && x % 4 == 0 && x % 8 == 0) by (bit_vector)
            requires
                x % 16 == 8,
        ;
    } else if len == 5 {
        lemma_residue(value, 16, 8);
        assert(p == 16);
        assert(x % 2 == 0 && x % 4 == 0 && x % 8 == 0 && x % 16 == 0) by (bit_vector)
            requires
                x % 32 == 16,
        ;
    } else if len == 6 {
        lemma_residue(value, 32, 4);
        assert(p == 32);
        assert(x % 2 == 0 && x % 4 == 0 && x % 8 == 0 && x % 16 == 0 && x % 32 == 0) by (bit_vector)
            requires
                x % 64 == 32,
        ;
    } else if len == 7 {
        lemma_residue(value, 64, 2);
        assert(p == 64);
        assert(x % 2 == 0 && x % 4 == 0 && x % 8 == 0 && x % 16 == 0 && x % 32 == 0 && x % 64 == 0) by (bit_vector)
            requires
                x % 128 == 64,
        ;
    } else if len == 8 {
        lemma_residue(value, 128, 1);
        assert(p == 128);
    }
}

/// The integer that was written at an offset is the integer that is read there; if it fits in
/// `usize`, it is read as a count too.
pub proof fn law_count_round_trip(bytes: Seq<u8>, at: nat, value: nat)
    requires
        value <= u64::MAX,
        bytes.len() <= usize::MAX,
        holds_at(bytes, at as int, count_bytes(value)),
    ensures
        integer_at(bytes, at) == Ok::<(nat, nat), DeserializationError>(
            (value, encoded_len(value)),
        ),
        value <= usize::MAX ==> count_at(bytes, at) == Ok::<(nat, nat), DeserializationError>(
            (value, encoded_len(value)),
        ),
{
    let len = encoded_len(value);
    let enc = count_bytes(value);
    lemma_count_bytes_len(value);
    lemma_pow256_values();
    lemma_pow2_values();
    let s = bytes.subrange(at as int, (at + len) as int);
    assert(s == enc);
    assert(bytes[at as int] == s[0]);
    if len == 9 {
        assert(s[0] == 0);
        assert(s.skip(1) =~= le_bytes(value, 8));
        law_le_round_trip(value, 8);
    } else {
        let p = pow2_of((len - 1) as nat);
        let e = (2 * value + 1) * p;
        lemma_count_head(value);
        law_le_round_trip(e, len);
        assert(s[0] as nat == e % 256);
        assert(pow2_of(len) == 2 * p);
        assert(count_len(s[0]) == len);
        assert(e / (2 * p) == value) by (nonlinear_arith)
            requires
                e == (2 * value + 1) * p,
                p > 0,
        {
            assert(e == value * (2 * p) + p);
            vstd::arithmetic::div_mod::lemma_fundamental_div_mod_converse(
                e as int,
                (2 * p) as int,
                value as int,
                p as int,
            );
        }
    }
}

/// A count that was cut off is refused, wherever it stands: at an offset from which on there are
/// only the first `k` of its bytes.
pub proof fn law_truncated_count_refused(bytes: Seq<u8>, at: nat, value: nat, k: nat)
    requires
        value <= u64::MAX,
        k < encoded_len(value),
        bytes.len() == at + k,
        bytes.skip(at as int) == count_bytes(value).take(k as int),
        at + encoded_len(value) <= usize::MAX,
    ensures
        integer_at(bytes, at) == Err::<(nat, nat), DeserializationError>(
            DeserializationError::UnexpectedEOF,
        ),
        count_at(bytes, at) == Err::<(nat, nat), DeserializationError>(
            DeserializationError::UnexpectedEOF,
        ),
{
    let all = count_bytes(value);
    let len = encoded_len(value);
    lemma_count_bytes_len(value);
    if k > 0 {
        assert(bytes[at as int] == bytes.skip(at as int)[0]);
        assert(bytes[at as int] == all[0]);
        if len == 9 {
            assert(all[0] == 0);
        } else {
            lemma_count_head(value);
            let e = (2 * value + 1) * pow2_of((len - 1) as nat);
            assert(all[0] == (e % 256) as u8);
        }
        assert(count_len(bytes[at as int]) == len);
    }
}

/// A count that was written at an offset is read there; with fewer bytes left it is refused.
pub proof fn law_count_is_read_or_cut_off(bytes: Seq<u8>, at: nat, value: usize, k: nat)
    requires
        bytes.len() <= usize::MAX,
        k <= encoded_len(value as nat),
        holds_at(bytes, at as int, count_bytes(value as nat).take(k as int)),
        k < encoded_len(value as nat) ==> bytes.len() == at + k,
        at + encoded_len(value as nat) <= usize::MAX,
    ensures
        count_at(bytes, at) == (if k == encoded_len(value as nat) {
            Ok::<(nat, nat), DeserializationError>((value as nat, count_bytes(value as nat).len()))
        } else {
            Err(DeserializationError::UnexpectedEOF)
        }),
{
    let all = count_bytes(value as nat);
    lemma_count_bytes_len(value as nat);
    if k == encoded_len(value as nat) {
        assert(all.take(k as int) =~= all);
        law_count_round_trip(bytes, at, value as nat);
    } else {
        assert(bytes.skip(at as int) =~= bytes.subrange(at as int, (at + k) as int));
        law_truncated_count_refused(bytes, at, value as nat, k);
    }
}

pub proof fn lemma_holds_at_split(bytes: Seq<u8>, at: int, a: Seq<u8>, b: Seq<u8>)
    requires
        holds_at(bytes, at, a + b),
    ensures
        holds_at(bytes, at, a),
        holds_at(bytes, at + a.len(), b),
{
    let s = bytes.subrange(at, at + (a + b).len());
    assert(bytes.subrange(at, at + a.len()) =~= s.subrange(0, a.len() as int));
    assert(s.subrange(0, a.len() as int) =~= a);
    assert(bytes.subrange(at + a.len(), at + a.len() + b.len()) =~= s.subrange(
        a.len() as int,
        (a + b).len() as int,
    ));
    assert(s.subrange(a.len() as int, (a + b).len() as int) =~= b);
}

// WRITERS
// ================================================================================================

/// Appends the `k` low bytes of `value`, lowest first.
pub fn write_le(out: &mut Vec<u8>, value: u64, k: usize)
    ensures
        final(out)@ == old(out)@ + le_bytes(value as nat, k as nat),
    decreases k,
{
    let ghost before = out@;
    if k > 0 {
        out.push((value % 256) as u8);
        let ghost mid = out@;
        write_le(out, value / 256, k - 1);
        assert(out@ =~= before + le_bytes(value as nat, k as nat));
    } else {
        assert(out@ =~= before + le_bytes(value as nat, k as nat));
    }
}

/// The fewest bytes in which the count `value` can be written.
pub fn usize_encoded_len(value: u64) -> (len: usize)
    ensures
        len == encoded_len(value as nat),
{
    if value < 0x80 { 1 }
    else if value < 0x4000 { 2 }
    else if value < 0x20_0000 { 3 }
    else if value < 0x1000_0000 { 4 }
    else if value < 0x8_0000_0000 { 5 }
    else if value < 0x400_0000_0000 { 6 }
    else if value < 0x2_0000_0000_0000 { 7 }
    else if value < 0x100_0000_0000_0000 { 8 }
    else { 9 }
}

/// Appends the count `value`.
pub fn write_count(out: &mut Vec<u8>, value: u64)
    ensures
        final(out)@ == old(out)@ + count_bytes(value as nat),
{
    let ghost before = out@;
    proof {
        lemma_pow2_values();
    }
    let len: usize = usize_encoded_len(value);
    if len == 9 {
        out.push(0);
        write_le(out, value, 8);
        assert(out@ =~= before + count_bytes(value as nat));
    } else {
        let shift: u64 = match len {
            1 => 1,
            2 => 2,
            3 => 4,
            4 => 8,
            5 => 16,
            6 => 32,
            7 => 64,
            _ => 128,
        };
        assert((2 * value + 1) * shift < 0x1_0000_0000_0000_0000) by (nonlinear_arith)
            requires
                (value < 0x80 && shift == 1) || (value < 0x4000 && shift == 2) || (value
                    < 0x20_0000 && shift == 4) || (value < 0x1000_0000 && shift == 8) || (value
                    < 0x8_0000_0000 && shift == 16) || (value < 0x400_0000_0000 && shift == 32) || (
                value < 0x2_0000_0000_0000 && shift == 64) || (value < 0x100_0000_0000_0000 && shift
                    == 128),
        ;
        write_le(out, (2 * value + 1) * shift, len);
    }
}

// READERS
// ================================================================================================

/// The integer that a little-endian slice of at most eight bytes holds.
pub fn le_integer(s: &[u8]) -> (value: u64)
    requires
        s.len() <= 8,
    ensures
        value == le_value(s@),
{
    let mut value: u64 = 0;
    let mut i: usize = s.len();
    proof {
        lemma_pow256_values();
    }
    assert(s@.skip(i as int).len() == 0);
    while i > 0
        invariant
            i <= s.len() <= 8,
            value == le_value(s@.skip(i as int)),
        decreases i,
    {
        i -= 1;
        proof {
            let t = s@.skip(i as int);
            assert(t.skip(1) =~= s@.skip(i + 1));
            lemma_le_value_bound(t);
            lemma_pow256_values();
            assert(t.len() == 1 || t.len() == 2 || t.len() == 3 || t.len() == 4 || t.len() == 5
                || t.len() == 6 || t.len() == 7 || t.len() == 8);
        }
        value = value * 256 + s[i] as u64;
    }
    assert(s@.skip(0) =~= s@);
    value
}

/// Reads `len` bytes and moves the offset behind them.
///
/// Refuses an offset that overflows, and a slice that ends behind the last byte; the offset then
/// stays.
pub fn read_slice_at<'a>(bytes: &'a [u8], offset: &mut usize, len: usize) -> (res: Result<
    &'a [u8],
    DeserializationError,
>)
    ensures
        match slice_at(bytes@, *old(offset) as nat, len as nat) {
            Ok(s) => res is Ok && res->Ok_0@ == s && *final(offset) == *old(offset) + len,
            Err(e) => res == Err::<&'a [u8], DeserializationError>(e) && *final(offset) == *old(
                offset,
            ),
        },
{
    let end: usize = match offset.checked_add(len) {
        Some(end) => end,
        None => {
            return Err(DeserializationError::InvalidValue(InvalidValue::OffsetOverflow));
        },
    };
    if end > bytes.len() {
        return Err(DeserializationError::UnexpectedEOF);
    }
    let slice = vstd::slice::slice_subrange(bytes, *offset, end);
    *offset = end;
    Ok(slice)
}

/// Reads one byte and moves the offset behind it.
pub fn read_u8_at(bytes: &[u8], offset: &mut usize) -> (res: Result<u8, DeserializationError>)
    ensures
        match slice_at(bytes@, *old(offset) as nat, 1) {
            Ok(s) => res == Ok::<u8, DeserializationError>(s[0]) && *final(offset) == *old(offset)
                + 1,
            Err(e) => res == Err::<u8, DeserializationError>(e) && *final(offset) == *old(offset),
        },
{
    match read_slice_at(bytes, offset, 1) {
        Ok(s) => Ok(s[0]),
        Err(e) => Err(e),
    }
}

/// Reads `N` bytes into an array and moves the offset behind them.
pub fn read_array_at<const N: usize>(bytes: &[u8], offset: &mut usize) -> (res: Result<
    [u8; N],
    DeserializationError,
>)
    ensures
        match slice_at(bytes@, *old(offset) as nat, N as nat) {
            Ok(s) => res is Ok && res->Ok_0@ == s && *final(offset) == *old(offset) + N,
            Err(e) => res == Err::<[u8; N], DeserializationError>(e) && *final(offset) == *old(
                offset,
            ),
        },
{
    match read_slice_at(bytes, offset, N) {
        Err(e) => Err(e),
        Ok(s) => {
            let mut result = [0u8; N];
            let mut i: usize = 0;
            while i < N
                invariant
                    i <= N,
                    s@.len() == N,
                    forall|j: int| 0 <= j < i ==> result@[j] == s@[j],
                decreases N - i,
            {
                result[i] = s[i];
                i += 1;
            }
            assert(result@ =~= s@);
            Ok(result)
        },
    }
}

/// Where reading an integer that is cut short leaves the offset: in the longest form, behind the
/// first byte, which tells the form; else before it.
pub open spec fn cut_short_at(bytes: Seq<u8>, at: nat) -> nat {
    if at < bytes.len() && count_len(bytes[at as int]) == 9 {
        at + 1
    } else {
        at
    }
}

/// Reads a variable-length integer and moves the offset behind it.
pub fn read_integer_at(bytes: &[u8], offset: &mut usize) -> (res: Result<
    u64,
    DeserializationError,
>)
    ensures
        match integer_at(bytes@, *old(offset) as nat) {
            Ok((value, len)) => res == Ok::<u64, DeserializationError>(value as u64) && value
                <= u64::MAX && *final(offset) == *old(offset) + len && *final(offset)
                <= bytes.len(),
            Err(e) => res == Err::<u64, DeserializationError>(e) && *final(offset) == cut_short_at(
                bytes@,
                *old(offset) as nat,
            ),
        },
{
    if *offset >= bytes.len() {
        return Err(DeserializationError::UnexpectedEOF);
    }
    let first: u8 = bytes[*offset];
    let length: usize = if first % 2 == 1 { 1 }
        else if first % 4 == 2 { 2 }
        else if first % 8 == 4 { 3 }
        else if first % 16 == 8 { 4 }
        else if first % 32 == 16 { 5 }
        else if first % 64 == 32 { 6 }
        else if first % 128 == 64 { 7 }
        else if first == 128 { 8 }
        else { 9 };
    proof {
        lemma_pow2_values();
    }
    if length == 9 {
        let ghost at = *offset as nat;
        *offset = *offset + 1;
        let tail = match read_slice_at(bytes, offset, 8) {
            Ok(tail) => tail,
            Err(e) => {
                return Err(e);
            },
        };
        assert(tail@ =~= slice_at(bytes@, at, 9)->Ok_0.skip(1));
        Ok(le_integer(tail))
    } else {
        let s = match read_slice_at(bytes, offset, length) {
            Ok(s) => s,
            Err(e) => {
                return Err(e);
            },
        };
        let encoded: u64 = le_integer(s);
        let value: u64 = match length {
            1 => encoded / 2,
            2 => encoded / 4,
            3 => encoded / 8,
            4 => encoded / 16,
            5 => encoded / 32,
            6 => encoded / 64,
            7 => encoded / 128,
            _ => encoded / 256,
        };
        Ok(value)
    }
}

/// Reads a count and moves the offset behind it.
///
/// Refuses an integer that does not fit in `usize`; the offset is then behind it.
pub fn read_usize_at(bytes: &[u8], offset: &mut usize) -> (res: Result<
    usize,
    DeserializationError,
>)
    ensures
        match count_at(bytes@, *old(offset) as nat) {
            Ok((value, len)) => res == Ok::<usize, DeserializationError>(value as usize) && value
                <= usize::MAX && *final(offset) == *old(offset) + len && *final(offset)
                <= bytes.len(),
            Err(e) => res == Err::<usize, DeserializationError>(e) && *final(offset)
                == match integer_at(bytes@, *old(offset) as nat) {
                Ok((_, len)) => *old(offset) + len,
                Err(_) => cut_short_at(bytes@, *old(offset) as nat) as int,
            },
        },
{
    let value: u64 = match read_integer_at(bytes, offset) {
        Ok(value) => value,
        Err(e) => {
            return Err(e);
        },
    };
    if value > usize::MAX as u64 {
        return Err(DeserializationError::InvalidValue(InvalidValue::UsizeOutOfRange { value }));
    }
    Ok(value as usize)
}

} // verus!
