//! The variable-length integer of the file format.
//!
//! A signed 64-bit integer is stored as 1 to 9 big-endian bytes.  In each of
//! the first 8 bytes the high bit signals continuation and the low 7 bits
//! contribute to the value; a 9th byte, reached only when the first 8 all had
//! the high bit set, contributes all 8 of its bits.  The decoded bit string
//! is read as a two's complement 64-bit value.

use crate::error::DbError;
use vstd::arithmetic::div_mod::*;
use vstd::arithmetic::mul::*;
use vstd::arithmetic::power2::*;
use vstd::prelude::*;

verus! {

/// A decoded variable-length integer.
#[derive(Debug, PartialEq, Eq, Structural)]
pub struct VarInt(pub i64);

/// Does this byte signal that the encoding continues in the next byte?
pub open spec fn spec_high_bit(byte: u8) -> bool {
    byte >= 128
}

/// The two's complement reading of a raw 64-bit quantity.
pub open spec fn i64_from_bits(n: int) -> i64 {
    if n >= 0x8000000000000000 {
        (n - 0x10000000000000000) as i64
    } else {
        n as i64
    }
}

/// The raw 64-bit quantity that stands for an `i64`.
pub open spec fn u64_of_i64(v: i64) -> int {
    if v < 0 {
        v + 0x10000000000000000
    } else {
        v as int
    }
}

/// Continuation of a varint decode: `acc` holds the bits of the `cnt` bytes
/// already read.  Yields the raw accumulated value and the total number of
/// bytes consumed, or `None` when the input ends before the encoding does.
pub open spec fn varint_raw(s: Seq<u8>, pos: int, acc: int, cnt: nat) -> Option<(int, int)>
    decreases 8 - cnt,
{
    if pos < 0 || pos >= s.len() {
        None
    } else if cnt >= 8 {
        Some((acc * 256 + s[pos], 9))
    } else if s[pos] < 128 {
        Some((acc * 128 + s[pos], cnt + 1 as int))
    } else {
        varint_raw(s, pos + 1, acc * 128 + (s[pos] - 128), cnt + 1)
    }
}

/// Decoding a varint at `pos`: the value and the count of consumed bytes,
/// or `None` when the input is exhausted first.
pub open spec fn spec_varint(s: Seq<u8>, pos: int) -> Option<(i64, int)> {
    match varint_raw(s, pos, 0, 0) {
        Some((raw, k)) => Some((i64_from_bits(raw), k)),
        None => None,
    }
}

impl VarInt {
    /// Decode the varint that starts at `input[pos]`.  Returns the value and
    /// the number of bytes consumed (1 to 9), or an error when the input
    /// ends inside the encoding.
    pub fn parse(input: &[u8], pos: usize) -> (r: Result<(VarInt, usize), DbError>)
        ensures
            match r {
                Ok((v, n)) => {
                    &&& spec_varint(input@, pos as int) == Some((v.0, n as int))
                    &&& 1 <= n <= 9
                    &&& pos + n <= input@.len()
                },
                Err(e) => {
                    &&& spec_varint(input@, pos as int) is None
                    &&& e == DbError::MalformedRecord
                },
            },
    {
        proof {
            lemma2_to64();
            lemma2_to64_rest();
        }
        let ghost s = input@;
        let mut idx = pos;
        let mut cnt: usize = 0;
        let mut acc: u64 = 0;
        loop
            invariant
                idx == pos + cnt,
                cnt <= 8,
                pos + cnt <= usize::MAX,
                acc < pow2((7 * cnt) as nat),
                varint_raw(s, pos as int, 0, 0) == varint_raw(s, idx as int, acc as int, cnt as nat),
                s == input@,
            decreases 9 - cnt,
        {
            proof {
                lemma2_to64();
                lemma2_to64_rest();
                lemma_pow2_adds((7 * cnt) as nat, 7);
                lemma_pow2_strictly_increases((7 * cnt) as nat, 64);
                if cnt < 8 {
                    lemma_pow2_strictly_increases((7 * cnt + 7) as nat, 64);
                }
            }
            if idx >= input.len() {
                return Err(DbError::MalformedRecord);
            }
            let b = input[idx];
            if cnt >= 8 {
                assert(acc * 256 <= (pow2(56) - 1) * 256);
                let raw = acc * 256 + b as u64;
                let v = i64_of_raw(raw);
                return Ok((VarInt(v), 9));
            }
            if b < 128 {
                assert(acc * 128 <= (pow2((7 * cnt) as nat) - 1) * 128);
                let raw = acc * 128 + b as u64;
                let v = i64_of_raw(raw);
                return Ok((VarInt(v), cnt + 1));
            }
            assert(acc * 128 <= (pow2((7 * cnt) as nat) - 1) * 128);
            acc = acc * 128 + (b - 128) as u64;
            cnt = cnt + 1;
            idx = idx + 1;
        }
    }
}

/// `k` continuation bytes, each with the high bit set, holding the low
/// `7 * k` bits of `raw` big-endian, 7 bits to a byte.
pub open spec fn enc_cont(raw: int, k: nat) -> Seq<u8>
    decreases k,
{
    if k == 0 {
        Seq::empty()
    } else {
        enc_cont(raw / 128, (k - 1) as nat).push((128 + raw % 128) as u8)
    }
}

/// The count of bytes in the shortest encoding of a raw 64-bit value:
/// `k` bytes hold `7 * k` bits for `k` up to 8, and 9 bytes hold all 64.
pub open spec fn enc_len(raw: int) -> int {
    if raw < 0x80 {
        1
    } else if raw < 0x4000 {
        2
    } else if raw < 0x200000 {
        3
    } else if raw < 0x10000000 {
        4
    } else if raw < 0x800000000 {
        5
    } else if raw < 0x40000000000 {
        6
    } else if raw < 0x2000000000000 {
        7
    } else if raw < 0x100000000000000 {
        8
    } else {
        9
    }
}

/// The shortest encoding of `v`: continuation bytes followed by one final
/// byte, which carries 7 bits (high bit clear) or, in the 9-byte form, all 8.
pub open spec fn spec_encode(v: i64) -> Seq<u8> {
    let raw = u64_of_i64(v);
    let k = enc_len(raw);
    if k <= 8 {
        enc_cont(raw / 128, (k - 1) as nat).push((raw % 128) as u8)
    } else {
        enc_cont(raw / 256, 8).push((raw % 256) as u8)
    }
}

pub proof fn lemma_enc_cont_len(raw: int, k: nat)
    ensures
        enc_cont(raw, k).len() == k,
    decreases k,
{
    if k > 0 {
        lemma_enc_cont_len(raw / 128, (k - 1) as nat);
    }
}

proof fn lemma_div_under(x: int, p: int, d: int)
    requires
        0 <= x,
        x < p * d,
        0 < p,
        0 < d,
    ensures
        0 <= x / d < p,
{
    lemma_fundamental_div_mod(x, d);
    lemma_mod_bound(x, d);
    lemma_div_pos_is_pos(x, d);
    if x / d >= p {
        assert(d * (x / d) >= d * p) by (nonlinear_arith)
            requires
                x / d >= p,
                d > 0,
        ;
        assert(d * p == p * d) by (nonlinear_arith);
    }
}

/// Reading continuation bytes accumulates their 7-bit groups: decoding from
/// the start of a `k`-byte continuation block is decoding from its end with
/// the block's bits shifted into the accumulator.
pub proof fn lemma_varint_raw_cont(s: Seq<u8>, pos: int, raw: int, k: nat, acc: int, cnt: nat)
    requires
        0 <= pos,
        pos + k <= s.len(),
        s.subrange(pos, pos + k) == enc_cont(raw, k),
        0 <= raw < pow2((7 * k) as nat),
        0 <= acc,
        cnt + k <= 8,
    ensures
        varint_raw(s, pos, acc, cnt) == varint_raw(
            s,
            pos + k,
            acc * pow2((7 * k) as nat) + raw,
            (cnt + k) as nat,
        ),
    decreases k,
{
    lemma_enc_cont_len(raw, k);
    if k == 0 {
        lemma2_to64();
        assert(raw == 0);
        assert(acc * pow2((7 * k) as nat) == acc * 1);
        lemma_mul_basics(acc);
        assert(acc * pow2((7 * k) as nat) + raw == acc);
        assert(pos + k == pos);
        assert((cnt + k) as nat == cnt);
    } else {
        let p1 = pow2((7 * (k - 1)) as nat) as int;
        let pk = pow2((7 * k) as nat) as int;
        lemma_pow2_adds((7 * (k - 1)) as nat, 7);
        assert(pow2(7) == 128) by {
            lemma2_to64();
        }
        assert(pk == p1 * 128);
        lemma_div_under(raw, p1, 128);
        lemma_enc_cont_len(raw / 128, (k - 1) as nat);
        assert(s.subrange(pos, pos + (k - 1)) =~= enc_cont(raw / 128, (k - 1) as nat)) by {
            assert(forall|i: int|
                0 <= i < k - 1 ==> s.subrange(pos, pos + k)[i] == enc_cont(raw, k)[i]);
        }
        lemma_varint_raw_cont(s, pos, raw / 128, (k - 1) as nat, acc, cnt);
        // one decode step over the block's last byte
        let b = s[pos + (k - 1)];
        assert(b == enc_cont(raw, k)[k - 1]);
        assert(b == (128 + raw % 128) as u8);
        lemma_mod_bound(raw, 128);
        assert(b == 128 + raw % 128);
        let acc1 = acc * p1 + raw / 128;
        assert(varint_raw(s, pos + (k - 1), acc1, (cnt + k - 1) as nat) == varint_raw(
            s,
            pos + k,
            acc1 * 128 + (b - 128),
            (cnt + k) as nat,
        ));
        assert(acc1 * 128 + raw % 128 == acc * pk + raw) by {
            lemma_fundamental_div_mod(raw, 128);
            assert((acc * p1) * 128 == acc * (p1 * 128)) by {
                lemma_mul_is_associative(acc, p1, 128);
            }
            assert((acc * p1 + raw / 128) * 128 == (acc * p1) * 128 + (raw / 128) * 128) by {
                lemma_mul_is_distributive_add_other_way(128, acc * p1, raw / 128);
            }
        }
        assert(varint_raw(s, pos, acc, cnt) == varint_raw(
            s,
            pos + (k - 1),
            acc1,
            (cnt + k - 1) as nat,
        ));
        assert(acc1 * 128 + (b - 128) == acc * pk + raw);
        assert(varint_raw(s, pos, acc, cnt) == varint_raw(
            s,
            pos + k,
            acc * pk + raw,
            (cnt + k) as nat,
        ));
    }
}

/// Law: decoding an encoded varint yields the value back and consumes the
/// whole encoding, whose length is the least that can carry the value.
pub proof fn lemma_varint_round_trip(v: i64)
    ensures
        1 <= spec_encode(v).len() <= 9,
        spec_encode(v).len() == enc_len(u64_of_i64(v)),
        spec_varint(spec_encode(v), 0) == Some((v, spec_encode(v).len() as int)),
{
    lemma2_to64();
    lemma2_to64_rest();
    let raw = u64_of_i64(v);
    let k = enc_len(raw);
    let s = spec_encode(v);
    if k <= 8 {
        lemma_enc_cont_len(raw / 128, (k - 1) as nat);
        assert(s.len() == k);
        assert(raw < pow2((7 * k) as nat));
        lemma_pow2_adds((7 * (k - 1)) as nat, 7);
        lemma_div_under(raw, pow2((7 * (k - 1)) as nat) as int, 128);
        assert(s.subrange(0, k - 1) =~= enc_cont(raw / 128, (k - 1) as nat));
        lemma_varint_raw_cont(s, 0, raw / 128, (k - 1) as nat, 0, 0);
        lemma_mod_bound(raw, 128);
        assert(s[k - 1] == (raw % 128) as u8);
        assert(s[k - 1] < 128);
        assert(varint_raw(s, k - 1, raw / 128, (k - 1) as nat) == Some(
            ((raw / 128) * 128 + s[k - 1], k),
        ));
        assert((raw / 128) * 128 + raw % 128 == raw) by {
            lemma_fundamental_div_mod(raw, 128);
        }
        assert(varint_raw(s, 0, 0, 0) == Some((raw, k as int)));
        assert(i64_from_bits(raw) == v);
    } else {
        assert(raw < 0x10000000000000000);
        lemma_enc_cont_len(raw / 256, 8);
        assert(s.len() == 9);
        lemma_div_under(raw, pow2(56) as int, 256);
        lemma_pow2_adds(56, 8);
        assert(s.subrange(0, 8) =~= enc_cont(raw / 256, 8));
        lemma_varint_raw_cont(s, 0, raw / 256, 8, 0, 0);
        lemma_mod_bound(raw, 256);
        assert(s[8] == (raw % 256) as u8);
        assert(varint_raw(s, 8, raw / 256, 8) == Some(((raw / 256) * 256 + s[8], 9int)));
        assert((raw / 256) * 256 + raw % 256 == raw) by {
            lemma_fundamental_div_mod(raw, 256);
        }
        assert(varint_raw(s, 0, 0, 0) == Some((raw, 9int)));
        assert(i64_from_bits(raw) == v);
    }
}

/// Appends the `k`-byte continuation block for `raw`.
pub(crate) fn push_cont(raw: u64, k: usize, out: &mut Vec<u8>)
    requires
        k <= 8,
    ensures
        final(out)@ == old(out)@ + enc_cont(raw as int, k as nat),
    decreases k,
{
    if k > 0 {
        push_cont(raw / 128, k - 1, out);
        out.push((raw % 128 + 128) as u8);
        assert(out@ =~= old(out)@ + enc_cont(raw as int, k as nat));
    } else {
        assert(out@ =~= old(out)@ + enc_cont(raw as int, 0));
    }
}

/// The raw 64-bit quantity for `v`, computed without a widening cast.
pub(crate) fn raw_of_i64(v: i64) -> (raw: u64)
    ensures
        raw as int == u64_of_i64(v),
{
    if v >= 0 {
        v as u64
    } else {
        let m = (-(v + 1)) as u64;
        u64::MAX - m
    }
}

impl VarInt {
    /// Encode the value in its shortest form, 1 to 9 bytes.  Decoding the
    /// result yields the value back and consumes every byte.
    pub fn encode(&self) -> (out: Vec<u8>)
        ensures
            out@ == spec_encode(self.0),
            1 <= out@.len() <= 9,
            spec_varint(out@, 0) == Some((self.0, out@.len() as int)),
    {
        proof {
            lemma_varint_round_trip(self.0);
        }
        let raw = raw_of_i64(self.0);
        let mut out: Vec<u8> = Vec::new();
        if raw < 0x100000000000000 {
            let k = if raw < 0x80 {
                1
            } else if raw < 0x4000 {
                2
            } else if raw < 0x200000 {
                3
            } else if raw < 0x10000000 {
                4
            } else if raw < 0x800000000 {
                5
            } else if raw < 0x40000000000 {
                6
            } else if raw < 0x2000000000000 {
                7
            } else {
                8
            };
            assert(k == enc_len(raw as int));
            push_cont(raw / 128, k - 1, &mut out);
            out.push((raw % 128) as u8);
        } else {
            push_cont(raw / 256, 8, &mut out);
            out.push((raw % 256) as u8);
        }
        assert(out@ =~= spec_encode(self.0));
        out
    }
}

/// Is the high bit of this byte set?
pub fn high_bit(byte: u8) -> (r: bool)
    ensures
        r == spec_high_bit(byte),
{
    byte >= 128
}

/// The two's complement reading of a raw 64-bit quantity, computed without
/// a narrowing cast.
fn i64_of_raw(raw: u64) -> (v: i64)
    ensures
        v == i64_from_bits(raw as int),
{
    if raw >= 0x8000000000000000 {
        let mag = (u64::MAX - raw) + 1;
        -((mag - 1) as i64) - 1
    } else {
        raw as i64
    }
}

} // verus!
