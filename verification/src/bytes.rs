//! Big-endian scalar readers used by every layer of the format, and byte
//! comparison helpers for names.

use vstd::arithmetic::power2::*;
use crate::error::DbError;
use vstd::prelude::*;
use vstd::string::StringSliceAdditionalSpecFns;
use vstd::utf8::*;

verus! {

/// The big-endian unsigned value of the `len` bytes starting at `pos`.
pub open spec fn be_uint(s: Seq<u8>, pos: int, len: int) -> int
    decreases len,
{
    if len <= 0 {
        0
    } else {
        be_uint(s, pos, len - 1) * 256 + s[pos + len - 1]
    }
}

/// The two's complement value of the `len` bytes starting at `pos`.
pub open spec fn be_int(s: Seq<u8>, pos: int, len: int) -> int {
    let u = be_uint(s, pos, len);
    if u >= pow2((8 * len - 1) as nat) {
        u - pow2((8 * len) as nat)
    } else {
        u
    }
}

pub proof fn lemma_be_uint_bound(s: Seq<u8>, pos: int, len: int)
    requires
        0 <= len <= 8,
    ensures
        0 <= be_uint(s, pos, len) < pow2((8 * len) as nat),
    decreases len,
{
    lemma2_to64();
    lemma2_to64_rest();
    if len > 0 {
        lemma_be_uint_bound(s, pos, len - 1);
        lemma_pow2_adds((8 * (len - 1)) as nat, 8);
        assert(be_uint(s, pos, len - 1) * 256 <= (pow2((8 * (len - 1)) as nat) - 1) * 256);
    }
}

/// Read `len` big-endian bytes as an unsigned value.
pub fn read_be_uint(input: &[u8], pos: usize, len: usize) -> (r: u64)
    requires
        pos + len <= input@.len(),
        len <= 8,
    ensures
        r as int == be_uint(input@, pos as int, len as int),
{
    proof {
        lemma2_to64();
    }
    let n = input.len();
    let mut i: usize = 0;
    let mut acc: u64 = 0;
    while i < len
        invariant
            i <= len,
            len <= 8,
            n == input@.len(),
            pos + len <= n,
            acc as int == be_uint(input@, pos as int, i as int),
            acc < pow2((8 * i) as nat),
        decreases len - i,
    {
        proof {
            lemma2_to64();
            lemma2_to64_rest();
            lemma_pow2_adds((8 * i) as nat, 8);
            assert(acc * 256 <= (pow2((8 * i) as nat) - 1) * 256);
        }
        acc = acc * 256 + input[pos + i] as u64;
        i = i + 1;
    }
    acc
}

/// Read `len` big-endian bytes as a signed two's complement value.
pub fn read_be_int(input: &[u8], pos: usize, len: usize) -> (r: i64)
    requires
        pos + len <= input@.len(),
        1 <= len <= 8,
    ensures
        r as int == be_int(input@, pos as int, len as int),
{
    proof {
        lemma2_to64();
        lemma2_to64_rest();
        lemma_be_uint_bound(input@, pos as int, len as int);
    }
    let u = read_be_uint(input, pos, len);
    let half: u64 = if len == 1 {
        0x80
    } else if len == 2 {
        0x8000
    } else if len == 3 {
        0x800000
    } else if len == 4 {
        0x80000000
    } else if len == 5 {
        0x8000000000
    } else if len == 6 {
        0x800000000000
    } else if len == 7 {
        0x80000000000000
    } else {
        0x8000000000000000
    };
    assert(half as int == pow2((8 * len - 1) as nat));
    if u < half {
        u as i64
    } else if len == 8 {
        proof {
            lemma_pow2_adds(63, 1);
        }
        let mag = (u64::MAX - u) + 1;
        -((mag - 1) as i64) - 1
    } else {
        proof {
            lemma_pow2_adds((8 * len - 1) as nat, 1);
        }
        let full = half + half;
        -((full - u) as i64)
    }
}

/// Do two byte slices hold the same bytes?
pub fn bytes_eq(a: &[u8], b: &[u8]) -> (r: bool)
    ensures
        r == (a@ == b@),
{
    if a.len() != b.len() {
        assert(a@ != b@) by {
            assert(a@.len() != b@.len());
        }
        return false;
    }
    let n = a.len();
    let mut i: usize = 0;
    while i < n
        invariant
            i <= n,
            n == a@.len() == b@.len(),
            forall|j: int| 0 <= j < i ==> a@[j] == b@[j],
        decreases n - i,
    {
        if a[i] != b[i] {
            return false;
        }
        i = i + 1;
    }
    proof {
        assert(a@ =~= b@);
    }
    true
}

/// Do two strings hold the same characters?
pub fn str_eq(a: &str, b: &str) -> (r: bool)
    ensures
        r == (a@ == b@),
{
    let r = bytes_eq(a.as_bytes(), b.as_bytes());
    proof {
        if a.spec_bytes() == b.spec_bytes() {
            broadcast use encode_utf8_decode_utf8;

            assert(decode_utf8(encode_utf8(a@)) == decode_utf8(encode_utf8(b@)));
        }
    }
    r
}


/// The `len`-byte big-endian form of the low `8 * len` bits of `x`.
pub open spec fn be_digits(x: int, len: nat) -> Seq<u8>
    decreases len,
{
    if len == 0 {
        Seq::empty()
    } else {
        be_digits(x / 256, (len - 1) as nat).push((x % 256) as u8)
    }
}

pub proof fn lemma_be_digits_len(x: int, len: nat)
    ensures
        be_digits(x, len).len() == len,
    decreases len,
{
    if len > 0 {
        lemma_be_digits_len(x / 256, (len - 1) as nat);
    }
}

/// Bytes laid down by `be_digits` read back as the value they encode.
pub proof fn lemma_be_uint_digits(s: Seq<u8>, pos: int, x: int, len: nat)
    requires
        0 <= x < pow2((8 * len) as nat),
        0 <= pos,
        pos + len <= s.len(),
        s.subrange(pos, pos + len) == be_digits(x, len),
    ensures
        be_uint(s, pos, len as int) == x,
    decreases len,
{
    lemma_be_digits_len(x, len);
    if len == 0 {
        assert(pow2(0) == 1) by {
            lemma2_to64();
        }
    } else {
        let p1 = pow2((8 * (len - 1)) as nat) as int;
        lemma_pow2_adds((8 * (len - 1)) as nat, 8);
        assert(pow2(8) == 256) by {
            lemma2_to64();
        }
        assert(0 <= x / 256 < p1) by {
            vstd::arithmetic::div_mod::lemma_fundamental_div_mod(x, 256);
            vstd::arithmetic::div_mod::lemma_mod_bound(x, 256);
            vstd::arithmetic::div_mod::lemma_div_pos_is_pos(x, 256);
            if x / 256 >= p1 {
                assert(256 * (x / 256) >= 256 * p1) by (nonlinear_arith)
                    requires
                        x / 256 >= p1,
                ;
            }
        }
        lemma_be_digits_len(x / 256, (len - 1) as nat);
        assert(s.subrange(pos, pos + (len - 1)) =~= be_digits(x / 256, (len - 1) as nat)) by {
            assert(forall|i: int|
                0 <= i < len - 1 ==> s.subrange(pos, pos + len)[i] == be_digits(x, len)[i]);
        }
        lemma_be_uint_digits(s, pos, x / 256, (len - 1) as nat);
        let b = s[pos + (len - 1)];
        assert(b == be_digits(x, len)[len - 1]);
        vstd::arithmetic::div_mod::lemma_mod_bound(x, 256);
        assert(b == x % 256);
        vstd::arithmetic::div_mod::lemma_fundamental_div_mod(x, 256);
        assert(be_uint(s, pos, len as int) == (x / 256) * 256 + x % 256);
    }
}

/// Appends the `len`-byte big-endian form of the low `8 * len` bits of `x`.
pub fn push_be_digits(x: u64, len: usize, out: &mut Vec<u8>)
    requires
        len <= 8,
    ensures
        final(out)@ == old(out)@ + be_digits(x as int, len as nat),
    decreases len,
{
    if len > 0 {
        push_be_digits(x / 256, len - 1, out);
        out.push((x % 256) as u8);
        assert(out@ =~= old(out)@ + be_digits(x as int, len as nat));
    } else {
        assert(out@ =~= old(out)@ + be_digits(x as int, 0));
    }
}


/// Relies on String::from_utf8: on success the returned string holds
/// exactly the given bytes, and it fails exactly on invalid UTF-8.
#[verifier::external_body]
pub fn utf8_to_string(bytes: Vec<u8>) -> (r: Result<String, DbError>)
    ensures
        match r {
            Ok(s2) => valid_utf8(bytes@) && encode_utf8(s2@) == bytes@,
            Err(e) => !valid_utf8(bytes@) && e == DbError::ParseError,
        },
{
    match String::from_utf8(bytes) {
        Ok(s2) => Ok(s2),
        Err(_) => Err(DbError::ParseError),
    }
}

} // verus!


