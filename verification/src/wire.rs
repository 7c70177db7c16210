use vstd::prelude::*;

use crate::util::lemma_vec_len_bound;
use vstd::arithmetic::power2::pow2;

verus! {

// --- Tag and piece-index encodings -------------------------------------
//
// On the wire a tag is its 8 bytes big-endian and a piece index its 8
// bytes little-endian. The asymmetry is deliberate and fixed for on-disk
// compatibility.

/// The 8 big-endian bytes of a 64-bit tag.
pub open spec fn spec_u64_to_be_bytes(x: u64) -> Seq<u8> {
    seq![
        ((x >> 56) & 0xff) as u8,
        ((x >> 48) & 0xff) as u8,
        ((x >> 40) & 0xff) as u8,
        ((x >> 32) & 0xff) as u8,
        ((x >> 24) & 0xff) as u8,
        ((x >> 16) & 0xff) as u8,
        ((x >> 8) & 0xff) as u8,
        (x & 0xff) as u8,
    ]
}

/// The tag carried by 8 big-endian bytes.
pub open spec fn spec_u64_from_be_bytes(s: Seq<u8>) -> u64
    recommends
        s.len() == 8,
{
    (((s[0] as u64) << 56) | ((s[1] as u64) << 48) | ((s[2] as u64) << 40) | ((s[3] as u64) << 32)
        | ((s[4] as u64) << 24) | ((s[5] as u64) << 16) | ((s[6] as u64) << 8) | (s[7] as u64)) as u64
}

/// The 8 little-endian bytes of a 64-bit piece index.
pub open spec fn spec_u64_to_le_bytes(x: u64) -> Seq<u8> {
    spec_u64_to_be_bytes(x).reverse()
}

/// The piece index carried by 8 little-endian bytes.
pub open spec fn spec_u64_from_le_bytes(s: Seq<u8>) -> u64
    recommends
        s.len() == 8,
{
    spec_u64_from_be_bytes(s.reverse())
}

pub fn u64_to_be_bytes(x: u64) -> (r: Vec<u8>)
    ensures
        r@ == spec_u64_to_be_bytes(x),
        r@.len() == 8,
{
    let mut r: Vec<u8> = Vec::new();
    r.push(((x >> 56) & 0xff) as u8);
    r.push(((x >> 48) & 0xff) as u8);
    r.push(((x >> 40) & 0xff) as u8);
    r.push(((x >> 32) & 0xff) as u8);
    r.push(((x >> 24) & 0xff) as u8);
    r.push(((x >> 16) & 0xff) as u8);
    r.push(((x >> 8) & 0xff) as u8);
    r.push((x & 0xff) as u8);
    proof {
        assert(r@ =~= spec_u64_to_be_bytes(x));
    }
    r
}

pub fn u64_from_be_bytes(s: &Vec<u8>) -> (r: u64)
    requires
        s@.len() == 8,
    ensures
        r == spec_u64_from_be_bytes(s@),
{
    ((s[0] as u64) << 56u64) | ((s[1] as u64) << 48u64) | ((s[2] as u64) << 40u64) | ((s[3]
        as u64) << 32u64) | ((s[4] as u64) << 24u64) | ((s[5] as u64) << 16u64) | ((s[6] as u64)
        << 8u64) | (s[7] as u64)
}

pub fn u64_to_le_bytes(x: u64) -> (r: Vec<u8>)
    ensures
        r@ == spec_u64_to_le_bytes(x),
        r@.len() == 8,
{
    let mut r: Vec<u8> = Vec::new();
    r.push((x & 0xff) as u8);
    r.push(((x >> 8) & 0xff) as u8);
    r.push(((x >> 16) & 0xff) as u8);
    r.push(((x >> 24) & 0xff) as u8);
    r.push(((x >> 32) & 0xff) as u8);
    r.push(((x >> 40) & 0xff) as u8);
    r.push(((x >> 48) & 0xff) as u8);
    r.push(((x >> 56) & 0xff) as u8);
    proof {
        assert(r@ =~= spec_u64_to_be_bytes(x).reverse());
    }
    r
}

pub fn u64_from_le_bytes(s: &Vec<u8>) -> (r: u64)
    requires
        s@.len() == 8,
    ensures
        r == spec_u64_from_le_bytes(s@),
{
    let r = ((s[7] as u64) << 56u64) | ((s[6] as u64) << 48u64) | ((s[5] as u64) << 40u64) | ((s[4]
        as u64) << 32u64) | ((s[3] as u64) << 24u64) | ((s[2] as u64) << 16u64) | ((s[1] as u64)
        << 8u64) | (s[0] as u64);
    proof {
        let v = s@.reverse();
        assert(v[0] == s@[7] && v[1] == s@[6] && v[2] == s@[5] && v[3] == s@[4] && v[4] == s@[3]
            && v[5] == s@[2] && v[6] == s@[1] && v[7] == s@[0]);
    }
    r
}

/// Decoding the 8 big-endian bytes of a tag gives the tag back.
pub proof fn lemma_u64_be_round_trip(x: u64)
    ensures
        spec_u64_from_be_bytes(spec_u64_to_be_bytes(x)) == x,
{
    assert(((((((x >> 56) & 0xff) as u8) as u64) << 56) | (((((x >> 48) & 0xff) as u8) as u64)
        << 48) | (((((x >> 40) & 0xff) as u8) as u64) << 40) | (((((x >> 32) & 0xff) as u8) as u64)
        << 32) | (((((x >> 24) & 0xff) as u8) as u64) << 24) | (((((x >> 16) & 0xff) as u8) as u64)
        << 16) | (((((x >> 8) & 0xff) as u8) as u64) << 8) | (((x & 0xff) as u8) as u64)) == x)
        by (bit_vector);
}

/// Decoding the 8 little-endian bytes of a piece index gives it back.
pub proof fn lemma_u64_le_round_trip(x: u64)
    ensures
        spec_u64_from_le_bytes(spec_u64_to_le_bytes(x)) == x,
{
    assert(spec_u64_to_le_bytes(x).reverse() =~= spec_u64_to_be_bytes(x));
    lemma_u64_be_round_trip(x);
}

// --- Multihash keys -----------------------------------------------------
//
// A record key is a multihash: an unsigned varint code, an unsigned varint
// digest size, and exactly that many digest bytes. Varints here carry up
// to 9 groups of 7 bits, so codes up to `2^63 - 1`.

/// Value and end position of the unsigned varint starting at `i`, reading
/// base-128 groups little-endian first, each continued by the `0x80` bit.
/// `None` when the bytes run out or the varint is longer than 9 bytes.
pub open spec fn spec_varint_at(s: Seq<u8>, i: int, shift: nat) -> Option<(int, int)>
    decreases s.len() - i when 0 <= i <= s.len()
{
    if i < 0 || i >= s.len() || shift > 56 {
        None
    } else {
        let chunk = (s[i] & 0x7f) as int;
        if s[i] < 0x80 {
            Some((chunk * pow2(shift), i + 1))
        } else {
            match spec_varint_at(s, i + 1, (shift + 7) as nat) {
                None => None,
                Some((v, j)) => Some((v + chunk * pow2(shift), j)),
            }
        }
    }
}

/// The code of a well-formed multihash key, `None` when the key is not
/// a well-formed multihash.
pub open spec fn spec_multihash_code(s: Seq<u8>) -> Option<u64> {
    match spec_varint_at(s, 0, 0) {
        None => None,
        Some((code, i)) => match spec_varint_at(s, i, 0) {
            None => None,
            Some((size, j)) => if s.len() == j + size {
                Some(code as u64)
            } else {
                None
            },
        },
    }
}

pub open spec fn is_multihash(s: Seq<u8>) -> bool {
    spec_multihash_code(s) is Some
}

/// A decoded varint is bounded by its 63 bits: at most `2^63 - 2^shift`.
pub proof fn lemma_varint_bound(s: Seq<u8>, i: int, shift: nat)
    requires
        0 <= i <= s.len(),
        shift <= 56,
    ensures
        match spec_varint_at(s, i, shift) {
            Some((v, j)) => 0 <= v <= pow2(63) - pow2(shift) && i < j <= s.len(),
            None => true,
        },
    decreases s.len() - i,
{
    vstd::arithmetic::power2::lemma_pow2_pos(shift);
    if i < s.len() {
        let b = s[i];
        let chunk = (b & 0x7f) as int;
        assert(b & 0x7f <= 127) by (bit_vector);
        vstd::arithmetic::mul::lemma_mul_inequality(chunk, 127, pow2(shift) as int);
        vstd::arithmetic::mul::lemma_mul_nonnegative(chunk, pow2(shift) as int);
        assert(127 * pow2(shift) == 128 * pow2(shift) - pow2(shift));
        vstd::arithmetic::power2::lemma_pow2_adds(shift, 7);
        assert(pow2(7) == 128) by {
            vstd::arithmetic::power2::lemma2_to64();
        }
        vstd::arithmetic::mul::lemma_mul_is_commutative(pow2(shift) as int, 128);
        assert(chunk * pow2(shift) <= pow2((shift + 7) as nat) - pow2(shift));
        if s[i] < 0x80 {
            if shift <= 56 {
                vstd::arithmetic::power2::lemma_pow2_strictly_increases((shift + 7) as nat, 64);
                if (shift + 7) as nat <= 63 {
                    vstd::arithmetic::power2::lemma_pow2_adds((shift + 7) as nat, (63 - shift
                        - 7) as nat);
                    vstd::arithmetic::power2::lemma_pow2_pos((63 - shift - 7) as nat);
                    vstd::arithmetic::mul::lemma_mul_inequality(
                        1,
                        pow2((63 - shift - 7) as nat) as int,
                        pow2((shift + 7) as nat) as int,
                    );
                    vstd::arithmetic::mul::lemma_mul_is_commutative(
                        pow2((shift + 7) as nat) as int,
                        pow2((63 - shift - 7) as nat) as int,
                    );
                    assert(pow2((shift + 7) as nat) <= pow2(63));
                }
            }
        } else if shift + 7 <= 56 {
            lemma_varint_bound(s, i + 1, (shift + 7) as nat);
        } else {
            assert(spec_varint_at(s, i + 1, (shift + 7) as nat) is None);
        }
    }
}

/// Reads the unsigned varint starting at `i`, exactly as `spec_varint_at`
/// describes it.
fn varint_at(s: &Vec<u8>, i: usize, shift: u64) -> (r: Option<(u64, usize)>)
    requires
        i <= s@.len(),
        shift <= 56,
        shift % 7 == 0,
    ensures
        match r {
            Some((v, j)) => spec_varint_at(s@, i as int, shift as nat) == Some((v as int, j as int))
                && i < j <= s@.len(),
            None => spec_varint_at(s@, i as int, shift as nat) is None,
        },
    decreases s@.len() - i,
{
    if i >= s.len() {
        return None;
    }
    let b = s[i];
    let chunk: u64 = (b & 0x7f) as u64;
    proof {
        lemma_varint_bound(s@, i as int, shift as nat);
        vstd::bits::lemma_u64_pow2_no_overflow(shift as nat);
        assert((b & 0x7f) as u64 <= 127) by (bit_vector);
        vstd::arithmetic::mul::lemma_mul_inequality(chunk as int, 127, pow2(shift as nat) as int);
        vstd::arithmetic::power2::lemma_pow2_adds(shift as nat, 7);
        assert(pow2(7) == 128) by {
            vstd::arithmetic::power2::lemma2_to64();
        }
        vstd::arithmetic::mul::lemma_mul_is_commutative(pow2(shift as nat) as int, 128);
        vstd::arithmetic::power2::lemma_pow2_strictly_increases(63, 64);
        if shift + 7 <= 63 {
            vstd::arithmetic::power2::lemma_pow2_adds((shift + 7) as nat, (63 - shift - 7) as nat);
            vstd::arithmetic::power2::lemma_pow2_pos((63 - shift - 7) as nat);
            vstd::arithmetic::mul::lemma_mul_inequality(
                1,
                pow2((63 - shift - 7) as nat) as int,
                pow2((shift + 7) as nat) as int,
            );
            vstd::arithmetic::mul::lemma_mul_is_commutative(
                pow2((shift + 7) as nat) as int,
                pow2((63 - shift - 7) as nat) as int,
            );
        }
        assert(chunk * pow2(shift as nat) <= pow2(63));
        assert(pow2(63) == 0x8000_0000_0000_0000) by {
            vstd::arithmetic::power2::lemma2_to64_rest();
        }
        vstd::bits::lemma_u64_shl_is_mul(chunk, shift);
    }
    let scaled: u64 = chunk << shift;
    if b < 0x80 {
        Some((scaled, i + 1))
    } else {
        if shift == 56 {
            // A tenth group would not fit the 63-bit budget.
            proof {
                assert(spec_varint_at(s@, i as int + 1, (shift + 7) as nat) is None);
            }
            return None;
        }
        match varint_at(s, i + 1, shift + 7) {
            None => None,
            Some((v, j)) => {
                proof {
                    lemma_varint_bound(s@, i as int + 1, (shift + 7) as nat);
                    vstd::arithmetic::power2::lemma_pow2_strictly_increases(
                        shift as nat,
                        (shift + 7) as nat,
                    );
                    assert(pow2(63) == 0x8000_0000_0000_0000) by {
                        vstd::arithmetic::power2::lemma2_to64_rest();
                    }
                    assert(scaled + v <= pow2(63) - pow2(shift as nat));
                }
                Some((scaled + v, j))
            },
        }
    }
}

/// The multihash code of a record key, `None` when the key is not a
/// well-formed multihash. The merge rule of the persistent record store
/// keys on this code.
pub fn multihash_code(key: &Vec<u8>) -> (r: Option<u64>)
    ensures
        r == spec_multihash_code(key@),
{
    let code = match varint_at(key, 0, 0) {
        None => {
            return None;
        },
        Some(p) => p,
    };
    let size = match varint_at(key, code.1, 0) {
        None => {
            return None;
        },
        Some(p) => p,
    };
    proof {
        lemma_varint_bound(key@, code.1 as int, 0);
        lemma_vec_len_bound(key);
    }
    if key.len() - size.1 == 0 && size.0 == 0 {
        Some(code.0)
    } else if size.0 <= u64::MAX - size.1 as u64 && size.1 as u64 + size.0 == key.len() as u64 {
        Some(code.0)
    } else {
        None
    }
}

} // verus!
