//! Task identifiers: a xorshift generator and UUID-shaped strings.
//!
//! The generator's state is passed in explicitly; a session starts from
//! [`INITIAL_SEED`].
use vstd::prelude::*;
use crate::digits::{hex_chars, hex_digits, is_hex_digit, lemma_hex_chars_shape};
use crate::text::string_from_chars;

verus! {

/// The state every session starts from.
pub const INITIAL_SEED: u64 = 0xdead_beef_cafe_babe;

/// One xorshift step (shifts 13, 7, 17).
pub open spec fn xorshift(s: u64) -> u64 {
    let a = s ^ (s << 13u64);
    let b = a ^ (a >> 7u64);
    b ^ (b << 17u64)
}

/// The state after `k` steps.
pub open spec fn xorshift_steps(s: u64, k: nat) -> u64
    decreases k,
{
    if k == 0 {
        s
    } else {
        xorshift(xorshift_steps(s, (k - 1) as nat))
    }
}

fn step(seed: &mut u64)
    ensures
        *final(seed) == xorshift(*old(seed)),
{
    let s = *seed;
    let a = s ^ (s << 13u64);
    let b = a ^ (a >> 7u64);
    *seed = b ^ (b << 17u64);
}

/// Advances the state one step and returns its low 32 bits.
pub fn rand_u32(seed: &mut u64) -> (r: u32)
    ensures
        *final(seed) == xorshift(*old(seed)),
        r as int == xorshift(*old(seed)) as int % 0x1_0000_0000,
{
    step(seed);
    let s = *seed;
    let r = s as u32;
    assert(r as int == s as int % 0x1_0000_0000) by (bit_vector)
        requires
            r == s as u32,
    ;
    r
}

/// Advances the state one step and returns its low 16 bits.
pub fn rand_u16(seed: &mut u64) -> (r: u16)
    ensures
        *final(seed) == xorshift(*old(seed)),
        r as int == xorshift(*old(seed)) as int % 0x1_0000,
{
    let x = rand_u32(seed);
    let r = x as u16;
    assert(r as int == x as int % 0x1_0000) by (bit_vector)
        requires
            r == x as u16,
    ;
    r
}

/// Advances the state two steps; the first step's low 32 bits are the high
/// half of the result, the second's the low half.
pub fn rand_u64(seed: &mut u64) -> (r: u64)
    ensures
        *final(seed) == xorshift(xorshift(*old(seed))),
        r as int == (xorshift(*old(seed)) as int % 0x1_0000_0000) * 0x1_0000_0000 + xorshift(
            xorshift(*old(seed)),
        ) as int % 0x1_0000_0000,
{
    let hi = rand_u32(seed);
    let lo = rand_u32(seed);
    let r = ((hi as u64) << 32u64) | (lo as u64);
    assert(r == (hi as u64) * 0x1_0000_0000 + lo as u64) by (bit_vector)
        requires
            r == ((hi as u64) << 32u64) | (lo as u64),
    ;
    r
}

/// The identifier made from the state `seed`: 8, 4, 4, 4 and 12 hexadecimal
/// digits joined by hyphens, taken from the next six states (the last field
/// is the low 48 bits of a two-step 64-bit draw).
pub open spec fn uuid_chars(seed: u64) -> Seq<char> {
    let s1 = xorshift_steps(seed, 1);
    let s2 = xorshift_steps(seed, 2);
    let s3 = xorshift_steps(seed, 3);
    let s4 = xorshift_steps(seed, 4);
    let s5 = xorshift_steps(seed, 5);
    let s6 = xorshift_steps(seed, 6);
    let wide = (s5 as int % 0x1_0000_0000) * 0x1_0000_0000 + s6 as int % 0x1_0000_0000;
    hex_chars((s1 as int % 0x1_0000_0000) as nat, 8) + seq!['-'] + hex_chars(
        (s2 as int % 0x1_0000) as nat,
        4,
    ) + seq!['-'] + hex_chars((s3 as int % 0x1_0000) as nat, 4) + seq!['-'] + hex_chars(
        (s4 as int % 0x1_0000) as nat,
        4,
    ) + seq!['-'] + hex_chars((wide % 0x1_0000_0000_0000) as nat, 12)
}

/// A UUID-shaped identifier; the state advances six steps.
pub fn uuid_v4(seed: &mut u64) -> (id: String)
    ensures
        id@ == uuid_chars(*old(seed)),
        *final(seed) == xorshift_steps(*old(seed), 6),
{
    let ghost s0 = *seed;
    let a = rand_u32(seed);
    let b = rand_u16(seed);
    let c = rand_u16(seed);
    let d = rand_u16(seed);
    let e = rand_u64(seed);
    let low = e & 0xFFFF_FFFF_FFFFu64;
    assert(low == e % 0x1_0000_0000_0000) by (bit_vector)
        requires
            low == e & 0xFFFF_FFFF_FFFFu64,
    ;
    let mut chars = hex_digits(a as u64, 8);
    chars.push('-');
    let mut part = hex_digits(b as u64, 4);
    chars.append(&mut part);
    chars.push('-');
    let mut part = hex_digits(c as u64, 4);
    chars.append(&mut part);
    chars.push('-');
    let mut part = hex_digits(d as u64, 4);
    chars.append(&mut part);
    chars.push('-');
    let mut part = hex_digits(low, 12);
    chars.append(&mut part);
    proof {
        reveal_with_fuel(xorshift_steps, 7);
        assert(chars@ =~= uuid_chars(s0));
    }
    string_from_chars(&chars)
}

/// Every identifier has the UUID shape: 36 characters, hyphens at
/// positions 8, 13, 18 and 23, lowercase hexadecimal digits elsewhere.
pub proof fn lemma_uuid_shape(seed: u64)
    ensures
        uuid_chars(seed).len() == 36,
        forall|k: int|
            0 <= k < 36 ==> if k == 8 || k == 13 || k == 18 || k == 23 {
                #[trigger] uuid_chars(seed)[k] == '-'
            } else {
                is_hex_digit(uuid_chars(seed)[k])
            },
{
    let s1 = xorshift_steps(seed, 1);
    let s2 = xorshift_steps(seed, 2);
    let s3 = xorshift_steps(seed, 3);
    let s4 = xorshift_steps(seed, 4);
    let s5 = xorshift_steps(seed, 5);
    let s6 = xorshift_steps(seed, 6);
    let wide = (s5 as int % 0x1_0000_0000) * 0x1_0000_0000 + s6 as int % 0x1_0000_0000;
    let f1 = hex_chars((s1 as int % 0x1_0000_0000) as nat, 8);
    let f2 = hex_chars((s2 as int % 0x1_0000) as nat, 4);
    let f3 = hex_chars((s3 as int % 0x1_0000) as nat, 4);
    let f4 = hex_chars((s4 as int % 0x1_0000) as nat, 4);
    let f5 = hex_chars((wide % 0x1_0000_0000_0000) as nat, 12);
    lemma_hex_chars_shape((s1 as int % 0x1_0000_0000) as nat, 8);
    lemma_hex_chars_shape((s2 as int % 0x1_0000) as nat, 4);
    lemma_hex_chars_shape((s3 as int % 0x1_0000) as nat, 4);
    lemma_hex_chars_shape((s4 as int % 0x1_0000) as nat, 4);
    lemma_hex_chars_shape((wide % 0x1_0000_0000_0000) as nat, 12);
    let u = uuid_chars(seed);
    assert(u =~= f1 + seq!['-'] + f2 + seq!['-'] + f3 + seq!['-'] + f4 + seq!['-'] + f5);
    assert forall|k: int| 0 <= k < 36 implies if k == 8 || k == 13 || k == 18 || k == 23 {
        #[trigger] u[k] == '-'
    } else {
        is_hex_digit(u[k])
    } by {
        if k < 8 {
            assert(u[k] == f1[k]);
        } else if 8 < k < 13 {
            assert(u[k] == f2[k - 9]);
        } else if 13 < k < 18 {
            assert(u[k] == f3[k - 14]);
        } else if 18 < k < 23 {
            assert(u[k] == f4[k - 19]);
        } else if 23 < k {
            assert(u[k] == f5[k - 24]);
        }
    }
}

} // verus!
