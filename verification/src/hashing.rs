//! Small hash functions and checksums over bytes, and colours made of hashes.

use vstd::prelude::*;
use vstd::string::StringSliceAdditionalSpecFns;

verus! {

/// The hash of Bernstein: from 5381, each byte takes the hash to
/// `hash * 33 + byte`, modulo 2^32.
pub open spec fn bernstein(bytes: Seq<u8>) -> u32
    decreases bytes.len(),
{
    if bytes.len() == 0 {
        5381
    } else {
        ((bernstein(bytes.drop_last()) * 33 + bytes.last()) % 0x1_0000_0000) as u32
    }
}

/// The hash of Fowler, Noll and Vo, variant 1a, of 32 bits: each byte is
/// xored into the hash, which is then multiplied by the prime 16777619,
/// modulo 2^32.
pub open spec fn fowler_noll_vo(bytes: Seq<u8>) -> u32
    decreases bytes.len(),
{
    if bytes.len() == 0 {
        2166136261
    } else {
        (((fowler_noll_vo(bytes.drop_last()) ^ (bytes.last() as u32)) * 16777619)
            % 0x1_0000_0000) as u32
    }
}

/// The sum of the bytes.
pub open spec fn byte_sum(bytes: Seq<u8>) -> nat
    decreases bytes.len(),
{
    if bytes.len() == 0 {
        0
    } else {
        byte_sum(bytes.drop_last()) + bytes.last() as nat
    }
}

/// One bit of the cyclic redundancy check: a shift to the right, with the
/// reflected polynomial 0xEDB88320 xored in where a one was shifted out.
pub open spec fn crc_shift(crc: u32) -> u32 {
    if crc & 1 != 0 {
        (crc >> 1) ^ 0xEDB8_8320
    } else {
        crc >> 1
    }
}

/// `count` bits of the cyclic redundancy check.
pub open spec fn crc_shifts(crc: u32, count: nat) -> u32
    decreases count,
{
    if count == 0 {
        crc
    } else {
        crc_shift(crc_shifts(crc, (count - 1) as nat))
    }
}

/// The register of the cyclic redundancy check after the bytes, from all ones.
pub open spec fn crc_register(bytes: Seq<u8>) -> u32
    decreases bytes.len(),
{
    if bytes.len() == 0 {
        0xFFFF_FFFF
    } else {
        crc_shifts(crc_register(bytes.drop_last()) ^ (bytes.last() as u32), 8)
    }
}

/// The Bernstein hash of the bytes of a string.
pub fn simple_hash(input: &str) -> (hash: u32)
    ensures
        hash == bernstein(input.spec_bytes()),
{
    let bytes = input.as_bytes();
    let mut hash: u32 = 5381;
    let mut i: usize = 0;
    while i < bytes.len()
        invariant
            i <= bytes.len(),
            hash == bernstein(bytes@.take(i as int)),
            bytes@ == input.spec_bytes(),
        decreases bytes.len() - i,
    {
        proof {
            assert(bytes@.take(i + 1).drop_last() =~= bytes@.take(i as int));
        }
        hash = ((hash as u64 * 33 + bytes[i] as u64) % 0x1_0000_0000) as u32;
        i = i + 1;
    }
    proof {
        assert(bytes@.take(i as int) =~= bytes@);
    }
    hash
}

/// The hash of Fowler, Noll and Vo of the bytes of a string.
pub fn fnv1a_hash(input: &str) -> (hash: u32)
    ensures
        hash == fowler_noll_vo(input.spec_bytes()),
{
    let bytes = input.as_bytes();
    let mut hash: u32 = 2166136261;
    let mut i: usize = 0;
    while i < bytes.len()
        invariant
            i <= bytes.len(),
            hash == fowler_noll_vo(bytes@.take(i as int)),
            bytes@ == input.spec_bytes(),
        decreases bytes.len() - i,
    {
        proof {
            assert(bytes@.take(i + 1).drop_last() =~= bytes@.take(i as int));
        }
        hash = (((hash ^ (bytes[i] as u32)) as u64 * 16777619) % 0x1_0000_0000) as u32;
        i = i + 1;
    }
    proof {
        assert(bytes@.take(i as int) =~= bytes@);
    }
    hash
}

/// The sum of a part of the bytes is at most the sum of all.
pub proof fn lemma_byte_sum_monotonic(bytes: Seq<u8>, i: int)
    requires
        0 <= i <= bytes.len(),
    ensures
        byte_sum(bytes.take(i)) <= byte_sum(bytes),
    decreases bytes.len() - i,
{
    if i < bytes.len() {
        lemma_byte_sum_monotonic(bytes, i + 1);
        assert(bytes.take(i + 1).drop_last() =~= bytes.take(i));
    } else {
        assert(bytes.take(i) =~= bytes);
    }
}

/// Whether the sum of the bytes fits 32 bits.
pub fn checksum_fits(data: &[u8]) -> (fits: bool)
    ensures
        fits == (byte_sum(data@) <= u32::MAX),
{
    let mut sum: u64 = 0;
    let mut i: usize = 0;
    while i < data.len()
        invariant
            i <= data.len(),
            sum == byte_sum(data@.take(i as int)),
            sum <= u32::MAX,
        decreases data.len() - i,
    {
        proof {
            assert(data@.take(i + 1).drop_last() =~= data@.take(i as int));
            lemma_byte_sum_monotonic(data@, i + 1);
        }
        sum = sum + data[i] as u64;
        if sum > 0xFFFF_FFFF {
            return false;
        }
        i = i + 1;
    }
    proof {
        assert(data@.take(i as int) =~= data@);
    }
    true
}

/// The sum of the bytes, which must fit 32 bits.
pub fn checksum(data: &[u8]) -> (sum: u32)
    requires
        byte_sum(data@) <= u32::MAX,
    ensures
        sum == byte_sum(data@),
{
    let mut sum: u32 = 0;
    let mut i: usize = 0;
    while i < data.len()
        invariant
            i <= data.len(),
            sum == byte_sum(data@.take(i as int)),
            byte_sum(data@) <= u32::MAX,
        decreases data.len() - i,
    {
        proof {
            assert(data@.take(i + 1).drop_last() =~= data@.take(i as int));
            lemma_byte_sum_monotonic(data@, i + 1);
        }
        sum = sum + data[i] as u32;
        i = i + 1;
    }
    proof {
        assert(data@.take(i as int) =~= data@);
    }
    sum
}

/// The cyclic redundancy check of 32 bits with the reflected polynomial
/// 0xEDB88320: the register after the bytes, inverted.
pub fn crc32(data: &[u8]) -> (crc: u32)
    ensures
        crc == !crc_register(data@),
{
    let mut crc: u32 = 0xFFFF_FFFF;
    let mut i: usize = 0;
    while i < data.len()
        invariant
            i <= data.len(),
            crc == crc_register(data@.take(i as int)),
        decreases data.len() - i,
    {
        proof {
            assert(data@.take(i + 1).drop_last() =~= data@.take(i as int));
        }
        crc = crc ^ (data[i] as u32);
        let ghost start = crc;
        let mut bit: u32 = 0;
        while bit < 8
            invariant
                bit <= 8,
                crc == crc_shifts(start, bit as nat),
            decreases 8 - bit,
        {
            if crc & 1 != 0 {
                crc = (crc >> 1) ^ 0xEDB8_8320;
            } else {
                crc = crc >> 1;
            }
            bit = bit + 1;
        }
        i = i + 1;
    }
    proof {
        assert(data@.take(i as int) =~= data@);
    }
    !crc
}

/// One channel of a colour, raised by 64 where it is darker than that.
pub open spec fn brightened(channel: u32) -> u32 {
    if channel < 64 {
        (channel + 64) as u32
    } else {
        channel
    }
}

/// The colour of a hash: its low three bytes as red, green and blue, each
/// channel at least 64.
pub open spec fn color_of(hash: u32) -> u32 {
    (brightened((hash / 0x1_0000) % 0x100) * 0x1_0000 + brightened((hash / 0x100) % 0x100)
        * 0x100 + brightened(hash % 0x100)) as u32
}

/// The colour of a hash: its low three bytes as red, green and blue, each
/// raised by 64 where it is darker than that.
pub fn hash_to_color(hash: u32) -> (color: u32)
    ensures
        color == color_of(hash),
        color <= 0xFF_FFFF,
{
    let r: u32 = (hash / 0x1_0000) % 0x100;
    let g: u32 = (hash / 0x100) % 0x100;
    let b: u32 = hash % 0x100;
    let r: u32 = if r < 64 {
        r + 64
    } else {
        r
    };
    let g: u32 = if g < 64 {
        g + 64
    } else {
        g
    };
    let b: u32 = if b < 64 {
        b + 64
    } else {
        b
    };
    r * 0x1_0000 + g * 0x100 + b
}

/// The next value of the linear congruential generator:
/// `value * 1664525 + 1013904223`, modulo 2^32.
pub open spec fn next_value(value: u32) -> u32 {
    ((value * 1664525 + 1013904223) % 0x1_0000_0000) as u32
}

/// The value of the generator after `steps` steps from `seed`.
pub open spec fn generated(seed: u32, steps: nat) -> u32
    decreases steps,
{
    if steps == 0 {
        seed
    } else {
        next_value(generated(seed, (steps - 1) as nat))
    }
}

/// A square pattern of `size * size` colours: the colours of the values
/// that the generator yields from the hash.
pub fn hash_to_pattern(hash: u32, size: u32) -> (pattern: Vec<u32>)
    requires
        size * size <= u32::MAX,
    ensures
        pattern@.len() == size * size,
        forall|k: int|
            0 <= k < pattern@.len() ==> pattern@[k] == color_of(generated(hash, (k + 1) as nat)),
{
    let count: u32 = size * size;
    let mut pattern: Vec<u32> = Vec::new();
    let mut current: u32 = hash;
    let mut i: u32 = 0;
    while i < count
        invariant
            i <= count,
            pattern@.len() == i,
            current == generated(hash, i as nat),
            forall|k: int|
                0 <= k < i ==> pattern@[k] == color_of(generated(hash, (k + 1) as nat)),
        decreases count - i,
    {
        current = ((current as u64 * 1664525 + 1013904223) % 0x1_0000_0000) as u32;
        pattern.push(hash_to_color(current));
        i = i + 1;
    }
    pattern
}

} // verus!
