//! Two demonstration digests in the manner of well-known ones, a search for
//! collisions of the Bernstein hash, and the avalanche of a digest.

use crate::hashing::bernstein;
use crate::text::string_of;
use vstd::prelude::*;
use vstd::string::StringSliceAdditionalSpecFns;

verus! {

/// `x` rotated to the left by `n` bits, for `0 < n < 32`.
pub open spec fn rotated(x: u32, n: u32) -> u32 {
    (x << n) | (x >> ((32 - n) as u32))
}

/// The state after byte `i` is absorbed: the byte is added to the word
/// `i % len` modulo 2^32, the word is rotated to the left, and the next
/// word around is xored in.
pub open spec fn absorbed(state: Seq<u32>, i: int, byte: u8, rotation: u32) -> Seq<u32> {
    let at = i % (state.len() as int);
    let next = (at + 1) % (state.len() as int);
    let sum = ((state[at] + byte) % 0x1_0000_0000) as u32;
    state.update(at, rotated(sum, rotation) ^ state[next])
}

/// The state after the bytes are absorbed one after the other.
pub open spec fn absorbed_all(state: Seq<u32>, bytes: Seq<u8>, rotation: u32) -> Seq<u32>
    decreases bytes.len(),
{
    if bytes.len() == 0 {
        state
    } else {
        absorbed(
            absorbed_all(state, bytes.drop_last(), rotation),
            bytes.len() - 1,
            bytes.last(),
            rotation,
        )
    }
}

/// `x * factor` modulo 2^32, with its high bits xored onto its low ones.
pub open spec fn scrambled(x: u32, factor: u32, shift: u32) -> u32 {
    let product = ((x * factor) % 0x1_0000_0000) as u32;
    product ^ (product >> shift)
}

/// One hexadecimal digit, lower case.
pub open spec fn hex_digit(n: u32) -> char {
    if n < 10 {
        (0x30 + n) as char
    } else {
        (0x61 + n - 10) as char
    }
}

/// The eight hexadecimal digits of a word, the highest first.
pub open spec fn hex_word(x: u32) -> Seq<char> {
    seq![
        hex_digit((x / 0x1000_0000) % 16),
        hex_digit((x / 0x100_0000) % 16),
        hex_digit((x / 0x10_0000) % 16),
        hex_digit((x / 0x1_0000) % 16),
        hex_digit((x / 0x1000) % 16),
        hex_digit((x / 0x100) % 16),
        hex_digit((x / 0x10) % 16),
        hex_digit(x % 16),
    ]
}

/// The hexadecimal digits of the first `count` words, in order.
pub open spec fn hex_words(words: Seq<u32>, count: int) -> Seq<char>
    decreases count,
{
    if count <= 0 {
        Seq::empty()
    } else {
        hex_words(words, count - 1) + hex_word(words[count - 1])
    }
}

/// The four words that the first digest starts from.
pub open spec fn first_start() -> Seq<u32> {
    seq![0x6745_2301, 0xEFCD_AB89, 0x98BA_DCFE, 0x1032_5476]
}

/// The eight words that the second digest starts from.
pub open spec fn second_start() -> Seq<u32> {
    seq![
        0x6A09_E667,
        0xBB67_AE85,
        0x3C6E_F372,
        0xA54F_F53A,
        0x510E_527F,
        0x9B05_688C,
        0x1F83_D9AB,
        0x5BE0_CD19,
    ]
}

/// The words of the first digest: the bytes absorbed with a rotation of 7
/// bits, then every word scrambled.
pub open spec fn first_digest(bytes: Seq<u8>) -> Seq<u32> {
    let mixed = absorbed_all(first_start(), bytes, 7);
    Seq::new(4, |k: int| scrambled(mixed[k], 0x9E37_79B9, 16))
}

/// The words of the second digest: the bytes absorbed with a rotation of
/// 21 bits to the left, then every word scrambled twice.
pub open spec fn second_digest(bytes: Seq<u8>) -> Seq<u32> {
    let mixed = absorbed_all(second_start(), bytes, 21);
    Seq::new(8, |k: int| scrambled(scrambled(mixed[k], 0x9E37_79B9, 13), 0x85EB_CA6B, 16))
}

/// Absorbing keeps the number of words.
pub proof fn lemma_absorbed_len(state: Seq<u32>, bytes: Seq<u8>, rotation: u32)
    requires
        state.len() > 0,
    ensures
        absorbed_all(state, bytes, rotation).len() == state.len(),
    decreases bytes.len(),
{
    if bytes.len() > 0 {
        lemma_absorbed_len(state, bytes.drop_last(), rotation);
    }
}

/// Absorbs the bytes into the state.
fn absorb(state: &mut Vec<u32>, bytes: &[u8], rotation: u32)
    requires
        old(state)@.len() > 0,
        0 < rotation < 32,
    ensures
        final(state)@ == absorbed_all(old(state)@, bytes@, rotation),
        final(state)@.len() == old(state)@.len(),
{
    let width = state.len();
    let mut i: usize = 0;
    while i < bytes.len()
        invariant
            i <= bytes.len(),
            0 < rotation < 32,
            state@.len() == width == old(state)@.len(),
            width > 0,
            state@ == absorbed_all(old(state)@, bytes@.take(i as int), rotation),
        decreases bytes.len() - i,
    {
        proof {
            assert(bytes@.take(i + 1).drop_last() =~= bytes@.take(i as int));
        }
        let at = i % width;
        let next = (at + 1) % width;
        let sum: u32 = ((state[at] as u64 + bytes[i] as u64) % 0x1_0000_0000) as u32;
        let turned: u32 = (sum << rotation) | (sum >> (32 - rotation));
        let mixed = turned ^ state[next];
        state.set(at, mixed);
        i = i + 1;
    }
    proof {
        assert(bytes@.take(i as int) =~= bytes@);
    }
}

/// `x * factor` modulo 2^32, with its high bits xored onto its low ones.
fn scramble(x: u32, factor: u32, shift: u32) -> (r: u32)
    requires
        shift < 32,
    ensures
        r == scrambled(x, factor, shift),
{
    assert(x * factor <= 0xFFFF_FFFF * 0xFFFF_FFFF) by (nonlinear_arith)
        requires
            x <= 0xFFFF_FFFF,
            factor <= 0xFFFF_FFFF,
    ;
    let product: u32 = ((x as u64 * factor as u64) % 0x1_0000_0000) as u32;
    product ^ (product >> shift)
}

/// One hexadecimal digit, lower case.
fn digit(n: u32) -> (c: char)
    requires
        n < 16,
    ensures
        c == hex_digit(n),
{
    if n < 10 {
        (0x30 + n as u8) as char
    } else {
        (0x61 + (n - 10) as u8) as char
    }
}

/// Appends the eight hexadecimal digits of a word.
fn push_hex(out: &mut Vec<char>, x: u32)
    ensures
        final(out)@ == old(out)@ + hex_word(x),
{
    out.push(digit((x / 0x1000_0000) % 16));
    out.push(digit((x / 0x100_0000) % 16));
    out.push(digit((x / 0x10_0000) % 16));
    out.push(digit((x / 0x1_0000) % 16));
    out.push(digit((x / 0x1000) % 16));
    out.push(digit((x / 0x100) % 16));
    out.push(digit((x / 0x10) % 16));
    out.push(digit(x % 16));
    proof {
        assert(out@ =~= old(out)@ + hex_word(x));
    }
}

/// The hexadecimal digits of the words, in order.
fn hex_string(words: &Vec<u32>) -> (s: String)
    ensures
        s@ == hex_words(words@, words@.len() as int),
{
    let mut out: Vec<char> = Vec::new();
    let mut i: usize = 0;
    while i < words.len()
        invariant
            i <= words.len(),
            out@ == hex_words(words@, i as int),
        decreases words.len() - i,
    {
        push_hex(&mut out, words[i]);
        i = i + 1;
    }
    string_of(&out)
}

/// The first demonstration digest of the bytes of a string, as 32
/// hexadecimal digits.
pub fn demo_md5_hash(input: &str) -> (digest: String)
    ensures
        digest@ == hex_words(first_digest(input.spec_bytes()), 4),
{
    let mut state: Vec<u32> = Vec::new();
    state.push(0x6745_2301);
    state.push(0xEFCD_AB89);
    state.push(0x98BA_DCFE);
    state.push(0x1032_5476);
    proof {
        assert(state@ =~= first_start());
    }
    absorb(&mut state, input.as_bytes(), 7);
    let ghost mixed = state@;
    let mut i: usize = 0;
    while i < 4
        invariant
            i <= 4,
            state@.len() == 4 == mixed.len(),
            forall|k: int| 0 <= k < i ==> state@[k] == scrambled(mixed[k], 0x9E37_79B9, 16),
            forall|k: int| i <= k < 4 ==> state@[k] == mixed[k],
        decreases 4 - i,
    {
        let word = scramble(state[i], 0x9E37_79B9, 16);
        state.set(i, word);
        i = i + 1;
    }
    proof {
        assert(state@ =~= first_digest(input.spec_bytes()));
    }
    hex_string(&state)
}

/// The second demonstration digest of the bytes of a string, as 64
/// hexadecimal digits.
pub fn demo_sha_hash(input: &str) -> (digest: String)
    ensures
        digest@ == hex_words(second_digest(input.spec_bytes()), 8),
{
    let mut state: Vec<u32> = Vec::new();
    state.push(0x6A09_E667);
    state.push(0xBB67_AE85);
    state.push(0x3C6E_F372);
    state.push(0xA54F_F53A);
    state.push(0x510E_527F);
    state.push(0x9B05_688C);
    state.push(0x1F83_D9AB);
    state.push(0x5BE0_CD19);
    proof {
        assert(state@ =~= second_start());
    }
    absorb(&mut state, input.as_bytes(), 21);
    let ghost mixed = state@;
    let mut i: usize = 0;
    while i < 8
        invariant
            i <= 8,
            state@.len() == 8 == mixed.len(),
            forall|k: int|
                0 <= k < i ==> state@[k] == scrambled(
                    scrambled(mixed[k], 0x9E37_79B9, 13),
                    0x85EB_CA6B,
                    16,
                ),
            forall|k: int| i <= k < 8 ==> state@[k] == mixed[k],
        decreases 8 - i,
    {
        let word = scramble(scramble(state[i], 0x9E37_79B9, 13), 0x85EB_CA6B, 16);
        state.set(i, word);
        i = i + 1;
    }
    proof {
        assert(state@ =~= second_digest(input.spec_bytes()));
    }
    hex_string(&state)
}

/// The places below `end` at which two sequences of characters differ,
/// ascending.
pub open spec fn differences(a: Seq<char>, b: Seq<char>, end: int) -> Seq<u32>
    decreases end,
{
    if end <= 0 {
        Seq::empty()
    } else if a[end - 1] != b[end - 1] {
        differences(a, b, end - 1).push((end - 1) as u32)
    } else {
        differences(a, b, end - 1)
    }
}

/// The hexadecimal digits of `count` words number eight times as many.
pub proof fn lemma_hex_words_len(words: Seq<u32>, count: int)
    requires
        0 <= count,
    ensures
        hex_words(words, count).len() == 8 * count,
    decreases count,
{
    if count > 0 {
        lemma_hex_words_len(words, count - 1);
    }
}

/// The places at which the second digests of two strings differ, among
/// their 64 hexadecimal digits.
pub fn demonstrate_avalanche_effect(input1: &str, input2: &str) -> (places: Vec<u32>)
    ensures
        places@ == differences(
            hex_words(second_digest(input1.spec_bytes()), 8),
            hex_words(second_digest(input2.spec_bytes()), 8),
            64,
        ),
{
    let hash1 = demo_sha_hash(input1);
    let hash2 = demo_sha_hash(input2);
    let chars1 = crate::text::chars_of(hash1.as_str());
    let chars2 = crate::text::chars_of(hash2.as_str());
    proof {
        lemma_hex_words_len(second_digest(input1.spec_bytes()), 8);
        lemma_hex_words_len(second_digest(input2.spec_bytes()), 8);
    }
    let mut places: Vec<u32> = Vec::new();
    let mut i: usize = 0;
    while i < 64
        invariant
            i <= 64,
            chars1@.len() == 64,
            chars2@.len() == 64,
            places@ == differences(chars1@, chars2@, i as int),
        decreases 64 - i,
    {
        if chars1[i] != chars2[i] {
            places.push(i as u32);
        }
        i = i + 1;
    }
    places
}

/// The decimal digits of a number, the highest first.
pub open spec fn decimal(n: nat) -> Seq<u8>
    decreases n,
{
    if n < 10 {
        seq![(0x30 + n) as u8]
    } else {
        decimal(n / 10).push((0x30 + n % 10) as u8)
    }
}

/// The bytes of the candidate with the given number: `test` and the
/// number's decimal digits.
pub open spec fn candidate(n: nat) -> Seq<u8> {
    seq![0x74u8, 0x65u8, 0x73u8, 0x74u8] + decimal(n)
}

/// The characters that ASCII bytes stand for.
pub open spec fn ascii_chars(bytes: Seq<u8>) -> Seq<char> {
    Seq::new(bytes.len(), |k: int| bytes[k] as char)
}

/// The bytes of the candidate with the given number.
fn candidate_bytes(n: u32) -> (bytes: Vec<u8>)
    ensures
        bytes@ == candidate(n as nat),
{
    let mut digits: Vec<u8> = Vec::new();
    let mut rest: u32 = n;
    // The digits from the lowest up.
    digits.push(0x30 + (rest % 10) as u8);
    rest = rest / 10;
    let ghost mut taken: Seq<u8> = seq![(0x30 + n % 10) as u8];
    proof {
        assert(taken.reverse() =~= taken);
        if n >= 10 {
            assert(decimal((n / 10) as nat).push((0x30 + n % 10) as u8) =~= decimal(
                (n / 10) as nat,
            ) + taken);
        }
    }
    while rest > 0
        invariant
            digits@ == taken,
            rest > 0 ==> decimal(n as nat) == decimal(rest as nat) + taken.reverse(),
            rest == 0 ==> decimal(n as nat) == taken.reverse(),
        decreases rest,
    {
        proof {
            let low = (0x30 + rest % 10) as u8;
            assert(decimal(rest as nat) == if rest < 10 {
                seq![low]
            } else {
                decimal((rest / 10) as nat).push(low)
            });
            assert(taken.push(low).reverse() =~= seq![low] + taken.reverse());
            if rest >= 10 {
                assert(decimal((rest / 10) as nat).push(low) + taken.reverse() =~= decimal(
                    (rest / 10) as nat,
                ) + (seq![low] + taken.reverse()));
            } else {
                assert(seq![low] + taken.reverse() =~= taken.push(low).reverse());
            }
            taken = taken.push(low);
        }
        digits.push(0x30 + (rest % 10) as u8);
        rest = rest / 10;
    }
    let mut bytes: Vec<u8> = Vec::new();
    bytes.push(0x74);
    bytes.push(0x65);
    bytes.push(0x73);
    bytes.push(0x74);
    let count = digits.len();
    let mut i: usize = 0;
    while i < count
        invariant
            i <= count == digits@.len(),
            bytes@ == seq![0x74u8, 0x65u8, 0x73u8, 0x74u8] + digits@.reverse().take(i as int),
        decreases count - i,
    {
        bytes.push(digits[count - 1 - i]);
        proof {
            assert(digits@.reverse().take(i + 1) =~= digits@.reverse().take(i as int).push(
                digits@[count - 1 - i],
            ));
            assert(bytes@ =~= seq![0x74u8, 0x65u8, 0x73u8, 0x74u8] + digits@.reverse().take(
                i + 1,
            ));
        }
        i = i + 1;
    }
    proof {
        assert(digits@.reverse().take(count as int) =~= digits@.reverse());
    }
    bytes
}

/// The Bernstein hash of bytes.
fn bernstein_of(bytes: &Vec<u8>) -> (hash: u32)
    ensures
        hash == bernstein(bytes@),
{
    let mut hash: u32 = 5381;
    let mut i: usize = 0;
    while i < bytes.len()
        invariant
            i <= bytes.len(),
            hash == bernstein(bytes@.take(i as int)),
        decreases bytes.len() - i,
    {
        proof {
            assert(bytes@.take(i + 1).drop_last() =~= bytes@.take(i as int));
        }
        hash = ((hash as u64 * 33 + bytes[i] as u64) % 0x1_0000_0000) as u32;
        i = i + 1;
    }
    proof {
        assert(bytes@.take(i as int) =~= bytes@);
    }
    hash
}

/// The string that ASCII bytes spell.
fn ascii_string(bytes: &Vec<u8>) -> (s: String)
    requires
        forall|k: int| 0 <= k < bytes@.len() ==> bytes@[k] < 0x80,
    ensures
        s@ == ascii_chars(bytes@),
{
    let mut chars: Vec<char> = Vec::new();
    let mut i: usize = 0;
    while i < bytes.len()
        invariant
            i <= bytes.len(),
            chars@.len() == i,
            forall|k: int| 0 <= k < i ==> chars@[k] == bytes@[k] as char,
        decreases bytes.len() - i,
    {
        chars.push(bytes[i] as char);
        i = i + 1;
    }
    proof {
        assert(chars@ =~= ascii_chars(bytes@));
    }
    string_of(&chars)
}

/// Every byte of a candidate is an ASCII character.
pub proof fn lemma_candidate_ascii(n: nat)
    ensures
        forall|k: int| 0 <= k < candidate(n).len() ==> #[trigger] candidate(n)[k] < 0x80,
{
    lemma_decimal_ascii(n);
}

/// Every decimal digit is an ASCII character.
pub proof fn lemma_decimal_ascii(n: nat)
    ensures
        forall|k: int| 0 <= k < decimal(n).len() ==> #[trigger] decimal(n)[k] < 0x80,
    decreases n,
{
    if n >= 10 {
        lemma_decimal_ascii(n / 10);
        let front = decimal(n / 10);
        assert forall|k: int| 0 <= k < decimal(n).len() implies #[trigger] decimal(n)[k]
            < 0x80 by {
            if k < front.len() {
                assert(decimal(n)[k] == front[k]);
            }
        }
    }
}

/// The first of the candidates `test0`, `test1`, ... below `max_attempts`
/// whose Bernstein hash is `target_hash`; the words `No collision found`
/// where there is none.
pub fn find_simple_collision(target_hash: u32, max_attempts: u32) -> (found: String)
    ensures
        (exists|n: nat| n < max_attempts && bernstein(candidate(n)) == target_hash) ==> exists|
            n: nat,
        |
            {
                &&& n < max_attempts
                &&& bernstein(candidate(n)) == target_hash
                &&& forall|k: nat| k < n ==> bernstein(candidate(k)) != target_hash
                &&& found@ == ascii_chars(candidate(n))
            },
        (forall|n: nat| n < max_attempts ==> bernstein(candidate(n)) != target_hash) ==> found@
            == "No collision found"@,
{
    let mut i: u32 = 0;
    while i < max_attempts
        invariant
            i <= max_attempts,
            forall|k: nat| k < i ==> bernstein(candidate(k)) != target_hash,
        decreases max_attempts - i,
    {
        let bytes = candidate_bytes(i);
        if bernstein_of(&bytes) == target_hash {
            proof {
                lemma_candidate_ascii(i as nat);
            }
            return ascii_string(&bytes);
        }
        i = i + 1;
    }
    String::from_str("No collision found")
}

} // verus!
