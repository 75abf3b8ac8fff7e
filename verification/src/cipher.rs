//! Toy ciphers and an encoding: shifts of the alphabet, xor with a key,
//! substitution by a key, and base 64.

use crate::text::{chars_of, string_of};
use vstd::prelude::*;
use vstd::string::StringSliceAdditionalSpecFns;

verus! {

/// Whether a character is one of `a` to `z`.
pub open spec fn is_lower(c: char) -> bool {
    0x61 <= c as u32 <= 0x7A
}

/// Whether a character is one of `A` to `Z`.
pub open spec fn is_upper(c: char) -> bool {
    0x41 <= c as u32 <= 0x5A
}

/// A letter moved `k` places along its alphabet, around the end, for
/// `0 <= k < 26`; any other character as it is.
pub open spec fn shifted(c: char, k: int) -> char {
    if is_lower(c) {
        (0x61 + (c as u32 - 0x61 + k) % 26) as char
    } else if is_upper(c) {
        (0x41 + (c as u32 - 0x41 + k) % 26) as char
    } else {
        c
    }
}

/// A text with every letter moved `shift` places along its alphabet.
pub open spec fn shifted_text(text: Seq<char>, shift: int) -> Seq<char> {
    Seq::new(text.len(), |i: int| shifted(text[i], shift % 26))
}

/// Whether a character is one of `a` to `z`.
pub fn is_ascii_lowercase(c: char) -> (r: bool)
    ensures
        r == is_lower(c),
{
    let u: u32 = c as u32;
    0x61 <= u && u <= 0x7A
}

/// Whether a character is one of `A` to `Z`.
pub fn is_ascii_uppercase(c: char) -> (r: bool)
    ensures
        r == is_upper(c),
{
    let u: u32 = c as u32;
    0x41 <= u && u <= 0x5A
}

/// A letter moved `k` places along its alphabet; any other character as it is.
fn shift_char(c: char, k: u8) -> (r: char)
    requires
        k < 26,
    ensures
        r == shifted(c, k as int),
{
    if is_ascii_lowercase(c) {
        (0x61 + ((c as u32 - 0x61) as u8 + k) % 26) as char
    } else if is_ascii_uppercase(c) {
        (0x41 + ((c as u32 - 0x41) as u8 + k) % 26) as char
    } else {
        c
    }
}

/// A text with every letter moved `k` places along its alphabet.
fn shift_text(text: &str, k: u8) -> (r: String)
    requires
        k < 26,
    ensures
        r@ == Seq::new(text@.len(), |i: int| shifted(text@[i], k as int)),
{
    let chars = chars_of(text);
    let mut out: Vec<char> = Vec::new();
    let mut i: usize = 0;
    while i < chars.len()
        invariant
            i <= chars.len(),
            k < 26,
            out@.len() == i,
            forall|j: int| 0 <= j < i ==> out@[j] == shifted(chars@[j], k as int),
        decreases chars.len() - i,
    {
        out.push(shift_char(chars[i], k));
        i = i + 1;
    }
    proof {
        assert(out@ =~= Seq::new(text@.len(), |i: int| shifted(text@[i], k as int)));
    }
    string_of(&out)
}

/// The shift brought into `0..26`.
fn normalized(shift: i32) -> (k: u8)
    ensures
        k == shift % 26,
        k < 26,
{
    let wide: i64 = shift as i64;
    if wide >= 0 {
        (wide % 26) as u8
    } else {
        let back: i64 = (-wide) % 26;
        if back == 0 {
            0
        } else {
            (26 - back) as u8
        }
    }
}

/// The text with every letter moved `shift` places forward along its
/// alphabet, around the end; a negative shift moves backward.
pub fn caesar_encrypt(text: &str, shift: i32) -> (r: String)
    ensures
        r@ == shifted_text(text@, shift as int),
{
    let k = normalized(shift);
    let r = shift_text(text, k);
    proof {
        assert(r@ =~= shifted_text(text@, shift as int));
    }
    r
}

/// The text with every letter moved `shift` places backward.
pub fn caesar_decrypt(text: &str, shift: i32) -> (r: String)
    ensures
        r@ == shifted_text(text@, -(shift as int)),
{
    let k = normalized(shift);
    let back: u8 = if k == 0 {
        0
    } else {
        26 - k
    };
    let r = shift_text(text, back);
    proof {
        assert((-(shift as int)) % 26 == back as int);
        assert(r@ =~= shifted_text(text@, -(shift as int)));
    }
    r
}

/// The text with every letter moved thirteen places: its own inverse.
pub fn rot13(text: &str) -> (r: String)
    ensures
        r@ == shifted_text(text@, 13),
{
    caesar_encrypt(text, 13)
}

/// Decrypting undoes encrypting: moving a letter `k` places forward and
/// then `k` places backward gives the letter back.
pub proof fn law_shift_inverse(c: char, shift: int)
    ensures
        shifted(shifted(c, shift % 26), (-shift) % 26) == c,
{
    let k = shift % 26;
    let back = (-shift) % 26;
    assert((k + back) % 26 == 0);
    if is_lower(c) {
        let x = c as u32 - 0x61;
        assert(((x + k) % 26 + back) % 26 == x);
    } else if is_upper(c) {
        let x = c as u32 - 0x41;
        assert(((x + k) % 26 + back) % 26 == x);
    }
}

/// The bytes xored with the key, repeated as often as needed; the bytes
/// themselves where the key is empty.
pub open spec fn xored(data: Seq<u8>, key: Seq<u8>) -> Seq<u8> {
    if key.len() == 0 {
        data
    } else {
        Seq::new(data.len(), |i: int| data[i] ^ key[i % (key.len() as int)])
    }
}

/// The bytes xored with the key, repeated as often as needed.
pub fn xor_bytes(data: &[u8], key: &[u8]) -> (r: Vec<u8>)
    ensures
        r@ == xored(data@, key@),
{
    let mut out: Vec<u8> = Vec::new();
    let mut i: usize = 0;
    while i < data.len()
        invariant
            i <= data.len(),
            out@.len() == i,
            forall|j: int|
                0 <= j < i ==> out@[j] == if key@.len() == 0 {
                    data@[j]
                } else {
                    data@[j] ^ key@[j % (key@.len() as int)]
                },
        decreases data.len() - i,
    {
        if key.len() == 0 {
            out.push(data[i]);
        } else {
            out.push(data[i] ^ key[i % key.len()]);
        }
        i = i + 1;
    }
    proof {
        assert(out@ =~= xored(data@, key@));
    }
    out
}

/// The bytes of the text xored with the bytes of the key.
pub fn xor_encrypt(text: &str, key: &str) -> (r: Vec<u8>)
    ensures
        r@ == xored(text.spec_bytes(), key.spec_bytes()),
{
    xor_bytes(text.as_bytes(), key.as_bytes())
}

/// The text that `String::from_utf8_lossy` reads from bytes: their
/// characters, with U+FFFD in place of what is not UTF-8.
pub uninterp spec fn lossy_text(bytes: Seq<u8>) -> Seq<char>;

/// `String::from_utf8_lossy`: the text read from the bytes, invalid
/// sequences replaced. The result is a function of the bytes alone; it is
/// named, not described.
#[verifier::external_body]
fn read_lossy(bytes: &Vec<u8>) -> (text: String)
    ensures
        text@ == lossy_text(bytes@),
{
    String::from_utf8_lossy(bytes).into_owned()
}

/// The text read from the data xored with the bytes of the key.
pub fn xor_decrypt(data: &[u8], key: &str) -> (r: String)
    ensures
        r@ == lossy_text(xored(data@, key.spec_bytes())),
{
    let plain = xor_bytes(data, key.as_bytes());
    read_lossy(&plain)
}

/// Xoring twice with the same key gives the bytes back.
pub proof fn law_xor_inverse(data: Seq<u8>, key: Seq<u8>)
    ensures
        xored(xored(data, key), key) == data,
{
    if key.len() > 0 {
        assert forall|i: int| 0 <= i < data.len() implies xored(xored(data, key), key)[i]
            == data[i] by {
            let a = data[i];
            let k = key[i % (key.len() as int)];
            assert((a ^ k) ^ k == a) by (bit_vector);
        }
    }
    assert(xored(xored(data, key), key) =~= data);
}

/// The character of base 64 for a value below 64.
pub open spec fn base64_char(v: int) -> char {
    if v < 26 {
        (0x41 + v) as char
    } else if v < 52 {
        (0x61 + v - 26) as char
    } else if v < 62 {
        (0x30 + v - 52) as char
    } else if v == 62 {
        '+'
    } else {
        '/'
    }
}

/// The four characters that encode a group of one, two or three bytes:
/// six bits each, padded with `=` where the group is short.
pub open spec fn base64_group(group: Seq<u8>) -> Seq<char> {
    let b0 = group[0] as int;
    let b1 = if group.len() > 1 {
        group[1] as int
    } else {
        0
    };
    let b2 = if group.len() > 2 {
        group[2] as int
    } else {
        0
    };
    seq![
        base64_char(b0 / 4),
        base64_char((b0 % 4) * 16 + b1 / 16),
        if group.len() > 1 {
            base64_char((b1 % 16) * 4 + b2 / 64)
        } else {
            '='
        },
        if group.len() > 2 {
            base64_char(b2 % 64)
        } else {
            '='
        },
    ]
}

/// The encoding of the bytes from `start` on, group by group.
pub open spec fn base64_from(bytes: Seq<u8>, start: int) -> Seq<char>
    decreases bytes.len() - start,
{
    if start < 0 || start >= bytes.len() {
        Seq::empty()
    } else if start + 3 >= bytes.len() {
        base64_group(bytes.subrange(start, bytes.len() as int))
    } else {
        base64_group(bytes.subrange(start, start + 3)) + base64_from(bytes, start + 3)
    }
}

/// The character of base 64 for a value below 64.
fn encode_value(v: u8) -> (c: char)
    requires
        v < 64,
    ensures
        c == base64_char(v as int),
{
    if v < 26 {
        (0x41 + v) as char
    } else if v < 52 {
        (0x61 + v - 26) as char
    } else if v < 62 {
        (0x30 + v - 52) as char
    } else if v == 62 {
        '+'
    } else {
        '/'
    }
}

/// The bytes of a string in base 64, padded.
pub fn simple_base64_encode(input: &str) -> (r: String)
    ensures
        r@ == base64_from(input.spec_bytes(), 0),
{
    let bytes = input.as_bytes();
    let n = bytes.len();
    let mut out: Vec<char> = Vec::new();
    let mut i: usize = 0;
    while i < n
        invariant
            i <= n == bytes@.len(),
            bytes@ == input.spec_bytes(),
            out@ + base64_from(bytes@, i as int) == base64_from(bytes@, 0),
        decreases n - i,
    {
        let left = n - i;
        let b0: u8 = bytes[i];
        let b1: u8 = if left > 1 {
            bytes[i + 1]
        } else {
            0
        };
        let b2: u8 = if left > 2 {
            bytes[i + 2]
        } else {
            0
        };
        let ghost before = out@;
        let ghost group = if left > 3 {
            bytes@.subrange(i as int, i + 3)
        } else {
            bytes@.subrange(i as int, n as int)
        };
        out.push(encode_value(b0 / 4));
        out.push(encode_value((b0 % 4) * 16 + b1 / 16));
        if left > 1 {
            out.push(encode_value((b1 % 16) * 4 + b2 / 64));
        } else {
            out.push('=');
        }
        if left > 2 {
            out.push(encode_value(b2 % 64));
        } else {
            out.push('=');
        }
        proof {
            assert(out@ =~= before + base64_group(group));
            if left > 3 {
                assert(base64_from(bytes@, i as int) == base64_group(group) + base64_from(
                    bytes@,
                    i + 3,
                ));
                assert(out@ + base64_from(bytes@, i + 3) =~= before + base64_from(
                    bytes@,
                    i as int,
                ));
            } else {
                assert(base64_from(bytes@, i as int) == base64_group(group));
                assert(out@ + Seq::<char>::empty() =~= before + base64_from(bytes@, i as int));
            }
        }
        if left > 3 {
            i = i + 3;
        } else {
            i = n;
        }
    }
    proof {
        assert(out@ + Seq::<char>::empty() =~= out@);
    }
    string_of(&out)
}

/// A letter in upper case; any other character as it is.
pub open spec fn upper_of(c: char) -> char {
    if is_lower(c) {
        (c as u32 - 0x20) as char
    } else {
        c
    }
}

/// A letter in lower case; any other character as it is.
pub open spec fn lower_of(c: char) -> char {
    if is_upper(c) {
        (c as u32 + 0x20) as char
    } else {
        c
    }
}

/// A letter replaced by the character that the key holds at the letter's
/// place in the alphabet, in the letter's case; the letter in upper case
/// where the key is too short; any other character as it is.
pub open spec fn substituted(c: char, key: Seq<char>) -> char {
    if is_lower(c) || is_upper(c) {
        let place = upper_of(c) as u32 - 0x41;
        let replaced = if place < key.len() {
            key[place as int]
        } else {
            upper_of(c)
        };
        if is_lower(c) {
            lower_of(replaced)
        } else {
            replaced
        }
    } else {
        c
    }
}

/// The text with every letter substituted by the key.
pub open spec fn substituted_text(text: Seq<char>, key: Seq<char>) -> Seq<char> {
    Seq::new(text.len(), |i: int| substituted(text[i], key))
}

/// A letter in upper case.
fn to_upper(c: char) -> (r: char)
    ensures
        r == upper_of(c),
{
    if is_ascii_lowercase(c) {
        ((c as u32 - 0x20) as u8) as char
    } else {
        c
    }
}

/// A letter in lower case.
fn to_lower(c: char) -> (r: char)
    ensures
        r == lower_of(c),
{
    if is_ascii_uppercase(c) {
        ((c as u32 + 0x20) as u8) as char
    } else {
        c
    }
}

/// The text with every letter replaced by the character that `key` holds
/// at the letter's place in the alphabet, in the letter's case.
pub fn substitute(text: &str, key: &str) -> (r: String)
    ensures
        r@ == substituted_text(text@, key@),
{
    let chars = chars_of(text);
    let table = chars_of(key);
    let mut out: Vec<char> = Vec::new();
    let mut i: usize = 0;
    while i < chars.len()
        invariant
            i <= chars.len(),
            table@ == key@,
            out@.len() == i,
            forall|j: int| 0 <= j < i ==> out@[j] == substituted(chars@[j], key@),
        decreases chars.len() - i,
    {
        let c = chars[i];
        let lower = is_ascii_lowercase(c);
        if lower || is_ascii_uppercase(c) {
            let upper = to_upper(c);
            let place: usize = (upper as u32 - 0x41) as usize;
            let replaced = if place < table.len() {
                table[place]
            } else {
                upper
            };
            if lower {
                out.push(to_lower(replaced));
            } else {
                out.push(replaced);
            }
        } else {
            out.push(c);
        }
        i = i + 1;
    }
    proof {
        assert(out@ =~= substituted_text(text@, key@));
    }
    string_of(&out)
}

/// The text that `str::to_uppercase` makes of a text: every character in
/// upper case by the rules of Unicode.
pub uninterp spec fn uppercased(text: Seq<char>) -> Seq<char>;

/// `str::to_uppercase`: the text in upper case. The result is a function
/// of the text alone; it is named, not described.
#[verifier::external_body]
fn uppercase(text: &str) -> (r: String)
    ensures
        r@ == uppercased(text@),
{
    text.to_uppercase()
}

/// The text with every letter replaced by the character that the key, in
/// upper case, holds at the letter's place in the alphabet. A key that is
/// not 26 bytes long leaves the text as it is.
pub fn substitution_encrypt(text: &str, key: &str) -> (r: String)
    ensures
        key.spec_bytes().len() == 26 ==> r@ == substituted_text(text@, uppercased(key@)),
        key.spec_bytes().len() != 26 ==> r@ == text@,
{
    if key.as_bytes().len() != 26 {
        return String::from_str(text);
    }
    let key_upper = uppercase(key);
    substitute(text, key_upper.as_str())
}

} // verus!
