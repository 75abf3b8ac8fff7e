//! Strings as sequences of characters.

use vstd::prelude::*;
use vstd::string::*;

verus! {

/// `String::push` appends the character to the end of the string.
pub assume_specification[ String::push ](s: &mut String, c: char)
    ensures
        final(s)@ == old(s)@.push(c),
;

/// The characters of a string, in order.
pub fn chars_of(s: &str) -> (v: Vec<char>)
    ensures
        v@ == s@,
{
    broadcast use axiom_spec_iter;

    let mut v: Vec<char> = Vec::new();
    for c in it: s.chars()
        invariant
            it.seq() == s@,
            v@ == it.seq().take(it.index() as int),
    {
        v.push(c);
        assert(it.seq().take(it.index() + 1) =~= it.seq().take(it.index() as int).push(c));
    }
    assert(v@ =~= s@);
    v
}

/// The string made of the characters, in order.
pub fn string_of(chars: &Vec<char>) -> (s: String)
    ensures
        s@ == chars@,
{
    let mut s = String::new();
    let mut i: usize = 0;
    while i < chars.len()
        invariant
            i <= chars.len(),
            s@ == chars@.take(i as int),
        decreases chars.len() - i,
    {
        s.push(chars[i]);
        proof {
            assert(chars@.take(i + 1) =~= chars@.take(i as int).push(chars@[i as int]));
        }
        i = i + 1;
    }
    proof {
        assert(chars@.take(i as int) =~= chars@);
    }
    s
}

/// The string with its characters in reverse order.
pub fn reverse_string(s: &str) -> (r: String)
    ensures
        r@ == s@.reverse(),
{
    let chars = chars_of(s);
    let mut r = String::new();
    let n = chars.len();
    let mut i: usize = 0;
    while i < n
        invariant
            i <= n == chars.len(),
            r@ == chars@.reverse().take(i as int),
        decreases n - i,
    {
        r.push(chars[n - 1 - i]);
        proof {
            assert(chars@.reverse().take(i + 1) =~= chars@.reverse().take(i as int).push(
                chars@[n - 1 - i],
            ));
        }
        i = i + 1;
    }
    proof {
        assert(chars@.reverse().take(n as int) =~= chars@.reverse());
    }
    r
}

/// Whether a character is white space: one of the twenty-five characters
/// with the Unicode property White_Space.
pub open spec fn is_space(c: char) -> bool {
    let u = c as u32;
    ||| 0x09 <= u <= 0x0D
    ||| u == 0x20
    ||| u == 0x85
    ||| u == 0xA0
    ||| u == 0x1680
    ||| 0x2000 <= u <= 0x200A
    ||| u == 0x2028
    ||| u == 0x2029
    ||| u == 0x202F
    ||| u == 0x205F
    ||| u == 0x3000
}

/// Whether a word starts at `i`: a character that is not white space, at
/// the start or after white space.
pub open spec fn word_starts_at(s: Seq<char>, i: int) -> bool {
    !is_space(s[i]) && (i == 0 || is_space(s[i - 1]))
}

/// The number of words among the first `end` characters: of the maximal
/// runs of characters that are not white space.
pub open spec fn words(s: Seq<char>, end: int) -> nat
    decreases end,
{
    if end <= 0 {
        0
    } else if word_starts_at(s, end - 1) {
        words(s, end - 1) + 1
    } else {
        words(s, end - 1)
    }
}

/// Whether a character is white space.
pub fn is_whitespace(c: char) -> (r: bool)
    ensures
        r == is_space(c),
{
    let u: u32 = c as u32;
    (0x09 <= u && u <= 0x0D) || u == 0x20 || u == 0x85 || u == 0xA0 || u == 0x1680 || (0x2000 <= u
        && u <= 0x200A) || u == 0x2028 || u == 0x2029 || u == 0x202F || u == 0x205F || u == 0x3000
}

/// The number of words in a string, modulo 2^32.
pub fn count_words(s: &str) -> (count: u32)
    ensures
        count == words(s@, s@.len() as int) % 0x1_0000_0000,
{
    let chars = chars_of(s);
    let mut count: usize = 0;
    let mut after_space: bool = true;
    let mut i: usize = 0;
    while i < chars.len()
        invariant
            i <= chars.len(),
            chars@ == s@,
            count == words(s@, i as int),
            count <= i,
            after_space == (i == 0 || is_space(s@[i - 1])),
        decreases chars.len() - i,
    {
        let space = is_whitespace(chars[i]);
        if !space && after_space {
            count = count + 1;
        }
        after_space = space;
        i = i + 1;
    }
    ((count as u64) % 0x1_0000_0000) as u32
}

/// A greeting for `name`.
pub fn greet(name: &str) -> (r: String)
    ensures
        r@ == "Hello, "@ + name@ + "! WASM is working perfectly."@,
{
    let mut r = String::from_str("Hello, ");
    r.append(name);
    r.append("! WASM is working perfectly.");
    r
}

} // verus!
