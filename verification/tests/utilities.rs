use portfolio_wasm::cipher::{
    caesar_decrypt, caesar_encrypt, rot13, simple_base64_encode, substitute, substitution_encrypt,
    xor_bytes, xor_decrypt, xor_encrypt,
};
use portfolio_wasm::digest::{
    demo_md5_hash, demo_sha_hash, demonstrate_avalanche_effect, find_simple_collision,
};
use portfolio_wasm::hashing::{
    checksum, checksum_fits, crc32, fnv1a_hash, hash_to_color, hash_to_pattern, simple_hash,
};
use portfolio_wasm::numeric::{fibonacci, prime_sieve};
use portfolio_wasm::text::{chars_of, count_words, greet, is_whitespace, reverse_string, string_of};

const SAMPLES: [&str; 8] = [
    "",
    "a",
    "abc",
    "Hello, World!",
    "The quick brown fox jumps over the lazy dog",
    "größer als 日本語 🙂",
    "\t tabs\nand\r\nlines \u{3000}wide\u{a0}space ",
    "0123456789012345678901234567890123456789012345678901234567890123456789",
];

#[test]
fn fibonacci_numbers() {
    let expected: [u64; 12] = [0, 1, 1, 2, 3, 5, 8, 13, 21, 34, 55, 89];
    for (n, want) in expected.iter().enumerate() {
        assert_eq!(fibonacci(n as u32), *want);
    }
    assert_eq!(fibonacci(50), 12586269025);
    assert_eq!(fibonacci(90), 2880067194370816120);
    assert_eq!(fibonacci(93), 12200160415121876738);
}

#[test]
fn primes_up_to_a_limit() {
    assert_eq!(prime_sieve(0), Vec::<u32>::new());
    assert_eq!(prime_sieve(1), Vec::<u32>::new());
    assert_eq!(prime_sieve(2), vec![2]);
    assert_eq!(prime_sieve(3), vec![2, 3]);
    assert_eq!(prime_sieve(4), vec![2, 3]);
    assert_eq!(prime_sieve(30), vec![2, 3, 5, 7, 11, 13, 17, 19, 23, 29]);
    assert_eq!(prime_sieve(49).last(), Some(&47));
    assert_eq!(prime_sieve(100).len(), 25);
    assert_eq!(prime_sieve(10000).len(), 1229);
    let primes = prime_sieve(2000);
    let mut n = 0u32;
    while n <= 2000 {
        let prime = n >= 2 && (2..n).all(|d| n % d != 0);
        assert_eq!(primes.contains(&n), prime, "{}", n);
        n += 1;
    }
}

#[test]
fn bernstein_hash() {
    assert_eq!(simple_hash(""), 5381);
    assert_eq!(simple_hash("a"), 5381 * 33 + 97);
    for text in SAMPLES {
        let mut want = 5381u32;
        for byte in text.bytes() {
            want = want.wrapping_mul(33).wrapping_add(byte as u32);
        }
        assert_eq!(simple_hash(text), want);
    }
}

#[test]
fn fowler_noll_vo_hash() {
    assert_eq!(fnv1a_hash(""), 0x811c_9dc5);
    assert_eq!(fnv1a_hash("a"), 0xe40c_292c);
    assert_eq!(fnv1a_hash("foobar"), 0xbf9c_f968);
    for text in SAMPLES {
        let mut want = 2166136261u32;
        for byte in text.bytes() {
            want ^= byte as u32;
            want = want.wrapping_mul(16777619);
        }
        assert_eq!(fnv1a_hash(text), want);
    }
}

#[test]
fn sum_of_bytes() {
    assert_eq!(checksum(&[]), 0);
    assert_eq!(checksum(&[1, 2, 3]), 6);
    assert_eq!(checksum(&[255; 1000]), 255000);
    assert_eq!(checksum("abc".as_bytes()), 294);
    assert!(checksum_fits(&[]));
    assert!(checksum_fits(&[255; 1000]));
    let many = vec![255u8; 16843009];
    assert!(checksum_fits(&many));
    assert_eq!(checksum(&many), u32::MAX);
    let more = vec![255u8; 16843010];
    assert!(!checksum_fits(&more));
    let low = vec![1u8; 20000000];
    assert!(checksum_fits(&low));
    assert_eq!(checksum(&low), 20000000);
}

#[test]
fn cyclic_redundancy_check() {
    assert_eq!(crc32(&[]), 0);
    assert_eq!(crc32("123456789".as_bytes()), 0xCBF4_3926);
    assert_eq!(crc32("The quick brown fox jumps over the lazy dog".as_bytes()), 0x414F_A339);
    assert_eq!(crc32(&[0]), 0xD202_EF8D);
}

fn first_digest(input: &str) -> String {
    let mut hash = [0x67452301u32, 0xEFCDAB89, 0x98BADCFE, 0x10325476];
    for (i, &byte) in input.as_bytes().iter().enumerate() {
        let idx = i % 4;
        hash[idx] = hash[idx].wrapping_add(byte as u32);
        hash[idx] = hash[idx].rotate_left(7);
        hash[idx] ^= hash[(idx + 1) % 4];
    }
    for i in 0..4 {
        hash[i] = hash[i].wrapping_mul(0x9E3779B9);
        hash[i] ^= hash[i] >> 16;
    }
    format!("{:08x}{:08x}{:08x}{:08x}", hash[0], hash[1], hash[2], hash[3])
}

fn second_digest(input: &str) -> String {
    let mut hash = [
        0x6A09E667u32, 0xBB67AE85, 0x3C6EF372, 0xA54FF53A, 0x510E527F, 0x9B05688C, 0x1F83D9AB,
        0x5BE0CD19,
    ];
    for (i, &byte) in input.as_bytes().iter().enumerate() {
        let idx = i % 8;
        hash[idx] = hash[idx].wrapping_add(byte as u32);
        hash[idx] = hash[idx].rotate_right(11);
        hash[idx] ^= hash[(idx + 1) % 8];
    }
    for i in 0..8 {
        hash[i] = hash[i].wrapping_mul(0x9E3779B9);
        hash[i] ^= hash[i] >> 13;
        hash[i] = hash[i].wrapping_mul(0x85EBCA6B);
        hash[i] ^= hash[i] >> 16;
    }
    let mut out = String::new();
    for word in hash {
        out.push_str(&format!("{:08x}", word));
    }
    out
}

#[test]
fn demonstration_digests() {
    for text in SAMPLES {
        assert_eq!(demo_md5_hash(text), first_digest(text));
        assert_eq!(demo_sha_hash(text), second_digest(text));
    }
    assert_eq!(demo_md5_hash("").len(), 32);
    assert_eq!(demo_sha_hash("").len(), 64);
    assert!(demo_md5_hash("abc").chars().all(|c| c.is_ascii_hexdigit() && !c.is_ascii_uppercase()));
}

#[test]
fn avalanche_of_the_second_digest() {
    assert_eq!(demonstrate_avalanche_effect("same", "same"), Vec::<u32>::new());
    let a = second_digest("hello");
    let b = second_digest("hellp");
    let mut want = Vec::new();
    for (i, (x, y)) in a.chars().zip(b.chars()).enumerate() {
        if x != y {
            want.push(i as u32);
        }
    }
    assert!(!want.is_empty());
    assert_eq!(demonstrate_avalanche_effect("hello", "hellp"), want);
}

#[test]
fn collisions_of_the_bernstein_hash() {
    assert_eq!(find_simple_collision(simple_hash("test0"), 1), "test0");
    assert_eq!(find_simple_collision(simple_hash("test5"), 10), "test5");
    assert_eq!(find_simple_collision(simple_hash("test5"), 5), "No collision found");
    assert_eq!(find_simple_collision(simple_hash("test1234"), 2000), "test1234");
    assert_eq!(find_simple_collision(simple_hash("test907"), 908), "test907");
    assert_eq!(find_simple_collision(simple_hash("test10"), 11), "test10");
    assert_eq!(find_simple_collision(12345, 0), "No collision found");
    assert_eq!(find_simple_collision(1, 300), "No collision found");
}

#[test]
fn colours_of_hashes() {
    assert_eq!(hash_to_color(0x00000000), 0x404040);
    assert_eq!(hash_to_color(0xFFFFFFFF), 0xFFFFFF);
    assert_eq!(hash_to_color(0x12345678), 0x74_56_78);
    assert_eq!(hash_to_color(0xAB3F40C1), 0x7F_40_C1);
    assert_eq!(hash_to_color(0x00_10_20_3F), 0x50_60_7F);
}

#[test]
fn patterns_of_hashes() {
    assert_eq!(hash_to_pattern(7, 0), Vec::<u32>::new());
    let pattern = hash_to_pattern(42, 3);
    assert_eq!(pattern.len(), 9);
    let mut current = 42u32;
    for colour in pattern {
        current = current.wrapping_mul(1664525).wrapping_add(1013904223);
        assert_eq!(colour, hash_to_color(current));
    }
}

#[test]
fn shifts_of_the_alphabet() {
    assert_eq!(caesar_encrypt("Hello, World!", 3), "Khoor, Zruog!");
    assert_eq!(caesar_decrypt("Khoor, Zruog!", 3), "Hello, World!");
    assert_eq!(caesar_encrypt("xyz XYZ", 3), "abc ABC");
    assert_eq!(caesar_encrypt("abc", -1), "zab");
    assert_eq!(caesar_encrypt("abc", 26), "abc");
    assert_eq!(caesar_encrypt("abc", 27), "bcd");
    assert_eq!(caesar_encrypt("abc", -27), "zab");
    assert_eq!(caesar_encrypt("abc", i32::MAX), caesar_encrypt("abc", i32::MAX % 26));
    assert_eq!(caesar_encrypt("abc", i32::MIN), caesar_encrypt("abc", 26 + i32::MIN % 26));
    assert_eq!(caesar_decrypt("abc", i32::MIN), caesar_encrypt("abc", -(i32::MIN % 26)));
    assert_eq!(caesar_encrypt("größer 日本語", 1), "hsößfs 日本語");
    assert_eq!(rot13("Hello"), "Uryyb");
    for text in SAMPLES {
        assert_eq!(rot13(&rot13(text)), text);
        let mut shift = -60;
        while shift <= 60 {
            assert_eq!(caesar_decrypt(&caesar_encrypt(text, shift), shift), text);
            shift += 7;
        }
    }
}

#[test]
fn xor_with_a_key() {
    assert_eq!(xor_encrypt("abc", ""), vec![97, 98, 99]);
    assert_eq!(xor_encrypt("abc", "k"), vec![97 ^ 107, 98 ^ 107, 99 ^ 107]);
    assert_eq!(xor_encrypt("abcd", "xy"), vec![97 ^ 120, 98 ^ 121, 99 ^ 120, 100 ^ 121]);
    assert_eq!(xor_bytes(&[1, 2, 3], &[]), vec![1, 2, 3]);
    for text in SAMPLES {
        for key in ["", "k", "key", "a longer key than most texts are"] {
            let cipher = xor_encrypt(text, key);
            assert_eq!(xor_decrypt(&cipher, key), text);
        }
    }
}

#[test]
fn xor_decrypt_replaces_what_is_not_text() {
    assert_eq!(xor_decrypt(&[0xFF, 0x41], ""), "\u{FFFD}A");
    assert_eq!(xor_decrypt(&[0xFF ^ 0x20, 0x41 ^ 0x20], " "), "\u{FFFD}A");
    assert_eq!(xor_decrypt(&[0xE6, 0x97], ""), "\u{FFFD}");
}

#[test]
fn base_64() {
    assert_eq!(simple_base64_encode(""), "");
    assert_eq!(simple_base64_encode("f"), "Zg==");
    assert_eq!(simple_base64_encode("fo"), "Zm8=");
    assert_eq!(simple_base64_encode("foo"), "Zm9v");
    assert_eq!(simple_base64_encode("foob"), "Zm9vYg==");
    assert_eq!(simple_base64_encode("fooba"), "Zm9vYmE=");
    assert_eq!(simple_base64_encode("foobar"), "Zm9vYmFy");
    assert_eq!(simple_base64_encode("Hello, World!"), "SGVsbG8sIFdvcmxkIQ==");
    assert_eq!(simple_base64_encode("\u{3e8}??>"), "z6g/Pz4=");
    assert_eq!(simple_base64_encode("ÿþ"), "w7/Dvg==");
}

#[test]
fn substitution_by_a_key() {
    let key = "QWERTYUIOPASDFGHJKLZXCVBNM";
    assert_eq!(substitution_encrypt("Hello, World!", key), "Itssg, Vgksr!");
    assert_eq!(substitution_encrypt("abc xyz", key), "qwe bnm");
    // A key in lower case is taken in upper case.
    assert_eq!(substitution_encrypt("Hello", "qwertyuiopasdfghjklzxcvbnm"), "Itssg");
    // A key of another length leaves the text.
    assert_eq!(substitution_encrypt("Hello", "QWERTY"), "Hello");
    assert_eq!(substitution_encrypt("Hello", ""), "Hello");
    // 26 bytes, but fewer characters: a letter beyond the key stays, and
    // only the letters of ASCII follow the case of the text.
    let short = "ÄBCDEFGHIJKLMNOPQRSTUVWXY";
    assert_eq!(short.len(), 26);
    assert_eq!(substitution_encrypt("az AZ by", short), "Äz ÄZ by");
    // The key is not put in upper case by `substitute` itself.
    assert_eq!(substitute("ab", "xy"), "xy");
    assert_eq!(substitute("AB", "xy"), "xy");
    assert_eq!(substitute("abC", "XY"), "xyC");
}

#[test]
fn strings_reversed() {
    assert_eq!(reverse_string(""), "");
    assert_eq!(reverse_string("abc"), "cba");
    assert_eq!(reverse_string("日本語 ok"), "ko 語本日");
    for text in SAMPLES {
        assert_eq!(reverse_string(text), text.chars().rev().collect::<String>());
        assert_eq!(string_of(&chars_of(text)), text);
        assert_eq!(chars_of(text), text.chars().collect::<Vec<char>>());
    }
}

#[test]
fn words_counted() {
    assert_eq!(count_words(""), 0);
    assert_eq!(count_words("   "), 0);
    assert_eq!(count_words("one"), 1);
    assert_eq!(count_words("  hello   world  "), 2);
    assert_eq!(count_words("a\tb\nc\u{3000}d\u{a0}e"), 5);
    for text in SAMPLES {
        assert_eq!(count_words(text), text.split_whitespace().count() as u32);
    }
}

#[test]
fn white_space_is_that_of_unicode() {
    let mut u = 0u32;
    while u <= 0x10FFFF {
        if let Some(c) = char::from_u32(u) {
            assert_eq!(is_whitespace(c), c.is_whitespace(), "{:x}", u);
        }
        u += 1;
    }
}

#[test]
fn greeting() {
    assert_eq!(greet("Ada"), "Hello, Ada! WASM is working perfectly.");
    assert_eq!(greet(""), "Hello, ! WASM is working perfectly.");
}
