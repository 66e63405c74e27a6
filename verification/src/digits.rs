//! Bytes as text: hexadecimal and base 32, in which keys and hashes are written.
use vstd::prelude::*;
use crate::outside;
use crate::text;

verus! {

broadcast use vstd::seq::group_seq_axioms;

/// Each byte as two lower-case hexadecimal digits, the high half first.
pub open spec fn hex_lower(data: Seq<u8>) -> Seq<char> {
    Seq::new(
        data.len() * 2,
        |i: int|
            if i % 2 == 0 {
                text::digit_char((data[i / 2] / 16) as nat)
            } else {
                text::digit_char((data[i / 2] % 16) as nat)
            },
    )
}

/// There is no bar among hexadecimal digits.
pub proof fn lemma_hex_lacks_bar(data: Seq<u8>)
    ensures
        !hex_lower(data).contains('|'),
{
    let s = hex_lower(data);
    assert forall|i: int| 0 <= i < s.len() implies s[i] != '|' by {
        let b = data[i / 2];
        assert(b / 16 < 16 && b % 16 < 16);
    }
}

/// Hexadecimal digits tell the bytes apart that they write.
pub proof fn law_hex_lower_injective(a: Seq<u8>, b: Seq<u8>)
    requires
        hex_lower(a) == hex_lower(b),
    ensures
        a == b,
{
    let x = hex_lower(a);
    let y = hex_lower(b);
    assert(x.len() == a.len() * 2 && y.len() == b.len() * 2);
    assert forall|i: int| 0 <= i < a.len() implies a[i] == b[i] by {
        assert((2 * i) / 2 == i && (2 * i + 1) / 2 == i);
        assert((2 * i) % 2 == 0 && (2 * i + 1) % 2 == 1);
        assert(x[2 * i] == text::digit_char((a[i] / 16) as nat));
        assert(y[2 * i] == text::digit_char((b[i] / 16) as nat));
        assert(x[2 * i + 1] == text::digit_char((a[i] % 16) as nat));
        assert(y[2 * i + 1] == text::digit_char((b[i] % 16) as nat));
        assert(a[i] / 16 < 16 && b[i] / 16 < 16);
    }
    assert(a =~= b);
}

/// The digit of base 32 with the given value: the letters, then the digits from two on.
pub open spec fn base32_char(d: nat) -> char {
    if d < 26 {
        (97 + d) as char
    } else {
        (24 + d) as char
    }
}

/// The value of the last of five bits that start at a bit of a byte, among sixteen.
pub open spec fn five_bits_unit(offset: int) -> nat {
    if offset == 0 {
        2048
    } else if offset == 1 {
        1024
    } else if offset == 2 {
        512
    } else if offset == 3 {
        256
    } else if offset == 4 {
        128
    } else if offset == 5 {
        64
    } else if offset == 6 {
        32
    } else {
        16
    }
}

/// The five bits with number `i`, counted from the high end; zeros follow the last byte.
pub open spec fn five_bits(data: Seq<u8>, i: int) -> nat {
    let k = i * 5 / 8;
    let next = if k + 1 < data.len() {
        data[k + 1]
    } else {
        0u8
    };
    ((data[k] * 256 + next) as nat / five_bits_unit(i * 5 % 8)) % 32
}

/// The bytes in base 32, in lower case and without padding.
pub open spec fn base32_lower(data: Seq<u8>) -> Seq<char> {
    Seq::new((data.len() * 8 + 4) / 5, |i: int| base32_char(five_bits(data, i)))
}

/// A digit of base 32 is a lower-case letter or a decimal digit, and no white space.
proof fn lemma_base32_char(d: nat)
    requires
        d < 32,
    ensures
        !text::is_white_space(base32_char(d)),
{
    let c = base32_char(d);
    if d < 26 {
        assert(c as u32 == 97 + d);
    } else {
        assert(c as u32 == 24 + d);
    }
}

/// A text in base 32 after another word neither starts nor ends with white space.
pub proof fn lemma_base32_trimmed(word: Seq<char>, data: Seq<u8>)
    requires
        text::is_trimmed(word),
    ensures
        text::is_trimmed(word + base32_lower(data)),
{
    let tail = base32_lower(data);
    let all = word + tail;
    assert(all[0] == word[0]);
    if tail.len() > 0 {
        let i = tail.len() - 1;
        assert(all.last() == tail[i]);
        assert(tail[i] == base32_char(five_bits(data, i)));
        lemma_base32_char(five_bits(data, i));
    } else {
        assert(all.last() == word.last());
    }
}

/// Whether a text writes thirty-two bytes: in lower-case hexadecimal, or in base 32 in either letter
/// case.
pub open spec fn writes_key(s: Seq<char>, key: Seq<u8>) -> bool {
    key.len() == 32 && (s == hex_lower(key) || text::ascii_lower(s) == base32_lower(key))
}

/// The thirty-two bytes that a text writes, if any.
pub open spec fn key_of_text(s: Seq<char>) -> Option<Seq<u8>> {
    if exists|key: Seq<u8>| writes_key(s, key) {
        Some(choose|key: Seq<u8>| writes_key(s, key))
    } else {
        None
    }
}

/// The quotient of a number that is written as a multiple of the divisor and a rest.
proof fn lemma_quotient(w: int, unit: int, q: int, rest: int)
    requires
        w == q * unit + rest,
        0 <= rest < unit,
    ensures
        w / unit == q,
{
    vstd::arithmetic::div_mod::lemma_fundamental_div_mod_converse(w, unit, q, rest);
}

/// The five bits that start at each bit of a byte, by the bits of the byte and of the next one.
proof fn lemma_windows(hi: u8, lo: u8)
    ensures
        ((hi * 256 + lo) / 2048) % 32 == hi / 8,
        ((hi * 256 + lo) / 1024) % 32 == (hi / 4) % 32,
        ((hi * 256 + lo) / 512) % 32 == (hi / 2) % 32,
        ((hi * 256 + lo) / 256) % 32 == hi % 32,
        ((hi * 256 + lo) / 128) % 32 == (hi % 16) * 2 + lo / 128,
        ((hi * 256 + lo) / 64) % 32 == (hi % 8) * 4 + lo / 64,
        ((hi * 256 + lo) / 32) % 32 == (hi % 4) * 8 + lo / 32,
        ((hi * 256 + lo) / 16) % 32 == (hi % 2) * 16 + lo / 16,
{
    let w = hi * 256 + lo;
    let h = hi as int;
    let l = lo as int;
    lemma_quotient(w, 2048, h / 8, (h % 8) * 256 + l);
    lemma_quotient(w, 1024, h / 4, (h % 4) * 256 + l);
    lemma_quotient(w, 512, h / 2, (h % 2) * 256 + l);
    lemma_quotient(w, 256, h, l);
    lemma_quotient(w, 128, 2 * h + l / 128, l % 128);
    lemma_quotient(w, 64, 4 * h + l / 64, l % 64);
    lemma_quotient(w, 32, 8 * h + l / 32, l % 32);
    lemma_quotient(w, 16, 16 * h + l / 16, l % 16);
    lemma_low_five(2 * h + l / 128, h / 16, (h % 16) * 2 + l / 128);
    lemma_low_five(4 * h + l / 64, h / 8, (h % 8) * 4 + l / 64);
    lemma_low_five(8 * h + l / 32, h / 4, (h % 4) * 8 + l / 32);
    lemma_low_five(16 * h + l / 16, h / 2, (h % 2) * 16 + l / 16);
}

/// The low five bits of a number that is written as a multiple of thirty-two and a rest.
proof fn lemma_low_five(w: int, q: int, rest: int)
    requires
        w == q * 32 + rest,
        0 <= rest < 32,
    ensures
        w % 32 == rest,
{
    vstd::arithmetic::div_mod::lemma_fundamental_div_mod_converse(w, 32, q, rest);
}

/// Five bytes can be told from the eight groups of five bits that they make.
proof fn lemma_five_bytes(a: Seq<u8>, b: Seq<u8>)
    requires
        a.len() == 5,
        b.len() == 5,
        a[0] / 8 == b[0] / 8,
        (a[0] % 8) * 4 + a[1] / 64 == (b[0] % 8) * 4 + b[1] / 64,
        (a[1] / 2) % 32 == (b[1] / 2) % 32,
        (a[1] % 2) * 16 + a[2] / 16 == (b[1] % 2) * 16 + b[2] / 16,
        (a[2] % 16) * 2 + a[3] / 128 == (b[2] % 16) * 2 + b[3] / 128,
        (a[3] / 4) % 32 == (b[3] / 4) % 32,
        (a[3] % 4) * 8 + a[4] / 32 == (b[3] % 4) * 8 + b[4] / 32,
        a[4] % 32 == b[4] % 32,
    ensures
        a == b,
{
    assert(a[1] / 64 == b[1] / 64);
    assert(a[0] == b[0]);
    assert(a[1] / 2 == b[1] / 2);
    assert(a[2] / 16 == b[2] / 16);
    assert(a[1] == b[1]);
    assert(a[3] / 128 == b[3] / 128);
    assert(a[2] == b[2]);
    assert(a[3] / 4 == b[3] / 4);
    assert(a[4] / 32 == b[4] / 32);
    assert(a[3] == b[3]);
    assert(a[4] == b[4]);
    assert(a =~= b);
}

/// Base 32 tells thirty-two bytes apart from any others.
pub proof fn law_base32_injective(a: Seq<u8>, b: Seq<u8>)
    requires
        a.len() == 32,
        b.len() == 32,
        base32_lower(a) == base32_lower(b),
    ensures
        a == b,
{
    assert forall|i: int| 0 <= i < 52 implies #[trigger] five_bits(a, i) == five_bits(b, i) by {
        assert(base32_lower(a)[i] == base32_lower(b)[i]);
        assert(base32_lower(a)[i] == base32_char(five_bits(a, i)));
        assert(base32_lower(b)[i] == base32_char(five_bits(b, i)));
    }
    assert forall|k: int| 0 <= k < 32 implies a[k] == b[k] by {
        lemma_base32_block(a, b, k / 5);
    }
    assert(a =~= b);
}

/// Equal groups of five bits make equal bytes in one block of five. The last block holds two bytes,
/// and zeros follow them.
proof fn lemma_base32_block(a: Seq<u8>, b: Seq<u8>, m: int)
    requires
        a.len() == 32,
        b.len() == 32,
        0 <= m < 7,
        forall|i: int| 0 <= i < 52 ==> #[trigger] five_bits(a, i) == five_bits(b, i),
    ensures
        forall|k: int| 5 * m <= k < 5 * m + 5 && k < 32 ==> a[k] == b[k],
{
    let n = 5 * m;
    let i = 8 * m;
    let x = Seq::new(5, |j: int| if n + j < 32 { a[n + j] } else { 0u8 });
    let y = Seq::new(5, |j: int| if n + j < 32 { b[n + j] } else { 0u8 });
    lemma_block_groups(a, x, m);
    lemma_block_groups(b, y, m);
    assert(five_bits(a, i) == five_bits(b, i));
    assert(five_bits(a, i + 1) == five_bits(b, i + 1));
    assert(five_bits(a, i + 2) == five_bits(b, i + 2));
    assert(five_bits(a, i + 3) == five_bits(b, i + 3));
    if m < 6 {
        assert(five_bits(a, i + 4) == five_bits(b, i + 4));
        assert(five_bits(a, i + 5) == five_bits(b, i + 5));
        assert(five_bits(a, i + 6) == five_bits(b, i + 6));
        assert(five_bits(a, i + 7) == five_bits(b, i + 7));
    }
    lemma_five_bytes(x, y);
    assert forall|k: int| n <= k < n + 5 && k < 32 implies a[k] == b[k] by {
        assert(x[k - n] == y[k - n]);
    }
}

/// The groups of five bits of one block of five bytes.
proof fn lemma_block_groups(a: Seq<u8>, x: Seq<u8>, m: int)
    requires
        a.len() == 32,
        0 <= m < 7,
        x.len() == 5,
        forall|j: int| 0 <= j < 5 ==> #[trigger] x[j] == if 5 * m + j < 32 { a[5 * m + j] } else { 0u8 },
    ensures
        five_bits(a, 8 * m) == x[0] / 8,
        five_bits(a, 8 * m + 1) == (x[0] % 8) * 4 + x[1] / 64,
        five_bits(a, 8 * m + 2) == (x[1] / 2) % 32,
        five_bits(a, 8 * m + 3) == (x[1] % 2) * 16 + x[2] / 16,
        m < 6 ==> five_bits(a, 8 * m + 4) == (x[2] % 16) * 2 + x[3] / 128,
        m < 6 ==> five_bits(a, 8 * m + 5) == (x[3] / 4) % 32,
        m < 6 ==> five_bits(a, 8 * m + 6) == (x[3] % 4) * 8 + x[4] / 32,
        m < 6 ==> five_bits(a, 8 * m + 7) == x[4] % 32,
{
    let i = 8 * m;
    assert((i * 5) / 8 == 5 * m && (i * 5) % 8 == 0);
    assert(((i + 1) * 5) / 8 == 5 * m && ((i + 1) * 5) % 8 == 5);
    assert(((i + 2) * 5) / 8 == 5 * m + 1 && ((i + 2) * 5) % 8 == 2);
    assert(((i + 3) * 5) / 8 == 5 * m + 1 && ((i + 3) * 5) % 8 == 7);
    assert(((i + 4) * 5) / 8 == 5 * m + 2 && ((i + 4) * 5) % 8 == 4);
    assert(((i + 5) * 5) / 8 == 5 * m + 3 && ((i + 5) * 5) % 8 == 1);
    assert(((i + 6) * 5) / 8 == 5 * m + 3 && ((i + 6) * 5) % 8 == 6);
    assert(((i + 7) * 5) / 8 == 5 * m + 4 && ((i + 7) * 5) % 8 == 3);
    lemma_windows(x[0], x[1]);
    lemma_windows(x[1], x[2]);
    if m < 6 {
        lemma_windows(x[2], x[3]);
        lemma_windows(x[3], x[4]);
        let next = if 5 * m + 5 < 32 { a[5 * m + 5] } else { 0u8 };
        lemma_windows(x[4], next);
    }
}

/// A text writes at most one key.
pub proof fn law_key_text_is_unique(s: Seq<char>, a: Seq<u8>, b: Seq<u8>)
    requires
        writes_key(s, a),
        writes_key(s, b),
    ensures
        a == b,
{
    assert(text::ascii_lower(s).len() == s.len());
    assert(hex_lower(a).len() == 64 && hex_lower(b).len() == 64);
    assert(base32_lower(a).len() == 52 && base32_lower(b).len() == 52);
    if s == hex_lower(a) {
        law_hex_lower_injective(a, b);
    } else {
        law_base32_injective(a, b);
    }
}

/// The key that a text writes is the one that is read from it.
pub proof fn lemma_key_of_text(s: Seq<char>, key: Seq<u8>)
    requires
        writes_key(s, key),
    ensures
        key_of_text(s) == Some(key),
{
    law_key_text_is_unique(s, key, choose|k: Seq<u8>| writes_key(s, k));
}

/// The public key that a text writes, if any.
pub open spec fn endpoint_of_text(s: Seq<char>) -> Option<Seq<u8>> {
    match key_of_text(s) {
        Some(key) => if outside::is_endpoint_key(key) {
            Some(key)
        } else {
            None
        },
        None => None,
    }
}

/// The id of an endpoint is read where the text writes a key and that key is a public one, and it is
/// that key.
pub proof fn law_endpoint_of_text(s: Seq<char>, key: Seq<u8>)
    requires
        writes_key(s, key),
    ensures
        outside::is_endpoint_key(key) ==> endpoint_of_text(s) == Some(key),
        !outside::is_endpoint_key(key) ==> endpoint_of_text(s) is None,
{
    lemma_key_of_text(s, key);
}

/// A text that writes no key reads as none.
pub proof fn law_no_key_of_text(s: Seq<char>)
    requires
        forall|key: Seq<u8>| !writes_key(s, key),
    ensures
        key_of_text(s) is None,
        endpoint_of_text(s) is None,
{
}

}
