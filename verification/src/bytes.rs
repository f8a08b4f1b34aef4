//! Texts as bytes: how many bytes a text takes, and how many characters bytes
//! hold.

use vstd::prelude::*;
use vstd::utf8::*;

verus! {

/// How many bytes the character takes in UTF-8.
pub open spec fn width(c: char) -> nat {
    encode_scalar(c as u32).len()
}

/// How many bytes the first `n` characters of `s` take.
pub open spec fn byte_len(s: Seq<char>, n: int) -> nat
    decreases n,
{
    if n <= 0 {
        0
    } else {
        byte_len(s, n - 1) + width(s[n - 1])
    }
}

proof fn lemma_byte_len_skip(s: Seq<char>, n: int)
    requires
        0 < n <= s.len(),
    ensures
        byte_len(s, n) == width(s[0]) + byte_len(s.drop_first(), n - 1),
    decreases n,
{
    if n > 1 {
        lemma_byte_len_skip(s, n - 1);
        assert(s.drop_first()[n - 2] == s[n - 1]);
    } else {
        assert(byte_len(s, 0) == 0);
        assert(byte_len(s.drop_first(), 0) == 0);
    }
}

/// The bytes that a text takes are those of its UTF-8 encoding.
pub proof fn byte_len_is_encoded_len(s: Seq<char>)
    ensures
        byte_len(s, s.len() as int) == encode_utf8(s).len(),
    decreases s.len(),
{
    if s.len() > 0 {
        lemma_byte_len_skip(s, s.len() as int);
        byte_len_is_encoded_len(s.drop_first());
    }
}

/// How many bytes the character takes in UTF-8.
pub fn width_of(c: char) -> (r: usize)
    ensures
        r == width(c),
        1 <= r <= 4,
{
    let n: u32 = c as u32;
    if n <= 0x7F {
        1
    } else if n <= 0x7FF {
        2
    } else if n <= 0xFFFF {
        3
    } else {
        4
    }
}

/// The encoding of two texts, one after the other, is that of the first and
/// then that of the second.
pub proof fn encode_concat(a: Seq<char>, b: Seq<char>)
    ensures
        encode_utf8(a + b) == encode_utf8(a) + encode_utf8(b),
    decreases a.len(),
{
    if a.len() == 0 {
        assert(a + b =~= b);
        assert(encode_utf8(a) + encode_utf8(b) =~= encode_utf8(b));
    } else {
        encode_concat(a.drop_first(), b);
        assert((a + b).drop_first() =~= a.drop_first() + b);
        assert(encode_utf8(a + b) =~= encode_utf8(a) + encode_utf8(b));
    }
}

/// How many characters of `s` begin before byte `idx`.
pub open spec fn chars_before(s: Seq<char>, idx: int) -> nat
    decreases s.len(),
{
    if idx <= 0 || s.len() == 0 {
        0
    } else {
        1 + chars_before(s.drop_first(), idx - width(s[0]))
    }
}

/// As many characters begin before the byte at which character `m` begins as
/// stand before that character.
pub proof fn chars_before_byte_len(s: Seq<char>, m: int)
    requires
        0 <= m <= s.len(),
    ensures
        chars_before(s, byte_len(s, m) as int) == m,
    decreases s.len(),
{
    if m > 0 {
        lemma_byte_len_skip(s, m);
        chars_before_byte_len(s.drop_first(), m - 1);
        char_is_scalar(s[0]);
    }
}

/// More characters do not take fewer bytes.
pub proof fn byte_len_grows(s: Seq<char>, m: int, n: int)
    requires
        m <= n,
    ensures
        byte_len(s, m) <= byte_len(s, n),
    decreases n - m,
{
    if m < n {
        byte_len_grows(s, m, n - 1);
    }
}

/// How many characters of `v` begin before byte `idx`.
pub fn count_before(v: &Vec<char>, idx: usize) -> (r: usize)
    ensures
        r == chars_before(v@, idx as int),
        r <= v@.len(),
{
    let mut i: usize = 0;
    let mut left: usize = idx;
    assert(v@.skip(0) =~= v@);
    while i < v.len() && left > 0
        invariant
            i <= v@.len(),
            chars_before(v@, idx as int) == i + chars_before(v@.skip(i as int), left as int),
        decreases v@.len() - i,
    {
        let w = width_of(v[i]);
        let ghost rest = v@.skip(i as int);
        assert(rest.drop_first() =~= v@.skip(i + 1));
        let ghost after = left - w;
        if left > w {
            left = left - w;
        } else {
            left = 0;
            assert(chars_before(rest.drop_first(), after) == 0);
            assert(chars_before(rest.drop_first(), 0) == 0);
        }
        i += 1;
    }
    i
}

/// How many bytes the first `n` characters of `s` take; `v` holds its
/// characters.
pub fn bytes_before(s: &str, v: &Vec<char>, n: usize) -> (r: usize)
    requires
        v@ == s@,
        n <= v@.len(),
    ensures
        r == byte_len(s@, n as int),
{
    let total: usize = s.as_bytes().len();
    proof {
        byte_len_is_encoded_len(s@);
    }
    let mut sum: usize = 0;
    let mut i: usize = 0;
    while i < n
        invariant
            i <= n <= v@.len(),
            v@ == s@,
            sum == byte_len(s@, i as int),
            byte_len(s@, s@.len() as int) == total,
        decreases n - i,
    {
        proof {
            byte_len_grows(s@, i + 1, s@.len() as int);
        }
        sum = sum + width_of(v[i]);
        i += 1;
    }
    sum
}

/// How many characters the bytes hold, where they are UTF-8: every character
/// has one byte that continues no other.
pub open spec fn chars_in(bytes: Seq<u8>) -> nat
    decreases bytes.len(),
{
    if bytes.len() == 0 {
        0
    } else {
        chars_in(bytes.drop_last()) + if is_continuation_byte(bytes.last()) {
            0nat
        } else {
            1nat
        }
    }
}

proof fn lemma_chars_in_concat(a: Seq<u8>, b: Seq<u8>)
    ensures
        chars_in(a + b) == chars_in(a) + chars_in(b),
    decreases b.len(),
{
    if b.len() == 0 {
        assert(a + b =~= a);
    } else {
        lemma_chars_in_concat(a, b.drop_last());
        assert((a + b).drop_last() =~= a + b.drop_last());
    }
}

/// An ASCII character is one byte, its number; every byte of another character
/// lies above those.
pub proof fn only_ascii_takes_ascii_bytes(c: char)
    ensures
        (c as u32) < 0x80 ==> encode_scalar(c as u32) == seq![c as u8],
        (c as u32) >= 0x80 ==> forall|i: int|
            0 <= i < encode_scalar(c as u32).len() ==> #[trigger] encode_scalar(c as u32)[i] >= 0x80,
{
    let n = c as u32;
    char_is_scalar(c);
    assert(last_continuation_byte(n) >= 0x80) by (bit_vector);
    assert(second_last_continuation_byte(n) >= 0x80) by (bit_vector);
    assert(third_last_continuation_byte(n) >= 0x80) by (bit_vector);
    assert(leading_byte_width_2(n) >= 0x80) by (bit_vector);
    assert(leading_byte_width_3(n) >= 0x80) by (bit_vector);
    assert(leading_byte_width_4(n) >= 0x80) by (bit_vector);
    if n < 0x80 {
        assert(leading_byte_width_1(n) == n) by (bit_vector)
            requires
                n < 0x80,
        ;
        assert(encode_scalar(n) =~= seq![c as u8]);
    }
}

/// ASCII characters take one byte each.
pub proof fn ascii_takes_one_byte_each(s: Seq<char>, n: int)
    requires
        0 <= n <= s.len(),
        forall|i: int| 0 <= i < n ==> (#[trigger] s[i] as u32) < 0x80,
    ensures
        byte_len(s, n) == n,
    decreases n,
{
    if n > 0 {
        ascii_takes_one_byte_each(s, n - 1);
        only_ascii_takes_ascii_bytes(s[n - 1]);
    }
}

/// An ASCII character before a text is one byte before those of the text.
pub proof fn ascii_is_one_byte(c: char, t: Seq<char>)
    requires
        (c as u32) < 0x80,
    ensures
        encode_utf8(seq![c] + t) == seq![c as u8] + encode_utf8(t),
{
    only_ascii_takes_ascii_bytes(c);
    assert((seq![c] + t).drop_first() =~= t);
}

proof fn lemma_other_char(c: char, d: char)
    requires
        c != d,
        (d as u32) < 0x80,
    ensures
        !encode_scalar(c as u32).contains(d as u8),
{
    let x = encode_scalar(c as u32);
    only_ascii_takes_ascii_bytes(c);
    if x.contains(d as u8) {
        let i = choose|i: int| 0 <= i < x.len() && x[i] == d as u8;
        if (c as u32) < 0x80 {
            assert(x[i] == c as u8);
        } else {
            assert(encode_scalar(c as u32)[i] >= 0x80);
        }
    }
}

/// Where an ASCII character does not stand in a text, its number is no byte of
/// the text.
pub proof fn absent_ascii_is_no_byte(s: Seq<char>, d: char)
    requires
        !s.contains(d),
        (d as u32) < 0x80,
    ensures
        !encode_utf8(s).contains(d as u8),
    decreases s.len(),
{
    if s.len() > 0 {
        let t = s.drop_first();
        let x = encode_scalar(s[0] as u32);
        let y = encode_utf8(t);
        assert(s.contains(s[0]));
        assert forall|c: char| t.contains(c) implies s.contains(c) by {
            let k = choose|k: int| 0 <= k < t.len() && t[k] == c;
            assert(s[k + 1] == c);
        }
        absent_ascii_is_no_byte(t, d);
        lemma_other_char(s[0], d);
        assert(encode_utf8(s) == x + y);
        if (x + y).contains(d as u8) {
            let i = choose|i: int| 0 <= i < (x + y).len() && (x + y)[i] == d as u8;
            if i < x.len() {
                assert(x[i] == d as u8);
            } else {
                assert(y[i - x.len()] == d as u8);
            }
        }
    }
}

proof fn lemma_chars_in_scalar(c: char)
    ensures
        chars_in(encode_scalar(c as u32)) == 1,
{
    let n = c as u32;
    char_is_scalar(c);
    let none = Seq::<u8>::empty();
    let last = last_continuation_byte(n);
    let second = second_last_continuation_byte(n);
    let third = third_last_continuation_byte(n);
    assert(0x80 <= last_continuation_byte(n) && last_continuation_byte(n) <= 0xbf) by (bit_vector);
    assert(0x80 <= second_last_continuation_byte(n) && second_last_continuation_byte(n) <= 0xbf)
        by (bit_vector);
    assert(0x80 <= third_last_continuation_byte(n) && third_last_continuation_byte(n) <= 0xbf)
        by (bit_vector);
    assert(chars_in(none) == 0);
    if has_width_1_encoding(n) {
        let b = leading_byte_width_1(n);
        assert(leading_byte_width_1(n) <= 0x7f) by (bit_vector);
        lemma_chars_in_push(none, b);
        assert(encode_scalar(n) =~= none.push(b));
    } else if has_width_2_encoding(n) {
        let b = leading_byte_width_2(n);
        assert(leading_byte_width_2(n) >= 0xc0) by (bit_vector);
        lemma_chars_in_push(none, b);
        lemma_chars_in_push(none.push(b), last);
        assert(encode_scalar(n) =~= none.push(b).push(last));
    } else if has_width_3_encoding(n) {
        let b = leading_byte_width_3(n);
        assert(leading_byte_width_3(n) >= 0xe0) by (bit_vector);
        lemma_chars_in_push(none, b);
        lemma_chars_in_push(none.push(b), second);
        lemma_chars_in_push(none.push(b).push(second), last);
        assert(encode_scalar(n) =~= none.push(b).push(second).push(last));
    } else {
        let b = leading_byte_width_4(n);
        assert(leading_byte_width_4(n) >= 0xf0) by (bit_vector);
        lemma_chars_in_push(none, b);
        lemma_chars_in_push(none.push(b), third);
        lemma_chars_in_push(none.push(b).push(third), second);
        lemma_chars_in_push(none.push(b).push(third).push(second), last);
        assert(encode_scalar(n) =~= none.push(b).push(third).push(second).push(last));
    }
}

proof fn lemma_chars_in_push(a: Seq<u8>, b: u8)
    ensures
        chars_in(a.push(b)) == chars_in(a) + if is_continuation_byte(b) {
            0nat
        } else {
            1nat
        },
{
    assert(a.push(b).drop_last() =~= a);
}

/// A text's encoding holds as many characters as the text.
pub proof fn chars_in_encoded(s: Seq<char>)
    ensures
        chars_in(encode_utf8(s)) == s.len(),
    decreases s.len(),
{
    if s.len() > 0 {
        lemma_chars_in_scalar(s[0]);
        chars_in_encoded(s.drop_first());
        lemma_chars_in_concat(encode_scalar(s[0] as u32), encode_utf8(s.drop_first()));
    }
}

/// How many characters the bytes hold.
pub fn char_count(bytes: &Vec<u8>) -> (r: u64)
    ensures
        r == chars_in(bytes@),
{
    let mut n: u64 = 0;
    let mut i: usize = 0;
    while i < bytes.len()
        invariant
            i <= bytes@.len(),
            n == chars_in(bytes@.take(i as int)),
            n <= i,
        decreases bytes@.len() - i,
    {
        assert(bytes@.take(i + 1).drop_last() =~= bytes@.take(i as int));
        let b: u8 = bytes[i];
        if b < 0x80 || b > 0xbf {
            n += 1;
        }
        i += 1;
    }
    assert(bytes@.take(i as int) =~= bytes@);
    n
}

} // verus!
