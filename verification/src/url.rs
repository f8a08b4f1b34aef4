//! Percent-decoding of the parameters of an address.

use crate::bytes;
use vstd::prelude::*;
use vstd::utf8::*;

verus! {

/// What `String::from_utf8_lossy` gives.
pub uninterp spec fn lossy_text(bytes: Seq<u8>) -> Seq<char>;

/// `String::from_utf8_lossy`, whose result depends on the bytes alone: bytes
/// that are UTF-8 are read as the text they encode. How other bytes are replaced
/// is not said.
#[verifier::external_body]
pub(crate) fn read_lossy(bytes: &[u8]) -> (r: String)
    ensures
        r@ == lossy_text(bytes@),
        valid_utf8(bytes@) ==> r@ == decode_utf8(bytes@),
{
    String::from_utf8_lossy(bytes).to_string()
}

/// What bytes are read as: the text that they encode, where they are UTF-8.
pub open spec fn text_of(bytes: Seq<u8>) -> Seq<char> {
    if valid_utf8(bytes) {
        decode_utf8(bytes)
    } else {
        lossy_text(bytes)
    }
}

/// The value of a hexadecimal digit.
pub open spec fn hex_value(b: u8) -> Option<u8> {
    if 48 <= b <= 57 {
        Some((b - 48) as u8)
    } else if 65 <= b <= 70 {
        Some((b - 55) as u8)
    } else if 97 <= b <= 102 {
        Some((b - 87) as u8)
    } else {
        None
    }
}

/// The byte that two characters stand for in hexadecimal: two digits, or a plus
/// sign and a digit.
pub open spec fn hex_pair(a: u8, b: u8) -> Option<u8> {
    match (hex_value(a), hex_value(b)) {
        (Some(x), Some(y)) => Some((16 * x + y) as u8),
        (None, Some(y)) => if a == 43 {
            Some(y)
        } else {
            None
        },
        _ => None,
    }
}

/// The bytes once each `%` before a number in hexadecimal is replaced by the
/// byte that the number is, and each other `+` by a space. A `%` without a number
/// stays.
pub open spec fn decoded(bytes: Seq<u8>) -> Seq<u8>
    decreases bytes.len(),
{
    if bytes.len() == 0 {
        bytes
    } else if bytes[0] == 37 && bytes.len() > 2 && hex_pair(bytes[1], bytes[2]) is Some {
        seq![hex_pair(bytes[1], bytes[2])->0] + decoded(bytes.skip(3))
    } else if bytes[0] == 43 {
        seq![32u8] + decoded(bytes.skip(1))
    } else {
        seq![bytes[0]] + decoded(bytes.skip(1))
    }
}

fn hex_digit(b: u8) -> (r: Option<u8>)
    ensures
        r == hex_value(b),
        r matches Some(x) ==> x < 16,
{
    if 48 <= b && b <= 57 {
        Some(b - 48)
    } else if 65 <= b && b <= 70 {
        Some(b - 55)
    } else if 97 <= b && b <= 102 {
        Some(b - 87)
    } else {
        None
    }
}

fn hex_byte(a: u8, b: u8) -> (r: Option<u8>)
    ensures
        r == hex_pair(a, b),
{
    match (hex_digit(a), hex_digit(b)) {
        (Some(x), Some(y)) => Some(16 * x + y),
        (None, Some(y)) => if a == 43 {
            Some(y)
        } else {
            None
        },
        _ => None,
    }
}

/// The bytes with each percent escape replaced by what it stands for, and each
/// `+` by a space.
pub fn percent_decode(bytes: &[u8]) -> (r: Vec<u8>)
    ensures
        r@ == decoded(bytes@),
{
    let mut out: Vec<u8> = Vec::new();
    let mut i: usize = 0;
    assert(bytes@.skip(0) =~= bytes@);
    assert(out@ + decoded(bytes@) =~= decoded(bytes@));
    while i < bytes.len()
        invariant
            i <= bytes@.len(),
            out@ + decoded(bytes@.skip(i as int)) == decoded(bytes@),
        decreases bytes@.len() - i,
    {
        let ghost rest = bytes@.skip(i as int);
        let ghost before = out@;
        let b: u8 = bytes[i];
        if b == 37 && bytes.len() - i > 2 {
            match hex_byte(bytes[i + 1], bytes[i + 2]) {
                Some(x) => {
                    out.push(x);
                    proof {
                        assert(rest.skip(3) =~= bytes@.skip(i + 3));
                        assert(before + (seq![x] + decoded(rest.skip(3))) =~= out@ + decoded(
                            rest.skip(3),
                        ));
                    }
                    i += 3;
                    continue ;
                },
                None => {},
            }
        }
        let c: u8 = if b == 43 {
            32
        } else {
            b
        };
        out.push(c);
        proof {
            assert(rest.skip(1) =~= bytes@.skip(i + 1));
            assert(before + (seq![c] + decoded(rest.skip(1))) =~= out@ + decoded(rest.skip(1)));
        }
        i += 1;
    }
    assert(bytes@.skip(i as int) =~= Seq::empty());
    assert(out@ + decoded(bytes@.skip(i as int)) =~= out@);
    out
}

/// The text that a parameter stands for.
pub open spec fn url_text(s: Seq<char>) -> Seq<char> {
    text_of(decoded(encode_utf8(s)))
}

/// What a parameter stands for is UTF-8.
pub open spec fn is_text(s: Seq<char>) -> bool {
    valid_utf8(decoded(encode_utf8(s)))
}

/// Bytes that are UTF-8 are read as what they encode.
pub proof fn bytes_are_read_as_what_they_encode(t: Seq<char>)
    ensures
        text_of(encode_utf8(t)) == t,
{
    encode_utf8_valid_utf8(t);
    encode_utf8_decode_utf8(t);
}

/// The text that a parameter stands for.
pub fn url_decode(s: &str) -> (r: String)
    ensures
        r@ == url_text(s@),
{
    let out = percent_decode(s.as_bytes());
    read_lossy(out.as_slice())
}

// ---------------------------------------------------------------------------
// Laws on bytes
// ---------------------------------------------------------------------------

/// The bytes with a space for each `+`.
pub open spec fn spaced_bytes(bytes: Seq<u8>) -> Seq<u8> {
    bytes.map_values(
        |b: u8|
            if b == 43 {
                32u8
            } else {
                b
            },
    )
}

/// Bytes without `%` pass as they are, with a space for each `+`, whatever
/// follows.
pub proof fn a_front_without_escapes_passes(x: Seq<u8>, y: Seq<u8>)
    requires
        !x.contains(37),
    ensures
        decoded(x + y) == spaced_bytes(x) + decoded(y),
    decreases x.len(),
{
    if x.len() == 0 {
        assert(x + y =~= y);
        assert(spaced_bytes(x) + decoded(y) =~= decoded(y));
    } else {
        let t = x.skip(1);
        assert(x.contains(x[0]));
        assert forall|b: u8| t.contains(b) implies x.contains(b) by {
            let k = choose|k: int| 0 <= k < t.len() && t[k] == b;
            assert(x[k + 1] == b);
        }
        a_front_without_escapes_passes(t, y);
        assert((x + y)[0] == x[0]);
        assert((x + y).skip(1) =~= t + y);
        assert(spaced_bytes(x) =~= spaced_bytes(x).take(1) + spaced_bytes(t));
        assert(spaced_bytes(x) + decoded(y) =~= spaced_bytes(x).take(1) + (spaced_bytes(t)
            + decoded(y)));
        assert(decoded(x + y) =~= spaced_bytes(x).take(1) + decoded(t + y));
    }
}

/// The digits are `0` to `9`, and `a` to `f` in either case; nothing else is one.
pub proof fn these_are_the_digits(b: u8)
    ensures
        '0' as u8 <= b <= '9' as u8 ==> hex_value(b) == Some((b - '0' as u8) as u8),
        'a' as u8 <= b <= 'f' as u8 ==> hex_value(b) == Some((b - 'a' as u8 + 10) as u8),
        'A' as u8 <= b <= 'F' as u8 ==> hex_value(b) == Some((b - 'A' as u8 + 10) as u8),
        !('0' as u8 <= b <= '9' as u8) && !('a' as u8 <= b <= 'f' as u8) && !('A' as u8 <= b
            <= 'F' as u8) ==> hex_value(b) is None,
{
}

/// A number is two digits, the first for sixteens, or a plus sign and a digit;
/// nothing else is one.
pub proof fn a_number_is_two_digits(g: u8, h: u8)
    ensures
        hex_value(g) is Some && hex_value(h) is Some ==> hex_pair(g, h) == Some(
            (16 * hex_value(g)->0 + hex_value(h)->0) as u8,
        ),
        g == '+' as u8 && hex_value(h) is Some ==> hex_pair(g, h) == hex_value(h),
        hex_value(h) is None ==> hex_pair(g, h) is None,
        hex_value(g) is None && g != '+' as u8 ==> hex_pair(g, h) is None,
{
}

/// An escape stands for the byte that its number is, whatever follows.
pub proof fn an_escape_is_one_byte(g: u8, h: u8, y: Seq<u8>)
    requires
        hex_pair(g, h) is Some,
    ensures
        decoded(seq![37u8, g, h] + y) == seq![hex_pair(g, h)->0] + decoded(y),
{
    let all = seq![37u8, g, h] + y;
    assert(all[0] == 37 && all[1] == g && all[2] == h);
    assert(all.skip(3) =~= y);
}

/// A `%` that no number follows passes as it is.
pub proof fn a_percent_sign_without_number_passes(y: Seq<u8>)
    requires
        y.len() < 2 || hex_pair(y[0], y[1]) is None,
    ensures
        decoded(seq![37u8] + y) == seq![37u8] + decoded(y),
{
    let all = seq![37u8] + y;
    if y.len() >= 2 {
        assert(all[1] == y[0] && all[2] == y[1]);
    }
    assert(all.skip(1) =~= y);
}

/// Nothing stands for nothing, and a byte is changed only where it is a plus sign
/// or begins an escape.
pub proof fn a_byte_by_itself(b: u8)
    ensures
        decoded(Seq::<u8>::empty()) == Seq::<u8>::empty(),
        spaced_bytes(seq![b]) == if b == '+' as u8 {
            seq![' ' as u8]
        } else {
            seq![b]
        },
        spaced_char('+') == ' ',
{
    assert(spaced_bytes(seq![b]) =~= if b == '+' as u8 {
        seq![' ' as u8]
    } else {
        seq![b]
    });
}

/// Bytes without `%` and `+` stand for themselves.
pub proof fn plain_bytes_are_kept(bytes: Seq<u8>)
    requires
        !bytes.contains(37),
        !bytes.contains(43),
    ensures
        decoded(bytes) == bytes,
{
    let none = Seq::<u8>::empty();
    a_front_without_escapes_passes(bytes, none);
    assert(bytes + none =~= bytes);
    assert forall|k: int| 0 <= k < bytes.len() implies spaced_bytes(bytes)[k] == bytes[k] by {
        assert(bytes.contains(bytes[k]));
    }
    assert(spaced_bytes(bytes) + decoded(none) =~= bytes);
}

/// Escape number `k` of `e` is that of the byte `b`: `%` and two hexadecimal
/// digits, in either case.
pub open spec fn escapes_at(e: Seq<u8>, k: int, b: u8) -> bool {
    &&& e[3 * k] == 37
    &&& hex_value(e[3 * k + 1]) == Some((b / 16) as u8)
    &&& hex_value(e[3 * k + 2]) == Some((b % 16) as u8)
}

/// `e` has an escape for each of the bytes.
pub open spec fn escapes(e: Seq<u8>, bytes: Seq<u8>) -> bool {
    &&& e.len() == 3 * bytes.len()
    &&& forall|k: int| 0 <= k < bytes.len() ==> #[trigger] escapes_at(e, k, bytes[k])
}

/// Decoding gives back any bytes that were escaped.
pub proof fn decoding_undoes_escaping(e: Seq<u8>, bytes: Seq<u8>)
    requires
        escapes(e, bytes),
    ensures
        decoded(e) == bytes,
    decreases bytes.len(),
{
    if bytes.len() > 0 {
        let b = bytes[0];
        let f = e.skip(3);
        let rest = bytes.skip(1);
        assert forall|k: int| 0 <= k < rest.len() implies #[trigger] escapes_at(f, k, rest[k]) by {
            assert(escapes_at(e, k + 1, bytes[k + 1]));
        }
        assert(escapes_at(e, 0, b));
        decoding_undoes_escaping(f, rest);
        assert(e[0] == 37);
        assert(16 * (b / 16) + b % 16 == b);
        assert(hex_pair(e[1], e[2]) == Some(b));
        assert(bytes =~= seq![b] + rest);
    } else {
        assert(e =~= bytes);
    }
}

// ---------------------------------------------------------------------------
// Laws on texts
// ---------------------------------------------------------------------------

/// The text with a space for each `+`.
pub open spec fn spaced(s: Seq<char>) -> Seq<char> {
    s.map_values(|c: char| spaced_char(c))
}

/// The character, or a space for `+`.
pub open spec fn spaced_char(c: char) -> char {
    if c == '+' {
        ' '
    } else {
        c
    }
}

proof fn lemma_spaced_char(c: char)
    ensures
        spaced_bytes(encode_scalar(c as u32)) == encode_scalar(spaced_char(c) as u32),
{
    let x = encode_scalar(c as u32);
    let y = encode_scalar(spaced_char(c) as u32);
    bytes::only_ascii_takes_ascii_bytes(c);
    bytes::only_ascii_takes_ascii_bytes(' ');
    if (c as u32) < 0x80 {
        assert(x[0] == c as u8);
        assert(y == seq![spaced_char(c) as u8]);
    }
    assert(spaced_bytes(x) =~= y);
}

proof fn lemma_spaced(a: Seq<char>)
    ensures
        spaced_bytes(encode_utf8(a)) == encode_utf8(spaced(a)),
    decreases a.len(),
{
    if a.len() == 0 {
        assert(spaced_bytes(encode_utf8(a)) =~= encode_utf8(spaced(a)));
    } else {
        let t = a.drop_first();
        let x = encode_scalar(a[0] as u32);
        lemma_spaced(t);
        lemma_spaced_char(a[0]);
        assert(spaced(a).drop_first() =~= spaced(t));
        assert(spaced(a)[0] == spaced_char(a[0]));
        assert(spaced_bytes(x + encode_utf8(t)) =~= spaced_bytes(x) + spaced_bytes(encode_utf8(t)));
    }
}

proof fn lemma_decode_behind(a: Seq<char>, w: Seq<u8>)
    requires
        valid_utf8(w),
    ensures
        valid_utf8(encode_utf8(a) + w),
        decode_utf8(encode_utf8(a) + w) == a + decode_utf8(w),
{
    decode_utf8_encode_utf8(w);
    bytes::encode_concat(a, decode_utf8(w));
    encode_utf8_valid_utf8(a + decode_utf8(w));
    encode_utf8_decode_utf8(a + decode_utf8(w));
}

/// A front without `%` passes as it is, with a space for each `+`.
pub proof fn a_plain_front_passes(a: Seq<char>, b: Seq<char>)
    requires
        !a.contains('%'),
        is_text(b),
    ensures
        is_text(a + b),
        url_text(a + b) == spaced(a) + url_text(b),
{
    bytes::encode_concat(a, b);
    bytes::absent_ascii_is_no_byte(a, '%');
    lemma_spaced(a);
    a_front_without_escapes_passes(encode_utf8(a), encode_utf8(b));
    lemma_decode_behind(spaced(a), decoded(encode_utf8(b)));
}

/// A text without `%` and `+` stands for itself.
pub proof fn plain_text_is_kept(a: Seq<char>)
    requires
        !a.contains('%'),
        !a.contains('+'),
    ensures
        is_text(a),
        url_text(a) == a,
{
    let none = Seq::<char>::empty();
    assert(decoded(encode_utf8(none)) =~= Seq::empty());
    assert(url_text(none) == none) by {
        assert(decode_utf8(Seq::<u8>::empty()) =~= none);
    }
    a_plain_front_passes(a, none);
    assert forall|k: int| 0 <= k < a.len() implies spaced(a)[k] == a[k] by {
        assert(a.contains(a[k]));
    }
    assert(a + none =~= a);
    assert(spaced(a) + none =~= a);
}

/// An escape of an ASCII character, with digits in either case, stands for that
/// character.
pub proof fn one_escape_is_taken_off(g: char, h: char, t: Seq<char>)
    requires
        (g as u32) < 0x80,
        (h as u32) < 0x80,
        hex_pair(g as u8, h as u8) matches Some(v) && v < 0x80,
        is_text(t),
    ensures
        is_text(seq!['%', g, h] + t),
        url_text(seq!['%', g, h] + t) == seq![(hex_pair(g as u8, h as u8)->0) as char] + url_text(t),
{
    let v = hex_pair(g as u8, h as u8)->0;
    let c = v as char;
    let e = encode_utf8(t);
    bytes::ascii_is_one_byte(h, t);
    bytes::ascii_is_one_byte(g, seq![h] + t);
    bytes::ascii_is_one_byte('%', seq![g] + (seq![h] + t));
    assert(seq!['%', g, h] + t =~= seq!['%'] + (seq![g] + (seq![h] + t)));
    let all = seq![37u8] + (seq![g as u8] + (seq![h as u8] + e));
    assert(encode_utf8(seq!['%', g, h] + t) == all);
    assert(all.skip(3) =~= e);
    assert(decoded(all) == seq![v] + decoded(e));
    bytes::ascii_is_one_byte(c, Seq::empty());
    assert(seq![c] + Seq::<char>::empty() =~= seq![c]);
    assert(encode_utf8(seq![c]) =~= seq![v]);
    lemma_decode_behind(seq![c], decoded(e));
}

/// A `%` without two digits behind it passes as it is.
pub proof fn a_malformed_escape_passes(r: Seq<char>)
    requires
        encode_utf8(r).len() < 2 || hex_pair(encode_utf8(r)[0], encode_utf8(r)[1]) is None,
        is_text(r),
    ensures
        is_text(seq!['%'] + r),
        url_text(seq!['%'] + r) == seq!['%'] + url_text(r),
{
    let e = encode_utf8(r);
    bytes::ascii_is_one_byte('%', r);
    let all = seq![37u8] + e;
    assert(all.skip(1) =~= e);
    assert(decoded(all) == seq![37u8] + decoded(e));
    bytes::ascii_is_one_byte('%', Seq::empty());
    assert(seq!['%'] + Seq::<char>::empty() =~= seq!['%']);
    assert(encode_utf8(seq!['%']) =~= seq![37u8]);
    lemma_decode_behind(seq!['%'], decoded(e));
}

} // verus!
