//! Percent-encoding and -decoding of URL paths.
//!
//! `encode_url` escapes every character outside the unreserved set as one
//! `%X`/`%XX` group per UTF-8 byte (uppercase hex, without a leading zero
//! for byte values under 0x10).  `decode_url` reads `%XX` groups back:
//! a group with value below 0x80 stands for itself, and a group with a
//! larger value must begin a run of consecutive groups that spell out one
//! complete UTF-8 encoding of a single character.

use vstd::prelude::*;
use vstd::utf8::*;

verus! {

// ---------------------------------------------------------------------------
// Character classes and hex digits
// ---------------------------------------------------------------------------
/// Characters that `encode_url` passes through unchanged: ASCII letters,
/// digits, and `-`, `_`, `.`, `~`.
pub open spec fn is_unreserved(c: char) -> bool {
    ||| ('a' <= c && c <= 'z')
    ||| ('A' <= c && c <= 'Z')
    ||| ('0' <= c && c <= '9')
    ||| c == '-'
    ||| c == '_'
    ||| c == '.'
    ||| c == '~'
}

/// Hexadecimal digit characters, either case.
pub open spec fn is_hex_digit(c: char) -> bool {
    ||| ('0' <= c && c <= '9')
    ||| ('a' <= c && c <= 'f')
    ||| ('A' <= c && c <= 'F')
}

/// Numeric value of a hex digit character.
pub open spec fn hex_value(c: char) -> int
    recommends
        is_hex_digit(c),
{
    if '0' <= c && c <= '9' {
        c as int - '0' as int
    } else if 'a' <= c && c <= 'f' {
        c as int - 'a' as int + 10
    } else {
        c as int - 'A' as int + 10
    }
}

/// The uppercase hex digit character for a value below 16.
pub open spec fn hex_digit(v: int) -> char
    recommends
        0 <= v < 16,
{
    if v < 10 {
        (v + '0' as int) as char
    } else {
        (v - 10 + 'A' as int) as char
    }
}

// ---------------------------------------------------------------------------
// The encoder, as a mathematical function
// ---------------------------------------------------------------------------
/// One escaped byte: `%` followed by its uppercase hex digits, with no
/// leading zero for values below 0x10 (`0x0A` becomes `%A`, not `%0A`).
pub open spec fn enc_byte(b: u8) -> Seq<char> {
    if b < 16 {
        seq!['%', hex_digit(b as int)]
    } else {
        seq!['%', hex_digit(b as int / 16), hex_digit(b as int % 16)]
    }
}

/// Each byte of a sequence escaped in turn.
pub open spec fn enc_bytes(bs: Seq<u8>) -> Seq<char>
    decreases bs.len(),
{
    if bs.len() == 0 {
        Seq::empty()
    } else {
        enc_byte(bs[0]) + enc_bytes(bs.drop_first())
    }
}

/// The encoding of one character: unreserved characters stand for
/// themselves; every other character is escaped byte by byte of its UTF-8
/// encoding.
pub open spec fn enc_char(c: char) -> Seq<char> {
    if is_unreserved(c) {
        seq![c]
    } else {
        enc_bytes(encode_scalar(c as u32))
    }
}

/// What `encode_url` returns, over the characters of the input.
pub open spec fn encode_spec(s: Seq<char>) -> Seq<char>
    decreases s.len(),
{
    if s.len() == 0 {
        Seq::empty()
    } else {
        enc_char(s[0]) + encode_spec(s.drop_first())
    }
}

// ---------------------------------------------------------------------------
// The decoder, as a mathematical function
// ---------------------------------------------------------------------------
/// True when `s[i..i+3]` is a `%` followed by two hex digits.
pub open spec fn triplet_at(s: Seq<char>, i: int) -> bool {
    &&& 0 <= i
    &&& i + 3 <= s.len()
    &&& s[i] == '%'
    &&& is_hex_digit(s[i + 1])
    &&& is_hex_digit(s[i + 2])
}

/// The byte value of the escape group starting at `i`.
pub open spec fn byte_at(s: Seq<char>, i: int) -> u8
    recommends
        triplet_at(s, i),
{
    (hex_value(s[i + 1]) * 16 + hex_value(s[i + 2])) as u8
}

/// How many bytes a UTF-8 sequence led by `b` comprises, for lead bytes at
/// or above 0x80; zero when no valid sequence can start with `b`.
pub open spec fn seq_len_of_lead(b: u8) -> int {
    if is_leading_byte_width_2(b) {
        2
    } else if is_leading_byte_width_3(b) {
        3
    } else if is_leading_byte_width_4(b) {
        4
    } else {
        0
    }
}

/// What `decode_url` returns, over the characters of the input: `None` on
/// any malformed escape, otherwise the decoded character sequence.
///
/// An escape group below 0x80 decodes to that single character.  A group
/// at or above 0x80 must be the lead byte of a UTF-8 sequence, followed
/// immediately by enough further escape groups to complete it, and the
/// completed byte sequence must be a valid UTF-8 encoding of one
/// character.  All other characters are copied through unchanged.
pub open spec fn decode_spec(s: Seq<char>) -> Option<Seq<char>>
    decreases s.len(),
{
    if s.len() == 0 {
        Some(Seq::empty())
    } else if s[0] != '%' {
        match decode_spec(s.drop_first()) {
            Some(r) => Some(seq![s[0]] + r),
            None => None,
        }
    } else if !triplet_at(s, 0) {
        None
    } else {
        let b = byte_at(s, 0);
        if b < 0x80 {
            match decode_spec(s.skip(3)) {
                Some(r) => Some(seq![b as char] + r),
                None => None,
            }
        } else {
            let n = seq_len_of_lead(b);
            if n == 0 {
                None
            } else if !(triplet_at(s, 3) && (n <= 2 || triplet_at(s, 6)) && (n <= 3
                || triplet_at(s, 9))) {
                None
            } else {
                let bytes = if n == 2 {
                    seq![b, byte_at(s, 3)]
                } else if n == 3 {
                    seq![b, byte_at(s, 3), byte_at(s, 6)]
                } else {
                    seq![b, byte_at(s, 3), byte_at(s, 6), byte_at(s, 9)]
                };
                if valid_first_scalar(bytes) {
                    match decode_spec(s.skip(3 * n)) {
                        Some(r) => Some(seq![decode_first_scalar(bytes) as char] + r),
                        None => None,
                    }
                } else {
                    None
                }
            }
        }
    }
}

// ---------------------------------------------------------------------------
// Encoding
// ---------------------------------------------------------------------------
/// Whether `c` may pass through `encode_url` unescaped.
fn is_unreserved_char(c: char) -> (r: bool)
    ensures
        r == is_unreserved(c),
{
    let u = c as u32;
    (97 <= u && u <= 122) || (65 <= u && u <= 90) || (48 <= u && u <= 57) || u == 45 || u == 95
        || u == 46 || u == 126
}

/// The uppercase hex digit character for a value below 16.
fn hex_digit_char(v: u8) -> (c: char)
    requires
        v < 16,
    ensures
        c == hex_digit(v as int),
{
    if v < 10 {
        (48 + v) as char
    } else {
        (55 + v) as char
    }
}

/// Appends `%` and the (unpadded) uppercase hex digits of `b`.
fn push_escaped_byte(out: &mut String, b: u8)
    ensures
        final(out)@ == old(out)@ + enc_byte(b),
{
    crate::text::push_char(out, '%');
    if b < 16 {
        crate::text::push_char(out, hex_digit_char(b));
        proof {
            assert(old(out)@ + seq!['%'] + seq![hex_digit(b as int)] =~= old(out)@ + enc_byte(b));
        }
    } else {
        crate::text::push_char(out, hex_digit_char(b / 16));
        crate::text::push_char(out, hex_digit_char(b % 16));
        proof {
            assert(old(out)@ + seq!['%'] + seq![hex_digit(b as int / 16)] + seq![
                hex_digit(b as int % 16),
            ] =~= old(out)@ + enc_byte(b));
        }
    }
}

/// Appends the encoding of one character: the character itself when it is
/// unreserved, otherwise one escape group per byte of its UTF-8 encoding.
fn push_encoded_char(out: &mut String, c: char)
    ensures
        final(out)@ == old(out)@ + enc_char(c),
{
    if is_unreserved_char(c) {
        crate::text::push_char(out, c);
        proof {
            assert(old(out)@ + seq![c] =~= old(out)@ + enc_char(c));
        }
        return ;
    }
    let cp = c as u32;
    proof {
        char_is_scalar(c);
    }
    if cp < 0x80 {
        let b1 = cp as u8;
        proof {
            assert(b1 == leading_byte_width_1(cp)) by (bit_vector)
                requires
                    cp < 0x80 && b1 == cp as u8,
            ;
            assert(encode_scalar(cp) =~= seq![b1]);
            reveal_with_fuel(enc_bytes, 3);
            assert(seq![b1].drop_first() =~= Seq::<u8>::empty());
            assert(enc_bytes(seq![b1]) =~= enc_byte(b1));
        }
        push_escaped_byte(out, b1);
    } else if cp < 0x800 {
        let b1 = 0xC0 | ((cp >> 6) & 0x1F) as u8;
        let b2 = 0x80 | (cp & 0x3F) as u8;
        proof {
            assert(encode_scalar(cp) =~= seq![b1, b2]);
            reveal_with_fuel(enc_bytes, 4);
            assert(seq![b1, b2].drop_first() =~= seq![b2]);
            assert(seq![b2].drop_first() =~= Seq::<u8>::empty());
            assert(enc_bytes(seq![b1, b2]) =~= enc_byte(b1) + enc_byte(b2));
        }
        push_escaped_byte(out, b1);
        push_escaped_byte(out, b2);
        proof {
            assert(old(out)@ + enc_byte(b1) + enc_byte(b2) =~= old(out)@ + enc_char(c));
        }
    } else if cp < 0x10000 {
        let b1 = 0xE0 | ((cp >> 12) & 0x0F) as u8;
        let b2 = 0x80 | ((cp >> 6) & 0x3F) as u8;
        let b3 = 0x80 | (cp & 0x3F) as u8;
        proof {
            assert(encode_scalar(cp) =~= seq![b1, b2, b3]);
            reveal_with_fuel(enc_bytes, 5);
            assert(seq![b1, b2, b3].drop_first() =~= seq![b2, b3]);
            assert(seq![b2, b3].drop_first() =~= seq![b3]);
            assert(seq![b3].drop_first() =~= Seq::<u8>::empty());
            assert(enc_bytes(seq![b1, b2, b3]) =~= enc_byte(b1) + enc_byte(b2) + enc_byte(b3));
        }
        push_escaped_byte(out, b1);
        push_escaped_byte(out, b2);
        push_escaped_byte(out, b3);
        proof {
            assert(old(out)@ + enc_byte(b1) + enc_byte(b2) + enc_byte(b3) =~= old(out)@ + enc_char(
                c,
            ));
        }
    } else {
        let b1 = 0xF0 | ((cp >> 18) & 0x7) as u8;
        let b2 = 0x80 | ((cp >> 12) & 0x3F) as u8;
        let b3 = 0x80 | ((cp >> 6) & 0x3F) as u8;
        let b4 = 0x80 | (cp & 0x3F) as u8;
        proof {
            assert(encode_scalar(cp) =~= seq![b1, b2, b3, b4]);
            reveal_with_fuel(enc_bytes, 6);
            assert(seq![b1, b2, b3, b4].drop_first() =~= seq![b2, b3, b4]);
            assert(seq![b2, b3, b4].drop_first() =~= seq![b3, b4]);
            assert(seq![b3, b4].drop_first() =~= seq![b4]);
            assert(seq![b4].drop_first() =~= Seq::<u8>::empty());
            assert(enc_bytes(seq![b1, b2, b3, b4]) =~= enc_byte(b1) + enc_byte(b2) + enc_byte(b3)
                + enc_byte(b4));
        }
        push_escaped_byte(out, b1);
        push_escaped_byte(out, b2);
        push_escaped_byte(out, b3);
        push_escaped_byte(out, b4);
        proof {
            assert(old(out)@ + enc_byte(b1) + enc_byte(b2) + enc_byte(b3) + enc_byte(b4) =~= old(
                out,
            )@ + enc_char(c));
        }
    }
}

/// `encode_spec` distributes over concatenation.
pub proof fn lemma_encode_concat(a: Seq<char>, b: Seq<char>)
    ensures
        encode_spec(a + b) == encode_spec(a) + encode_spec(b),
    decreases a.len(),
{
    if a.len() == 0 {
        assert(a + b =~= b);
        assert(encode_spec(a) + encode_spec(b) =~= encode_spec(b));
    } else {
        assert((a + b).drop_first() =~= a.drop_first() + b);
        lemma_encode_concat(a.drop_first(), b);
        assert(encode_spec(a + b) =~= encode_spec(a) + encode_spec(b));
    }
}

/// Percent-encodes a string: unreserved characters pass through, every
/// other character becomes one `%`-group per UTF-8 byte, uppercase hex.
pub fn encode_url(s: &str) -> (r: String)
    ensures
        r@ == encode_spec(s@),
{
    let n = s.unicode_len();
    let mut out = String::new();
    let mut i: usize = 0;
    while i < n
        invariant
            n == s@.len(),
            0 <= i <= n,
            out@ == encode_spec(s@.take(i as int)),
        decreases n - i,
    {
        let c = s.get_char(i);
        push_encoded_char(&mut out, c);
        proof {
            assert(s@.take(i + 1) =~= s@.take(i as int) + seq![s@[i as int]]);
            lemma_encode_concat(s@.take(i as int), seq![s@[i as int]]);
            reveal_with_fuel(encode_spec, 3);
            assert(seq![s@[i as int]].drop_first() =~= Seq::<char>::empty());
            assert(encode_spec(seq![s@[i as int]]) =~= enc_char(s@[i as int]));
        }
        i += 1;
    }
    proof {
        assert(s@.take(n as int) =~= s@);
    }
    out
}

// ---------------------------------------------------------------------------
// Decoding
// ---------------------------------------------------------------------------
/// Relies on char::from_u32: a value in the Unicode scalar range (at most
/// 0x10FFFF and not a surrogate) converts to the character with that value.
#[verifier::external_body]
fn char_from_scalar(v: u32) -> (c: char)
    requires
        is_scalar(v),
    ensures
        c as u32 == v,
{
    char::from_u32(v).unwrap()
}

/// The value of a hex digit character, `None` for any other character.
fn hex_value_char(c: char) -> (r: Option<u8>)
    ensures
        r is Some <==> is_hex_digit(c),
        r matches Some(v) ==> v as int == hex_value(c),
{
    let u = c as u32;
    if 48 <= u && u <= 57 {
        Some((u - 48) as u8)
    } else if 97 <= u && u <= 102 {
        Some((u - 87) as u8)
    } else if 65 <= u && u <= 70 {
        Some((u - 55) as u8)
    } else {
        None
    }
}

/// Reads the escape group `%XX` starting at position `i`, if one is there.
fn read_escape(s: &str, i: usize, n: usize) -> (r: Option<u8>)
    requires
        n == s@.len(),
        i <= n,
    ensures
        r is Some <==> triplet_at(s@, i as int),
        r matches Some(b) ==> b == byte_at(s@, i as int),
{
    if n - i < 3 {
        return None;
    }
    if s.get_char(i) != '%' {
        return None;
    }
    let h1 = hex_value_char(s.get_char(i + 1));
    let h2 = hex_value_char(s.get_char(i + 2));
    match (h1, h2) {
        (Some(a), Some(b)) => Some(a * 16 + b),
        _ => None,
    }
}

/// The decoding of the whole input equals `done` followed by the decoding
/// of the input's tail from position `i` (and fails if that tail fails).
spec fn decode_continues(s: Seq<char>, i: int, done: Seq<char>) -> bool {
    match decode_spec(s.skip(i)) {
        Some(rest) => decode_spec(s) == Some(done + rest),
        None => decode_spec(s) is None,
    }
}

proof fn lemma_continue_step(s: Seq<char>, i: int, i2: int, done: Seq<char>, piece: Seq<char>)
    requires
        decode_continues(s, i, done),
        0 <= i <= i2 <= s.len(),
        decode_spec(s.skip(i)) == (match decode_spec(s.skip(i2)) {
            Some(r) => Some(piece + r),
            None => None::<Seq<char>>,
        }),
    ensures
        decode_continues(s, i2, done + piece),
{
    match decode_spec(s.skip(i2)) {
        Some(r) => {
            assert(done + (piece + r) =~= (done + piece) + r);
        },
        None => {
        },
    }
}

/// Percent-decodes a string, returning `None` on any malformed escape:
/// a `%` not followed by two hex digits, an escape at or above 0x80 that
/// does not begin a run of escapes spelling a complete UTF-8 character,
/// or a byte sequence that is not valid UTF-8.
pub fn decode_url(s: &str) -> (r: Option<String>)
    ensures
        r is Some <==> decode_spec(s@) is Some,
        r matches Some(t) ==> decode_spec(s@) == Some(t@),
{
    let n = s.unicode_len();
    let mut out = String::new();
    let mut i: usize = 0;
    proof {
        assert(s@.skip(0) =~= s@);
        assert(Seq::<char>::empty() + decode_spec(s@)->0 =~= decode_spec(s@)->0);
    }
    while i < n
        invariant
            n == s@.len(),
            0 <= i <= n,
            decode_continues(s@, i as int, out@),
        decreases n - i,
    {
        let ghost g = s@.skip(i as int);
        let ghost out0 = out@;
        assert(g[0] == s@[i as int]);
        let c = s.get_char(i);
        if c != '%' {
            crate::text::push_char(&mut out, c);
            proof {
                assert(g.drop_first() =~= s@.skip(i + 1));
                lemma_continue_step(s@, i as int, i + 1, out0, seq![c]);
                assert(out0 + seq![c] =~= out@);
            }
            i += 1;
        } else {
            let b = match read_escape(s, i, n) {
                Some(b) => b,
                None => {
                    proof {
                        assert(!triplet_at(g, 0));
                        assert(decode_spec(g) is None);
                    }
                    return None;
                },
            };
            proof {
                assert(triplet_at(g, 0));
                assert(byte_at(g, 0) == byte_at(s@, i as int));
            }
            if b < 0x80 {
                let c2 = char_from_scalar(b as u32);
                proof {
                    char_u32_cast(c2, b as u32);
                    assert(c2 == b as char);
                    assert(g.skip(3) =~= s@.skip(i + 3));
                    lemma_continue_step(s@, i as int, i + 3, out0, seq![b as char]);
                }
                crate::text::push_char(&mut out, c2);
                proof {
                    assert(out0 + seq![b as char] =~= out@);
                }
                i += 3;
            } else {
                let need: usize = if b < 0xC0 {
                    0
                } else if b <= 0xDF {
                    2
                } else if b <= 0xEF {
                    3
                } else if b <= 0xF7 {
                    4
                } else {
                    0
                };
                if need == 0 {
                    proof {
                        assert(seq_len_of_lead(b) == 0);
                        assert(decode_spec(g) is None);
                    }
                    return None;
                }
                assert(need == seq_len_of_lead(b));
                let b2 = match read_escape(s, i + 3, n) {
                    Some(x) => x,
                    None => {
                        proof {
                            assert(!triplet_at(g, 3));
                            assert(decode_spec(g) is None);
                        }
                        return None;
                    },
                };
                proof {
                    assert(triplet_at(g, 3));
                    assert(byte_at(g, 3) == byte_at(s@, i + 3));
                }
                let mut b3: u8 = 0;
                let mut b4: u8 = 0;
                if need >= 3 {
                    b3 = match read_escape(s, i + 6, n) {
                        Some(x) => x,
                        None => {
                            proof {
                                assert(!triplet_at(g, 6));
                                assert(decode_spec(g) is None);
                            }
                            return None;
                        },
                    };
                    proof {
                        assert(triplet_at(g, 6));
                        assert(byte_at(g, 6) == byte_at(s@, i + 6));
                    }
                }
                if need == 4 {
                    b4 = match read_escape(s, i + 9, n) {
                        Some(x) => x,
                        None => {
                            proof {
                                assert(!triplet_at(g, 9));
                                assert(decode_spec(g) is None);
                            }
                            return None;
                        },
                    };
                    proof {
                        assert(triplet_at(g, 9));
                        assert(byte_at(g, 9) == byte_at(s@, i + 9));
                    }
                }
                let ghost bytes = if need == 2 {
                    seq![b, byte_at(g, 3)]
                } else if need == 3 {
                    seq![b, byte_at(g, 3), byte_at(g, 6)]
                } else {
                    seq![b, byte_at(g, 3), byte_at(g, 6), byte_at(g, 9)]
                };
                let cp: u32;
                if need == 2 {
                    if !(0x80 <= b2 && b2 <= 0xBF) {
                        proof {
                            assert(!valid_leading_and_continuation_bytes_first_codepoint(bytes));
                            assert(decode_spec(g) is None);
                        }
                        return None;
                    }
                    cp = (((b & 0x1F) as u32) << 6u32) | ((b2 & 0x3F) as u32);
                    proof {
                        assert(cp == codepoint_width_2(b, b2));
                        assert(cp <= 0x7FF) by (bit_vector)
                            requires
                                cp == (((b & 0x1F) as u32) << 6u32) | ((b2 & 0x3F) as u32),
                        ;
                    }
                    if cp < 0x80 {
                        proof {
                            assert(!not_overlong_encoding(
                                decode_first_codepoint(bytes),
                                length_of_first_codepoint(bytes),
                            ));
                            assert(decode_spec(g) is None);
                        }
                        return None;
                    }
                    proof {
                        assert(valid_first_scalar(bytes));
                    }
                } else if need == 3 {
                    if !(0x80 <= b2 && b2 <= 0xBF && 0x80 <= b3 && b3 <= 0xBF) {
                        proof {
                            assert(!valid_leading_and_continuation_bytes_first_codepoint(bytes));
                            assert(decode_spec(g) is None);
                        }
                        return None;
                    }
                    cp = (((b & 0x0F) as u32) << 12u32) | (((b2 & 0x3F) as u32) << 6u32) | ((b3
                        & 0x3F) as u32);
                    proof {
                        assert(cp == codepoint_width_3(b, b2, b3));
                        assert(cp <= 0xFFFF) by (bit_vector)
                            requires
                                cp == (((b & 0x0F) as u32) << 12u32) | (((b2 & 0x3F) as u32)
                                    << 6u32) | ((b3 & 0x3F) as u32),
                        ;
                    }
                    if cp < 0x800 || (0xD800 <= cp && cp <= 0xDFFF) {
                        proof {
                            assert(!valid_first_scalar(bytes));
                            assert(decode_spec(g) is None);
                        }
                        return None;
                    }
                    proof {
                        assert(valid_first_scalar(bytes));
                    }
                } else {
                    if !(0x80 <= b2 && b2 <= 0xBF && 0x80 <= b3 && b3 <= 0xBF && 0x80 <= b4 && b4
                        <= 0xBF) {
                        proof {
                            assert(!valid_leading_and_continuation_bytes_first_codepoint(bytes));
                            assert(decode_spec(g) is None);
                        }
                        return None;
                    }
                    cp = (((b & 0x07) as u32) << 18u32) | (((b2 & 0x3F) as u32) << 12u32) | (((b3
                        & 0x3F) as u32) << 6u32) | ((b4 & 0x3F) as u32);
                    proof {
                        assert(cp == codepoint_width_4(b, b2, b3, b4));
                    }
                    if cp < 0x10000 || cp > 0x10FFFF {
                        proof {
                            assert(!valid_first_scalar(bytes));
                            assert(decode_spec(g) is None);
                        }
                        return None;
                    }
                    proof {
                        assert(valid_first_scalar(bytes));
                    }
                }
                proof {
                    assert(is_scalar(cp));
                    assert(cp == decode_first_scalar(bytes));
                }
                let c2 = char_from_scalar(cp);
                proof {
                    char_u32_cast(c2, cp);
                    assert(c2 == decode_first_scalar(bytes) as char);
                    assert(g.skip(3 * need as int) =~= s@.skip(i + 3 * need));
                    assert(decode_spec(g) == (match decode_spec(s@.skip(i + 3 * need)) {
                        Some(r) => Some(seq![c2] + r),
                        None => None::<Seq<char>>,
                    }));
                    lemma_continue_step(s@, i as int, i + 3 * need, out0, seq![c2]);
                }
                crate::text::push_char(&mut out, c2);
                proof {
                    assert(out0 + seq![c2] =~= out@);
                }
                i += 3 * need;
            }
        }
    }
    proof {
        assert(s@.skip(n as int) =~= Seq::<char>::empty());
        match decode_spec(s@) {
            Some(r) => {
                assert(out@ + Seq::<char>::empty() =~= out@);
            },
            None => {
            },
        }
    }
    Some(out)
}

// ---------------------------------------------------------------------------
// Laws: what decoding an encoded string gives back
// ---------------------------------------------------------------------------
proof fn lemma_hex_digit_value(v: int)
    requires
        0 <= v < 16,
    ensures
        is_hex_digit(hex_digit(v)),
        hex_value(hex_digit(v)) == v,
        is_unreserved(hex_digit(v)),
{
}

proof fn lemma_triplet_roundtrip(s: Seq<char>, i: int, b: u8)
    requires
        b >= 0x10,
        0 <= i,
        i + 3 <= s.len(),
        s[i] == '%',
        s[i + 1] == hex_digit(b as int / 16),
        s[i + 2] == hex_digit(b as int % 16),
    ensures
        triplet_at(s, i),
        byte_at(s, i) == b,
{
    lemma_hex_digit_value(b as int / 16);
    lemma_hex_digit_value(b as int % 16);
}

/// Decoding consumes the encoding of one leading character and goes on
/// with the rest, for characters at or above 0x10.  (A character below
/// 0x10 is escaped with a single hex digit, which the decoder does not
/// read back as its own group.)
proof fn lemma_decode_enc_char_prepend(c: char, t: Seq<char>)
    requires
        c as u32 >= 0x10,
    ensures
        decode_spec(enc_char(c) + t) == (match decode_spec(t) {
            Some(r) => Some(seq![c] + r),
            None => None::<Seq<char>>,
        }),
{
    let s = enc_char(c) + t;
    let cp = c as u32;
    char_is_scalar(c);
    if is_unreserved(c) {
        assert(s[0] == c && c != '%');
        assert(s.drop_first() =~= t);
    } else if cp < 0x80 {
        let b = leading_byte_width_1(cp);
        assert(b == cp && b >= 0x10) by (bit_vector)
            requires
                0x10 <= cp < 0x80 && b == (cp & 0x7F) as u8,
        ;
        assert(encode_scalar(cp) =~= seq![b]);
        reveal_with_fuel(enc_bytes, 3);
        assert(seq![b].drop_first() =~= Seq::<u8>::empty());
        assert(enc_char(c) =~= seq!['%', hex_digit(b as int / 16), hex_digit(b as int % 16)]);
        lemma_triplet_roundtrip(s, 0, b);
        assert(s.skip(3) =~= t);
        char_u32_cast(c, cp);
        assert(b as char == c);
    } else {
        let es = encode_scalar(cp);
        encode_utf8_first_scalar(seq![c]);
        reveal_with_fuel(encode_utf8, 3);
        assert(seq![c].drop_first() =~= Seq::<char>::empty());
        assert(encode_utf8(seq![c]) =~= es);
        assert(valid_first_scalar(es) && decode_first_scalar(es) == cp);
        char_u32_cast(c, cp);
        reveal_with_fuel(enc_bytes, 6);
        if cp < 0x800 {
            let b1 = leading_byte_width_2(cp);
            let b2 = last_continuation_byte(cp);
            assert(0xC2 <= b1 <= 0xDF && 0x80 <= b2 <= 0xBF) by (bit_vector)
                requires
                    0x80 <= cp < 0x800 && b1 == 0xC0 | ((cp >> 6) & 0x1F) as u8 && b2 == 0x80 | (cp
                        & 0x3F) as u8,
            ;
            assert(es =~= seq![b1, b2]);
            assert(seq![b1, b2].drop_first() =~= seq![b2]);
            assert(seq![b2].drop_first() =~= Seq::<u8>::empty());
            assert(enc_char(c).len() == 6);
            assert(s[0] == '%' && s[1] == hex_digit(b1 as int / 16) && s[2] == hex_digit(
                b1 as int % 16,
            ));
            assert(s[3] == '%' && s[4] == hex_digit(b2 as int / 16) && s[5] == hex_digit(
                b2 as int % 16,
            ));
            lemma_triplet_roundtrip(s, 0, b1);
            lemma_triplet_roundtrip(s, 3, b2);
            assert(seq_len_of_lead(b1) == 2);
            assert(seq![byte_at(s, 0), byte_at(s, 3)] =~= es);
            assert(s.skip(6) =~= t);
        } else if cp < 0x10000 {
            let b1 = leading_byte_width_3(cp);
            let b2 = second_last_continuation_byte(cp);
            let b3 = last_continuation_byte(cp);
            assert(0xE0 <= b1 <= 0xEF && 0x80 <= b2 <= 0xBF && 0x80 <= b3 <= 0xBF) by (bit_vector)
                requires
                    b1 == 0xE0 | ((cp >> 12) & 0x0F) as u8 && b2 == 0x80 | ((cp >> 6) & 0x3F) as u8
                        && b3 == 0x80 | (cp & 0x3F) as u8,
            ;
            assert(es =~= seq![b1, b2, b3]);
            assert(seq![b1, b2, b3].drop_first() =~= seq![b2, b3]);
            assert(seq![b2, b3].drop_first() =~= seq![b3]);
            assert(seq![b3].drop_first() =~= Seq::<u8>::empty());
            assert(enc_char(c).len() == 9);
            assert(s[0] == '%' && s[1] == hex_digit(b1 as int / 16) && s[2] == hex_digit(
                b1 as int % 16,
            ));
            assert(s[3] == '%' && s[4] == hex_digit(b2 as int / 16) && s[5] == hex_digit(
                b2 as int % 16,
            ));
            assert(s[6] == '%' && s[7] == hex_digit(b3 as int / 16) && s[8] == hex_digit(
                b3 as int % 16,
            ));
            lemma_triplet_roundtrip(s, 0, b1);
            lemma_triplet_roundtrip(s, 3, b2);
            lemma_triplet_roundtrip(s, 6, b3);
            assert(seq_len_of_lead(b1) == 3);
            assert(seq![byte_at(s, 0), byte_at(s, 3), byte_at(s, 6)] =~= es);
            assert(s.skip(9) =~= t);
        } else {
            let b1 = leading_byte_width_4(cp);
            let b2 = third_last_continuation_byte(cp);
            let b3 = second_last_continuation_byte(cp);
            let b4 = last_continuation_byte(cp);
            assert(0xF0 <= b1 <= 0xF7 && 0x80 <= b2 <= 0xBF && 0x80 <= b3 <= 0xBF && 0x80 <= b4
                <= 0xBF) by (bit_vector)
                requires
                    b1 == 0xF0 | ((cp >> 18) & 0x7) as u8 && b2 == 0x80 | ((cp >> 12) & 0x3F) as u8
                        && b3 == 0x80 | ((cp >> 6) & 0x3F) as u8 && b4 == 0x80 | (cp & 0x3F) as u8,
            ;
            assert(es =~= seq![b1, b2, b3, b4]);
            assert(seq![b1, b2, b3, b4].drop_first() =~= seq![b2, b3, b4]);
            assert(seq![b2, b3, b4].drop_first() =~= seq![b3, b4]);
            assert(seq![b3, b4].drop_first() =~= seq![b4]);
            assert(seq![b4].drop_first() =~= Seq::<u8>::empty());
            assert(enc_char(c).len() == 12);
            assert(s[0] == '%' && s[1] == hex_digit(b1 as int / 16) && s[2] == hex_digit(
                b1 as int % 16,
            ));
            assert(s[3] == '%' && s[4] == hex_digit(b2 as int / 16) && s[5] == hex_digit(
                b2 as int % 16,
            ));
            assert(s[6] == '%' && s[7] == hex_digit(b3 as int / 16) && s[8] == hex_digit(
                b3 as int % 16,
            ));
            assert(s[9] == '%' && s[10] == hex_digit(b4 as int / 16) && s[11] == hex_digit(
                b4 as int % 16,
            ));
            lemma_triplet_roundtrip(s, 0, b1);
            lemma_triplet_roundtrip(s, 3, b2);
            lemma_triplet_roundtrip(s, 6, b3);
            lemma_triplet_roundtrip(s, 9, b4);
            assert(seq_len_of_lead(b1) == 4);
            assert(seq![byte_at(s, 0), byte_at(s, 3), byte_at(s, 6), byte_at(s, 9)] =~= es);
            assert(s.skip(12) =~= t);
        }
    }
}

/// Decoding inverts encoding, for strings whose characters all lie at or
/// above 0x10.  (For a character below 0x10 the encoder emits a single
/// hex digit after the `%`, which the decoder does not accept; such
/// strings do not round-trip.)
pub proof fn lemma_decode_encode(s: Seq<char>)
    requires
        forall|j: int| 0 <= j < s.len() ==> #[trigger] (s[j] as u32) >= 0x10,
    ensures
        decode_spec(encode_spec(s)) == Some(s),
    decreases s.len(),
{
    if s.len() == 0 {
        assert(encode_spec(s) =~= Seq::<char>::empty());
        assert(decode_spec(encode_spec(s)) =~= Some(s));
    } else {
        lemma_decode_encode(s.drop_first());
        lemma_decode_enc_char_prepend(s[0], encode_spec(s.drop_first()));
        assert(seq![s[0]] + s.drop_first() =~= s);
    }
}

/// Round trip on printable ASCII: for a string of characters in
/// 0x20..=0x7E none of which is `%`, decoding the encoding gives the
/// string back.
pub proof fn lemma_round_trip_printable_ascii(s: Seq<char>)
    requires
        forall|j: int|
            0 <= j < s.len() ==> 0x20 <= #[trigger] (s[j] as u32) <= 0x7E && s[j] != '%',
    ensures
        decode_spec(encode_spec(s)) == Some(s),
{
    lemma_decode_encode(s);
}

proof fn lemma_enc_bytes_alphabet(bs: Seq<u8>)
    ensures
        forall|j: int|
            0 <= j < enc_bytes(bs).len() ==> #[trigger] enc_bytes(bs)[j] == '%' || is_unreserved(
                enc_bytes(bs)[j],
            ),
    decreases bs.len(),
{
    if bs.len() == 0 {
    } else {
        if bs[0] < 16 {
            lemma_hex_digit_value(bs[0] as int);
        } else {
            lemma_hex_digit_value(bs[0] as int / 16);
            lemma_hex_digit_value(bs[0] as int % 16);
        }
        lemma_enc_bytes_alphabet(bs.drop_first());
        let h = enc_byte(bs[0]);
        let r = enc_bytes(bs.drop_first());
        assert forall|j: int| 0 <= j < enc_bytes(bs).len() implies #[trigger] enc_bytes(bs)[j]
            == '%' || is_unreserved(enc_bytes(bs)[j]) by {
            if j < h.len() {
                assert(enc_bytes(bs)[j] == h[j]);
            } else {
                assert(enc_bytes(bs)[j] == r[j - h.len()]);
            }
        }
    }
}

/// Everything the encoder emits is an unreserved character (an ASCII
/// letter, a digit, `-`, `_`, `.` or `~`) or a `%`; the digits written
/// after a `%` are uppercase hex, since `hex_digit` yields only `0`..`9`
/// and `A`..`F`.
pub proof fn lemma_encode_alphabet(s: Seq<char>)
    ensures
        forall|j: int|
            0 <= j < encode_spec(s).len() ==> #[trigger] encode_spec(s)[j] == '%' || is_unreserved(
                encode_spec(s)[j],
            ),
    decreases s.len(),
{
    if s.len() == 0 {
    } else {
        if !is_unreserved(s[0]) {
            char_is_scalar(s[0]);
            lemma_enc_bytes_alphabet(encode_scalar(s[0] as u32));
        }
        lemma_encode_alphabet(s.drop_first());
        let h = enc_char(s[0]);
        let r = encode_spec(s.drop_first());
        assert forall|j: int| 0 <= j < encode_spec(s).len() implies #[trigger] encode_spec(s)[j]
            == '%' || is_unreserved(encode_spec(s)[j]) by {
            if j < h.len() {
                assert(encode_spec(s)[j] == h[j]);
            } else {
                assert(encode_spec(s)[j] == r[j - h.len()]);
            }
        }
    }
}

} // verus!
