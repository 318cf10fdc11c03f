//! Percent-encoding of words for the outbound definition lookup:
//! unreserved characters pass through, every other character is escaped
//! byte by byte in its character encoding. Encoding is total and
//! invertible; the decoder is its inverse.

use vstd::prelude::*;
use crate::text::push_char;

verus! {

/// The characters the lookup service's addressing scheme takes as they
/// are: ASCII letters, digits, and `-`, `.`, `_`, `~`.
pub open spec fn spec_is_unreserved(c: char) -> bool {
    ||| 'A' <= c <= 'Z'
    ||| 'a' <= c <= 'z'
    ||| '0' <= c <= '9'
    ||| c == '-'
    ||| c == '.'
    ||| c == '_'
    ||| c == '~'
}

/// The uppercase hexadecimal digit for a value below 16.
pub open spec fn spec_hex_digit(d: int) -> char {
    if d < 10 {
        ((48 + d) as u8) as char
    } else {
        ((55 + d) as u8) as char
    }
}

/// The value of a hexadecimal digit, or -1 for any other character.
pub open spec fn spec_unhex(c: char) -> int {
    if '0' <= c <= '9' {
        (c as u32) - 48
    } else if 'A' <= c <= 'F' {
        (c as u32) - 55
    } else if 'a' <= c <= 'f' {
        (c as u32) - 87
    } else {
        -1
    }
}

/// The byte encoding of one character, shortest form.
pub open spec fn spec_utf8_bytes(c: char) -> Seq<u8> {
    let u = c as u32;
    if u < 0x80 {
        seq![u as u8]
    } else if u < 0x800 {
        seq![(0xC0 + u / 64) as u8, (0x80 + u % 64) as u8]
    } else if u < 0x10000 {
        seq![(0xE0 + u / 4096) as u8, (0x80 + (u / 64) % 64) as u8, (0x80 + u % 64) as u8]
    } else {
        seq![
            (0xF0 + u / 262144) as u8,
            (0x80 + (u / 4096) % 64) as u8,
            (0x80 + (u / 64) % 64) as u8,
            (0x80 + u % 64) as u8,
        ]
    }
}

/// The escape triple for one byte.
pub open spec fn spec_escape_byte(b: u8) -> Seq<char> {
    seq!['%', spec_hex_digit(b as int / 16), spec_hex_digit(b as int % 16)]
}

/// The escape triples for a sequence of bytes, in order.
pub open spec fn spec_escape_bytes(bs: Seq<u8>) -> Seq<char>
    decreases bs.len(),
{
    if bs.len() == 0 {
        Seq::empty()
    } else {
        spec_escape_byte(bs[0]) + spec_escape_bytes(bs.drop_first())
    }
}

/// The encoding of one character: itself when unreserved, its escaped
/// bytes otherwise.
pub open spec fn spec_encode_char(c: char) -> Seq<char> {
    if spec_is_unreserved(c) {
        seq![c]
    } else {
        spec_escape_bytes(spec_utf8_bytes(c))
    }
}

/// The encoding of a whole string, character by character.
pub open spec fn spec_percent_encode(s: Seq<char>) -> Seq<char>
    decreases s.len(),
{
    if s.len() == 0 {
        Seq::empty()
    } else {
        spec_encode_char(s[0]) + spec_percent_encode(s.drop_first())
    }
}

/// The byte encoding of a whole string, character by character.
pub open spec fn spec_utf8_of(s: Seq<char>) -> Seq<u8>
    decreases s.len(),
{
    if s.len() == 0 {
        Seq::empty()
    } else {
        spec_utf8_bytes(s[0]) + spec_utf8_of(s.drop_first())
    }
}

/// The bytes an encoded string stands for: an escape triple yields its
/// byte, a bare character below 0x80 yields its own code, anything else
/// is invalid.
pub open spec fn spec_percent_decode_bytes(s: Seq<char>) -> Option<Seq<u8>>
    decreases s.len(),
{
    if s.len() == 0 {
        Some(Seq::empty())
    } else if s[0] == '%' {
        if s.len() >= 3 && spec_unhex(s[1]) >= 0 && spec_unhex(s[2]) >= 0 {
            match spec_percent_decode_bytes(s.skip(3)) {
                Some(bs) => Some(seq![(16 * spec_unhex(s[1]) + spec_unhex(s[2])) as u8] + bs),
                None => None,
            }
        } else {
            None
        }
    } else if (s[0] as u32) < 0x80 {
        match spec_percent_decode_bytes(s.skip(1)) {
            Some(bs) => Some(seq![(s[0] as u32) as u8] + bs),
            None => None,
        }
    } else {
        None
    }
}

/// The characters a byte sequence spells in the shortest-form character
/// encoding, or nothing when it is not such an encoding.
pub open spec fn spec_utf8_decode(bs: Seq<u8>) -> Option<Seq<char>>
    decreases bs.len(),
{
    if bs.len() == 0 {
        Some(Seq::empty())
    } else {
        let b0 = bs[0] as u32;
        if b0 < 0x80 {
            match spec_utf8_decode(bs.skip(1)) {
                Some(r) => Some(seq![(b0 as u32) as char] + r),
                None => None,
            }
        } else if 0xC2 <= b0 <= 0xDF && bs.len() >= 2 && is_cont(bs[1]) {
            let u = (b0 - 0xC0) * 64 + (bs[1] as u32 - 0x80);
            match spec_utf8_decode(bs.skip(2)) {
                Some(r) => Some(seq![u as char] + r),
                None => None,
            }
        } else if 0xE0 <= b0 <= 0xEF && bs.len() >= 3 && is_cont(bs[1]) && is_cont(bs[2]) {
            let u = (b0 - 0xE0) * 4096 + (bs[1] as u32 - 0x80) * 64 + (bs[2] as u32 - 0x80);
            if 0x800 <= u && !(0xD800 <= u < 0xE000) {
                match spec_utf8_decode(bs.skip(3)) {
                    Some(r) => Some(seq![u as char] + r),
                    None => None,
                }
            } else {
                None
            }
        } else if 0xF0 <= b0 <= 0xF4 && bs.len() >= 4 && is_cont(bs[1]) && is_cont(bs[2]) && is_cont(
            bs[3],
        ) {
            let u = (b0 - 0xF0) * 262144 + (bs[1] as u32 - 0x80) * 4096 + (bs[2] as u32 - 0x80) * 64
                + (bs[3] as u32 - 0x80);
            if 0x10000 <= u <= 0x10FFFF {
                match spec_utf8_decode(bs.skip(4)) {
                    Some(r) => Some(seq![u as char] + r),
                    None => None,
                }
            } else {
                None
            }
        } else {
            None
        }
    }
}

/// A continuation byte of the character encoding.
pub open spec fn is_cont(b: u8) -> bool {
    0x80 <= b < 0xC0
}

/// The inverse of `spec_percent_encode`: unescape, then decode the
/// bytes.
pub open spec fn spec_percent_decode(s: Seq<char>) -> Option<Seq<char>> {
    match spec_percent_decode_bytes(s) {
        Some(bs) => spec_utf8_decode(bs),
        None => None,
    }
}

fn is_unreserved_char(c: char) -> (r: bool)
    ensures
        r == spec_is_unreserved(c),
{
    ('A' <= c && c <= 'Z') || ('a' <= c && c <= 'z') || ('0' <= c && c <= '9') || c == '-' || c
        == '.' || c == '_' || c == '~'
}

fn hex_char(d: u8) -> (c: char)
    requires
        d < 16,
    ensures
        c == spec_hex_digit(d as int),
{
    if d < 10 {
        (48 + d) as char
    } else {
        (55 + d) as char
    }
}

/// Appends the escape triple of one byte.
fn push_escape(r: &mut String, b: u8)
    ensures
        final(r)@ == old(r)@ + spec_escape_byte(b),
{
    push_char(r, '%');
    push_char(r, hex_char(b / 16));
    push_char(r, hex_char(b % 16));
    proof {
        assert(r@ =~= old(r)@ + spec_escape_byte(b));
    }
}

/// Appending one character's encoding extends the whole encoding.
proof fn lemma_encode_push(s: Seq<char>, c: char)
    ensures
        spec_percent_encode(s.push(c)) == spec_percent_encode(s) + spec_encode_char(c),
    decreases s.len(),
{
    reveal_with_fuel(spec_percent_encode, 3);
    if s.len() == 0 {
        assert(s.push(c)[0] == c);
        assert(s.push(c).drop_first() =~= Seq::<char>::empty());
        assert(spec_percent_encode(s.push(c)) =~= spec_percent_encode(s) + spec_encode_char(c));
    } else {
        assert(s.push(c)[0] == s[0]);
        assert(s.push(c).drop_first() =~= s.drop_first().push(c));
        lemma_encode_push(s.drop_first(), c);
        assert(spec_percent_encode(s.push(c)) =~= spec_percent_encode(s) + spec_encode_char(c));
    }
}

/// Escapes every character of the input that the addressing scheme
/// reserves; unreserved characters pass through unchanged. Total: any
/// string can be encoded.
#[verifier::rlimit(50)]
pub fn percent_encode(input: String) -> (r: String)
    ensures
        r@ == spec_percent_encode(input@),
{
    let s = input.as_str();
    let n = s.unicode_len();
    let mut r = String::new();
    let mut i: usize = 0;
    while i < n
        invariant
            i <= n,
            n == s@.len(),
            s@ == input@,
            r@ == spec_percent_encode(s@.subrange(0, i as int)),
        decreases n - i,
    {
        let c = s.get_char(i);
        if is_unreserved_char(c) {
            push_char(&mut r, c);
            proof {
                assert(r@ =~= spec_percent_encode(s@.subrange(0, i as int)) + spec_encode_char(c));
            }
        } else {
            let u: u32 = c as u32;
            if u < 0x80 {
                push_escape(&mut r, u as u8);
                proof {
                    reveal_with_fuel(spec_escape_bytes, 6);
                    assert(spec_utf8_bytes(c) =~= seq![u as u8]);
                    assert(spec_utf8_bytes(c).drop_first() =~= Seq::<u8>::empty());
                    assert(spec_escape_bytes(spec_utf8_bytes(c)) =~= spec_escape_byte(u as u8));
                }
            } else if u < 0x800 {
                let b0: u8 = (0xC0 + u / 64) as u8;
                let b1: u8 = (0x80 + u % 64) as u8;
                push_escape(&mut r, b0);
                push_escape(&mut r, b1);
                proof {
                    reveal_with_fuel(spec_escape_bytes, 6);
                    let bs = spec_utf8_bytes(c);
                    assert(bs =~= seq![b0, b1]);
                    assert(bs.drop_first() =~= seq![b1]);
                    assert(bs.drop_first().drop_first() =~= Seq::<u8>::empty());
                    assert(spec_escape_bytes(bs) =~= spec_escape_byte(b0) + spec_escape_byte(b1));
                }
            } else if u < 0x10000 {
                let b0: u8 = (0xE0 + u / 4096) as u8;
                let b1: u8 = (0x80 + (u / 64) % 64) as u8;
                let b2: u8 = (0x80 + u % 64) as u8;
                push_escape(&mut r, b0);
                push_escape(&mut r, b1);
                push_escape(&mut r, b2);
                proof {
                    reveal_with_fuel(spec_escape_bytes, 6);
                    let bs = spec_utf8_bytes(c);
                    assert(bs =~= seq![b0, b1, b2]);
                    assert(bs.drop_first() =~= seq![b1, b2]);
                    assert(bs.drop_first().drop_first() =~= seq![b2]);
                    assert(bs.drop_first().drop_first().drop_first() =~= Seq::<u8>::empty());
                    assert(spec_escape_bytes(bs) =~= spec_escape_byte(b0) + spec_escape_byte(b1)
                        + spec_escape_byte(b2));
                }
            } else {
                let b0: u8 = (0xF0 + u / 262144) as u8;
                let b1: u8 = (0x80 + (u / 4096) % 64) as u8;
                let b2: u8 = (0x80 + (u / 64) % 64) as u8;
                let b3: u8 = (0x80 + u % 64) as u8;
                push_escape(&mut r, b0);
                push_escape(&mut r, b1);
                push_escape(&mut r, b2);
                push_escape(&mut r, b3);
                proof {
                    reveal_with_fuel(spec_escape_bytes, 6);
                    let bs = spec_utf8_bytes(c);
                    assert(bs =~= seq![b0, b1, b2, b3]);
                    assert(bs.drop_first() =~= seq![b1, b2, b3]);
                    assert(bs.drop_first().drop_first() =~= seq![b2, b3]);
                    assert(bs.drop_first().drop_first().drop_first() =~= seq![b3]);
                    assert(bs.drop_first().drop_first().drop_first().drop_first() =~= Seq::<
                        u8,
                    >::empty());
                    assert(spec_escape_bytes(bs) =~= spec_escape_byte(b0) + spec_escape_byte(b1)
                        + spec_escape_byte(b2) + spec_escape_byte(b3));
                }
            }
            proof {
                assert(r@ =~= spec_percent_encode(s@.subrange(0, i as int)) + spec_encode_char(c));
            }
        }
        proof {
            lemma_encode_push(s@.subrange(0, i as int), c);
            assert(s@.subrange(0, i + 1 as int) =~= s@.subrange(0, i as int).push(c));
        }
        i = i + 1;
    }
    proof {
        assert(s@.subrange(0, n as int) =~= s@);
    }
    r
}

/// Relies on `char::from_u32`: some character for every valid scalar
/// value, nothing for a surrogate or an out-of-range value.
#[verifier::external_body]
fn char_from_u32(u: u32) -> (r: Option<char>)
    ensures
        (0xD800 <= u < 0xE000 || u > 0x10FFFF) ==> r is None,
        !(0xD800 <= u < 0xE000 || u > 0x10FFFF) ==> r == Some(u as char),
{
    char::from_u32(u)
}

fn unhex_char(c: char) -> (r: Option<u8>)
    ensures
        spec_unhex(c) >= 0 ==> r == Some(spec_unhex(c) as u8),
        spec_unhex(c) < 0 ==> r is None,
{
    if '0' <= c && c <= '9' {
        Some((c as u8) - 48)
    } else if 'A' <= c && c <= 'F' {
        Some((c as u8) - 55)
    } else if 'a' <= c && c <= 'f' {
        Some((c as u8) - 87)
    } else {
        None
    }
}

/// Undoes the escape layer: every `%HH` triple becomes its byte, every
/// bare character below 0x80 its own code; anything else is invalid.
#[verifier::rlimit(50)]
fn percent_decode_bytes(s: &str) -> (r: Option<Vec<u8>>)
    ensures
        match r {
            Some(bs) => spec_percent_decode_bytes(s@) == Some(bs@),
            None => spec_percent_decode_bytes(s@) is None,
        },
{
    let n = s.unicode_len();
    let mut acc: Vec<u8> = Vec::new();
    let mut i: usize = 0;
    proof {
        assert(s@.skip(0) =~= s@);
    }
    while i < n
        invariant
            i <= n,
            n == s@.len(),
            spec_percent_decode_bytes(s@) == (match spec_percent_decode_bytes(
                s@.skip(i as int),
            ) {
                Some(t) => Some(acc@ + t),
                None => None,
            }),
        decreases n - i,
    {
        let ghost pre = acc@;
        let ghost suf = s@.skip(i as int);
        let c = s.get_char(i);
        proof {
            assert(suf[0] == s@[i as int]);
        }
        if c == '%' {
            if n - i < 3 {
                proof {
                    assert(suf.len() < 3);
                }
                return None;
            }
            let h1 = unhex_char(s.get_char(i + 1));
            let h2 = unhex_char(s.get_char(i + 2));
            proof {
                assert(suf[1] == s@[i + 1 as int]);
                assert(suf[2] == s@[i + 2 as int]);
            }
            match (h1, h2) {
                (Some(d1), Some(d2)) => {
                    acc.push(16 * d1 + d2);
                    proof {
                        assert(suf.skip(3) =~= s@.skip(i + 3 as int));
                        match spec_percent_decode_bytes(s@.skip(i + 3 as int)) {
                            Some(t) => {
                                assert(acc@ + t =~= pre + (seq![(16 * spec_unhex(suf[1])
                                    + spec_unhex(suf[2])) as u8] + t));
                            },
                            None => {},
                        }
                    }
                    i = i + 3;
                },
                _ => {
                    return None;
                },
            }
        } else {
            let u: u32 = c as u32;
            if u < 0x80 {
                acc.push(u as u8);
                proof {
                    assert(suf.skip(1) =~= s@.skip(i + 1 as int));
                    match spec_percent_decode_bytes(s@.skip(i + 1 as int)) {
                        Some(t) => {
                            assert(acc@ + t =~= pre + (seq![(suf[0] as u32) as u8] + t));
                        },
                        None => {},
                    }
                }
                i = i + 1;
            } else {
                return None;
            }
        }
    }
    proof {
        assert(s@.skip(n as int) =~= Seq::<char>::empty());
    }
    Some(acc)
}

/// Decodes a byte sequence as shortest-form character encoding.
#[verifier::rlimit(100)]
fn utf8_decode(bs: &Vec<u8>) -> (r: Option<String>)
    ensures
        match r {
            Some(out) => spec_utf8_decode(bs@) == Some(out@),
            None => spec_utf8_decode(bs@) is None,
        },
{
    let n = bs.len();
    let mut out = String::new();
    let mut j: usize = 0;
    proof {
        assert(bs@.skip(0) =~= bs@);
    }
    while j < n
        invariant
            j <= n,
            n == bs@.len(),
            spec_utf8_decode(bs@) == (match spec_utf8_decode(bs@.skip(j as int)) {
                Some(t) => Some(out@ + t),
                None => None,
            }),
        decreases n - j,
    {
        let ghost pre = out@;
        let ghost suf = bs@.skip(j as int);
        let b0 = bs[j];
        proof {
            assert(suf[0] == bs@[j as int]);
        }
        if b0 < 0x80 {
            push_char(&mut out, b0 as char);
            proof {
                assert(suf.skip(1) =~= bs@.skip(j + 1 as int));
                match spec_utf8_decode(bs@.skip(j + 1 as int)) {
                    Some(t) => {
                        assert(out@ + t =~= pre + (seq![((suf[0] as u32) as u32) as char] + t));
                    },
                    None => {},
                }
            }
            j = j + 1;
        } else if 0xC2 <= b0 && b0 <= 0xDF {
            if n - j < 2 || !(0x80 <= bs[j + 1] && bs[j + 1] < 0xC0) {
                proof {
                    if j + 1 < n {
                        assert(suf[1] == bs@[j + 1 as int]);
                    }
                }
                return None;
            }
            let b1 = bs[j + 1];
            let u: u32 = (b0 as u32 - 0xC0) * 64 + (b1 as u32 - 0x80);
            proof {
                assert(suf[1] == bs@[j + 1 as int]);
                assert(u < 0x800);
            }
            match char_from_u32(u) {
                Some(c) => {
                    push_char(&mut out, c);
                    proof {
                        assert(suf.skip(2) =~= bs@.skip(j + 2 as int));
                        match spec_utf8_decode(bs@.skip(j + 2 as int)) {
                            Some(t) => {
                                assert(out@ + t =~= pre + (seq![c] + t));
                            },
                            None => {},
                        }
                    }
                    j = j + 2;
                },
                None => {
                    proof {
                        assert(false);
                    }
                },
            }
        } else if 0xE0 <= b0 && b0 <= 0xEF {
            if n - j < 3 || !(0x80 <= bs[j + 1] && bs[j + 1] < 0xC0) || !(0x80 <= bs[j + 2] && bs[j
                + 2] < 0xC0) {
                proof {
                    if j + 1 < n {
                        assert(suf[1] == bs@[j + 1 as int]);
                    }
                    if j + 2 < n {
                        assert(suf[2] == bs@[j + 2 as int]);
                    }
                }
                return None;
            }
            let b1 = bs[j + 1];
            let b2 = bs[j + 2];
            let u: u32 = (b0 as u32 - 0xE0) * 4096 + (b1 as u32 - 0x80) * 64 + (b2 as u32 - 0x80);
            proof {
                assert(suf[1] == bs@[j + 1 as int]);
                assert(suf[2] == bs@[j + 2 as int]);
                assert(u < 0x10000);
            }
            if u < 0x800 || (0xD800 <= u && u < 0xE000) {
                return None;
            }
            match char_from_u32(u) {
                Some(c) => {
                    push_char(&mut out, c);
                    proof {
                        assert(suf.skip(3) =~= bs@.skip(j + 3 as int));
                        match spec_utf8_decode(bs@.skip(j + 3 as int)) {
                            Some(t) => {
                                assert(out@ + t =~= pre + (seq![c] + t));
                            },
                            None => {},
                        }
                    }
                    j = j + 3;
                },
                None => {
                    proof {
                        assert(false);
                    }
                },
            }
        } else if 0xF0 <= b0 && b0 <= 0xF4 {
            if n - j < 4 || !(0x80 <= bs[j + 1] && bs[j + 1] < 0xC0) || !(0x80 <= bs[j + 2] && bs[j
                + 2] < 0xC0) || !(0x80 <= bs[j + 3] && bs[j + 3] < 0xC0) {
                proof {
                    if j + 1 < n {
                        assert(suf[1] == bs@[j + 1 as int]);
                    }
                    if j + 2 < n {
                        assert(suf[2] == bs@[j + 2 as int]);
                    }
                    if j + 3 < n {
                        assert(suf[3] == bs@[j + 3 as int]);
                    }
                }
                return None;
            }
            let b1 = bs[j + 1];
            let b2 = bs[j + 2];
            let b3 = bs[j + 3];
            let u: u32 = (b0 as u32 - 0xF0) * 262144 + (b1 as u32 - 0x80) * 4096 + (b2 as u32
                - 0x80) * 64 + (b3 as u32 - 0x80);
            proof {
                assert(suf[1] == bs@[j + 1 as int]);
                assert(suf[2] == bs@[j + 2 as int]);
                assert(suf[3] == bs@[j + 3 as int]);
            }
            if u < 0x10000 || u > 0x10FFFF {
                return None;
            }
            match char_from_u32(u) {
                Some(c) => {
                    push_char(&mut out, c);
                    proof {
                        assert(suf.skip(4) =~= bs@.skip(j + 4 as int));
                        match spec_utf8_decode(bs@.skip(j + 4 as int)) {
                            Some(t) => {
                                assert(out@ + t =~= pre + (seq![c] + t));
                            },
                            None => {},
                        }
                    }
                    j = j + 4;
                },
                None => {
                    proof {
                        assert(false);
                    }
                },
            }
        } else {
            return None;
        }
    }
    proof {
        assert(bs@.skip(n as int) =~= Seq::<u8>::empty());
    }
    Some(out)
}

/// The inverse of `percent_encode`: unescapes the input and decodes the
/// bytes, or nothing when the input is not a valid encoding.
pub fn percent_decode(input: String) -> (r: Option<String>)
    ensures
        match r {
            Some(out) => spec_percent_decode(input@) == Some(out@),
            None => spec_percent_decode(input@) is None,
        },
{
    match percent_decode_bytes(input.as_str()) {
        Some(bs) => utf8_decode(&bs),
        None => None,
    }
}

/// A hexadecimal digit reads back as its value.
proof fn lemma_unhex_hex(d: int)
    requires
        0 <= d < 16,
    ensures
        spec_unhex(spec_hex_digit(d)) == d,
{
}

/// Unescaping undoes escaping, byte for byte, whatever follows.
proof fn lemma_pdb_escapes(bs: Seq<u8>, t: Seq<char>)
    ensures
        spec_percent_decode_bytes(spec_escape_bytes(bs) + t) == (match spec_percent_decode_bytes(
            t,
        ) {
            Some(r) => Some(bs + r),
            None => None,
        }),
    decreases bs.len(),
{
    if bs.len() == 0 {
        assert(spec_escape_bytes(bs) + t =~= t);
        if spec_percent_decode_bytes(t) is Some {
            assert(bs + spec_percent_decode_bytes(t)->Some_0 =~= spec_percent_decode_bytes(
                t,
            )->Some_0);
        }
    } else {
        let b = bs[0];
        let s2 = spec_escape_bytes(bs.drop_first()) + t;
        let s = spec_escape_bytes(bs) + t;
        assert(s =~= spec_escape_byte(b) + s2);
        assert(s[0] == '%');
        assert(s[1] == spec_hex_digit(b as int / 16));
        assert(s[2] == spec_hex_digit(b as int % 16));
        lemma_unhex_hex(b as int / 16);
        lemma_unhex_hex(b as int % 16);
        assert(s.skip(3) =~= s2);
        lemma_pdb_escapes(bs.drop_first(), t);
        assert(16 * spec_unhex(s[1]) + spec_unhex(s[2]) == b as int);
        match spec_percent_decode_bytes(t) {
            Some(r) => {
                assert(bs + r =~= seq![b] + (bs.drop_first() + r));
            },
            None => {},
        }
    }
}

/// Unescaping an encoded string yields exactly the byte encoding of the
/// original characters.
proof fn lemma_pdb_encode(s: Seq<char>)
    ensures
        spec_percent_decode_bytes(spec_percent_encode(s)) == Some(spec_utf8_of(s)),
    decreases s.len(),
{
    if s.len() == 0 {
        assert(spec_percent_decode_bytes(spec_percent_encode(s)) == Some(Seq::<u8>::empty()));
        assert(spec_utf8_of(s) =~= Seq::<u8>::empty());
    } else {
        let c = s[0];
        let rest = spec_percent_encode(s.drop_first());
        lemma_pdb_encode(s.drop_first());
        if spec_is_unreserved(c) {
            let e = spec_percent_encode(s);
            assert(e =~= seq![c] + rest);
            assert(e[0] == c);
            assert(e[0] != '%');
            assert((c as u32) < 0x80);
            assert(e.skip(1) =~= rest);
            assert(spec_utf8_of(s) =~= seq![(c as u32) as u8] + spec_utf8_of(s.drop_first()));
        } else {
            lemma_pdb_escapes(spec_utf8_bytes(c), rest);
            assert(spec_percent_encode(s) == spec_escape_bytes(spec_utf8_bytes(c)) + rest);
            assert(spec_utf8_of(s) =~= spec_utf8_bytes(c) + spec_utf8_of(s.drop_first()));
        }
    }
}

/// Decoding undoes the byte encoding of one character, whatever bytes
/// follow.
proof fn lemma_utf8_decode_char(c: char, bs: Seq<u8>)
    ensures
        spec_utf8_decode(spec_utf8_bytes(c) + bs) == (match spec_utf8_decode(bs) {
            Some(r) => Some(seq![c] + r),
            None => None,
        }),
{
    let u = c as u32;
    let e = spec_utf8_bytes(c);
    let s = e + bs;
    if u < 0x80 {
        assert(s[0] == u as u8);
        assert(s.skip(1) =~= bs);
        assert(((s[0] as u32) as u32) as char == c);
    } else if u < 0x800 {
        assert(s[0] == (0xC0 + u / 64) as u8);
        assert(s[1] == (0x80 + u % 64) as u8);
        assert(0xC2 <= s[0] as u32 <= 0xDF);
        assert(is_cont(s[1]));
        assert(s.skip(2) =~= bs);
        assert((s[0] as u32 - 0xC0) * 64 + (s[1] as u32 - 0x80) == u);
        assert(u as char == c);
    } else if u < 0x10000 {
        vstd::arithmetic::div_mod::lemma_div_denominator(u as int, 64, 64);
        assert(s[0] == (0xE0 + u / 4096) as u8);
        assert(s[1] == (0x80 + (u / 64) % 64) as u8);
        assert(s[2] == (0x80 + u % 64) as u8);
        assert(0xE0 <= s[0] as u32 <= 0xEF);
        assert(is_cont(s[1]));
        assert(is_cont(s[2]));
        assert(s.skip(3) =~= bs);
        assert(u == (u / 4096) * 4096 + ((u / 64) % 64) * 64 + u % 64) by {
            assert(u / 64 == ((u / 64) / 64) * 64 + (u / 64) % 64);
            assert(u == (u / 64) * 64 + u % 64);
            assert((u / 64) / 64 == u / 4096);
        };
        assert((s[0] as u32 - 0xE0) * 4096 + (s[1] as u32 - 0x80) * 64 + (s[2] as u32 - 0x80) == u);
        assert(!(0xD800 <= u < 0xE000));
        assert(u as char == c);
    } else {
        vstd::arithmetic::div_mod::lemma_div_denominator(u as int, 64, 64);
        vstd::arithmetic::div_mod::lemma_div_denominator(u as int, 4096, 64);
        assert(s[0] == (0xF0 + u / 262144) as u8);
        assert(s[1] == (0x80 + (u / 4096) % 64) as u8);
        assert(s[2] == (0x80 + (u / 64) % 64) as u8);
        assert(s[3] == (0x80 + u % 64) as u8);
        assert(u <= 0x10FFFF);
        assert(0xF0 <= s[0] as u32 <= 0xF4);
        assert(is_cont(s[1]));
        assert(is_cont(s[2]));
        assert(is_cont(s[3]));
        assert(s.skip(4) =~= bs);
        assert(u == (u / 262144) * 262144 + ((u / 4096) % 64) * 4096 + ((u / 64) % 64) * 64 + u
            % 64) by {
            assert(u == (u / 64) * 64 + u % 64);
            assert(u / 64 == ((u / 64) / 64) * 64 + (u / 64) % 64);
            assert((u / 64) / 64 == u / 4096);
            assert(u / 4096 == ((u / 4096) / 64) * 64 + (u / 4096) % 64);
            assert((u / 4096) / 64 == u / 262144);
        };
        assert((s[0] as u32 - 0xF0) * 262144 + (s[1] as u32 - 0x80) * 4096 + (s[2] as u32 - 0x80)
            * 64 + (s[3] as u32 - 0x80) == u);
        assert(u as char == c);
    }
}

/// Decoding undoes the byte encoding of a whole string.
proof fn lemma_utf8_decode_of(s: Seq<char>)
    ensures
        spec_utf8_decode(spec_utf8_of(s)) == Some(s),
    decreases s.len(),
{
    if s.len() == 0 {
        assert(spec_utf8_of(s) =~= Seq::<u8>::empty());
        assert(spec_utf8_decode(spec_utf8_of(s)) == Some(Seq::<char>::empty()));
        assert(s =~= Seq::<char>::empty());
    } else {
        lemma_utf8_decode_of(s.drop_first());
        lemma_utf8_decode_char(s[0], spec_utf8_of(s.drop_first()));
        assert(spec_utf8_of(s) == spec_utf8_bytes(s[0]) + spec_utf8_of(s.drop_first()));
        assert(seq![s[0]] + s.drop_first() =~= s);
    }
}

/// Every character of `spec_escape_bytes` output is `%` or a
/// hexadecimal digit, and a hexadecimal digit is unreserved.
proof fn lemma_escape_bytes_chars(bs: Seq<u8>)
    ensures
        forall|i: int|
            0 <= i < spec_escape_bytes(bs).len() ==> spec_is_unreserved(spec_escape_bytes(bs)[i])
                || spec_escape_bytes(bs)[i] == '%',
    decreases bs.len(),
{
    if bs.len() > 0 {
        lemma_escape_bytes_chars(bs.drop_first());
        let e = spec_escape_byte(bs[0]);
        assert(spec_is_unreserved(e[1]));
        assert(spec_is_unreserved(e[2]));
        assert forall|i: int| 0 <= i < spec_escape_bytes(bs).len() implies spec_is_unreserved(
            spec_escape_bytes(bs)[i],
        ) || spec_escape_bytes(bs)[i] == '%' by {
            if i >= 3 {
                assert(spec_escape_bytes(bs)[i] == spec_escape_bytes(bs.drop_first())[i - 3]);
            }
        }
    }
}

/// Encoding is total and leaves no reserved character unescaped: every
/// character of the output is either unreserved or the `%` of an escape
/// triple; and the encoding decodes back to the original under the
/// inverse operation.
pub proof fn lemma_percent_encode_round_trip(s: Seq<char>)
    ensures
        spec_percent_decode(spec_percent_encode(s)) == Some(s),
        forall|i: int|
            0 <= i < spec_percent_encode(s).len() ==> spec_is_unreserved(spec_percent_encode(s)[i])
                || spec_percent_encode(s)[i] == '%',
    decreases s.len(),
{
    lemma_pdb_encode(s);
    lemma_utf8_decode_of(s);
    if s.len() > 0 {
        lemma_percent_encode_round_trip(s.drop_first());
        let head = spec_encode_char(s[0]);
        lemma_escape_bytes_chars(spec_utf8_bytes(s[0]));
        assert forall|i: int| 0 <= i < spec_percent_encode(s).len() implies spec_is_unreserved(
            spec_percent_encode(s)[i],
        ) || spec_percent_encode(s)[i] == '%' by {
            if i >= head.len() {
                assert(spec_percent_encode(s)[i] == spec_percent_encode(s.drop_first())[i
                    - head.len()]);
            } else {
                assert(spec_percent_encode(s)[i] == head[i]);
            }
        }
    }
}

} // verus!
