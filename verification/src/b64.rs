//! Bytes as text of 64 characters, padded to groups of four.

use vstd::prelude::*;
use vstd::utf8::{encode_utf8, is_ascii_chars};

verus! {

/// The character for six bits.
pub open spec fn symbol(d: nat) -> char {
    if d < 26 {
        (65 + d) as char
    } else if d < 52 {
        (97 + d - 26) as char
    } else if d < 62 {
        (48 + d - 52) as char
    } else if d == 62 {
        '+'
    } else {
        '/'
    }
}

/// The six bits of a character. Characters that stand for none count as 0.
pub open spec fn symbol_value(c: u8) -> nat {
    if 65 <= c <= 90 {
        (c - 65) as nat
    } else if 97 <= c <= 122 {
        (c - 97 + 26) as nat
    } else if 48 <= c <= 57 {
        (c - 48 + 52) as nat
    } else if c == 43 {
        62
    } else if c == 47 {
        63
    } else {
        0
    }
}

/// The number in three bytes.
pub open spec fn triple_value(a: u8, b: u8, c: u8) -> nat {
    a as nat * 65536 + b as nat * 256 + c as nat
}

/// The four characters for 24 bits.
pub open spec fn quad(n: nat) -> Seq<char> {
    seq![symbol(n / 262144), symbol(n / 4096 % 64), symbol(n / 64 % 64), symbol(n % 64)]
}

/// Bytes as text: four characters for each three bytes, and a padded group for what is left.
pub open spec fn encoded(bytes: Seq<u8>) -> Seq<char>
    decreases bytes.len(),
{
    if bytes.len() == 0 {
        Seq::empty()
    } else if bytes.len() == 1 {
        quad(triple_value(bytes[0], 0, 0)).take(2) + seq!['=', '=']
    } else if bytes.len() == 2 {
        quad(triple_value(bytes[0], bytes[1], 0)).take(3) + seq!['=']
    } else {
        quad(triple_value(bytes[0], bytes[1], bytes[2])) + encoded(bytes.skip(3))
    }
}

/// The number in four characters.
pub open spec fn quad_value(s: Seq<u8>) -> nat {
    symbol_value(s[0]) * 262144 + symbol_value(s[1]) * 4096 + symbol_value(s[2]) * 64
        + symbol_value(s[3])
}

/// The bytes in the first four characters.
pub open spec fn quad_bytes(s: Seq<u8>) -> Seq<u8> {
    let n = quad_value(s);
    let first = seq![(n / 65536) as u8];
    let second = if s[2] != 61 {
        seq![(n / 256 % 256) as u8]
    } else {
        Seq::empty()
    };
    let third = if s[3] != 61 {
        seq![(n % 256) as u8]
    } else {
        Seq::empty()
    };
    first + second + third
}

/// The bytes in a text. Characters behind the last group of four are ignored.
pub open spec fn decoded(s: Seq<u8>) -> Seq<u8>
    decreases s.len(),
{
    if s.len() < 4 {
        Seq::empty()
    } else {
        quad_bytes(s) + decoded(s.skip(4))
    }
}

fn symbol_char(d: u32) -> (r: char)
    requires
        d < 64,
    ensures
        r == symbol(d as nat),
{
    if d < 26 {
        (65 + d as u8) as char
    } else if d < 52 {
        (97 + (d as u8 - 26)) as char
    } else if d < 62 {
        (48 + (d as u8 - 52)) as char
    } else if d == 62 {
        '+'
    } else {
        '/'
    }
}

fn decode_char(c: u8) -> (r: u32)
    ensures
        r == symbol_value(c),
        r < 64,
{
    if 65 <= c && c <= 90 {
        (c - 65) as u32
    } else if 97 <= c && c <= 122 {
        (c - 97 + 26) as u32
    } else if 48 <= c && c <= 57 {
        (c - 48 + 52) as u32
    } else if c == 43 {
        62
    } else if c == 47 {
        63
    } else {
        0
    }
}

/// Writes bytes as text.
pub fn to_base64(bytes: &[u8]) -> (r: String)
    ensures
        r@ == encoded(bytes@),
{
    let mut out = String::new();
    let mut i: usize = 0;
    assert(bytes@.skip(0) =~= bytes@);
    assert(out@ + encoded(bytes@) =~= encoded(bytes@));
    while bytes.len() - i > 2
        invariant
            i <= bytes@.len(),
            out@ + encoded(bytes@.skip(i as int)) == encoded(bytes@),
        decreases bytes@.len() - i,
    {
        let b: u32 = bytes[i] as u32 * 65536 + bytes[i + 1] as u32 * 256 + bytes[i + 2] as u32;
        let ghost before = out@;
        out.push(symbol_char(b / 262144));
        out.push(symbol_char(b / 4096 % 64));
        out.push(symbol_char(b / 64 % 64));
        out.push(symbol_char(b % 64));
        proof {
            let rest = bytes@.skip(i as int);
            assert(rest.skip(3) =~= bytes@.skip(i + 3));
            assert(b as nat == triple_value(rest[0], rest[1], rest[2]));
            assert(out@ =~= before + quad(b as nat));
            assert(out@ + encoded(rest.skip(3)) =~= before + (quad(b as nat) + encoded(
                rest.skip(3),
            )));
        }
        i = i + 3;
    }
    let ghost before = out@;
    let ghost rest = bytes@.skip(i as int);
    let left: usize = bytes.len() - i;
    if left == 1 {
        let b: u32 = bytes[i] as u32 * 65536;
        out.push(symbol_char(b / 262144));
        out.push(symbol_char(b / 4096 % 64));
        out.push('=');
        out.push('=');
        assert(out@ =~= before + encoded(rest));
    } else if left == 2 {
        let b: u32 = bytes[i] as u32 * 65536 + bytes[i + 1] as u32 * 256;
        out.push(symbol_char(b / 262144));
        out.push(symbol_char(b / 4096 % 64));
        out.push(symbol_char(b / 64 % 64));
        out.push('=');
        assert(out@ =~= before + encoded(rest));
    } else {
        assert(out@ =~= before + encoded(rest));
    }
    out
}

/// Reads the bytes in a text, which is given by its own bytes.
pub fn from_base64(bytes: &[u8]) -> (r: Vec<u8>)
    ensures
        r@ == decoded(bytes@),
{
    let mut out: Vec<u8> = Vec::new();
    let mut i: usize = 0;
    assert(bytes@.skip(0) =~= bytes@);
    assert(out@ + decoded(bytes@) =~= decoded(bytes@));
    while bytes.len() - i > 3
        invariant
            i <= bytes@.len(),
            out@ + decoded(bytes@.skip(i as int)) == decoded(bytes@),
        decreases bytes@.len() - i,
    {
        let b: u32 = decode_char(bytes[i]) * 262144 + decode_char(bytes[i + 1]) * 4096
            + decode_char(bytes[i + 2]) * 64 + decode_char(bytes[i + 3]);
        let ghost before = out@;
        out.push((b / 65536) as u8);
        if bytes[i + 2] != 61 {
            out.push((b / 256 % 256) as u8);
        }
        if bytes[i + 3] != 61 {
            out.push((b % 256) as u8);
        }
        proof {
            let rest = bytes@.skip(i as int);
            assert(rest.skip(4) =~= bytes@.skip(i + 4));
            assert(b as nat == quad_value(rest));
            assert(out@ =~= before + quad_bytes(rest));
            assert(out@ + decoded(rest.skip(4)) =~= before + (quad_bytes(rest) + decoded(
                rest.skip(4),
            )));
        }
        i = i + 4;
    }
    assert(out@ + Seq::<u8>::empty() =~= out@);
    out
}

/// The bytes of the characters, for characters of one byte.
spec fn narrow(s: Seq<char>) -> Seq<u8> {
    Seq::new(s.len(), |i: int| s[i] as u8)
}

proof fn lemma_symbol(d: nat)
    requires
        d < 64,
    ensures
        symbol_value(symbol(d) as u8) == d,
        symbol(d) as u8 != 61,
        (symbol(d) as u32) < 128,
{
}

proof fn lemma_encoded_ascii(bytes: Seq<u8>)
    ensures
        is_ascii_chars(encoded(bytes)),
    decreases bytes.len(),
{
    if bytes.len() > 0 {
        let a = bytes[0];
        let b = if bytes.len() > 1 { bytes[1] } else { 0 };
        let c = if bytes.len() > 2 { bytes[2] } else { 0 };
        let n = triple_value(a, b, c);
        lemma_symbol(n / 262144);
        lemma_symbol(n / 4096 % 64);
        lemma_symbol(n / 64 % 64);
        lemma_symbol(n % 64);
        if bytes.len() > 2 {
            lemma_encoded_ascii(bytes.skip(3));
        }
    }
}

/// The bytes and the six-bit groups of a number of three bytes.
proof fn lemma_groups(a: u8, b: u8, c: u8)
    ensures
        ({
            let n = triple_value(a, b, c);
            &&& n / 262144 < 64
            &&& n == n / 262144 * 262144 + n / 4096 % 64 * 4096 + n / 64 % 64 * 64 + n % 64
            &&& (n / 65536) as u8 == a
            &&& (n / 256 % 256) as u8 == b
            &&& (n % 256) as u8 == c
            &&& c == 0 ==> n % 64 == 0
            &&& b == 0 && c == 0 ==> n / 64 % 64 == 0
        }),
{
    let n: u32 = (a as u32 * 65536 + b as u32 * 256 + c as u32) as u32;
    assert(n == triple_value(a, b, c));
    assert(n / 262144 < 64 && n == n / 262144 * 262144 + n / 4096 % 64 * 4096 + n / 64 % 64 * 64
        + n % 64 && n / 65536 == a as u32 && n / 256 % 256 == b as u32 && n % 256 == c as u32 && (c
        == 0 ==> n % 64 == 0) && (b == 0 && c == 0 ==> n / 64 % 64 == 0)) by (bit_vector)
        requires
            n == (a as u32 * 65536 + b as u32 * 256 + c as u32) as u32,
    ;
}

/// The four bytes that stand for a number decode to its bytes.
proof fn lemma_quad(a: u8, b: u8, c: u8, s: Seq<u8>)
    requires
        s.len() >= 4,
        ({
            let n = triple_value(a, b, c);
            &&& s[0] == symbol(n / 262144) as u8
            &&& s[1] == symbol(n / 4096 % 64) as u8
            &&& s[2] == symbol(n / 64 % 64) as u8 || (s[2] == 61 && b == 0 && c == 0)
            &&& s[3] == symbol(n % 64) as u8 || (s[3] == 61 && c == 0)
        }),
    ensures
        quad_value(s) == triple_value(a, b, c),
        (quad_value(s) / 65536) as u8 == a,
        (quad_value(s) / 256 % 256) as u8 == b,
        (quad_value(s) % 256) as u8 == c,
{
    let n = triple_value(a, b, c);
    lemma_groups(a, b, c);
    lemma_symbol(n / 262144);
    lemma_symbol(n / 4096 % 64);
    lemma_symbol(n / 64 % 64);
    lemma_symbol(n % 64);
}

proof fn lemma_decoded_encoded(bytes: Seq<u8>)
    ensures
        decoded(narrow(encoded(bytes))) == bytes,
    decreases bytes.len(),
{
    let s = narrow(encoded(bytes));
    if bytes.len() == 0 {
        assert(decoded(s) =~= bytes);
    } else {
        let a = bytes[0];
        let b = if bytes.len() > 1 { bytes[1] } else { 0 };
        let c = if bytes.len() > 2 { bytes[2] } else { 0 };
        let n = triple_value(a, b, c);
        lemma_groups(a, b, c);
        lemma_symbol(n / 64 % 64);
        lemma_symbol(n % 64);
        if bytes.len() == 1 {
            assert(encoded(bytes) =~= seq![symbol(n / 262144), symbol(n / 4096 % 64), '=', '=']);
            lemma_quad(a, b, c, s);
            assert(decoded(s.skip(4)) =~= Seq::empty());
            assert(decoded(s) =~= bytes);
        } else if bytes.len() == 2 {
            assert(encoded(bytes) =~= seq![
                symbol(n / 262144),
                symbol(n / 4096 % 64),
                symbol(n / 64 % 64),
                '=',
            ]);
            lemma_quad(a, b, c, s);
            assert(decoded(s.skip(4)) =~= Seq::empty());
            assert(decoded(s) =~= bytes);
        } else {
            let rest = bytes.skip(3);
            assert(encoded(bytes) == quad(n) + encoded(rest));
            lemma_quad(a, b, c, s);
            lemma_decoded_encoded(rest);
            assert(s.skip(4) =~= narrow(encoded(rest)));
            assert(quad_bytes(s) =~= seq![a, b, c]);
            assert(decoded(s) =~= bytes);
        }
    }
}

/// Bytes that were written as text are read back.
pub proof fn law_base64_round_trip(bytes: Seq<u8>)
    ensures
        decoded(encode_utf8(encoded(bytes))) == bytes,
{
    lemma_encoded_ascii(bytes);
    vstd::utf8::is_ascii_chars_encode_utf8(encoded(bytes));
    assert(encode_utf8(encoded(bytes)) =~= narrow(encoded(bytes)));
    lemma_decoded_encoded(bytes);
}

/// Bytes that are written as text are the bytes that are read from it.
pub proof fn law_written_bytes_are_read(bytes: &[u8], text: String, written: &[u8], r: Vec<u8>)
    requires
        call_ensures(to_base64, (bytes,), text),
        call_ensures(from_base64, (written,), r),
        written@ == encode_utf8(text@),
    ensures
        r@ == bytes@,
{
    law_base64_round_trip(bytes@);
}

/// The characters are those of the standard alphabet, in its order. Any other character counts as the
/// first of them.
pub proof fn law_base64_alphabet(d: int, c: u8)
    requires
        0 <= d < 64,
    ensures
        symbol(d as nat)
            == "ABCDEFGHIJKLMNOPQRSTUVWXYZabcdefghijklmnopqrstuvwxyz0123456789+/"@[d],
        symbol_value(symbol(d as nat) as u8) == d,
        (forall|k: int| 0 <= k < 64 ==> #[trigger] symbol(k as nat) as u8 != c) ==> symbol_value(c)
            == 0,
{
    reveal_strlit("ABCDEFGHIJKLMNOPQRSTUVWXYZabcdefghijklmnopqrstuvwxyz0123456789+/");
    lemma_symbol(d as nat);
    if symbol_value(c) != 0 {
        let k = symbol_value(c) as int;
        assert(symbol(k as nat) as u8 == c);
    }
}

/// Three bytes are written as four characters, of which each stands for six bits, the first bits first.
/// What is left at the end is written with padding. Bytes are written three by three, and read four
/// characters by four.
pub proof fn law_base64_groups(a: u8, b: u8, c: u8, rest: Seq<u8>, s: Seq<u8>, t: Seq<u8>)
    requires
        s.len() % 4 == 0,
    ensures
        encoded(seq![a, b, c] + rest) == seq![
            symbol((a / 4) as nat),
            symbol((a % 4 * 16 + b / 16) as nat),
            symbol((b % 16 * 4 + c / 64) as nat),
            symbol((c % 64) as nat),
        ] + encoded(rest),
        encoded(seq![a, b]) == seq![
            symbol((a / 4) as nat),
            symbol((a % 4 * 16 + b / 16) as nat),
            symbol((b % 16 * 4) as nat),
            '=',
        ],
        encoded(seq![a]) == seq![symbol((a / 4) as nat), symbol((a % 4 * 16) as nat), '=', '='],
        decoded(s + t) == decoded(s) + decoded(t),
    decreases s.len(),
{
    let all = seq![a, b, c] + rest;
    assert(all.skip(3) =~= rest);
    let n = triple_value(a, b, c);
    assert(n / 262144 == a / 4 && n / 4096 % 64 == a % 4 * 16 + b / 16 && n / 64 % 64 == b % 16 * 4 + c
        / 64 && n % 64 == c % 64) by {
        lemma_bits(a, b, c);
    }
    assert(encoded(all) =~= seq![
        symbol((a / 4) as nat),
        symbol((a % 4 * 16 + b / 16) as nat),
        symbol((b % 16 * 4 + c / 64) as nat),
        symbol((c % 64) as nat),
    ] + encoded(rest));
    lemma_bits(a, b, 0);
    assert(encoded(seq![a, b]) =~= seq![
        symbol((a / 4) as nat),
        symbol((a % 4 * 16 + b / 16) as nat),
        symbol((b % 16 * 4) as nat),
        '=',
    ]);
    lemma_bits(a, 0, 0);
    assert(encoded(seq![a]) =~= seq![
        symbol((a / 4) as nat),
        symbol((a % 4 * 16) as nat),
        '=',
        '=',
    ]);
    if s.len() == 0 {
        assert(s + t =~= t);
        assert(decoded(s) + decoded(t) =~= decoded(t));
    } else {
        law_base64_groups(a, b, c, rest, s.skip(4), t);
        assert((s + t).skip(4) =~= s.skip(4) + t);
        assert(quad_bytes(s + t) == quad_bytes(s));
        assert(decoded(s + t) =~= decoded(s) + decoded(t));
    }
}

proof fn lemma_bits(a: u8, b: u8, c: u8)
    ensures
        triple_value(a, b, c) / 262144 == a / 4,
        triple_value(a, b, c) / 4096 % 64 == a % 4 * 16 + b / 16,
        triple_value(a, b, c) / 64 % 64 == b % 16 * 4 + c / 64,
        triple_value(a, b, c) % 64 == c % 64,
{
    let n: u32 = (a as u32 * 65536 + b as u32 * 256 + c as u32) as u32;
    assert(n == triple_value(a, b, c));
    assert(n / 262144 == a as u32 / 4 && n / 4096 % 64 == a as u32 % 4 * 16 + b as u32 / 16 && n / 64
        % 64 == b as u32 % 16 * 4 + c as u32 / 64 && n % 64 == c as u32 % 64) by (bit_vector)
        requires
            n == a as u32 * 65536 + b as u32 * 256 + c as u32,
    ;
}

} // verus!
