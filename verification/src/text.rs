//! Text: its UTF-8 bytes, its characters, its lines, and the numbers written in it.

use vstd::prelude::*;
use vstd::utf8::{decode_utf8, encode_utf8, valid_utf8};

verus! {

/// Views bytes as text through `std::str::from_utf8`: the call succeeds exactly on valid
/// UTF-8, and then gives the text that the bytes encode.
#[verifier::external_body]
pub(crate) fn utf8_str(bytes: &[u8]) -> (r: Option<&str>)
    ensures
        r is Some <==> valid_utf8(bytes@),
        r matches Some(s) ==> s@ == decode_utf8(bytes@),
{
    std::str::from_utf8(bytes).ok()
}

/// The text that `std::string::String::from_utf8_lossy` gives for bytes that are not UTF-8.
pub uninterp spec fn lossy_text(bytes: Seq<u8>) -> Seq<char>;

/// `String::from_utf8_lossy`: gives the text that the bytes encode where they are UTF-8, and
/// otherwise a text with U+FFFD in place of what is not, which is given a name.
#[verifier::external_body]
fn lossy_string(bytes: &[u8]) -> (r: String)
    ensures
        valid_utf8(bytes@) ==> r@ == decode_utf8(bytes@),
        !valid_utf8(bytes@) ==> r@ == lossy_text(bytes@),
{
    String::from_utf8_lossy(bytes).into_owned()
}

/// The text as which bytes are shown: what they encode, as far as they encode text.
pub open spec fn shown_text(bytes: Seq<u8>) -> Seq<char> {
    if valid_utf8(bytes) {
        decode_utf8(bytes)
    } else {
        lossy_text(bytes)
    }
}

/// The text as which bytes are shown.
pub fn show_bytes(bytes: &[u8]) -> (r: String)
    ensures
        r@ == shown_text(bytes@),
{
    lossy_string(bytes)
}

/// `std::string::String::push`: appends the character.
pub assume_specification[ String::push ](s: &mut String, c: char)
    ensures
        final(s)@ == old(s)@.push(c),
;

/// Bytes that encode some text decode to that text.
pub proof fn lemma_text_round_trip(s: Seq<char>)
    ensures
        valid_utf8(encode_utf8(s)),
        decode_utf8(encode_utf8(s)) == s,
{
    broadcast use {vstd::utf8::encode_utf8_valid_utf8, vstd::utf8::encode_utf8_decode_utf8};
}

/// Whether two byte strings are equal.
pub fn same_bytes(a: &[u8], b: &[u8]) -> (r: bool)
    ensures
        r == (a@ == b@),
{
    if a.len() != b.len() {
        return false;
    }
    let mut i: usize = 0;
    while i < a.len()
        invariant
            i <= a@.len(),
            a@.len() == b@.len(),
            forall|j: int| 0 <= j < i ==> a@[j] == b@[j],
        decreases a@.len() - i,
    {
        if a[i] != b[i] {
            return false;
        }
        i = i + 1;
    }
    assert(a@ =~= b@);
    true
}

/// Whether two texts are equal.
pub fn same_text(a: &str, b: &str) -> (r: bool)
    ensures
        r == (a@ == b@),
{
    proof {
        lemma_text_round_trip(a@);
        lemma_text_round_trip(b@);
    }
    same_bytes(a.as_bytes(), b.as_bytes())
}

/// The characters of a text.
pub fn chars_of(s: &str) -> (r: Vec<char>)
    ensures
        r@ == s@,
{
    let mut r: Vec<char> = Vec::new();
    for c in it: s.chars()
        invariant
            r@ == it.seq().take(it.index()),
            it.seq() == s@,
    {
        assert(it.seq().take(it.index() + 1) =~= it.seq().take(it.index()).push(c));
        r.push(c);
    }
    assert(r@ =~= s@);
    r
}

/// The text with the characters from `start` up to `end`.
pub fn text_of(chars: &Vec<char>, start: usize, end: usize) -> (r: String)
    requires
        start <= end <= chars@.len(),
    ensures
        r@ == chars@.subrange(start as int, end as int),
{
    let mut r = String::new();
    let mut i: usize = start;
    assert(r@ =~= chars@.subrange(start as int, start as int));
    while i < end
        invariant
            start <= i <= end <= chars@.len(),
            r@ == chars@.subrange(start as int, i as int),
        decreases end - i,
    {
        r.push(chars[i]);
        assert(chars@.subrange(start as int, i + 1) =~= chars@.subrange(
            start as int,
            i as int,
        ).push(chars@[i as int]));
        i = i + 1;
    }
    r
}

/// The decimal digit with a value below 10.
pub open spec fn digit(d: nat) -> char {
    (48 + d) as char
}

/// A number in decimal.
pub open spec fn decimal(n: nat) -> Seq<char>
    decreases n,
{
    if n < 10 {
        seq![digit(n)]
    } else {
        decimal(n / 10).push(digit(n % 10))
    }
}

/// A number in decimal, with a minus sign where it is negative.
pub open spec fn signed_decimal(n: int) -> Seq<char> {
    if n < 0 {
        seq!['-'] + decimal((-n) as nat)
    } else {
        decimal(n as nat)
    }
}

/// Appends a number in decimal.
pub fn push_decimal(s: &mut String, n: u64)
    ensures
        final(s)@ == old(s)@ + decimal(n as nat),
    decreases n,
{
    let ghost before = s@;
    if n >= 10 {
        push_decimal(s, n / 10);
    }
    let d: u8 = (n % 10) as u8;
    s.push((48 + d) as char);
    assert(s@ =~= before + decimal(n as nat));
}

/// Appends a number in decimal, with a minus sign where it is negative.
pub fn push_signed_decimal(s: &mut String, n: i64)
    ensures
        final(s)@ == old(s)@ + signed_decimal(n as int),
{
    let ghost before = s@;
    if n < 0 {
        s.push('-');
        let m: u64 = (-(n as i128)) as u64;
        push_decimal(s, m);
        assert(s@ =~= before + signed_decimal(n as int));
    } else {
        push_decimal(s, n as u64);
    }
}

/// Whether a character is a decimal digit.
pub open spec fn is_digit(c: char) -> bool {
    '0' <= c && c <= '9'
}

/// The value of decimal digits.
pub open spec fn digits_value(s: Seq<char>) -> nat
    decreases s.len(),
{
    if s.len() == 0 {
        0
    } else {
        (10 * digits_value(s.drop_last()) + (s.last() as int - 48)) as nat
    }
}

/// Whether a text starts with a sign.
pub open spec fn is_signed(s: Seq<char>) -> bool {
    s.len() > 0 && (s[0] == '-' || s[0] == '+')
}

/// A text without the sign that it starts with.
pub open spec fn unsigned(s: Seq<char>) -> Seq<char> {
    if is_signed(s) {
        s.skip(1)
    } else {
        s
    }
}

/// The 64-bit number written in a text: decimal digits, at least one, behind a sign or none.
pub open spec fn parsed_i64(s: Seq<char>) -> Option<int> {
    let digits = unsigned(s);
    let v = if is_signed(s) && s[0] == '-' {
        -(digits_value(digits) as int)
    } else {
        digits_value(digits) as int
    };
    if digits.len() > 0 && (forall|i: int| 0 <= i < digits.len() ==> is_digit(#[trigger] digits[i]))
        && i64::MIN <= v <= i64::MAX {
        Some(v)
    } else {
        None
    }
}

/// The value of digits grows with each digit.
proof fn lemma_digits_value_grows(s: Seq<char>, n: int)
    requires
        0 <= n <= s.len(),
        forall|i: int| 0 <= i < s.len() ==> is_digit(#[trigger] s[i]),
    ensures
        digits_value(s.take(n)) <= digits_value(s),
    decreases s.len(),
{
    if n < s.len() {
        let t = s.drop_last();
        lemma_digits_value_grows(t, n);
        assert(t.take(n) =~= s.take(n));
        assert(is_digit(s[s.len() - 1]));
    } else {
        assert(s.take(n) =~= s);
    }
}

/// Reads the 64-bit number written from `start` up to `end`.
pub fn parse_i64(chars: &Vec<char>, start: usize, end: usize) -> (r: Option<i64>)
    requires
        start <= end <= chars@.len(),
    ensures
        match r {
            Some(v) => parsed_i64(chars@.subrange(start as int, end as int)) == Some(v as int),
            None => parsed_i64(chars@.subrange(start as int, end as int)) is None,
        },
{
    let ghost s = chars@.subrange(start as int, end as int);
    let mut i: usize = start;
    let mut negative: bool = false;
    if start < end && (chars[start] == '-' || chars[start] == '+') {
        negative = chars[start] == '-';
        i = start + 1;
    }
    let first: usize = i;
    let ghost digits = chars@.subrange(first as int, end as int);
    assert(digits =~= unsigned(s));
    if first == end {
        return None;
    }
    let mut v: u64 = 0;
    assert(digits.take(0) =~= Seq::empty());
    while i < end
        invariant
            first <= i <= end <= chars@.len(),
            digits == chars@.subrange(first as int, end as int),
            forall|j: int| 0 <= j < i - first ==> is_digit(#[trigger] digits[j]),
            v == digits_value(digits.take(i - first)),
            v <= 0x8000_0000_0000_0000,
            start <= end,
            s == chars@.subrange(start as int, end as int),
            digits == unsigned(s),
        decreases end - i,
    {
        let c: char = chars[i];
        assert(digits[i - first] == c);
        if c < '0' || c > '9' {
            return None;
        }
        let d: u64 = (c as u32 - 48) as u64;
        proof {
            assert(digits.take(i + 1 - first).drop_last() =~= digits.take(i - first));
        }
        if v > 0x0fff_ffff_ffff_ffff || v * 10 + d > 0x8000_0000_0000_0000 {
            proof {
                if forall|j: int| 0 <= j < digits.len() ==> is_digit(#[trigger] digits[j]) {
                    lemma_digits_value_grows(digits, i + 1 - first);
                }
            }
            return None;
        }
        v = v * 10 + d;
        i = i + 1;
    }
    assert(digits.take(i - first) =~= digits);
    if negative {
        Some((-(v as i128)) as i64)
    } else if v == 0x8000_0000_0000_0000 {
        None
    } else {
        Some(v as i64)
    }
}

proof fn lemma_decimal(n: nat)
    ensures
        decimal(n).len() > 0,
        forall|i: int| 0 <= i < decimal(n).len() ==> is_digit(#[trigger] decimal(n)[i]),
        digits_value(decimal(n)) == n,
    decreases n,
{
    if n < 10 {
        assert(decimal(n).drop_last() =~= Seq::empty());
        assert(digits_value(Seq::empty()) == 0);
    } else {
        lemma_decimal(n / 10);
        assert(decimal(n).drop_last() =~= decimal(n / 10));
    }
}

/// A number that was written in decimal is read back.
pub proof fn law_decimal_round_trip(n: i64)
    ensures
        parsed_i64(signed_decimal(n as int)) == Some(n as int),
{
    let s = signed_decimal(n as int);
    if n < 0 {
        lemma_decimal((-(n as int)) as nat);
        assert(s.skip(1) =~= decimal((-(n as int)) as nat));
    } else {
        lemma_decimal(n as nat);
        assert(is_digit(s[0]));
    }
}

/// Whether a character is white space, as Unicode has it.
pub open spec fn white_space(c: char) -> bool {
    ||| '\u{9}' <= c <= '\u{d}'
    ||| c == '\u{20}'
    ||| c == '\u{85}'
    ||| c == '\u{a0}'
    ||| c == '\u{1680}'
    ||| '\u{2000}' <= c <= '\u{200a}'
    ||| c == '\u{2028}'
    ||| c == '\u{2029}'
    ||| c == '\u{202f}'
    ||| c == '\u{205f}'
    ||| c == '\u{3000}'
}

/// A text without the white space at its ends.
pub open spec fn trimmed(s: Seq<char>) -> Seq<char>
    decreases s.len(),
{
    if s.len() == 0 {
        s
    } else if white_space(s[0]) {
        trimmed(s.drop_first())
    } else if white_space(s.last()) {
        trimmed(s.drop_last())
    } else {
        s
    }
}

fn is_white_space(c: char) -> (r: bool)
    ensures
        r == white_space(c),
{
    ('\u{9}' <= c && c <= '\u{d}') || c == '\u{20}' || c == '\u{85}' || c == '\u{a0}' || c == '\u{1680}'
        || ('\u{2000}' <= c && c <= '\u{200a}') || c == '\u{2028}' || c == '\u{2029}' || c == '\u{202f}'
        || c == '\u{205f}' || c == '\u{3000}'
}

/// The text without the white space at its ends.
pub fn trim(s: &str) -> (r: String)
    ensures
        r@ == trimmed(s@),
{
    let chars = chars_of(s);
    let mut start: usize = 0;
    let mut end: usize = chars.len();
    assert(s@.subrange(0, end as int) =~= s@);
    while start < end && is_white_space(chars[start])
        invariant
            chars@ == s@,
            start <= end == chars@.len(),
            trimmed(s@.subrange(start as int, end as int)) == trimmed(s@),
        decreases end - start,
    {
        assert(s@.subrange(start as int, end as int).drop_first() =~= s@.subrange(
            start + 1,
            end as int,
        ));
        start = start + 1;
    }
    while start < end && is_white_space(chars[end - 1])
        invariant
            chars@ == s@,
            start <= end <= chars@.len(),
            start < end ==> !white_space(chars@[start as int]),
            trimmed(s@.subrange(start as int, end as int)) == trimmed(s@),
        decreases end - start,
    {
        assert(s@.subrange(start as int, end as int).drop_last() =~= s@.subrange(
            start as int,
            end - 1,
        ));
        end = end - 1;
    }
    text_of(&chars, start, end)
}

/// Trimming a text takes white space off its ends, and nothing else: what is left stands in the text
/// as it is, all that is before it and all that is behind it is white space, and it neither starts
/// nor ends with any.
pub proof fn law_trimmed(s: Seq<char>) -> (at: int)
    ensures
        0 <= at <= at + trimmed(s).len() <= s.len(),
        trimmed(s) == s.subrange(at, at + trimmed(s).len()),
        forall|i: int| 0 <= i < at ==> white_space(#[trigger] s[i]),
        forall|i: int| at + trimmed(s).len() <= i < s.len() ==> white_space(#[trigger] s[i]),
        trimmed(s).len() > 0 ==> !white_space(trimmed(s)[0]) && !white_space(trimmed(s).last()),
    decreases s.len(),
{
    if s.len() == 0 {
        assert(s =~= s.subrange(0, 0));
        0
    } else if white_space(s[0]) {
        let rest = s.drop_first();
        let at = law_trimmed(rest);
        let t = trimmed(s);
        assert(t =~= s.subrange(at + 1, at + 1 + t.len()));
        assert forall|i: int| 0 <= i < at + 1 implies white_space(#[trigger] s[i]) by {
            if i > 0 {
                assert(rest[i - 1] == s[i]);
            }
        }
        assert forall|i: int| at + 1 + t.len() <= i < s.len() implies white_space(
            #[trigger] s[i],
        ) by {
            assert(rest[i - 1] == s[i]);
        }
        at + 1
    } else if white_space(s.last()) {
        let rest = s.drop_last();
        let at = law_trimmed(rest);
        let t = trimmed(s);
        assert(t =~= s.subrange(at, at + t.len()));
        assert forall|i: int| 0 <= i < at implies white_space(#[trigger] s[i]) by {
            assert(rest[i] == s[i]);
        }
        assert forall|i: int| at + t.len() <= i < s.len() implies white_space(#[trigger] s[i]) by {
            if i < s.len() - 1 {
                assert(rest[i] == s[i]);
            }
        }
        at
    } else {
        assert(s =~= s.subrange(0, s.len() as int));
        0
    }
}

/// White space are the control characters that move the place of printing, and the spaces and
/// separators of Unicode. No letter, digit or sign is.
pub proof fn law_white_space(c: char)
    ensures
        c == ' ' || c == '\t' || c == '\n' || c == '\r' ==> white_space(c),
        '!' <= c <= '~' ==> !white_space(c),
{
}

/// A number that is written in decimal is the number that is read.
pub proof fn law_number_is_read(s: &mut String, n: i64, chars: &Vec<char>, end: usize, r: Option<i64>)
    requires
        old(s)@.len() == 0,
        call_ensures(push_signed_decimal, (s, n), ()),
        call_ensures(parse_i64, (chars, 0usize, end), r),
        chars@ == final(s)@,
        end == chars@.len(),
    ensures
        r == Some(n),
{
    law_decimal_round_trip(n);
    assert(chars@.subrange(0, end as int) =~= signed_decimal(n as int));
}

/// A text is trimmed of the white space at its ends, and of nothing else.
pub proof fn law_trim(s: &str, inner: Seq<char>, before: Seq<char>, behind: Seq<char>, r: String)
    requires
        call_ensures(trim, (s,), r),
        s@ == before + inner + behind,
        forall|i: int| 0 <= i < before.len() ==> white_space(#[trigger] before[i]),
        forall|i: int| 0 <= i < behind.len() ==> white_space(#[trigger] behind[i]),
        inner.len() > 0 ==> !white_space(inner[0]) && !white_space(inner.last()),
    ensures
        r@ == inner,
{
    let all = s@;
    let at = law_trimmed(all);
    let t = trimmed(all);
    let n = before.len() as int;
    let m = n + inner.len();
    if inner.len() > 0 {
        assert(all[n] == inner[0]);
        assert(all[m - 1] == inner.last());
        assert(!white_space(all[n]) && !white_space(all[m - 1]));
        assert(at <= n && m <= at + t.len());
        if at < n {
            assert(t[0] == all[at]);
            assert(all[at] == before[at]);
        }
        if m < at + t.len() {
            assert(t.last() == all[at + t.len() - 1]);
            assert(all[at + t.len() - 1] == behind[at + t.len() - 1 - m]);
        }
        assert(t =~= inner);
    } else if t.len() > 0 {
        assert(t[0] == all[at]);
        if at < n {
            assert(all[at] == before[at]);
        } else {
            assert(all[at] == behind[at - n]);
        }
    }
}

/// Bytes that encode a text are shown as that text, and two texts are the same where their characters
/// are.
pub proof fn law_text_is_shown(s: Seq<char>, bytes: &[u8], r: String, a: &str, b: &str, same: bool)
    requires
        call_ensures(show_bytes, (bytes,), r),
        bytes@ == encode_utf8(s),
        call_ensures(same_text, (a, b), same),
    ensures
        r@ == s,
        same <==> a@ == b@,
{
    lemma_text_round_trip(s);
}

} // verus!
