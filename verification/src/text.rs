//! Small building blocks for text and bytes: decimal and hexadecimal numbers,
//! comparisons, prefixes, ASCII white space.

use vstd::prelude::*;
use vstd::utf8::*;

verus! {

/// The character of the digit `d` in a base up to sixteen, in lower case.
pub open spec fn digit_char(d: int) -> char {
    if d == 0 {
        '0'
    } else if d == 1 {
        '1'
    } else if d == 2 {
        '2'
    } else if d == 3 {
        '3'
    } else if d == 4 {
        '4'
    } else if d == 5 {
        '5'
    } else if d == 6 {
        '6'
    } else if d == 7 {
        '7'
    } else if d == 8 {
        '8'
    } else if d == 9 {
        '9'
    } else if d == 10 {
        'a'
    } else if d == 11 {
        'b'
    } else if d == 12 {
        'c'
    } else if d == 13 {
        'd'
    } else if d == 14 {
        'e'
    } else {
        'f'
    }
}

/// The decimal notation of `n`, without leading zeros.
pub open spec fn decimal(n: nat) -> Seq<char>
    decreases n,
{
    if n < 10 {
        seq![digit_char(n as int)]
    } else {
        decimal(n / 10).push(digit_char((n % 10) as int))
    }
}

/// A byte as two hexadecimal digits in lower case.
pub open spec fn hex_pair(byte: u8) -> Seq<char> {
    seq![digit_char(byte as int / 16), digit_char(byte as int % 16)]
}

/// Whether `whole` begins with `prefix`.
pub open spec fn has_prefix(whole: Seq<u8>, prefix: Seq<u8>) -> bool {
    &&& prefix.len() <= whole.len()
    &&& whole.take(prefix.len() as int) == prefix
}

/// ASCII white space: space, tab, line feed, form feed, carriage return.
pub open spec fn is_space(byte: u8) -> bool {
    byte == 0x20 || byte == 0x09 || byte == 0x0a || byte == 0x0c || byte == 0x0d
}

/// Every byte of `bytes` combined with `mask` by exclusive or.
pub open spec fn masked(bytes: Seq<u8>, mask: u8) -> Seq<u8> {
    Seq::new(bytes.len(), |i: int| bytes[i] ^ mask)
}

/// A character with the capital letters of ASCII made small.
pub open spec fn lower(c: char) -> char {
    if 'A' <= c <= 'Z' {
        (c as u8 + 32) as char
    } else {
        c
    }
}

/// A mask put on twice is off again.
pub proof fn law_mask_twice(bytes: Seq<u8>, mask: u8)
    ensures
        masked(masked(bytes, mask), mask) == bytes,
{
    assert forall|i: int| 0 <= i < bytes.len() implies masked(masked(bytes, mask), mask)[i]
        == bytes[i] by {
        let a = bytes[i];
        assert((a ^ mask) ^ mask == a) by (bit_vector);
    }
    assert(masked(masked(bytes, mask), mask) =~= bytes);
}

/// No two numbers have one decimal notation.
pub proof fn law_decimal_is_unique(a: nat, b: nat)
    requires
        decimal(a) == decimal(b),
    ensures
        a == b,
    decreases a,
{
    lemma_decimal_len(a);
    lemma_decimal_len(b);
    if a < 10 || b < 10 {
        assert(a < 10 && b < 10);
        assert(decimal(a)[0] == digit_char(a as int));
        assert(decimal(b)[0] == digit_char(b as int));
    } else {
        assert(decimal(a).last() == digit_char((a % 10) as int));
        assert(decimal(b).last() == digit_char((b % 10) as int));
        assert(decimal(a).drop_last() =~= decimal(a / 10));
        assert(decimal(b).drop_last() =~= decimal(b / 10));
        law_decimal_is_unique(a / 10, b / 10);
    }
}

/// The number that decimal digits stand for, the highest first.
pub open spec fn digits_value(digits: Seq<char>) -> int
    decreases digits.len(),
{
    if digits.len() == 0 {
        0
    } else {
        10 * digits_value(digits.drop_last()) + (digits.last() as int - '0' as int)
    }
}

/// The decimal notation of a number stands for that number, consists of the
/// digits from `0` to `9`, and has no zero in front of others.
pub proof fn law_decimal_reads_back(n: nat)
    ensures
        digits_value(decimal(n)) == n,
        decimal(n).len() >= 1,
        forall|k: int| 0 <= k < decimal(n).len() ==> '0' <= #[trigger] decimal(n)[k] <= '9',
        decimal(n).len() > 1 ==> decimal(n)[0] != '0',
    decreases n,
{
    lemma_decimal_len(n);
    if n < 10 {
        assert(decimal(n).drop_last() =~= seq![]);
        assert(digits_value(seq![]) == 0);
    } else {
        law_decimal_reads_back(n / 10);
        assert(decimal(n).drop_last() =~= decimal(n / 10));
        assert forall|k: int| 0 <= k < decimal(n).len() implies '0' <= #[trigger] decimal(n)[k]
            <= '9' by {
            if k < decimal(n / 10).len() {
                assert(decimal(n)[k] == decimal(n / 10)[k]);
            }
        }
        assert(decimal(n)[0] == decimal(n / 10)[0]);
        if decimal(n / 10).len() == 1 {
            lemma_decimal_len(n / 10);
            assert(decimal(n / 10)[0] == digit_char((n / 10) as int));
        }
    }
}

/// The digits of a byte in base sixteen stand for it.
pub proof fn law_hex_pair_reads_back(byte: u8)
    ensures
        hex_pair(byte).len() == 2,
        ({
            let value = |c: char|
                if '0' <= c <= '9' {
                    c as int - '0' as int
                } else if 'a' <= c <= 'f' {
                    c as int - 'a' as int + 10
                } else {
                    256int
                };
            16 * value(hex_pair(byte)[0]) + value(hex_pair(byte)[1]) == byte
        }),
{
}

/// A mask changes every byte by the same bits, and nothing else.
pub proof fn law_mask_covers_all(bytes: Seq<u8>, mask: u8, i: int)
    requires
        0 <= i < bytes.len(),
    ensures
        masked(bytes, mask).len() == bytes.len(),
        masked(bytes, mask)[i] ^ bytes[i] == mask,
{
    let a = bytes[i];
    assert((a ^ mask) ^ a == mask) by (bit_vector);
}

/// A prefix stands in front of what follows it, and nothing else has it.
pub proof fn law_prefix(prefix: Seq<u8>, rest: Seq<u8>, whole: Seq<u8>)
    ensures
        has_prefix(prefix + rest, prefix),
        has_prefix(whole, prefix) <==> whole.len() >= prefix.len() && prefix + whole.skip(
            prefix.len() as int,
        ) == whole,
{
    assert((prefix + rest).take(prefix.len() as int) =~= prefix);
    let n = prefix.len() as int;
    if whole.len() >= n {
        assert(whole.take(n) + whole.skip(n) =~= whole);
        if prefix + whole.skip(n) == whole {
            assert((prefix + whole.skip(n)).take(n) =~= prefix);
        }
    }
}

/// Small letters: the 26 capital letters of ASCII become the small ones, in
/// their order, and every other character stays.
pub proof fn law_small_letters(c: char)
    ensures
        'A' <= c <= 'Z' ==> 'a' <= lower(c) <= 'z' && lower(c) as int - 'a' as int == c as int
            - 'A' as int,
        !('A' <= c <= 'Z') ==> lower(c) == c,
{
}

proof fn lemma_decimal_len(n: nat)
    ensures
        decimal(n).len() >= 1,
        decimal(n).len() == 1 <==> n < 10,
    decreases n,
{
    if n >= 10 {
        lemma_decimal_len(n / 10);
    }
}

/// The text of one digit.
fn digit_text(d: u8) -> (text: &'static str)
    requires
        d < 16,
    ensures
        text@ == seq![digit_char(d as int)],
{
    proof {
        reveal_strlit("0");
        reveal_strlit("1");
        reveal_strlit("2");
        reveal_strlit("3");
        reveal_strlit("4");
        reveal_strlit("5");
        reveal_strlit("6");
        reveal_strlit("7");
        reveal_strlit("8");
        reveal_strlit("9");
        reveal_strlit("a");
        reveal_strlit("b");
        reveal_strlit("c");
        reveal_strlit("d");
        reveal_strlit("e");
        reveal_strlit("f");
    }
    match d {
        0 => "0",
        1 => "1",
        2 => "2",
        3 => "3",
        4 => "4",
        5 => "5",
        6 => "6",
        7 => "7",
        8 => "8",
        9 => "9",
        10 => "a",
        11 => "b",
        12 => "c",
        13 => "d",
        14 => "e",
        _ => "f",
    }
}

/// The decimal notation of `n`.
pub fn decimal_text(n: u64) -> (text: String)
    ensures
        text@ == decimal(n as nat),
    decreases n,
{
    if n < 10 {
        String::from_str(digit_text(n as u8))
    } else {
        let mut text: String = decimal_text(n / 10);
        text.append(digit_text((n % 10) as u8));
        text
    }
}

/// A byte as two hexadecimal digits.
pub fn hex_pair_text(byte: u8) -> (text: String)
    ensures
        text@ == hex_pair(byte),
{
    let mut text: String = String::from_str(digit_text(byte / 16));
    text.append(digit_text(byte % 16));
    text
}

/// Whether two byte slices hold the same bytes.
pub fn same_bytes(a: &[u8], b: &[u8]) -> (same: bool)
    ensures
        same == (a@ == b@),
{
    if a.len() != b.len() {
        return false;
    }
    let mut i: usize = 0;
    while i < a.len()
        invariant
            i <= a.len(),
            a.len() == b.len(),
            forall|k: int| 0 <= k < i ==> a@[k] == b@[k],
        decreases a.len() - i,
    {
        if a[i] != b[i] {
            return false;
        }
        i = i + 1;
    }
    assert(a@ =~= b@);
    true
}

/// Whether two strings hold the same text.
pub fn same_text(a: &str, b: &str) -> (same: bool)
    ensures
        same == (a@ == b@),
{
    proof {
        encode_utf8_decode_utf8(a@);
        encode_utf8_decode_utf8(b@);
    }
    same_bytes(a.as_bytes(), b.as_bytes())
}

/// Whether `whole` begins with `prefix`.
pub fn starts_with(whole: &[u8], prefix: &[u8]) -> (yes: bool)
    ensures
        yes == has_prefix(whole@, prefix@),
{
    if prefix.len() > whole.len() {
        return false;
    }
    same_bytes(&whole[0..prefix.len()], prefix)
}

/// What follows `prefix` in `whole`, if `whole` begins with it.
pub fn strip_prefix<'a>(whole: &'a [u8], prefix: &[u8]) -> (rest: Option<&'a [u8]>)
    ensures
        match rest {
            Some(rest) => has_prefix(whole@, prefix@) && rest@ == whole@.skip(prefix@.len() as int),
            None => !has_prefix(whole@, prefix@),
        },
{
    if starts_with(whole, prefix) {
        Some(&whole[prefix.len()..whole.len()])
    } else {
        None
    }
}

/// Whether a byte is ASCII white space.
pub fn is_ascii_space(byte: u8) -> (yes: bool)
    ensures
        yes == is_space(byte),
{
    byte == 0x20 || byte == 0x09 || byte == 0x0a || byte == 0x0c || byte == 0x0d
}

/// Combines every byte with `mask` by exclusive or.
pub fn mask_bytes(bytes: &[u8], mask: u8) -> (out: Vec<u8>)
    ensures
        out@ == masked(bytes@, mask),
{
    let mut out: Vec<u8> = Vec::with_capacity(bytes.len());
    let mut i: usize = 0;
    while i < bytes.len()
        invariant
            i <= bytes.len(),
            out@ == masked(bytes@.take(i as int), mask),
        decreases bytes.len() - i,
    {
        out.push(bytes[i] ^ mask);
        i = i + 1;
    }
    assert(bytes@.take(i as int) =~= bytes@);
    out
}

/// An owned copy of a slice.
pub fn to_vec(bytes: &[u8]) -> (out: Vec<u8>)
    ensures
        out@ == bytes@,
{
    let mut out: Vec<u8> = Vec::with_capacity(bytes.len());
    let mut i: usize = 0;
    while i < bytes.len()
        invariant
            i <= bytes.len(),
            out@ == bytes@.take(i as int),
        decreases bytes.len() - i,
    {
        out.push(bytes[i]);
        i = i + 1;
    }
    assert(bytes@.take(i as int) =~= bytes@);
    out
}

/// The characters of a string.
pub fn chars_of(s: &str) -> (chars: Vec<char>)
    ensures
        chars@ == s@,
{
    let mut chars: Vec<char> = Vec::new();
    for c in it: s.chars()
        invariant
            it.seq() == s@,
            chars@ == s@.take(it.index()),
    {
        chars.push(c);
    }
    assert(s@.take(s@.len() as int) =~= s@);
    chars
}

/// A character with the capital letters of ASCII made small.
pub fn lower_char(c: char) -> (r: char)
    ensures
        r == lower(c),
{
    if 'A' <= c && c <= 'Z' {
        (c as u8 + 32) as char
    } else {
        c
    }
}

/// Whether characters spell a word.
pub fn spells(chars: &Vec<char>, word: &str) -> (yes: bool)
    ensures
        yes == (chars@ == word@),
{
    let other: Vec<char> = chars_of(word);
    if chars.len() != other.len() {
        return false;
    }
    let mut i: usize = 0;
    while i < chars.len()
        invariant
            i <= chars.len(),
            chars@.len() == other@.len(),
            other@ == word@,
            forall|k: int| 0 <= k < i ==> chars@[k] == other@[k],
        decreases chars.len() - i,
    {
        if chars[i] != other[i] {
            return false;
        }
        i = i + 1;
    }
    assert(chars@ =~= other@);
    true
}

/// Decodes UTF-8 with `String::from_utf8`: the text comes back exactly when
/// the bytes are valid UTF-8, and it is the text that they encode.
#[verifier::external_body]
pub(crate) fn utf8_text(bytes: Vec<u8>) -> (text: Option<String>)
    ensures
        text is Some <==> valid_utf8(bytes@),
        text matches Some(s) ==> s@ == decode_utf8(bytes@),
{
    String::from_utf8(bytes).ok()
}

} // verus!
