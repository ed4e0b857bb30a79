//! String members of a JSON text.
//!
//! The text is searched for a quoted member name; the first one that is
//! followed by a colon and a string gives the value.

use crate::text;
use vstd::prelude::*;
use vstd::utf8::*;

verus! {

// ---------------------------------------------------------------------------
// String literals
// ---------------------------------------------------------------------------

/// The value of a hexadecimal digit of either case.
pub open spec fn hex_value(byte: u8) -> Option<int> {
    if 0x30 <= byte <= 0x39 {
        Some(byte - 0x30)
    } else if 0x61 <= byte <= 0x66 {
        Some(byte - 0x61 + 10)
    } else if 0x41 <= byte <= 0x46 {
        Some(byte - 0x41 + 10)
    } else {
        None
    }
}

/// The number that four hexadecimal digits at `i` stand for.
pub open spec fn hex4(bytes: Seq<u8>, i: int) -> Option<int> {
    if i < 0 || i + 4 > bytes.len() {
        None
    } else {
        match (
            hex_value(bytes[i]),
            hex_value(bytes[i + 1]),
            hex_value(bytes[i + 2]),
            hex_value(bytes[i + 3]),
        ) {
            (Some(a), Some(b), Some(c), Some(d)) => Some(4096 * a + 256 * b + 16 * c + d),
            _ => None,
        }
    }
}

/// Whether a number opens a pair of surrogates.
pub open spec fn is_high_surrogate(code: int) -> bool {
    0xd800 <= code <= 0xdbff
}

/// Whether a number closes a pair of surrogates.
pub open spec fn is_low_surrogate(code: int) -> bool {
    0xdc00 <= code <= 0xdfff
}

/// What a `\u` escape stands for whose digits begin at `i`: the character in
/// UTF-8 and the index after the escape. A high surrogate needs a low one next.
pub open spec fn unicode_escape(bytes: Seq<u8>, i: int) -> Option<(Seq<u8>, int)> {
    match hex4(bytes, i) {
        None => None,
        Some(code) => if is_high_surrogate(code) {
            if i + 6 <= bytes.len() && bytes[i + 4] == 0x5c && bytes[i + 5] == 0x75 {
                match hex4(bytes, i + 6) {
                    Some(low) => if is_low_surrogate(low) {
                        let scalar = 0x10000 + (code - 0xd800) * 0x400 + (low - 0xdc00);
                        Some((encode_scalar(scalar as u32), i + 10))
                    } else {
                        None
                    },
                    None => None,
                }
            } else {
                None
            }
        } else if is_low_surrogate(code) {
            None
        } else {
            Some((encode_scalar(code as u32), i + 4))
        },
    }
}

/// What the escape stands for whose character after the backslash is at `i`:
/// its bytes and the index after the escape.
pub open spec fn escape(bytes: Seq<u8>, i: int) -> Option<(Seq<u8>, int)> {
    if i < 0 || i >= bytes.len() {
        None
    } else if bytes[i] == 0x22 || bytes[i] == 0x5c || bytes[i] == 0x2f {
        Some((seq![bytes[i]], i + 1))
    } else if bytes[i] == 0x62 {
        Some((seq![0x08], i + 1))
    } else if bytes[i] == 0x66 {
        Some((seq![0x0c], i + 1))
    } else if bytes[i] == 0x6e {
        Some((seq![0x0a], i + 1))
    } else if bytes[i] == 0x72 {
        Some((seq![0x0d], i + 1))
    } else if bytes[i] == 0x74 {
        Some((seq![0x09], i + 1))
    } else if bytes[i] == 0x75 {
        unicode_escape(bytes, i + 1)
    } else {
        None
    }
}

/// `head` in front of an optional sequence.
pub open spec fn prepended(head: Seq<u8>, rest: Option<Seq<u8>>) -> Option<Seq<u8>> {
    match rest {
        Some(rest) => Some(head + rest),
        None => None,
    }
}

/// The bytes of a string literal from `i` up to its closing quote. There are
/// none if the quote is missing, an escape is wrong or a control character
/// stands in it.
pub open spec fn string_body(bytes: Seq<u8>, i: int) -> Option<Seq<u8>>
    decreases bytes.len() - i,
{
    if i < 0 || i >= bytes.len() {
        None
    } else if bytes[i] == 0x22 {
        Some(seq![])
    } else if bytes[i] == 0x5c {
        match escape(bytes, i + 1) {
            Some((head, next)) => prepended(head, string_body(bytes, next)),
            None => None,
        }
    } else if bytes[i] < 0x20 {
        None
    } else {
        prepended(seq![bytes[i]], string_body(bytes, i + 1))
    }
}

/// The text of the string literal whose opening quote is at `start`.
pub open spec fn string_at(bytes: Seq<u8>, start: int) -> Option<Seq<char>> {
    match string_body(bytes, start + 1) {
        Some(body) => if valid_utf8(body) {
            Some(decode_utf8(body))
        } else {
            None
        },
        None => None,
    }
}

// ---------------------------------------------------------------------------
// Members
// ---------------------------------------------------------------------------

/// A member name as it is written: between quotes.
pub open spec fn quoted(field: Seq<char>) -> Seq<u8> {
    seq![0x22u8] + encode_utf8(field) + seq![0x22u8]
}

/// Whether `part` stands in `bytes` at `i`.
pub open spec fn occurs_at(bytes: Seq<u8>, part: Seq<u8>, i: int) -> bool {
    0 <= i && i + part.len() <= bytes.len() && bytes.subrange(i, i + part.len()) == part
}

/// The first place at or after `from` where `part` stands in `bytes`.
pub open spec fn find_from(bytes: Seq<u8>, part: Seq<u8>, from: int) -> Option<int>
    decreases bytes.len() - from,
{
    if from < 0 || from + part.len() > bytes.len() {
        None
    } else if occurs_at(bytes, part, from) {
        Some(from)
    } else if from >= bytes.len() {
        None
    } else {
        find_from(bytes, part, from + 1)
    }
}

/// The first index at or after `i` that holds no white space.
pub open spec fn skip_spaces(bytes: Seq<u8>, i: int) -> int
    decreases bytes.len() - i,
{
    if 0 <= i < bytes.len() && text::is_space(bytes[i]) {
        skip_spaces(bytes, i + 1)
    } else {
        i
    }
}

/// A place that is found is one, and there is none before it; if none is found,
/// there is none.
pub proof fn lemma_find_from(bytes: Seq<u8>, part: Seq<u8>, from: int)
    ensures
        find_from(bytes, part, from) matches Some(i) ==> from <= i && occurs_at(bytes, part, i),
        find_from(bytes, part, from) matches Some(i) ==> forall|k: int|
            from <= k < i ==> !occurs_at(bytes, part, k),
        find_from(bytes, part, from) is None ==> forall|k: int|
            0 <= from <= k ==> !occurs_at(bytes, part, k),
    decreases bytes.len() - from,
{
    if !(from < 0 || from + part.len() > bytes.len()) && !occurs_at(bytes, part, from) && from
        < bytes.len() {
        lemma_find_from(bytes, part, from + 1);
    }
}

/// Passing over white space never goes back, nor behind the end.
pub proof fn lemma_skip_spaces(bytes: Seq<u8>, i: int)
    ensures
        i <= skip_spaces(bytes, i),
        i <= bytes.len() ==> skip_spaces(bytes, i) <= bytes.len(),
    decreases bytes.len() - i,
{
    if 0 <= i < bytes.len() && text::is_space(bytes[i]) {
        lemma_skip_spaces(bytes, i + 1);
    }
}

/// The value of the first member at or after `from` that is written `name` and
/// has a string as its value. After a place that is no such member the search
/// goes on behind what was read there.
pub open spec fn member_from(bytes: Seq<u8>, name: Seq<u8>, from: int) -> Option<Seq<char>>
    decreases bytes.len() - from,
{
    match find_from(bytes, name, from) {
        None => None,
        Some(i) => {
            let colon = skip_spaces(bytes, i + name.len());
            let value = skip_spaces(bytes, colon + 1);
            proof {
                lemma_find_from(bytes, name, from);
                lemma_skip_spaces(bytes, i + name.len());
                lemma_skip_spaces(bytes, colon + 1);
            }
            if name.len() == 0 {
                None
            } else if colon >= bytes.len() || bytes[colon] != 0x3a {
                member_from(bytes, name, colon)
            } else if value < bytes.len() && bytes[value] == 0x22 {
                string_at(bytes, value)
            } else {
                member_from(bytes, name, value)
            }
        },
    }
}

/// The string that `json` has for the member `field`.
pub open spec fn extracted(json: Seq<char>, field: Seq<char>) -> Option<Seq<char>> {
    member_from(encode_utf8(json), quoted(field), 0)
}

/// Whether an optional string is the one that a specification gives.
pub open spec fn agrees(result: Option<String>, expected: Option<Seq<char>>) -> bool {
    match expected {
        Some(s) => result matches Some(r) && r@ == s,
        None => result is None,
    }
}

// ---------------------------------------------------------------------------
// Reading back what a writer wrote
// ---------------------------------------------------------------------------

/// The letter of the short escape for a control character, if it has one.
pub open spec fn escape_letter(c: char) -> Option<u8> {
    if c as u32 == 0x08 {
        Some(0x62)
    } else if c as u32 == 0x0c {
        Some(0x66)
    } else if c as u32 == 0x0a {
        Some(0x6e)
    } else if c as u32 == 0x0d {
        Some(0x72)
    } else if c as u32 == 0x09 {
        Some(0x74)
    } else {
        None
    }
}

/// Whether `written` at `i` is `\u` and four hexadecimal digits, of either case,
/// for `code`.
pub open spec fn is_unicode_form(written: Seq<u8>, i: int, code: int) -> bool {
    &&& written[i] == 0x5c
    &&& written[i + 1] == 0x75
    &&& hex4(written, i + 2) == Some(code)
}

/// Whether `written` is a way to write a character in a string literal: in
/// UTF-8 if it needs no escape, with a backslash before it, by a short escape,
/// as `\u` with its number, or as a pair of surrogates.
pub open spec fn is_form(c: char, written: Seq<u8>) -> bool {
    let n = c as int;
    ||| n >= 0x20 && c != '"' && c != '\\' && written == encode_scalar(c as u32)
    ||| (c == '"' || c == '\\' || c == '/') && written == seq![0x5cu8, c as u8]
    ||| escape_letter(c) matches Some(letter) && written == seq![0x5cu8, letter]
    ||| n < 0x10000 && written.len() == 6 && is_unicode_form(written, 0, n)
    ||| {
        &&& n >= 0x10000
        &&& written.len() == 12
        &&& is_unicode_form(written, 0, 0xd800 + (n - 0x10000) / 0x400)
        &&& is_unicode_form(written, 6, 0xdc00 + (n - 0x10000) % 0x400)
    }
}

/// Whether `forms` are ways to write the characters of a text, one by one.
pub open spec fn are_forms(text: Seq<char>, forms: Seq<Seq<u8>>) -> bool {
    &&& text.len() == forms.len()
    &&& forall|i: int| 0 <= i < text.len() ==> is_form(text[i], #[trigger] forms[i])
}

/// The string literal made of written characters.
pub open spec fn literal(forms: Seq<Seq<u8>>) -> Seq<u8> {
    seq![0x22u8] + forms.flatten() + seq![0x22u8]
}

spec fn is_plain(byte: u8) -> bool {
    byte >= 0x20 && byte != 0x22 && byte != 0x5c
}

proof fn lemma_plain_run(bytes: Seq<u8>, i: int, k: nat)
    requires
        0 <= i,
        i + k <= bytes.len(),
        forall|j: int| i <= j < i + k ==> is_plain(#[trigger] bytes[j]),
    ensures
        string_body(bytes, i) == prepended(bytes.subrange(i, i + k), string_body(bytes, i + k)),
    decreases k,
{
    let rest = string_body(bytes, i + k);
    if k == 0 {
        assert(rest matches Some(r) ==> bytes.subrange(i, i) + r =~= r);
    } else {
        lemma_plain_run(bytes, i + 1, (k - 1) as nat);
        assert(is_plain(bytes[i]));
        assert(rest matches Some(r) ==> seq![bytes[i]] + (bytes.subrange(i + 1, i + k) + r)
            =~= bytes.subrange(i, i + k) + r);
    }
}

proof fn lemma_scalar_is_plain(scalar: u32)
    requires
        is_scalar(scalar),
        scalar >= 0x20,
        scalar != 0x22,
        scalar != 0x5c,
    ensures
        forall|j: int|
            0 <= j < encode_scalar(scalar).len() ==> is_plain(#[trigger] encode_scalar(scalar)[j]),
{
    assert(leading_byte_width_2(scalar) >= 0x80 && leading_byte_width_3(scalar) >= 0x80
        && leading_byte_width_4(scalar) >= 0x80 && last_continuation_byte(scalar) >= 0x80
        && second_last_continuation_byte(scalar) >= 0x80 && third_last_continuation_byte(scalar)
        >= 0x80 && (scalar <= 0x7f ==> leading_byte_width_1(scalar) == scalar)) by (bit_vector);
}

proof fn lemma_form(bytes: Seq<u8>, i: int, c: char, written: Seq<u8>)
    requires
        is_form(c, written),
        occurs_at(bytes, written, i),
    ensures
        string_body(bytes, i) == prepended(
            encode_scalar(c as u32),
            string_body(bytes, i + written.len()),
        ),
{
    let scalar = c as u32;
    char_is_scalar(c);
    assert forall|j: int| 0 <= j < written.len() implies bytes[i + j] == #[trigger] written[j] by {
        assert(bytes.subrange(i, i + written.len())[j] == bytes[i + j]);
    }
    if scalar < 0x80 {
        assert(leading_byte_width_1(scalar) == scalar) by (bit_vector)
            requires
                scalar < 0x80,
        ;
    }
    if scalar >= 0x20 && c != '"' && c != '\\' && written == encode_scalar(scalar) {
        lemma_scalar_is_plain(scalar);
        assert forall|j: int| i <= j < i + written.len() implies is_plain(#[trigger] bytes[j]) by {
            assert(is_plain(written[j - i]));
        }
        lemma_plain_run(bytes, i, written.len());
    } else if (c == '"' || c == '\\' || c == '/') && written == seq![0x5cu8, c as u8] {
        assert(written[0] == 0x5c && written[1] == c as u8);
        assert(seq![bytes[i + 1]] =~= encode_scalar(scalar));
    } else if escape_letter(c) is Some && written == seq![0x5cu8, escape_letter(c)->Some_0] {
        assert(written[0] == 0x5c && written[1] == escape_letter(c)->Some_0);
        assert(escape(bytes, i + 1)->Some_0.0 =~= encode_scalar(scalar));
    } else if scalar < 0x10000 {
        assert(written[0] == 0x5c && written[1] == 0x75);
        assert(written[2] == bytes[i + 2] && written[3] == bytes[i + 3] && written[4] == bytes[i + 4]
            && written[5] == bytes[i + 5]);
        assert(hex4(bytes, i + 2) == Some(scalar as int));
    } else {
        let high = 0xd800 + (scalar - 0x10000) / 0x400;
        let low = 0xdc00 + (scalar - 0x10000) % 0x400;
        assert(written[0] == 0x5c && written[1] == 0x75 && written[6] == 0x5c && written[7] == 0x75);
        assert(written[2] == bytes[i + 2] && written[3] == bytes[i + 3] && written[4] == bytes[i + 4]
            && written[5] == bytes[i + 5]);
        assert(written[8] == bytes[i + 8] && written[9] == bytes[i + 9] && written[10] == bytes[i
            + 10] && written[11] == bytes[i + 11]);
        assert(hex4(bytes, i + 2) == Some(high));
        assert(hex4(bytes, i + 8) == Some(low));
        assert(0x10000 + (high - 0xd800) * 0x400 + (low - 0xdc00) == scalar);
    }
}

proof fn lemma_forms(bytes: Seq<u8>, i: int, text: Seq<char>, forms: Seq<Seq<u8>>)
    requires
        are_forms(text, forms),
        occurs_at(bytes, forms.flatten() + seq![0x22u8], i),
    ensures
        string_body(bytes, i) == Some(encode_utf8(text)),
    decreases text.len(),
{
    let part = forms.flatten() + seq![0x22u8];
    let n = part.len() as int;
    if text.len() == 0 {
        assert(bytes.subrange(i, i + n)[0] == part[0]);
    } else {
        let head = forms[0];
        let k = head.len() as int;
        let tail = forms.drop_first().flatten() + seq![0x22u8];
        assert(part =~= head + tail);
        assert(bytes.subrange(i, i + k) =~= bytes.subrange(i, i + n).take(k));
        assert(part.take(k) =~= head);
        assert(bytes.subrange(i + k, i + n) =~= bytes.subrange(i, i + n).skip(k));
        assert(part.skip(k) =~= tail);
        assert forall|j: int| 0 <= j < text.drop_first().len() implies is_form(
            text.drop_first()[j],
            #[trigger] forms.drop_first()[j],
        ) by {
            assert(forms.drop_first()[j] == forms[j + 1]);
        }
        lemma_form(bytes, i, text[0], head);
        lemma_forms(bytes, i + k, text.drop_first(), forms.drop_first());
    }
}

/// A string literal gives back its text, in whichever way each character of the
/// text is written.
pub proof fn law_literal_round_trip(
    bytes: Seq<u8>,
    start: int,
    text: Seq<char>,
    forms: Seq<Seq<u8>>,
)
    requires
        are_forms(text, forms),
        occurs_at(bytes, literal(forms), start),
    ensures
        string_at(bytes, start) == Some(text),
{
    let part = literal(forms);
    let n = part.len() as int;
    let tail = forms.flatten() + seq![0x22u8];
    assert(bytes.subrange(start + 1, start + n) =~= bytes.subrange(start, start + n).skip(1));
    assert(part.skip(1) =~= tail);
    lemma_forms(bytes, start + 1, text, forms);
    encode_utf8_valid_utf8(text);
    encode_utf8_decode_utf8(text);
}

/// Whether the bytes from `i` on are written characters of a text and a closing
/// quote.
pub open spec fn is_written_at(
    bytes: Seq<u8>,
    i: int,
    text: Seq<char>,
    forms: Seq<Seq<u8>>,
) -> bool {
    are_forms(text, forms) && occurs_at(bytes, forms.flatten() + seq![0x22u8], i)
}

/// The encoding of a character at the beginning of bytes can be told from what
/// follows it.
proof fn lemma_first_scalar(scalar: u32, rest: Seq<u8>)
    requires
        is_scalar(scalar),
    ensures
        decode_first_scalar(encode_scalar(scalar) + rest) == scalar,
        length_of_first_scalar(encode_scalar(scalar) + rest) == encode_scalar(scalar).len(),
        encode_scalar(scalar).len() > 0,
        !is_continuation_byte(encode_scalar(scalar)[0]),
        forall|j: int|
            0 < j < encode_scalar(scalar).len() ==> is_continuation_byte(
                #[trigger] encode_scalar(scalar)[j],
            ),
{
    let one = seq![scalar as char];
    assert(one.drop_first() =~= seq![]);
    assert(encode_utf8(one.drop_first()) =~= seq![]);
    assert(encode_utf8(one) =~= encode_scalar(scalar));
    encode_utf8_first_scalar(one);
    let alone = encode_scalar(scalar);
    assert forall|j: int| 0 <= j < alone.len() implies #[trigger] (alone + rest)[j] == alone[j] by {}
}

proof fn lemma_same_first_scalar(one: u32, a: Seq<u8>, other: u32, b: Seq<u8>)
    requires
        is_scalar(one),
        is_scalar(other),
        encode_scalar(one) + a == encode_scalar(other) + b,
    ensures
        one == other,
        a == b,
{
    lemma_first_scalar(one, a);
    lemma_first_scalar(other, b);
    let n = encode_scalar(one).len() as int;
    assert((encode_scalar(one) + a).skip(n) =~= a);
    assert((encode_scalar(other) + b).skip(n) =~= b);
}

/// What an escape stands for is one character, and the escape is a form of it.
proof fn lemma_escape_is_form(bytes: Seq<u8>, i: int) -> (c: char)
    requires
        0 <= i < bytes.len(),
        bytes[i] == 0x5c,
        escape(bytes, i + 1) is Some,
    ensures
        ({
            let (head, next) = escape(bytes, i + 1)->Some_0;
            &&& i < next <= bytes.len()
            &&& head == encode_scalar(c as u32)
            &&& is_form(c, bytes.subrange(i, next))
        }),
{
    let (head, next) = escape(bytes, i + 1)->Some_0;
    let written = bytes.subrange(i, next);
    let x = bytes[i + 1];
    if x == 0x75 {
        let code = hex4(bytes, i + 2)->Some_0;
        assert(hex4(written, 2) == hex4(bytes, i + 2));
        if is_high_surrogate(code) {
            let low = hex4(bytes, i + 8)->Some_0;
            assert(hex4(written, 8) == hex4(bytes, i + 8));
            let scalar = 0x10000 + (code - 0xd800) * 0x400 + (low - 0xdc00);
            let c = scalar as u32 as char;
            assert((scalar - 0x10000) / 0x400 == code - 0xd800 && (scalar - 0x10000) % 0x400 == low
                - 0xdc00);
            c
        } else {
            code as u32 as char
        }
    } else {
        let plain: u32 = if x == 0x62 {
            0x08
        } else if x == 0x66 {
            0x0c
        } else if x == 0x6e {
            0x0a
        } else if x == 0x72 {
            0x0d
        } else if x == 0x74 {
            0x09
        } else {
            x as u32
        };
        assert(leading_byte_width_1(plain) == plain) by (bit_vector)
            requires
                plain < 0x80,
        ;
        let c = plain as char;
        assert(head =~= encode_scalar(plain));
        assert(written =~= seq![0x5cu8, x]);
        c
    }
}

/// A continuation byte in what a literal stands for stands in the literal itself.
proof fn lemma_continuation(bytes: Seq<u8>, i: int, body: Seq<u8>)
    requires
        string_body(bytes, i) == Some(body),
        body.len() > 0,
        is_continuation_byte(body[0]),
    ensures
        0 <= i < bytes.len(),
        bytes[i] == body[0],
        string_body(bytes, i + 1) == Some(body.drop_first()),
{
    if bytes[i] == 0x5c {
        let c = lemma_escape_is_form(bytes, i);
        let (head, next) = escape(bytes, i + 1)->Some_0;
        char_is_scalar(c);
        lemma_first_scalar(c as u32, string_body(bytes, next)->Some_0);
        assert(body[0] == head[0]);
    } else {
        let rest = string_body(bytes, i + 1)->Some_0;
        assert(body == seq![bytes[i]] + rest);
        assert(body.drop_first() =~= rest);
    }
}

/// A run of continuation bytes stands in the literal itself.
proof fn lemma_continuation_run(bytes: Seq<u8>, i: int, body: Seq<u8>, k: nat)
    requires
        string_body(bytes, i) == Some(body),
        k <= body.len(),
        forall|j: int| 0 <= j < k ==> is_continuation_byte(#[trigger] body[j]),
    ensures
        k > 0 ==> 0 <= i && i + k <= bytes.len(),
        forall|j: int| 0 <= j < k ==> bytes[i + j] == #[trigger] body[j],
        string_body(bytes, i + k) == Some(body.skip(k as int)),
    decreases k,
{
    if k == 0 {
        assert(body.skip(0) =~= body);
    } else {
        lemma_continuation(bytes, i, body);
        let tail = body.drop_first();
        assert forall|j: int| 0 <= j < k - 1 implies is_continuation_byte(#[trigger] tail[j]) by {
            assert(tail[j] == body[j + 1]);
        }
        lemma_continuation_run(bytes, i + 1, tail, (k - 1) as nat);
        assert(tail.skip(k - 1) =~= body.skip(k as int));
        assert forall|j: int| 0 <= j < k implies bytes[i + j] == #[trigger] body[j] by {
            if j > 0 {
                assert(bytes[i + 1 + (j - 1)] == tail[j - 1]);
            }
        }
    }
}

/// A character is its number.
proof fn lemma_char_number(c: char)
    ensures
        c as u32 == c as int,
{
}

/// The first character of what a literal stands for, with its form and the rest.
proof fn lemma_first_form(bytes: Seq<u8>, i: int, text: Seq<char>) -> (next: int)
    requires
        string_body(bytes, i) == Some(encode_utf8(text)),
        text.len() > 0,
    ensures
        0 <= i < next <= bytes.len(),
        is_form(text[0], bytes.subrange(i, next)),
        string_body(bytes, next) == Some(encode_utf8(text.drop_first())),
{
    let c = text[0];
    let scalar = c as u32;
    let rest = encode_utf8(text.drop_first());
    let body = encode_utf8(text);
    lemma_char_number(c);
    char_is_scalar(c);
    lemma_first_scalar(scalar, rest);
    assert(body.len() > 0);
    assert(0 <= i < bytes.len());
    if bytes[i] == 0x5c {
        let (head, next) = escape(bytes, i + 1)->Some_0;
        let d = lemma_escape_is_form(bytes, i);
        char_is_scalar(d);
        lemma_same_first_scalar(d as u32, string_body(bytes, next)->Some_0, scalar, rest);
        lemma_char_number(d);
        next
    } else {
        let k = encode_scalar(scalar).len() as int;
        let tail = string_body(bytes, i + 1)->Some_0;
        assert(body == seq![bytes[i]] + tail);
        assert(body.drop_first() =~= tail);
        assert forall|j: int| 0 <= j < k - 1 implies is_continuation_byte(#[trigger] tail[j]) by {
            assert(tail[j] == encode_scalar(scalar)[j + 1]);
        }
        lemma_continuation_run(bytes, i + 1, tail, (k - 1) as nat);
        assert(tail.skip(k - 1) =~= rest);
        let written = bytes.subrange(i, i + k);
        assert forall|j: int| 0 <= j < k implies #[trigger] written[j] == encode_scalar(
            scalar,
        )[j] by {
            assert(encode_scalar(scalar)[j] == body[j]);
            if j > 0 {
                assert(bytes[i + 1 + (j - 1)] == tail[j - 1]);
            }
        }
        assert(written =~= encode_scalar(scalar));
        if scalar < 0x80 {
            assert(leading_byte_width_1(scalar) == scalar) by (bit_vector)
                requires
                    scalar < 0x80,
            ;
            assert(bytes[i] == scalar);
        }
        i + k
    }
}

proof fn lemma_body_is_written(bytes: Seq<u8>, i: int, text: Seq<char>) -> (forms: Seq<Seq<u8>>)
    requires
        string_body(bytes, i) == Some(encode_utf8(text)),
    ensures
        is_written_at(bytes, i, text, forms),
    decreases text.len(),
{
    if text.len() == 0 {
        let forms = Seq::<Seq<u8>>::empty();
        if bytes[i] == 0x5c {
            let c = lemma_escape_is_form(bytes, i);
            char_is_scalar(c);
            lemma_first_scalar(c as u32, seq![]);
        }
        assert(bytes[i] == 0x22);
        assert(bytes.subrange(i, i + 1) =~= forms.flatten() + seq![0x22u8]);
        forms
    } else {
        let next = lemma_first_form(bytes, i, text);
        let head = bytes.subrange(i, next);
        let tail = lemma_body_is_written(bytes, next, text.drop_first());
        let forms = seq![head] + tail;
        assert(forms.drop_first() =~= tail);
        let end = next + tail.flatten().len() + 1;
        assert(bytes.subrange(i, end) =~= head + bytes.subrange(next, end));
        assert(forms.flatten() + seq![0x22u8] =~= head + (tail.flatten() + seq![0x22u8]));
        assert forall|j: int| 0 <= j < text.len() implies is_form(
            text[j],
            #[trigger] forms[j],
        ) by {
            if j > 0 {
                assert(forms[j] == tail[j - 1]);
                assert(text[j] == text.drop_first()[j - 1]);
            }
        }
        forms
    }
}

/// A string literal stands for a text exactly when behind its opening quote the
/// characters of that text are written, each in one of its forms, up to a
/// closing quote.
pub proof fn law_literal_is_written(bytes: Seq<u8>, start: int, text: Seq<char>)
    ensures
        string_at(bytes, start) == Some(text) <==> exists|forms: Seq<Seq<u8>>| #[trigger]
            is_written_at(bytes, start + 1, text, forms),
{
    if string_at(bytes, start) == Some(text) {
        decode_utf8_encode_utf8(string_body(bytes, start + 1)->Some_0);
        let forms = lemma_body_is_written(bytes, start + 1, text);
        assert(is_written_at(bytes, start + 1, text, forms));
    }
    if exists|forms: Seq<Seq<u8>>| #[trigger] is_written_at(bytes, start + 1, text, forms) {
        let forms = choose|forms: Seq<Seq<u8>>| #[trigger]
            is_written_at(bytes, start + 1, text, forms);
        lemma_forms(bytes, start + 1, text, forms);
        encode_utf8_valid_utf8(text);
        encode_utf8_decode_utf8(text);
    }
}

/// A string literal is refused exactly when no text is written there: where the
/// closing quote is missing, an escape is wrong, a control character stands
/// unescaped, a surrogate is alone or the bytes are no UTF-8.
pub proof fn law_literal_is_refused(bytes: Seq<u8>, start: int)
    ensures
        string_at(bytes, start) is None <==> forall|text: Seq<char>, forms: Seq<Seq<u8>>|
            !#[trigger] is_written_at(bytes, start + 1, text, forms),
{
    match string_at(bytes, start) {
        Some(text) => {
            law_literal_is_written(bytes, start, text);
        },
        None => {
            assert forall|text: Seq<char>, forms: Seq<Seq<u8>>| !#[trigger] is_written_at(
                bytes,
                start + 1,
                text,
                forms,
            ) by {
                law_literal_is_written(bytes, start, text);
            }
        },
    }
}

/// Where the colon is looked for behind a name at `i`.
pub open spec fn colon_place(bytes: Seq<u8>, name: Seq<u8>, i: int) -> int {
    skip_spaces(bytes, i + name.len())
}

/// Where the value is looked for behind a name at `i`.
pub open spec fn value_place(bytes: Seq<u8>, name: Seq<u8>, i: int) -> int {
    skip_spaces(bytes, colon_place(bytes, name, i) + 1)
}

/// Whether a colon follows the name at `i`.
pub open spec fn has_colon(bytes: Seq<u8>, name: Seq<u8>, i: int) -> bool {
    colon_place(bytes, name, i) < bytes.len() && bytes[colon_place(bytes, name, i)] == 0x3a
}

/// Whether the name at `i` is that of a member with a string as its value.
pub open spec fn is_member(bytes: Seq<u8>, name: Seq<u8>, i: int) -> bool {
    &&& has_colon(bytes, name, i)
    &&& value_place(bytes, name, i) < bytes.len()
    &&& bytes[value_place(bytes, name, i)] == 0x22
}

/// How far is read at a name that is no member with a string.
pub open spec fn read_up_to(bytes: Seq<u8>, name: Seq<u8>, i: int) -> int {
    if has_colon(bytes, name, i) {
        value_place(bytes, name, i)
    } else {
        colon_place(bytes, name, i)
    }
}

/// Whether the search from `from` on comes to the name at `i`.
pub open spec fn is_visited(bytes: Seq<u8>, name: Seq<u8>, from: int, i: int) -> bool
    decreases bytes.len() - from,
{
    match find_from(bytes, name, from) {
        None => false,
        Some(k) => {
            proof {
                lemma_find_from(bytes, name, from);
                lemma_skip_spaces(bytes, k + name.len());
                lemma_skip_spaces(bytes, colon_place(bytes, name, k) + 1);
            }
            k == i || name.len() > 0 && !is_member(bytes, name, k) && is_visited(
                bytes,
                name,
                read_up_to(bytes, name, k),
                i,
            )
        },
    }
}

/// Whether a visited place in front of `j` keeps the search from it: as a member,
/// or because `j` lies in what is read there.
pub open spec fn is_hidden_by(bytes: Seq<u8>, name: Seq<u8>, i: int, j: int) -> bool {
    i < j && (is_member(bytes, name, i) || j < read_up_to(bytes, name, i))
}

proof fn lemma_member_from(bytes: Seq<u8>, name: Seq<u8>, from: int)
    requires
        0 <= from,
        name.len() > 0,
    ensures
        forall|i: int| #[trigger]
            is_visited(bytes, name, from, i) ==> from <= i && occurs_at(bytes, name, i) && (is_member(
                bytes,
                name,
                i,
            ) ==> member_from(bytes, name, from) == string_at(bytes, value_place(bytes, name, i))),
        (forall|i: int| #[trigger]
            is_visited(bytes, name, from, i) ==> !is_member(bytes, name, i)) ==> member_from(
            bytes,
            name,
            from,
        ) is None,
        forall|j: int| #[trigger]
            occurs_at(bytes, name, j) && from <= j ==> is_visited(bytes, name, from, j) || exists|
                i: int,
            | #[trigger]
                is_visited(bytes, name, from, i) && is_hidden_by(bytes, name, i, j),
    decreases bytes.len() - from,
{
    lemma_find_from(bytes, name, from);
    match find_from(bytes, name, from) {
        None => {},
        Some(k) => {
            assert(is_visited(bytes, name, from, k));
            lemma_skip_spaces(bytes, k + name.len());
            lemma_skip_spaces(bytes, colon_place(bytes, name, k) + 1);
            let next = read_up_to(bytes, name, k);
            if !is_member(bytes, name, k) {
                lemma_member_from(bytes, name, next);
                assert(member_from(bytes, name, from) == member_from(bytes, name, next));
                assert forall|i: int|
                    #![trigger is_visited(bytes, name, from, i)]
                    #![trigger is_visited(bytes, name, next, i)]
                    is_visited(bytes, name, from, i) <==> i == k || is_visited(
                        bytes,
                        name,
                        next,
                        i,
                    ) by {}
            } else {
                assert(member_from(bytes, name, from) == string_at(
                    bytes,
                    value_place(bytes, name, k),
                ));
                assert forall|i: int| #[trigger] is_visited(bytes, name, from, i) implies i
                    == k by {}
            }
            assert forall|j: int| #[trigger]
                occurs_at(bytes, name, j) && from <= j implies is_visited(bytes, name, from, j)
                || exists|i: int| #[trigger]
                is_visited(bytes, name, from, i) && is_hidden_by(bytes, name, i, j) by {
                if j > k {
                    if is_member(bytes, name, k) || j < next {
                        assert(is_hidden_by(bytes, name, k, j));
                    } else if !is_visited(bytes, name, next, j) {
                        let i = choose|i: int| #[trigger]
                            is_visited(bytes, name, next, i) && is_hidden_by(bytes, name, i, j);
                        assert(is_visited(bytes, name, from, i));
                    }
                }
            }
        },
    }
}

/// Which member is found: the first that has a string, among the places where
/// the name stands; a place that lies in what was read at an earlier one does
/// not count. Without such a member there is no value.
#[verifier::rlimit(40)]
pub proof fn law_which_member_is_found(json: Seq<char>, field: Seq<char>)
    ensures
        ({
            let bytes = encode_utf8(json);
            let name = quoted(field);
            &&& forall|i: int| #[trigger]
                is_visited(bytes, name, 0, i) && is_member(bytes, name, i) ==> extracted(json, field)
                    == string_at(bytes, value_place(bytes, name, i))
            &&& (forall|i: int| #[trigger]
                is_visited(bytes, name, 0, i) ==> !is_member(bytes, name, i)) ==> extracted(
                json,
                field,
            ) is None
            &&& forall|j: int| #[trigger]
                occurs_at(bytes, name, j) ==> is_visited(bytes, name, 0, j) || exists|i: int|
                    #[trigger]
                    is_visited(bytes, name, 0, i) && is_hidden_by(bytes, name, i, j)
        }),
{
    lemma_member_from(encode_utf8(json), quoted(field), 0);
}

/// The first member named `field`, written with white space around the colon
/// as one likes and with a string literal as its value, is found and gives back
/// the text in that literal.
pub proof fn law_member_round_trip(
    json: Seq<char>,
    field: Seq<char>,
    value: Seq<char>,
    forms: Seq<Seq<u8>>,
    name_at: int,
    colon_at: int,
    value_at: int,
)
    requires
        find_from(encode_utf8(json), quoted(field), 0) == Some(name_at),
        name_at + quoted(field).len() <= colon_at < value_at <= encode_utf8(json).len(),
        forall|i: int|
            name_at + quoted(field).len() <= i < colon_at ==> text::is_space(
                #[trigger] encode_utf8(json)[i],
            ),
        encode_utf8(json)[colon_at] == 0x3a,
        forall|i: int|
            colon_at < i < value_at ==> text::is_space(#[trigger] encode_utf8(json)[i]),
        are_forms(value, forms),
        occurs_at(encode_utf8(json), literal(forms), value_at),
    ensures
        extracted(json, field) == Some(value),
{
    let bytes = encode_utf8(json);
    lemma_find_from(bytes, quoted(field), 0);
    lemma_spaces_end(bytes, name_at + quoted(field).len(), colon_at);
    let part = literal(forms);
    assert(bytes.subrange(value_at, value_at + part.len())[0] == part[0]);
    lemma_spaces_end(bytes, colon_at + 1, value_at);
    law_literal_round_trip(bytes, value_at, value, forms);
}

proof fn lemma_spaces_end(bytes: Seq<u8>, i: int, end: int)
    requires
        0 <= i <= end < bytes.len(),
        forall|k: int| i <= k < end ==> text::is_space(#[trigger] bytes[k]),
        !text::is_space(bytes[end]),
    ensures
        skip_spaces(bytes, i) == end,
    decreases end - i,
{
    if i < end {
        assert(text::is_space(bytes[i]));
        lemma_spaces_end(bytes, i + 1, end);
    }
}

// ---------------------------------------------------------------------------
// The pieces
// ---------------------------------------------------------------------------

/// Whether a byte is a hexadecimal digit for a value, in either case.
pub open spec fn is_digit_for(byte: u8, value: int) -> bool {
    ||| 0 <= value < 10 && byte as int == '0' as int + value
    ||| 10 <= value < 16 && byte as int == 'a' as int + (value - 10)
    ||| 10 <= value < 16 && byte as int == 'A' as int + (value - 10)
}

/// Four hexadecimal digits of either case stand for a number in base sixteen, the
/// highest first.
pub proof fn law_four_digits(bytes: Seq<u8>, i: int, a: int, b: int, c: int, d: int)
    requires
        0 <= i,
        i + 4 <= bytes.len(),
        is_digit_for(bytes[i], a),
        is_digit_for(bytes[i + 1], b),
        is_digit_for(bytes[i + 2], c),
        is_digit_for(bytes[i + 3], d),
    ensures
        hex4(bytes, i) == Some(((a * 16 + b) * 16 + c) * 16 + d),
{
}

/// Four bytes that are not all hexadecimal digits, or are not all there, stand
/// for no number.
pub proof fn law_other_bytes_are_no_digits(bytes: Seq<u8>, i: int, k: int)
    requires
        i <= k < i + 4,
        0 <= k < bytes.len() ==> forall|v: int| !#[trigger] is_digit_for(bytes[k], v),
    ensures
        hex4(bytes, i) is None,
{
    if 0 <= k < bytes.len() {
        let v = hex_value(bytes[k]);
        if v is Some {
            assert(is_digit_for(bytes[k], v->Some_0));
        }
    }
}

/// White space is passed over: tab, line feed, form feed, carriage return and
/// space, as many as there are, and nothing else.
pub proof fn law_spaces_are_passed_over(bytes: Seq<u8>, i: int)
    requires
        0 <= i <= bytes.len(),
    ensures
        ({
            let end = skip_spaces(bytes, i);
            let is_space = |b: u8| b == 9 || b == 10 || b == 12 || b == 13 || b == 32;
            &&& i <= end <= bytes.len()
            &&& forall|k: int| i <= k < end ==> is_space(#[trigger] bytes[k])
            &&& end < bytes.len() ==> !is_space(bytes[end])
        }),
    decreases bytes.len() - i,
{
    if i < bytes.len() && text::is_space(bytes[i]) {
        law_spaces_are_passed_over(bytes, i + 1);
    }
}

/// The search gives the first place at or after `from` where all bytes of `part`
/// stand, and none if there is no such place.
pub proof fn law_search_finds_the_first(bytes: Seq<u8>, part: Seq<u8>, from: int, i: int)
    requires
        0 <= from,
    ensures
        find_from(bytes, part, from) == Some(i) <==> {
            &&& from <= i
            &&& i + part.len() <= bytes.len()
            &&& bytes.subrange(i, i + part.len()) == part
            &&& forall|k: int|
                from <= k < i ==> #[trigger] bytes.subrange(k, k + part.len()) != part
        },
{
    lemma_find_from(bytes, part, from);
    if find_from(bytes, part, from) == Some(i) {
        assert forall|k: int| from <= k < i implies #[trigger] bytes.subrange(k, k + part.len())
            != part by {
            assert(!occurs_at(bytes, part, k));
        }
    }
    if from <= i && i + part.len() <= bytes.len() && bytes.subrange(i, i + part.len()) == part && (
    forall|k: int| from <= k < i ==> #[trigger] bytes.subrange(k, k + part.len()) != part) {
        assert(occurs_at(bytes, part, i));
        match find_from(bytes, part, from) {
            None => {},
            Some(f) => {
                if f < i {
                    assert(bytes.subrange(f, f + part.len()) == part);
                }
            },
        }
    }
}

/// The first member of a name, spelled out: the name between quotes, white space,
/// a colon, white space, and a string literal, whatever stands around it. Its
/// value is the text of that literal.
#[verifier::rlimit(40)]
pub proof fn law_member_spelled_out(
    json: Seq<char>,
    field: Seq<char>,
    value: Seq<char>,
    forms: Seq<Seq<u8>>,
    before: Seq<u8>,
    gap: Seq<u8>,
    space: Seq<u8>,
    behind: Seq<u8>,
)
    requires
        are_forms(value, forms),
        forall|i: int| 0 <= i < gap.len() ==> text::is_space(#[trigger] gap[i]),
        forall|i: int| 0 <= i < space.len() ==> text::is_space(#[trigger] space[i]),
        encode_utf8(json) == before + (seq![0x22u8] + encode_utf8(field) + seq![0x22u8]) + gap
            + seq![0x3au8] + space + (seq![0x22u8] + forms.flatten() + seq![0x22u8]) + behind,
        forall|k: int|
            0 <= k < before.len() ==> #[trigger] encode_utf8(json).subrange(
                k,
                k + encode_utf8(field).len() + 2,
            ) != seq![0x22u8] + encode_utf8(field) + seq![0x22u8],
    ensures
        extracted(json, field) == Some(value),
{
    let bytes = encode_utf8(json);
    let name = quoted(field);
    let at = before.len() as int;
    let colon_at = at + name.len() + gap.len();
    let value_at = colon_at + 1 + space.len();
    assert(bytes.subrange(at, at + name.len()) =~= name);
    assert forall|k: int| 0 <= k < at implies #[trigger] bytes.subrange(k, k + name.len())
        != name by {
        assert(k + name.len() == k + encode_utf8(field).len() + 2);
        assert(bytes.subrange(k, k + encode_utf8(field).len() + 2) != name);
    }
    law_search_finds_the_first(bytes, name, 0, at);
    assert forall|i: int| at + name.len() <= i < colon_at implies text::is_space(
        #[trigger] bytes[i],
    ) by {
        assert(bytes[i] == gap[i - (at + name.len())]);
    }
    assert forall|i: int| colon_at < i < value_at implies text::is_space(#[trigger] bytes[i]) by {
        assert(bytes[i] == space[i - (colon_at + 1)]);
    }
    assert(bytes.subrange(value_at, value_at + literal(forms).len()) =~= literal(forms));
    law_member_round_trip(json, field, value, forms, at, colon_at, value_at);
}

// ---------------------------------------------------------------------------
// Code
// ---------------------------------------------------------------------------

/// The value of a hexadecimal digit.
fn hex_digit(byte: u8) -> (value: Option<u16>)
    ensures
        match hex_value(byte) {
            Some(v) => value matches Some(x) && x == v && x < 16,
            None => value is None,
        },
{
    if 0x30 <= byte && byte <= 0x39 {
        Some((byte - 0x30) as u16)
    } else if 0x61 <= byte && byte <= 0x66 {
        Some((byte - 0x61 + 10) as u16)
    } else if 0x41 <= byte && byte <= 0x46 {
        Some((byte - 0x41 + 10) as u16)
    } else {
        None
    }
}

/// The number that four hexadecimal digits at `start` stand for.
pub fn parse_hex4(bytes: &[u8], start: usize) -> (value: Option<u16>)
    ensures
        match hex4(bytes@, start as int) {
            Some(v) => value matches Some(x) && x == v,
            None => value is None,
        },
{
    if start > bytes.len() || bytes.len() - start < 4 {
        return None;
    }
    match (
        hex_digit(bytes[start]),
        hex_digit(bytes[start + 1]),
        hex_digit(bytes[start + 2]),
        hex_digit(bytes[start + 3]),
    ) {
        (Some(a), Some(b), Some(c), Some(d)) => Some(4096 * a + 256 * b + 16 * c + d),
        _ => None,
    }
}

/// Appends a character in UTF-8.
fn push_scalar(out: &mut Vec<u8>, scalar: u32)
    requires
        is_scalar(scalar),
    ensures
        final(out)@ == old(out)@ + encode_scalar(scalar),
{
    let ghost before = out@;
    if scalar <= 0x7f {
        out.push((scalar & 0x7f) as u8);
    } else if scalar <= 0x7ff {
        out.push(0xc0 | ((scalar >> 6) & 0x1f) as u8);
        out.push(0x80 | (scalar & 0x3f) as u8);
    } else if scalar <= 0xffff {
        out.push(0xe0 | ((scalar >> 12) & 0x0f) as u8);
        out.push(0x80 | ((scalar >> 6) & 0x3f) as u8);
        out.push(0x80 | (scalar & 0x3f) as u8);
    } else {
        out.push(0xf0 | ((scalar >> 18) & 0x7) as u8);
        out.push(0x80 | ((scalar >> 12) & 0x3f) as u8);
        out.push(0x80 | ((scalar >> 6) & 0x3f) as u8);
        out.push(0x80 | (scalar & 0x3f) as u8);
    }
    assert(out@ =~= before + encode_scalar(scalar));
}

/// Reads a `\u` escape whose digits begin at `start`, appends its character
/// and gives the index after it.
fn parse_unicode_escape(bytes: &[u8], start: usize, out: &mut Vec<u8>) -> (next: Option<usize>)
    requires
        start <= bytes@.len(),
    ensures
        match unicode_escape(bytes@, start as int) {
            Some((head, end)) => next matches Some(n) && n == end && n <= bytes@.len()
                && final(out)@ == old(out)@ + head,
            None => next is None,
        },
{
    let code: u16 = match parse_hex4(bytes, start) {
        Some(code) => code,
        None => return None,
    };
    if 0xd800 <= code && code <= 0xdbff {
        if bytes.len() - start < 6 || bytes[start + 4] != 0x5c || bytes[start + 5] != 0x75 {
            return None;
        }
        let low: u16 = match parse_hex4(bytes, start + 6) {
            Some(low) => low,
            None => return None,
        };
        if !(0xdc00 <= low && low <= 0xdfff) {
            return None;
        }
        push_scalar(out, 0x10000 + (code - 0xd800) as u32 * 0x400 + (low - 0xdc00) as u32);
        Some(start + 10)
    } else if 0xdc00 <= code && code <= 0xdfff {
        None
    } else {
        push_scalar(out, code as u32);
        assert(start + 4 <= bytes.len());
        Some(start + 4)
    }
}

/// Reads the escape whose character after the backslash is at `start`, appends
/// what it stands for and gives the index after it.
fn parse_escape(bytes: &[u8], start: usize, out: &mut Vec<u8>) -> (next: Option<usize>)
    requires
        start <= bytes@.len(),
    ensures
        match escape(bytes@, start as int) {
            Some((head, end)) => next matches Some(n) && n == end && n <= bytes@.len()
                && final(out)@ == old(out)@ + head,
            None => next is None,
        },
{
    if start >= bytes.len() {
        return None;
    }
    let byte: u8 = bytes[start];
    if byte == 0x75 {
        return parse_unicode_escape(bytes, start + 1, out);
    }
    let ghost before = out@;
    if byte == 0x22 || byte == 0x5c || byte == 0x2f {
        out.push(byte);
    } else if byte == 0x62 {
        out.push(0x08);
    } else if byte == 0x66 {
        out.push(0x0c);
    } else if byte == 0x6e {
        out.push(0x0a);
    } else if byte == 0x72 {
        out.push(0x0d);
    } else if byte == 0x74 {
        out.push(0x09);
    } else {
        return None;
    }
    assert(out@ =~= before + escape(bytes@, start as int)->Some_0.0);
    Some(start + 1)
}

/// The text of the string literal whose opening quote is at `start`.
pub fn parse_json_string(bytes: &[u8], start: usize) -> (value: Option<String>)
    requires
        start < usize::MAX,
    ensures
        agrees(value, string_at(bytes@, start as int)),
{
    let mut index: usize = start + 1;
    let mut output: Vec<u8> = Vec::new();
    assert(forall|v: Seq<u8>| #[trigger] (Seq::<u8>::empty() + v) =~= v);
    while index < bytes.len()
        invariant
            0 < index,
            string_body(bytes@, start + 1) == prepended(output@, string_body(bytes@, index as int)),
        decreases bytes.len() - index,
    {
        let ghost before = output@;
        let byte: u8 = bytes[index];
        if byte == 0x22 {
            assert(output@ + Seq::<u8>::empty() =~= output@);
            return text::utf8_text(output);
        } else if byte == 0x5c {
            match parse_escape(bytes, index + 1, &mut output) {
                Some(next) => {
                    proof {
                        let head = escape(bytes@, index + 1)->Some_0.0;
                        let rest = string_body(bytes@, next as int);
                        assert(rest matches Some(r) ==> (before + head) + r =~= before + (head
                            + r));
                    }
                    index = next;
                },
                None => return None,
            }
        } else if byte < 0x20 {
            return None;
        } else {
            output.push(byte);
            proof {
                let rest = string_body(bytes@, index + 1);
                assert(output@ =~= before + seq![byte]);
                assert(rest matches Some(r) ==> (before + seq![byte]) + r =~= before + (seq![byte]
                    + r));
            }
            index = index + 1;
        }
    }
    None
}

/// The first index at or after `start` that holds no white space.
fn skip_white(bytes: &[u8], start: usize) -> (index: usize)
    requires
        start <= bytes@.len(),
    ensures
        index == skip_spaces(bytes@, start as int),
        start <= index <= bytes@.len(),
{
    let mut index: usize = start;
    while index < bytes.len() && text::is_ascii_space(bytes[index])
        invariant
            start <= index <= bytes@.len(),
            skip_spaces(bytes@, start as int) == skip_spaces(bytes@, index as int),
        decreases bytes.len() - index,
    {
        index = index + 1;
    }
    index
}

/// The first place at or after `start` where `part` stands in `bytes`.
fn find(bytes: &[u8], part: &[u8], start: usize) -> (place: Option<usize>)
    requires
        start <= bytes@.len(),
    ensures
        match find_from(bytes@, part@, start as int) {
            Some(i) => place matches Some(p) && p == i && occurs_at(bytes@, part@, i),
            None => place is None,
        },
{
    let mut index: usize = start;
    while bytes.len() - index >= part.len()
        invariant
            start <= index <= bytes@.len(),
            find_from(bytes@, part@, start as int) == find_from(bytes@, part@, index as int),
        decreases bytes.len() - index,
    {
        if text::same_bytes(&bytes[index..index + part.len()], part) {
            return Some(index);
        }
        if index == bytes.len() {
            return None;
        }
        index = index + 1;
    }
    None
}

/// The string that `json` has for the member `field`.
pub fn extract_json_string(json: &str, field: &str) -> (value: Option<String>)
    ensures
        agrees(value, extracted(json@, field@)),
{
    let mut needle: Vec<u8> = Vec::new();
    needle.push(0x22);
    let mut name: Vec<u8> = text::to_vec(field.as_bytes());
    needle.append(&mut name);
    needle.push(0x22);
    assert(needle@ =~= quoted(field@));
    let bytes: &[u8] = json.as_bytes();
    let mut search_from: usize = 0;
    loop
        invariant
            needle@ == quoted(field@),
            needle@.len() >= 2,
            bytes@ == encode_utf8(json@),
            search_from <= bytes@.len(),
            extracted(json@, field@) == member_from(bytes@, needle@, search_from as int),
        decreases bytes@.len() - search_from,
    {
        proof {
            lemma_find_from(bytes@, needle@, search_from as int);
        }
        let place: usize = match find(bytes, needle.as_slice(), search_from) {
            Some(place) => place,
            None => return None,
        };
        assert(place + needle@.len() <= bytes.len());
        let colon: usize = skip_white(bytes, place + needle.len());
        if colon >= bytes.len() || bytes[colon] != 0x3a {
            search_from = colon;
            continue;
        }
        let index: usize = skip_white(bytes, colon + 1);
        if index < bytes.len() && bytes[index] == 0x22 {
            return parse_json_string(bytes, index);
        }
        search_from = index;
    }
}

} // verus!
