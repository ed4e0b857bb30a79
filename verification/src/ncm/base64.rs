//! Base64 with the standard alphabet. White space is ignored anywhere, missing
//! padding is supplied.

use crate::ncm::error::{invalid, NcmError, Result};
use crate::text;
use vstd::prelude::*;

verus! {

/// The value of a character of the alphabet.
pub open spec fn sextet(byte: u8) -> Option<u8> {
    if 0x41 <= byte <= 0x5a {
        Some((byte - 0x41) as u8)
    } else if 0x61 <= byte <= 0x7a {
        Some((byte - 0x61 + 26) as u8)
    } else if 0x30 <= byte <= 0x39 {
        Some((byte - 0x30 + 52) as u8)
    } else if byte == 0x2b {
        Some(62)
    } else if byte == 0x2f {
        Some(63)
    } else {
        None
    }
}

/// The message for a byte outside the alphabet.
pub open spec fn bad_byte(byte: u8) -> Seq<char> {
    "Base64 包含无效字节 0x"@ + text::hex_pair(byte)
}

/// The first byte of a group, from the values `a` and `b`.
pub open spec fn first_byte(a: u8, b: u8) -> u8 {
    (a << 2) | (b >> 4)
}

/// The second byte of a group, from the values `b` and `c`.
pub open spec fn second_byte(b: u8, c: u8) -> u8 {
    (b << 4) | (c >> 2)
}

/// The third byte of a group, from the values `c` and `d`.
pub open spec fn third_byte(c: u8, d: u8) -> u8 {
    (c << 6) | d
}

/// What one group of four characters stands for; 0x3d is the padding.
pub open spec fn group(g: Seq<u8>, last: bool) -> std::result::Result<Seq<u8>, Seq<char>> {
    if (g[2] == 0x3d || g[3] == 0x3d) && !last {
        Err("Base64 填充不在末尾"@)
    } else if g[2] == 0x3d && g[3] != 0x3d {
        Err("Base64 填充顺序无效"@)
    } else {
        match (sextet(g[0]), sextet(g[1])) {
            (None, _) => Err(bad_byte(g[0])),
            (Some(_), None) => Err(bad_byte(g[1])),
            (Some(a), Some(b)) => if g[2] == 0x3d {
                Ok(seq![first_byte(a, b)])
            } else {
                match sextet(g[2]) {
                    None => Err(bad_byte(g[2])),
                    Some(c) => if g[3] == 0x3d {
                        Ok(seq![first_byte(a, b), second_byte(b, c)])
                    } else {
                        match sextet(g[3]) {
                            None => Err(bad_byte(g[3])),
                            Some(d) => Ok(
                                seq![first_byte(a, b), second_byte(b, c), third_byte(c, d)],
                            ),
                        }
                    },
                }
            },
        }
    }
}

/// What whole groups stand for: the first group that fails decides the message.
pub open spec fn groups(clean: Seq<u8>) -> std::result::Result<Seq<u8>, Seq<char>>
    decreases clean.len(),
{
    if clean.len() < 4 {
        Ok(seq![])
    } else {
        match group(clean.take(4), clean.len() < 8) {
            Err(message) => Err(message),
            Ok(head) => match groups(clean.skip(4)) {
                Err(message) => Err(message),
                Ok(rest) => Ok(head + rest),
            },
        }
    }
}

/// The input without white space.
pub open spec fn stripped(input: Seq<u8>) -> Seq<u8> {
    input.filter(|b: u8| !text::is_space(b))
}

/// The characters filled up to whole groups.
pub open spec fn padded(clean: Seq<u8>) -> Seq<u8> {
    clean + Seq::new(((4 - clean.len() % 4) % 4) as nat, |i: int| 0x3du8)
}

/// What the input stands for, or the message of its first fault.
pub open spec fn decoded(input: Seq<u8>) -> std::result::Result<Seq<u8>, Seq<char>> {
    if stripped(input).len() % 4 == 1 {
        Err("Base64 长度无效"@)
    } else {
        groups(padded(stripped(input)))
    }
}

/// `head` in front of a result.
spec fn prepended(
    head: Seq<u8>,
    rest: std::result::Result<Seq<u8>, Seq<char>>,
) -> std::result::Result<Seq<u8>, Seq<char>> {
    match rest {
        Err(message) => Err(message),
        Ok(rest) => Ok(head + rest),
    }
}

/// Whether a result is the one that a specification gives.
pub open spec fn agrees(
    result: Result<Vec<u8>>,
    expected: std::result::Result<Seq<u8>, Seq<char>>,
) -> bool {
    match expected {
        Ok(bytes) => result matches Ok(v) && v@ == bytes,
        Err(message) => result matches Err(NcmError::Invalid(m)) && m@ == message,
    }
}

/// The character of the alphabet with the value `v`.
pub open spec fn letter(v: u8) -> u8 {
    if v < 26 {
        (v + 0x41) as u8
    } else if v < 52 {
        (v - 26 + 0x61) as u8
    } else if v < 62 {
        (v - 52 + 0x30) as u8
    } else if v == 62 {
        0x2b
    } else {
        0x2f
    }
}

/// One to three bytes as a group of four characters.
pub open spec fn encoded_group(m: Seq<u8>) -> Seq<u8> {
    let x = m[0];
    let y = if m.len() > 1 {
        m[1]
    } else {
        0
    };
    let z = if m.len() > 2 {
        m[2]
    } else {
        0
    };
    seq![
        letter(x >> 2),
        letter(((x & 3) << 4) | (y >> 4)),
        if m.len() > 1 {
            letter(((y & 15) << 2) | (z >> 6))
        } else {
            0x3d
        },
        if m.len() > 2 {
            letter(z & 63)
        } else {
            0x3d
        },
    ]
}

/// The Base64 text of `m`, with padding and without white space.
pub open spec fn encoded(m: Seq<u8>) -> Seq<u8>
    decreases m.len(),
{
    if m.len() == 0 {
        seq![]
    } else if m.len() <= 3 {
        encoded_group(m)
    } else {
        encoded_group(m.take(3)) + encoded(m.skip(3))
    }
}

proof fn lemma_letter(v: u8)
    requires
        v < 64,
    ensures
        sextet(letter(v)) == Some(v),
        letter(v) != 0x3d,
        !text::is_space(letter(v)),
{
}

proof fn lemma_group_round_trip(m: Seq<u8>, last: bool)
    requires
        1 <= m.len() <= 3,
        m.len() < 3 ==> last,
    ensures
        group(encoded_group(m), last) == Ok::<Seq<u8>, Seq<char>>(m),
        forall|i: int| 0 <= i < 4 ==> !text::is_space(#[trigger] encoded_group(m)[i]),
        encoded_group(m)[1] != 0x3d,
{
    let x = m[0];
    let y: u8 = if m.len() > 1 {
        m[1]
    } else {
        0
    };
    let z: u8 = if m.len() > 2 {
        m[2]
    } else {
        0
    };
    let a = x >> 2;
    let b = ((x & 3) << 4) | (y >> 4);
    let c = ((y & 15) << 2) | (z >> 6);
    let d = z & 63;
    assert(a < 64 && b < 64 && c < 64 && d < 64 && first_byte(a, b) == x && second_byte(b, c) == y
        && third_byte(c, d) == z) by (bit_vector)
        requires
            a == x >> 2,
            b == ((x & 3) << 4) | (y >> 4),
            c == ((y & 15) << 2) | (z >> 6),
            d == z & 63,
    ;
    lemma_letter(a);
    lemma_letter(b);
    lemma_letter(c);
    lemma_letter(d);
    assert(group(encoded_group(m), last)->Ok_0 =~= m);
}

proof fn lemma_encoded(m: Seq<u8>)
    ensures
        groups(encoded(m)) == Ok::<Seq<u8>, Seq<char>>(m),
        encoded(m).len() % 4 == 0,
        forall|i: int| 0 <= i < encoded(m).len() ==> !text::is_space(#[trigger] encoded(m)[i]),
        m.len() > 0 ==> encoded(m).len() >= 4 && encoded(m)[encoded(m).len() - 3] != 0x3d,
    decreases m.len(),
{
    let e = encoded(m);
    if m.len() == 0 {
        assert(m =~= seq![]);
    } else if m.len() <= 3 {
        lemma_group_round_trip(m, true);
        assert(e.take(4) =~= e);
        assert(groups(e.skip(4)) == Ok::<Seq<u8>, Seq<char>>(Seq::empty()));
        assert(m + Seq::<u8>::empty() =~= m);
    } else {
        lemma_group_round_trip(m.take(3), false);
        lemma_encoded(m.skip(3));
        assert(e.take(4) =~= encoded_group(m.take(3)));
        assert(e.skip(4) =~= encoded(m.skip(3)));
        assert(m.take(3) + m.skip(3) =~= m);
    }
}

proof fn lemma_stripped_identity(s: Seq<u8>)
    requires
        forall|i: int| 0 <= i < s.len() ==> !text::is_space(#[trigger] s[i]),
    ensures
        stripped(s) == s,
    decreases s.len(),
{
    reveal(Seq::filter);
    if s.len() > 0 {
        lemma_stripped_identity(s.drop_last());
        assert(s.drop_last().push(s.last()) =~= s);
    }
}

/// The Base64 text of `m` decodes to `m`.
pub proof fn law_decode_inverts_encode(m: Seq<u8>)
    ensures
        decoded(encoded(m)) == Ok::<Seq<u8>, Seq<char>>(m),
{
    let e = encoded(m);
    assert(stripped(e) == e && e.len() % 4 == 0) by {
        lemma_encoded(m);
        lemma_stripped_identity(e);
    }
    assert(padded(e) =~= e);
    law_space_and_padding_do_not_matter(m, e);
}

/// White space anywhere, and missing padding, make no difference: any input
/// that is the Base64 text of `m` up to these decodes to `m`.
pub proof fn law_space_and_padding_do_not_matter(m: Seq<u8>, input: Seq<u8>)
    requires
        padded(stripped(input)) == encoded(m),
    ensures
        decoded(input) == Ok::<Seq<u8>, Seq<char>>(m),
{
    lemma_encoded(m);
    let bare = stripped(input);
    if bare.len() % 4 == 1 {
        let e = padded(bare);
        assert(e[e.len() - 3] == 0x3d);
    }
}

/// How many characters at the end of whole groups are padding.
pub open spec fn padding(clean: Seq<u8>) -> int {
    let n = clean.len();
    if n == 0 || clean[n - 1] != 0x3d {
        0
    } else if clean[n - 2] != 0x3d {
        1
    } else {
        2
    }
}

/// Whether whole groups are Base64: all characters are of the alphabet, but for
/// at most two at the very end, which are padding.
pub open spec fn is_base64(clean: Seq<u8>) -> bool {
    forall|i: int|
        0 <= i < clean.len() - padding(clean) ==> sextet(#[trigger] clean[i]) is Some
}

proof fn lemma_groups_accepted(clean: Seq<u8>)
    requires
        clean.len() % 4 == 0,
    ensures
        groups(clean) is Ok <==> is_base64(clean),
        groups(clean) matches Ok(m) ==> m.len() == clean.len() / 4 * 3 - padding(clean),
    decreases clean.len(),
{
    if clean.len() >= 4 {
        let head = clean.take(4);
        let rest = clean.skip(4);
        lemma_groups_accepted(rest);
        assert(head[0] == clean[0] && head[1] == clean[1] && head[2] == clean[2] && head[3]
            == clean[3]);
        assert(forall|i: int| 0 <= i < rest.len() ==> #[trigger] rest[i] == clean[i + 4]);
        if rest.len() > 0 {
            assert(padding(rest) == padding(clean));
            if is_base64(clean) {
                assert forall|i: int| 0 <= i < rest.len() - padding(rest) implies sextet(
                    #[trigger] rest[i],
                ) is Some by {
                    assert(rest[i] == clean[i + 4]);
                }
                assert(sextet(clean[0]) is Some && sextet(clean[1]) is Some && sextet(
                    clean[2],
                ) is Some && sextet(clean[3]) is Some);
            }
            if groups(clean) is Ok {
                assert forall|i: int| 0 <= i < clean.len() - padding(clean) implies sextet(
                    #[trigger] clean[i],
                ) is Some by {
                    if i >= 4 {
                        assert(clean[i] == rest[i - 4]);
                    }
                }
            }
        } else {
            assert(groups(rest) == Ok::<Seq<u8>, Seq<char>>(Seq::empty()));
            if is_base64(clean) {
                assert(sextet(clean[0]) is Some && sextet(clean[1]) is Some);
                assert(padding(clean) < 2 ==> sextet(clean[2]) is Some);
                assert(padding(clean) < 1 ==> sextet(clean[3]) is Some);
            }
        }
    }
}

/// An input is accepted exactly when, without white space, it does not leave one
/// character over and is Base64 once filled up. Three bytes come out for each
/// group, less one for each padding character.
pub proof fn law_accepted_is_base64(input: Seq<u8>)
    ensures
        decoded(input) is Ok <==> stripped(input).len() % 4 != 1 && is_base64(
            padded(stripped(input)),
        ),
        decoded(input) matches Ok(m) ==> m.len() == padded(stripped(input)).len() / 4 * 3 - padding(
            padded(stripped(input)),
        ),
{
    lemma_groups_accepted(padded(stripped(input)));
}

/// Whether a byte is the character for a value: the capital letters come first,
/// then the small ones, the digits, `+` and `/`.
pub open spec fn is_character_for(byte: u8, value: int) -> bool {
    ||| 0 <= value < 26 && byte as int == 'A' as int + value
    ||| 26 <= value < 52 && byte as int == 'a' as int + (value - 26)
    ||| 52 <= value < 62 && byte as int == '0' as int + (value - 52)
    ||| value == 62 && byte as int == '+' as int
    ||| value == 63 && byte as int == '/' as int
}

/// The alphabet: each value below 64 has its character, and no other byte has a
/// value.
pub proof fn law_alphabet(byte: u8, value: int)
    ensures
        is_character_for(byte, value) <==> (sextet(byte) matches Some(v) && v == value),
{
}

proof fn lemma_bits_of_group(va: u8, vb: u8, vc: u8, vd: u8)
    requires
        va < 64,
        vb < 64,
        vc < 64,
        vd < 64,
    ensures
        first_byte(va, vb) == va * 4 + vb / 16,
        second_byte(vb, vc) == vb % 16 * 16 + vc / 4,
        third_byte(vc, vd) == vc % 4 * 64 + vd,
{
    assert(first_byte(va, vb) == va * 4 + vb / 16 && second_byte(vb, vc) == vb % 16 * 16 + vc / 4
        && third_byte(vc, vd) == vc % 4 * 64 + vd) by (bit_vector)
        requires
            va < 64,
            vb < 64,
            vc < 64,
            vd < 64,
    ;
}

/// Four characters are three bytes: both stand for one number, once in base 64
/// and once in base 256.
#[verifier::rlimit(40)]
pub proof fn law_four_characters_are_three_bytes(
    a: u8,
    b: u8,
    c: u8,
    d: u8,
    va: int,
    vb: int,
    vc: int,
    vd: int,
)
    requires
        is_character_for(a, va),
        is_character_for(b, vb),
        is_character_for(c, vc),
        is_character_for(d, vd),
    ensures
        decoded(seq![a, b, c, d]) matches Ok(m) && m.len() == 3 && 65536 * m[0] + 256 * m[1] + m[2]
            == 262144 * va + 4096 * vb + 64 * vc + vd,
{
    let input = seq![a, b, c, d];
    lemma_stripped_identity(input);
    assert(padded(input) =~= input);
    assert(input.take(4) =~= input);
    assert(groups(input.skip(4)) == Ok::<Seq<u8>, Seq<char>>(Seq::empty()));
    lemma_bits_of_group(va as u8, vb as u8, vc as u8, vd as u8);
}

/// Three characters at the end, with or without padding, are two bytes; what the
/// bits behind these are does not matter.
#[verifier::rlimit(40)]
pub proof fn law_three_characters_at_the_end(a: u8, b: u8, c: u8, va: int, vb: int, vc: int)
    requires
        is_character_for(a, va),
        is_character_for(b, vb),
        is_character_for(c, vc),
    ensures
        decoded(seq![a, b, c]) matches Ok(m) && m.len() == 2 && 256 * m[0] + m[1] == (4096 * va + 64
            * vb + vc) / 4,
        decoded(seq![a, b, c, '=' as u8]) == decoded(seq![a, b, c]),
{
    let bare = seq![a, b, c];
    let full = seq![a, b, c, 0x3du8];
    lemma_stripped_identity(bare);
    lemma_stripped_identity(full);
    assert(padded(bare) =~= full);
    assert(padded(full) =~= full);
    assert(full.take(4) =~= full);
    assert(groups(full.skip(4)) == Ok::<Seq<u8>, Seq<char>>(Seq::empty()));
    lemma_bits_of_group(va as u8, vb as u8, vc as u8, 0);
}

/// Two characters at the end, with or without padding, are one byte; what the
/// bits behind it are does not matter.
#[verifier::rlimit(40)]
pub proof fn law_two_characters_at_the_end(a: u8, b: u8, va: int, vb: int)
    requires
        is_character_for(a, va),
        is_character_for(b, vb),
    ensures
        decoded(seq![a, b]) matches Ok(m) && m.len() == 1 && m[0] == (64 * va + vb) / 16,
        decoded(seq![a, b, '=' as u8, '=' as u8]) == decoded(seq![a, b]),
        decoded(seq![a, b, '=' as u8]) == decoded(seq![a, b]),
{
    let bare = seq![a, b];
    let half = seq![a, b, 0x3du8];
    let full = seq![a, b, 0x3du8, 0x3du8];
    assert(decoded(bare) == groups(full)) by {
        lemma_stripped_identity(bare);
        assert(padded(bare) =~= full);
    }
    assert(decoded(half) == groups(full)) by {
        lemma_stripped_identity(half);
        assert(padded(half) =~= full);
    }
    assert(decoded(full) == groups(full)) by {
        lemma_stripped_identity(full);
        assert(padded(full) =~= full);
    }
    assert(groups(full) == Ok::<Seq<u8>, Seq<char>>(seq![first_byte(va as u8, vb as u8)])) by {
        assert(full.take(4) =~= full);
        assert(groups(full.skip(4)) == Ok::<Seq<u8>, Seq<char>>(Seq::empty()));
        assert(seq![first_byte(va as u8, vb as u8)] + Seq::<u8>::empty() =~= seq![
            first_byte(va as u8, vb as u8),
        ]);
    }
    lemma_bits_of_group(va as u8, vb as u8, 0, 0);
}

/// Whether a byte is a character of the alphabet.
pub open spec fn is_character(byte: u8) -> bool {
    exists|v: int| #[trigger] is_character_for(byte, v)
}

proof fn lemma_is_character(byte: u8)
    ensures
        is_character(byte) <==> sextet(byte) is Some,
{
    if sextet(byte) is Some {
        assert(is_character_for(byte, sextet(byte)->Some_0 as int));
    }
}

/// What is said of a last group that is wrong. Padding in the third place only is
/// a fault of order; else the first byte that does not belong is named.
#[verifier::rlimit(40)]
pub proof fn law_faults_of_last_group(a: u8, b: u8, c: u8, d: u8)
    requires
        !text::is_space(a) && !text::is_space(b) && !text::is_space(c) && !text::is_space(d),
    ensures
        ({
            let result = decoded(seq![a, b, c, d]);
            let pad = '=' as u8;
            let names = |byte: u8|
                result == Err::<Seq<u8>, Seq<char>>(
                    "Base64 包含无效字节 0x"@ + text::hex_pair(byte),
                );
            if c == pad && d != pad {
                result == Err::<Seq<u8>, Seq<char>>("Base64 填充顺序无效"@)
            } else if !is_character(a) {
                names(a)
            } else if !is_character(b) {
                names(b)
            } else if c == pad {
                result is Ok
            } else if !is_character(c) {
                names(c)
            } else if d == pad {
                result is Ok
            } else if !is_character(d) {
                names(d)
            } else {
                result is Ok
            }
        }),
{
    let input = seq![a, b, c, d];
    assert(decoded(input) == groups(input)) by {
        lemma_stripped_identity(input);
        assert(padded(input) =~= input);
    }
    assert(input.take(4) =~= input);
    assert(groups(input.skip(4)) == Ok::<Seq<u8>, Seq<char>>(Seq::empty()));
    lemma_is_character(a);
    lemma_is_character(b);
    lemma_is_character(c);
    lemma_is_character(d);
}

/// What is said where padding is not at the end, and where one character is left
/// over.
#[verifier::rlimit(40)]
pub proof fn law_other_faults(a: u8, b: u8, c: u8, d: u8, rest: Seq<u8>)
    requires
        !text::is_space(a) && !text::is_space(b) && !text::is_space(c) && !text::is_space(d),
        stripped(rest).len() > 0,
    ensures
        stripped(rest).len() % 4 == 1 ==> decoded(rest) == Err::<Seq<u8>, Seq<char>>(
            "Base64 长度无效"@,
        ),
        stripped(rest).len() % 4 != 1 && (c == '=' as u8 || d == '=' as u8) ==> decoded(
            seq![a, b, c, d] + rest,
        ) == Err::<Seq<u8>, Seq<char>>("Base64 填充不在末尾"@),
{
    let g = seq![a, b, c, d];
    lemma_stripped_identity(g);
    lemma_stripped_joins(g, rest);
    let clean = padded(g + stripped(rest));
    assert(clean.take(4) =~= g);
}

/// Whether bytes are whole groups of characters of the alphabet.
pub open spec fn are_full_groups(head: Seq<u8>) -> bool {
    &&& head.len() % 4 == 0
    &&& forall|i: int| 0 <= i < head.len() ==> sextet(#[trigger] head[i]) is Some
}

proof fn lemma_groups_in_front(head: Seq<u8>, clean: Seq<u8>)
    requires
        are_full_groups(head),
        clean.len() % 4 == 0,
    ensures
        groups(head) is Ok,
        groups(head + clean) == prepended(groups(head)->Ok_0, groups(clean)),
    decreases head.len(),
{
    if head.len() == 0 {
        assert(head + clean =~= clean);
        assert(groups(clean) matches Ok(m) ==> Seq::<u8>::empty() + m =~= m);
    } else {
        let rest = head.skip(4);
        let whole = head + clean;
        assert forall|i: int| 0 <= i < rest.len() implies sextet(#[trigger] rest[i]) is Some by {
            assert(rest[i] == head[i + 4]);
        }
        lemma_groups_in_front(rest, clean);
        assert(whole.take(4) =~= head.take(4));
        assert(whole.skip(4) =~= rest + clean);
        let g = head.take(4);
        assert(g[0] == head[0] && g[1] == head[1] && g[2] == head[2] && g[3] == head[3]);
        assert(sextet(head[0]) is Some && sextet(head[1]) is Some && sextet(head[2]) is Some
            && sextet(head[3]) is Some);
        assert(group(g, true) == group(g, false) && group(g, true) is Ok);
        let first = group(g, true)->Ok_0;
        assert(groups(clean) matches Ok(m) ==> (first + groups(rest)->Ok_0) + m =~= first + (
        groups(rest)->Ok_0 + m));
    }
}

/// Groups are decoded one by one: what whole groups of the alphabet stand for
/// comes in front of what follows them, and takes no part in it.
#[verifier::rlimit(40)]
pub proof fn law_groups_are_independent(head: Seq<u8>, rest: Seq<u8>)
    requires
        are_full_groups(head),
    ensures
        decoded(head) is Ok,
        match decoded(rest) {
            Ok(m) => decoded(head + rest) == Ok::<Seq<u8>, Seq<char>>(decoded(head)->Ok_0 + m),
            Err(message) => decoded(head + rest) == Err::<Seq<u8>, Seq<char>>(message),
        },
{
    let bare = stripped(rest);
    assert(stripped(head) == head && stripped(head + rest) == head + bare) by {
        assert forall|i: int| 0 <= i < head.len() implies !text::is_space(#[trigger] head[i]) by {
            assert(sextet(head[i]) is Some);
        }
        lemma_stripped_identity(head);
        lemma_stripped_joins(head, rest);
    }
    lemma_padded_joins(head, bare);
    lemma_padded_joins(head, seq![]);
    assert(head + Seq::<u8>::empty() =~= head);
    assert(padded(Seq::<u8>::empty()) =~= seq![]);
    lemma_groups_in_front(head, padded(bare));
}

proof fn lemma_padded_joins(head: Seq<u8>, bare: Seq<u8>)
    requires
        head.len() % 4 == 0,
    ensures
        padded(head + bare) == head + padded(bare),
        padded(bare).len() % 4 == 0,
        (head + bare).len() % 4 == bare.len() % 4,
{
    assert(padded(head + bare) =~= head + padded(bare));
}

proof fn lemma_stripped_joins(a: Seq<u8>, b: Seq<u8>)
    ensures
        stripped(a + b) == stripped(a) + stripped(b),
    decreases b.len(),
{
    reveal(Seq::filter);
    if b.len() == 0 {
        assert(a + b =~= a);
        assert(stripped(a) + stripped(b) =~= stripped(a));
    } else {
        assert((a + b).drop_last() =~= a + b.drop_last());
        lemma_stripped_joins(a, b.drop_last());
        if !text::is_space(b.last()) {
            assert(stripped(a) + stripped(b.drop_last()).push(b.last()) =~= (stripped(a) + stripped(
                b.drop_last(),
            )).push(b.last()));
        }
    }
}

/// White space makes no difference wherever it stands: tab, line feed, form
/// feed, carriage return and space.
#[verifier::rlimit(40)]
pub proof fn law_white_space_is_ignored(a: Seq<u8>, space: u8, b: Seq<u8>)
    requires
        space == 9 || space == 10 || space == 12 || space == 13 || space == 32,
    ensures
        decoded(a + seq![space] + b) == decoded(a + b),
{
    reveal(Seq::filter);
    assert(stripped(seq![space]) =~= seq![]) by {
        assert(seq![space].drop_last() =~= seq![]);
        assert(stripped(Seq::<u8>::empty()) =~= seq![]);
    }
    lemma_stripped_joins(a, seq![space]);
    lemma_stripped_joins(a + seq![space], b);
    lemma_stripped_joins(a, b);
    assert(stripped(a) + Seq::<u8>::empty() =~= stripped(a));
}

/// Any other byte that is neither a character of the alphabet nor padding makes
/// an input fail, wherever it stands.
#[verifier::rlimit(40)]
pub proof fn law_other_bytes_are_refused(input: Seq<u8>, i: int)
    requires
        0 <= i < input.len(),
        forall|v: int| !#[trigger] is_character_for(input[i], v),
        input[i] != '=' as u8,
        !(input[i] == 9 || input[i] == 10 || input[i] == 12 || input[i] == 13 || input[i] == 32),
    ensures
        decoded(input) is Err,
{
    let b = input[i];
    if sextet(b) is Some {
        law_alphabet(b, sextet(b)->Some_0 as int);
    }
    let keep = |b: u8| !text::is_space(b);
    input.lemma_filter_contains(keep, i);
    let clean = padded(stripped(input));
    let k = choose|k: int| 0 <= k < stripped(input).len() && stripped(input)[k] == b;
    assert(clean[k] == b);
    law_accepted_is_base64(input);
    if is_base64(clean) {
        assert(k < clean.len() - padding(clean));
    }
}

/// The value of a character of the alphabet.
pub fn base64_value(byte: u8) -> (value: Result<u8>)
    ensures
        match sextet(byte) {
            Some(v) => value == Ok::<u8, NcmError>(v),
            None => value matches Err(NcmError::Invalid(m)) && m@ == bad_byte(byte),
        },
{
    if 0x41 <= byte && byte <= 0x5a {
        Ok(byte - 0x41)
    } else if 0x61 <= byte && byte <= 0x7a {
        Ok(byte - 0x61 + 26)
    } else if 0x30 <= byte && byte <= 0x39 {
        Ok(byte - 0x30 + 52)
    } else if byte == 0x2b {
        Ok(62)
    } else if byte == 0x2f {
        Ok(63)
    } else {
        let mut message: String = String::from_str("Base64 包含无效字节 0x");
        message.append(text::hex_pair_text(byte).as_str());
        invalid(message)
    }
}

/// Decodes one group.
fn decode_group(g: &[u8], last: bool) -> (bytes: Result<Vec<u8>>)
    requires
        g@.len() == 4,
    ensures
        agrees(bytes, group(g@, last)),
{
    if (g[2] == 0x3d || g[3] == 0x3d) && !last {
        return invalid(String::from_str("Base64 填充不在末尾"));
    }
    if g[2] == 0x3d && g[3] != 0x3d {
        return invalid(String::from_str("Base64 填充顺序无效"));
    }
    let a: u8 = match base64_value(g[0]) {
        Ok(value) => value,
        Err(error) => return Err(error),
    };
    let b: u8 = match base64_value(g[1]) {
        Ok(value) => value,
        Err(error) => return Err(error),
    };
    let mut out: Vec<u8> = Vec::new();
    out.push((a << 2) | (b >> 4));
    if g[2] != 0x3d {
        let c: u8 = match base64_value(g[2]) {
            Ok(value) => value,
            Err(error) => return Err(error),
        };
        out.push((b << 4) | (c >> 2));
        if g[3] != 0x3d {
            let d: u8 = match base64_value(g[3]) {
                Ok(value) => value,
                Err(error) => return Err(error),
            };
            out.push((c << 6) | d);
        }
    }
    assert(out@ =~= group(g@, last)->Ok_0);
    Ok(out)
}

/// The input without white space.
fn strip(input: &[u8]) -> (clean: Vec<u8>)
    ensures
        clean@ == stripped(input@),
{
    let mut clean: Vec<u8> = Vec::new();
    let mut i: usize = 0;
    assert(stripped(input@.take(0)) =~= seq![]) by {
        reveal(Seq::filter);
    }
    while i < input.len()
        invariant
            i <= input.len(),
            clean@ == stripped(input@.take(i as int)),
        decreases input.len() - i,
    {
        proof {
            reveal(Seq::filter);
            assert(input@.take(i + 1).drop_last() =~= input@.take(i as int));
        }
        if !text::is_ascii_space(input[i]) {
            clean.push(input[i]);
        }
        i = i + 1;
    }
    assert(input@.take(i as int) =~= input@);
    clean
}

/// Decodes Base64.
pub fn decode_base64(input: &[u8]) -> (bytes: Result<Vec<u8>>)
    ensures
        agrees(bytes, decoded(input@)),
{
    let mut clean: Vec<u8> = strip(input);
    if clean.len() % 4 == 1 {
        return invalid(String::from_str("Base64 长度无效"));
    }
    let ghost bare = clean@;
    while clean.len() % 4 != 0
        invariant
            bare.len() <= clean@.len() <= bare.len() + (4 - bare.len() % 4) % 4,
            clean@ == bare + Seq::new((clean@.len() - bare.len()) as nat, |i: int| 0x3du8),
        decreases bare.len() + (4 - bare.len() % 4) % 4 - clean@.len(),
    {
        clean.push(0x3d);
        assert(clean@ =~= bare + Seq::new((clean@.len() - bare.len()) as nat, |i: int| 0x3du8));
    }
    assert(clean@ =~= padded(bare));
    let mut output: Vec<u8> = Vec::with_capacity(clean.len() / 4 * 3);
    let mut start: usize = 0;
    assert(clean@.skip(0) =~= clean@);
    assert(forall|v: Seq<u8>| #[trigger] (Seq::<u8>::empty() + v) =~= v);
    while start < clean.len()
        invariant
            start <= clean@.len(),
            start % 4 == 0,
            clean@.len() % 4 == 0,
            decoded(input@) == groups(clean@),
            groups(clean@) == prepended(output@, groups(clean@.skip(start as int))),
        decreases clean.len() - start,
    {
        let ghost rest = clean@.skip(start as int);
        let g: &[u8] = &clean[start..start + 4];
        assert(g@ =~= rest.take(4));
        assert(clean@.skip(start + 4) =~= rest.skip(4));
        match decode_group(g, start + 4 == clean.len()) {
            Ok(bytes) => {
                let mut bytes: Vec<u8> = bytes;
                let ghost before = output@;
                let ghost head = bytes@;
                output.append(&mut bytes);
                assert(groups(rest) == prepended(head, groups(rest.skip(4))));
                assert(groups(rest.skip(4)) matches Ok(tail) ==> before + (head + tail) =~= (before
                    + head) + tail);
            },
            Err(error) => {
                return Err(error);
            },
        }
        start = start + 4;
    }
    assert(output@ + Seq::<u8>::empty() =~= output@);
    Ok(output)
}

} // verus!
