//! The format of the audio in a container.

use crate::text;
use vstd::prelude::*;

verus! {

/// An audio format.
#[derive(Clone, Copy, Debug, PartialEq, Eq, Structural)]
pub enum AudioFormat {
    Mp3,
    Flac,
    M4a,
    Wav,
    Ogg,
    Unknown,
}

/// `ID3`
pub const ID3: [u8; 3] = [0x49, 0x44, 0x33];

/// `fLaC`
pub const FLAC: [u8; 4] = [0x66, 0x4c, 0x61, 0x43];

/// `ftyp`
pub const FTYP: [u8; 4] = [0x66, 0x74, 0x79, 0x70];

/// `RIFF`
pub const RIFF: [u8; 4] = [0x52, 0x49, 0x46, 0x46];

/// `WAVE`
pub const WAVE: [u8; 4] = [0x57, 0x41, 0x56, 0x45];

/// `OggS`
pub const OGGS: [u8; 4] = [0x4f, 0x67, 0x67, 0x53];

/// Whether audio begins with the eleven bits that open an MPEG frame.
pub open spec fn has_frame_sync(bytes: Seq<u8>) -> bool {
    bytes.len() >= 2 && bytes[0] == 0xff && bytes[1] >= 0xe0
}

/// Whether `mark` stands in `bytes` at `at`.
pub open spec fn has_mark(bytes: Seq<u8>, mark: Seq<u8>, at: int) -> bool {
    at + mark.len() <= bytes.len() && bytes.subrange(at, at + mark.len()) == mark
}

/// The format that the first bytes of audio show.
pub open spec fn detected(bytes: Seq<u8>) -> AudioFormat {
    if has_mark(bytes, ID3@, 0) || has_frame_sync(bytes) {
        AudioFormat::Mp3
    } else if has_mark(bytes, FLAC@, 0) {
        AudioFormat::Flac
    } else if has_mark(bytes, FTYP@, 4) {
        AudioFormat::M4a
    } else if has_mark(bytes, RIFF@, 0) && has_mark(bytes, WAVE@, 8) {
        AudioFormat::Wav
    } else if has_mark(bytes, OGGS@, 0) {
        AudioFormat::Ogg
    } else {
        AudioFormat::Unknown
    }
}

/// The extension of a file name for a format.
pub open spec fn extension_text(format: AudioFormat) -> Seq<char> {
    match format {
        AudioFormat::Mp3 => "mp3"@,
        AudioFormat::Flac => "flac"@,
        AudioFormat::M4a => "m4a"@,
        AudioFormat::Wav => "wav"@,
        AudioFormat::Ogg => "ogg"@,
        AudioFormat::Unknown => "bin"@,
    }
}

/// Unicode white space.
pub open spec fn is_white(c: char) -> bool {
    let u = c as u32;
    ||| 0x09 <= u <= 0x0d
    ||| u == 0x20
    ||| u == 0x85
    ||| u == 0xa0
    ||| u == 0x1680
    ||| 0x2000 <= u <= 0x200a
    ||| u == 0x2028
    ||| u == 0x2029
    ||| u == 0x202f
    ||| u == 0x205f
    ||| u == 0x3000
}

/// A text without the white space at its beginning.
pub open spec fn without_leading(s: Seq<char>) -> Seq<char>
    decreases s.len(),
{
    if s.len() > 0 && is_white(s[0]) {
        without_leading(s.drop_first())
    } else {
        s
    }
}

/// A text without the white space at its end.
pub open spec fn without_trailing(s: Seq<char>) -> Seq<char>
    decreases s.len(),
{
    if s.len() > 0 && is_white(s.last()) {
        without_trailing(s.drop_last())
    } else {
        s
    }
}

/// A text without white space around it and with the capital letters of ASCII
/// made small.
pub open spec fn normalized(s: Seq<char>) -> Seq<char> {
    without_trailing(without_leading(s)).map_values(|c: char| text::lower(c))
}

/// The format that a hint names, whatever its case and the white space around it.
pub open spec fn hinted(hint: Seq<char>) -> AudioFormat {
    let word = normalized(hint);
    if word == "mp3"@ {
        AudioFormat::Mp3
    } else if word == "flac"@ {
        AudioFormat::Flac
    } else if word == "m4a"@ || word == "mp4"@ || word == "aac"@ {
        AudioFormat::M4a
    } else if word == "wav"@ {
        AudioFormat::Wav
    } else if word == "ogg"@ || word == "oga"@ {
        AudioFormat::Ogg
    } else {
        AudioFormat::Unknown
    }
}

/// The format of a container: what the audio shows, and only where it shows
/// nothing, what the hint names.
pub open spec fn chosen(detected: AudioFormat, hint: Option<Seq<char>>) -> AudioFormat {
    if detected != AudioFormat::Unknown {
        detected
    } else {
        match hint {
            Some(hint) => hinted(hint),
            None => AudioFormat::Unknown,
        }
    }
}

proof fn lemma_has_mark(bytes: Seq<u8>, mark: Seq<u8>, at: int)
    requires
        0 <= at,
    ensures
        has_mark(bytes, mark, at) <==> at + mark.len() <= bytes.len() && forall|k: int|
            0 <= k < mark.len() ==> bytes[at + k] == #[trigger] mark[k],
{
    if at + mark.len() <= bytes.len() {
        let part = bytes.subrange(at, at + mark.len());
        assert(forall|k: int| 0 <= k < mark.len() ==> #[trigger] part[k] == bytes[at + k]);
        if forall|k: int| 0 <= k < mark.len() ==> bytes[at + k] == #[trigger] mark[k] {
            assert(part =~= mark);
        }
        if part == mark {
            assert(forall|k: int| 0 <= k < mark.len() ==> bytes[at + k] == #[trigger] mark[k]);
        }
    }
}

/// Whether `ftyp` stands behind the first four bytes.
pub open spec fn names_file_type(b: Seq<u8>) -> bool {
    b.len() >= 8 && b[4] == 'f' as u8 && b[5] == 't' as u8 && b[6] == 'y' as u8 && b[7] == 'p' as u8
}

/// What the formats begin with, byte for byte: `ID3` or the eleven set bits of an
/// MPEG frame; `fLaC`; `ftyp` behind four bytes; `RIFF` and, behind four more,
/// `WAVE`; `OggS`.
pub proof fn law_what_formats_begin_with(b: Seq<u8>)
    ensures
        detected(b) == AudioFormat::Mp3 <==> (b.len() >= 2 && b[0] == 0xff && b[1] & 0xe0 == 0xe0)
            || (b.len() >= 3 && b[0] == 'I' as u8 && b[1] == 'D' as u8 && b[2] == '3' as u8),
        detected(b) == AudioFormat::Flac <==> b.len() >= 4 && b[0] == 'f' as u8 && b[1] == 'L' as u8
            && b[2] == 'a' as u8 && b[3] == 'C' as u8,
        detected(b) == AudioFormat::M4a <==> names_file_type(b) && detected(b.take(4))
            != AudioFormat::Mp3 && detected(b.take(4)) != AudioFormat::Flac,
        detected(b) == AudioFormat::Wav <==> b.len() >= 12 && b[0] == 'R' as u8 && b[1] == 'I' as u8
            && b[2] == 'F' as u8 && b[3] == 'F' as u8 && !names_file_type(b) && b[8] == 'W' as u8
            && b[9] == 'A' as u8 && b[10] == 'V' as u8 && b[11] == 'E' as u8,
        detected(b) == AudioFormat::Ogg <==> b.len() >= 4 && b[0] == 'O' as u8 && b[1] == 'g' as u8
            && b[2] == 'g' as u8 && b[3] == 'S' as u8 && !names_file_type(b),
{
    lemma_marks(b);
    if b.len() >= 4 {
        lemma_marks(b.take(4));
    }
}

proof fn lemma_marks(b: Seq<u8>)
    ensures
        has_mark(b, ID3@, 0) <==> b.len() >= 3 && b[0] == 0x49 && b[1] == 0x44 && b[2] == 0x33,
        has_mark(b, FLAC@, 0) <==> b.len() >= 4 && b[0] == 0x66 && b[1] == 0x4c && b[2] == 0x61
            && b[3] == 0x43,
        has_mark(b, FTYP@, 4) <==> b.len() >= 8 && b[4] == 0x66 && b[5] == 0x74 && b[6] == 0x79
            && b[7] == 0x70,
        has_mark(b, RIFF@, 0) <==> b.len() >= 4 && b[0] == 0x52 && b[1] == 0x49 && b[2] == 0x46
            && b[3] == 0x46,
        has_mark(b, WAVE@, 8) <==> b.len() >= 12 && b[8] == 0x57 && b[9] == 0x41 && b[10] == 0x56
            && b[11] == 0x45,
        has_mark(b, OGGS@, 0) <==> b.len() >= 4 && b[0] == 0x4f && b[1] == 0x67 && b[2] == 0x67
            && b[3] == 0x53,
        b.len() >= 2 ==> (b[1] >= 0xe0 <==> b[1] & 0xe0 == 0xe0),
{
    lemma_has_mark(b, ID3@, 0);
    lemma_has_mark(b, FLAC@, 0);
    lemma_has_mark(b, FTYP@, 4);
    lemma_has_mark(b, RIFF@, 0);
    lemma_has_mark(b, WAVE@, 8);
    lemma_has_mark(b, OGGS@, 0);
    assert(ID3@ =~= seq![0x49u8, 0x44, 0x33]);
    assert(FLAC@ =~= seq![0x66u8, 0x4c, 0x61, 0x43]);
    assert(FTYP@ =~= seq![0x66u8, 0x74, 0x79, 0x70]);
    assert(RIFF@ =~= seq![0x52u8, 0x49, 0x46, 0x46]);
    assert(WAVE@ =~= seq![0x57u8, 0x41, 0x56, 0x45]);
    assert(OGGS@ =~= seq![0x4fu8, 0x67, 0x67, 0x53]);
    if b.len() >= 2 {
        let x = b[1];
        assert(x >= 0xe0 <==> x & 0xe0 == 0xe0) by (bit_vector);
    }
}

/// What audio shows does not change when more audio follows. Only `OggS` with
/// less than eight bytes can still turn out to be something else.
pub proof fn law_more_audio_shows_the_same(bytes: Seq<u8>, rest: Seq<u8>)
    requires
        detected(bytes) != AudioFormat::Unknown,
        detected(bytes) == AudioFormat::Ogg ==> bytes.len() >= 8,
    ensures
        detected(bytes + rest) == detected(bytes),
{
    lemma_marks(bytes);
    lemma_marks(bytes + rest);
    assert(forall|k: int| 0 <= k < bytes.len() ==> #[trigger] (bytes + rest)[k] == bytes[k]);
}

/// Twelve bytes of audio show all that can be seen.
pub proof fn law_twelve_bytes_are_enough(bytes: Seq<u8>)
    requires
        bytes.len() >= 12,
    ensures
        detected(bytes.take(12)) == detected(bytes),
{
    lemma_marks(bytes);
    lemma_marks(bytes.take(12));
    assert(forall|k: int| 0 <= k < 12 ==> #[trigger] bytes.take(12)[k] == bytes[k]);
}

/// Whether a number is that of a character of Unicode white space.
pub open spec fn is_white_number(u: int) -> bool {
    ||| 9 <= u <= 13
    ||| u == 32
    ||| u == 133
    ||| u == 160
    ||| u == 5760
    ||| 8192 <= u <= 8202
    ||| u == 8232
    ||| u == 8233
    ||| u == 8239
    ||| u == 8287
    ||| u == 12288
}

proof fn lemma_white(c: char)
    ensures
        is_white(c) <==> is_white_number(c as int),
{
}

proof fn lemma_trailing_white(s: Seq<char>, w: char)
    requires
        is_white(w),
    ensures
        without_trailing(without_leading(s.push(w))) == without_trailing(without_leading(s)),
    decreases s.len(),
{
    let t = s.push(w);
    if s.len() == 0 {
        assert(t.drop_first() =~= s);
    } else if is_white(s[0]) {
        assert(t.drop_first() =~= s.drop_first().push(w));
        lemma_trailing_white(s.drop_first(), w);
    } else {
        assert(t.drop_last() =~= s);
    }
}

/// White space around a hint makes no difference, be it in front or behind.
pub proof fn law_white_space_around_hint(s: Seq<char>, w: char)
    requires
        is_white_number(w as int),
    ensures
        hinted(seq![w] + s) == hinted(s),
        hinted(s.push(w)) == hinted(s),
{
    assert(is_white(w));
    assert((seq![w] + s).drop_first() =~= s);
    lemma_trailing_white(s, w);
}

/// Whether two texts are the same but for the case of letters of ASCII.
pub open spec fn same_but_case(s: Seq<char>, t: Seq<char>) -> bool {
    &&& s.len() == t.len()
    &&& forall|i: int| 0 <= i < s.len() ==> same_letter(#[trigger] s[i], t[i])
}

/// Whether two characters are the same but for the case of a letter of ASCII.
pub open spec fn same_letter(a: char, b: char) -> bool {
    ||| a == b
    ||| 'a' <= a <= 'z' && a as int - 'a' as int == b as int - 'A' as int
    ||| 'a' <= b <= 'z' && b as int - 'a' as int == a as int - 'A' as int
}

proof fn lemma_leading_case(s: Seq<char>, t: Seq<char>)
    requires
        same_but_case(s, t),
    ensures
        same_but_case(without_leading(s), without_leading(t)),
    decreases s.len(),
{
    if s.len() > 0 {
        assert(same_letter(s[0], t[0]));
        assert(is_white(s[0]) <==> is_white(t[0]));
        if is_white(s[0]) {
            assert forall|i: int| 0 <= i < s.drop_first().len() implies same_letter(
                #[trigger] s.drop_first()[i],
                t.drop_first()[i],
            ) by {
                assert(same_letter(s[i + 1], t[i + 1]));
            }
            lemma_leading_case(s.drop_first(), t.drop_first());
        }
    }
}

proof fn lemma_trailing_case(s: Seq<char>, t: Seq<char>)
    requires
        same_but_case(s, t),
    ensures
        same_but_case(without_trailing(s), without_trailing(t)),
    decreases s.len(),
{
    if s.len() > 0 {
        assert(same_letter(s[s.len() - 1], t[t.len() - 1]));
        assert(is_white(s.last()) <==> is_white(t.last()));
        if is_white(s.last()) {
            assert forall|i: int| 0 <= i < s.drop_last().len() implies same_letter(
                #[trigger] s.drop_last()[i],
                t.drop_last()[i],
            ) by {
                assert(same_letter(s[i], t[i]));
            }
            lemma_trailing_case(s.drop_last(), t.drop_last());
        }
    }
}

/// The case of letters in a hint makes no difference.
pub proof fn law_case_of_hint(s: Seq<char>, t: Seq<char>)
    requires
        same_but_case(s, t),
    ensures
        hinted(s) == hinted(t),
{
    lemma_leading_case(s, t);
    lemma_trailing_case(without_leading(s), without_leading(t));
    let a = without_trailing(without_leading(s));
    let b = without_trailing(without_leading(t));
    assert forall|i: int| 0 <= i < a.len() implies text::lower(#[trigger] a[i]) == text::lower(
        b[i],
    ) by {
        assert(same_letter(a[i], b[i]));
    }
    assert(normalized(s) =~= normalized(t));
}

/// The words for the formats, in small letters and without white space around
/// them: each names one format, and nothing else names any.
pub proof fn law_words_for_formats(s: Seq<char>)
    requires
        s.len() > 0 ==> !is_white_number(s[0] as int) && !is_white_number(s.last() as int),
        forall|i: int| 0 <= i < s.len() ==> !('A' <= #[trigger] s[i] <= 'Z'),
    ensures
        hinted(s) == AudioFormat::Mp3 <==> s == "mp3"@,
        hinted(s) == AudioFormat::Flac <==> s == "flac"@,
        hinted(s) == AudioFormat::M4a <==> s == "m4a"@ || s == "mp4"@ || s == "aac"@,
        hinted(s) == AudioFormat::Wav <==> s == "wav"@,
        hinted(s) == AudioFormat::Ogg <==> s == "ogg"@ || s == "oga"@,
{
    if s.len() > 0 {
        lemma_white(s[0]);
        lemma_white(s.last());
    }
    assert(without_leading(s) == s);
    assert(without_trailing(s) == s);
    assert(normalized(s) =~= s);
    lemma_words_differ();
}

proof fn lemma_words_differ()
    ensures
        "flac"@.len() == 4,
        forall|w: Seq<char>|
            w == "mp3"@ || w == "m4a"@ || w == "mp4"@ || w == "aac"@ || w == "wav"@ || w == "ogg"@
                || w == "oga"@ ==> #[trigger] w.len() == 3,
        "mp3"@[0] == 'm' && "mp3"@[1] == 'p' && "mp3"@[2] == '3',
        "m4a"@[0] == 'm' && "m4a"@[1] == '4',
        "mp4"@[0] == 'm' && "mp4"@[1] == 'p' && "mp4"@[2] == '4',
        "aac"@[0] == 'a',
        "wav"@[0] == 'w',
        "ogg"@[0] == 'o' && "ogg"@[2] == 'g',
        "oga"@[0] == 'o' && "oga"@[2] == 'a',
{
    reveal_strlit("mp3");
    reveal_strlit("flac");
    reveal_strlit("m4a");
    reveal_strlit("mp4");
    reveal_strlit("aac");
    reveal_strlit("wav");
    reveal_strlit("ogg");
    reveal_strlit("oga");
}

/// The extension of a known format is also a word for it.
pub proof fn law_extension_names_format(format: AudioFormat)
    requires
        format != AudioFormat::Unknown,
    ensures
        hinted(extension_text(format)) == format,
{
    reveal_strlit("mp3");
    reveal_strlit("flac");
    reveal_strlit("m4a");
    reveal_strlit("wav");
    reveal_strlit("ogg");
    law_words_for_formats(extension_text(format));
}

/// A hint decides where the audio shows nothing; without either the format is
/// not known.
pub proof fn law_hint_fills_in(hint: Seq<char>)
    ensures
        chosen(AudioFormat::Unknown, Some(hint)) == hinted(hint),
        chosen(AudioFormat::Unknown, None) == AudioFormat::Unknown,
{
}

/// What the audio shows is never overruled by a hint.
pub proof fn law_hint_is_only_a_fallback(
    detected: AudioFormat,
    one: Option<Seq<char>>,
    other: Option<Seq<char>>,
)
    requires
        detected != AudioFormat::Unknown,
    ensures
        chosen(detected, one) == detected,
        chosen(detected, one) == chosen(detected, other),
{
}

/// Whether a character is Unicode white space.
fn is_white_space(c: char) -> (yes: bool)
    ensures
        yes == is_white(c),
{
    let u: u32 = c as u32;
    0x09 <= u && u <= 0x0d || u == 0x20 || u == 0x85 || u == 0xa0 || u == 0x1680 || 0x2000 <= u && u
        <= 0x200a || u == 0x2028 || u == 0x2029 || u == 0x202f || u == 0x205f || u == 0x3000
}

/// The text of a hint in its normal form.
fn normalize(hint: &str) -> (word: Vec<char>)
    ensures
        word@ == normalized(hint@),
{
    let chars: Vec<char> = text::chars_of(hint);
    let mut low: usize = 0;
    assert(chars@.skip(0) =~= chars@);
    while low < chars.len() && is_white_space(chars[low])
        invariant
            low <= chars@.len(),
            without_leading(chars@) == without_leading(chars@.skip(low as int)),
        decreases chars.len() - low,
    {
        assert(chars@.skip(low as int).drop_first() =~= chars@.skip(low + 1));
        low = low + 1;
    }
    let ghost bare = chars@.skip(low as int);
    let mut high: usize = chars.len();
    assert(chars@.subrange(low as int, high as int) =~= bare);
    while high > low && is_white_space(chars[high - 1])
        invariant
            low <= high <= chars@.len(),
            without_trailing(bare) == without_trailing(
                chars@.subrange(low as int, high as int),
            ),
        decreases high,
    {
        assert(chars@.subrange(low as int, high as int).drop_last() =~= chars@.subrange(
            low as int,
            high - 1,
        ));
        high = high - 1;
    }
    let ghost core = chars@.subrange(low as int, high as int);
    let mut word: Vec<char> = Vec::new();
    let mut i: usize = low;
    while i < high
        invariant
            low <= i <= high <= chars@.len(),
            core == chars@.subrange(low as int, high as int),
            word@.len() == i - low,
            forall|k: int| 0 <= k < i - low ==> word@[k] == text::lower(core[k]),
        decreases high - i,
    {
        word.push(text::lower_char(chars[i]));
        i = i + 1;
    }
    assert(word@ =~= core.map_values(|c: char| text::lower(c)));
    word
}

/// Whether `mark` stands in `bytes` at `at`.
fn mark_at(bytes: &[u8], mark: &[u8], at: usize) -> (yes: bool)
    ensures
        yes == has_mark(bytes@, mark@, at as int),
{
    if at > bytes.len() || bytes.len() - at < mark.len() {
        return false;
    }
    text::same_bytes(&bytes[at..at + mark.len()], mark)
}

impl AudioFormat {
    /// The extension of a file name for the format.
    pub fn extension(self) -> (text: &'static str)
        ensures
            text@ == extension_text(self),
    {
        match self {
            AudioFormat::Mp3 => "mp3",
            AudioFormat::Flac => "flac",
            AudioFormat::M4a => "m4a",
            AudioFormat::Wav => "wav",
            AudioFormat::Ogg => "ogg",
            AudioFormat::Unknown => "bin",
        }
    }

    /// The format that a hint names.
    pub fn from_hint(hint: &str) -> (format: Self)
        ensures
            format == hinted(hint@),
    {
        let word: Vec<char> = normalize(hint);
        if text::spells(&word, "mp3") {
            AudioFormat::Mp3
        } else if text::spells(&word, "flac") {
            AudioFormat::Flac
        } else if text::spells(&word, "m4a") || text::spells(&word, "mp4") || text::spells(&word, "aac") {
            AudioFormat::M4a
        } else if text::spells(&word, "wav") {
            AudioFormat::Wav
        } else if text::spells(&word, "ogg") || text::spells(&word, "oga") {
            AudioFormat::Ogg
        } else {
            AudioFormat::Unknown
        }
    }

    /// The format that the first bytes of audio show.
    pub fn detect(bytes: &[u8]) -> (format: Self)
        ensures
            format == detected(bytes@),
    {
        if mark_at(bytes, ID3.as_slice(), 0) || bytes.len() >= 2 && bytes[0] == 0xff && bytes[1]
            >= 0xe0 {
            AudioFormat::Mp3
        } else if mark_at(bytes, FLAC.as_slice(), 0) {
            AudioFormat::Flac
        } else if mark_at(bytes, FTYP.as_slice(), 4) {
            AudioFormat::M4a
        } else if mark_at(bytes, RIFF.as_slice(), 0) && mark_at(bytes, WAVE.as_slice(), 8) {
            AudioFormat::Wav
        } else if mark_at(bytes, OGGS.as_slice(), 0) {
            AudioFormat::Ogg
        } else {
            AudioFormat::Unknown
        }
    }

    /// The format of a container, from what its audio shows and what its
    /// metadata hint at.
    pub fn choose_format(detected: Self, hint: Option<&str>) -> (format: Self)
        ensures
            format == chosen(
                detected,
                match hint {
                    Some(hint) => Some(hint@),
                    None => None,
                },
            ),
    {
        if detected != AudioFormat::Unknown {
            detected
        } else {
            match hint {
                Some(hint) => AudioFormat::from_hint(hint),
                None => AudioFormat::Unknown,
            }
        }
    }
}

} // verus!
