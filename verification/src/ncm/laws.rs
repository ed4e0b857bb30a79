//! What holds of containers as a whole.

use crate::ncm::audio;
use crate::ncm::audio::AudioFormat;
use crate::ncm::cipher;
use crate::ncm::container;
use crate::ncm::container::{
    DecoderView, Headers, HeadersView, MAGIC, MAX_KEY_BLOB, MAX_META_BLOB,
};
use crate::ncm::error::Failure;
use crate::ncm::metadata;
use crate::text;
use vstd::prelude::*;

verus! {

/// Four bytes give back the number that was put into them.
pub proof fn law_little_endian_round_trip(n: int)
    requires
        0 <= n < 0x1_0000_0000,
    ensures
        container::little_endian(container::little_endian_bytes(n), 0) == n,
{
}

/// The sections in front of the audio.
pub open spec fn front(
    key: Seq<u8>,
    gap: Seq<u8>,
    metadata: Seq<u8>,
    middle: Seq<u8>,
    cover: Seq<u8>,
) -> Seq<u8> {
    let sealed = metadata::sealed_key(key);
    MAGIC@ + gap + container::little_endian_bytes(sealed.len() as int) + sealed
        + container::little_endian_bytes(metadata.len() as int) + metadata + middle
        + container::little_endian_bytes(cover.len() as int) + cover
}

/// The file that carries `audio` under the stream key `key`, with the given
/// metadata section, cover, and bytes between the sections.
pub open spec fn sealed_container(
    key: Seq<u8>,
    gap: Seq<u8>,
    metadata: Seq<u8>,
    middle: Seq<u8>,
    cover: Seq<u8>,
    audio: Seq<u8>,
) -> Seq<u8> {
    front(key, gap, metadata, middle, cover) + cipher::applied(cipher::key_table(key), audio, 0)
}

/// The number at `at`, where its four bytes stand there.
proof fn lemma_number_at(file: Seq<u8>, at: int, n: int)
    requires
        0 <= at,
        at + 4 <= file.len(),
        file.subrange(at, at + 4) == container::little_endian_bytes(n),
        0 <= n < 0x1_0000_0000,
    ensures
        container::little_endian(file, at) == n,
{
    law_little_endian_round_trip(n);
    let part = file.subrange(at, at + 4);
    assert(part[0] == file[at] && part[1] == file[at + 1] && part[2] == file[at + 2] && part[3]
        == file[at + 3]);
}

/// What is behind a beginning does not change it.
proof fn lemma_beginning(whole: Seq<u8>, before: Seq<u8>, part: Seq<u8>)
    requires
        (before + part).is_prefix_of(whole),
    ensures
        before.is_prefix_of(whole),
        whole.subrange(before.len() as int, (before.len() + part.len()) as int) == part,
{
    let both = before + part;
    assert forall|i: int| 0 <= i < both.len() implies whole[i] == both[i] by {
        assert(whole.subrange(0, both.len() as int)[i] == whole[i]);
    }
    assert(whole.subrange(0, before.len() as int) =~= before);
    assert(whole.subrange(before.len() as int, (before.len() + part.len()) as int) =~= part);
}

/// Where the sections stand in a sealed container.
proof fn lemma_sections(
    key: Seq<u8>,
    gap: Seq<u8>,
    meta: Seq<u8>,
    middle: Seq<u8>,
    cover: Seq<u8>,
    audio: Seq<u8>,
)
    requires
        gap.len() == 2,
        middle.len() == 9,
    ensures
        ({
            let file = sealed_container(key, gap, meta, middle, cover, audio);
            let sealed = metadata::sealed_key(key);
            let k = sealed.len() as int;
            let m = meta.len() as int;
            let c = cover.len() as int;
            let meta_at = 14 + k;
            let mid_at = meta_at + 4 + m;
            let start = mid_at + 13 + c;
            &&& front(key, gap, meta, middle, cover).len() == start
            &&& file.len() == start + audio.len()
            &&& file.take(8) == MAGIC@
            &&& file.subrange(10, 14) == container::little_endian_bytes(k)
            &&& file.subrange(14, meta_at) == sealed
            &&& file.subrange(meta_at, meta_at + 4) == container::little_endian_bytes(m)
            &&& file.subrange(meta_at + 4, mid_at) == meta
            &&& file.subrange(mid_at + 9, mid_at + 13) == container::little_endian_bytes(c)
            &&& file.skip(start) == cipher::applied(cipher::key_table(key), audio, 0)
        }),
{
    let file = sealed_container(key, gap, meta, middle, cover, audio);
    let sealed = metadata::sealed_key(key);
    let masked = cipher::applied(cipher::key_table(key), audio, 0);
    let key_len = container::little_endian_bytes(sealed.len() as int);
    let meta_len = container::little_endian_bytes(meta.len() as int);
    let cover_len = container::little_endian_bytes(cover.len() as int);
    let f1 = MAGIC@ + gap;
    let f2 = f1 + key_len;
    let f3 = f2 + sealed;
    let f4 = f3 + meta_len;
    let f5 = f4 + meta;
    let f6 = f5 + middle;
    let f7 = f6 + cover_len;
    let f8 = f7 + cover;
    assert(file == f8 + masked);
    assert(file.subrange(0, file.len() as int) =~= file);
    lemma_beginning(file, f8, masked);
    lemma_beginning(file, f7, cover);
    lemma_beginning(file, f6, cover_len);
    lemma_beginning(file, f5, middle);
    lemma_beginning(file, f4, meta);
    lemma_beginning(file, f3, meta_len);
    lemma_beginning(file, f2, sealed);
    lemma_beginning(file, f1, key_len);
    lemma_beginning(file, MAGIC@, gap);
}

/// A container gives back what was put into it: the audio, the sizes, and what
/// its metadata section holds.
#[verifier::rlimit(40)]
pub proof fn law_container_round_trip(
    key: Seq<u8>,
    gap: Seq<u8>,
    meta: Seq<u8>,
    middle: Seq<u8>,
    cover: Seq<u8>,
    audio: Seq<u8>,
)
    requires
        key.len() > 0,
        gap.len() == 2,
        middle.len() == 9,
        metadata::sealed_key(key).len() <= MAX_KEY_BLOB,
        meta.len() <= MAX_META_BLOB,
        cover.len() <= u32::MAX,
        audio.len() > 0,
        sealed_container(key, gap, meta, middle, cover, audio).len() <= u64::MAX,
        audio::chosen(
            audio::detected(audio.take(container::sniff_len(audio.len() as int))),
            match metadata::metadata_or_warning(meta).0 {
                Some(m) => m.format_hint,
                None => None,
            },
        ) != AudioFormat::Unknown,
    ensures
        ({
            let file = sealed_container(key, gap, meta, middle, cover, audio);
            let view = DecoderView {
                table: cipher::key_table(key),
                audio_start: front(key, gap, meta, middle, cover).len() as int,
                headers: HeadersView {
                    metadata: metadata::metadata_or_warning(meta).0,
                    metadata_warning: metadata::metadata_or_warning(meta).1,
                    cover_bytes: cover.len() as int,
                    audio_bytes: audio.len() as int,
                    format: audio::chosen(
                        audio::detected(audio.take(container::sniff_len(audio.len() as int))),
                        match metadata::metadata_or_warning(meta).0 {
                            Some(m) => m.format_hint,
                            None => None,
                        },
                    ),
                },
            };
            &&& container::parsed(file) == Ok::<DecoderView, Failure>(view)
            &&& container::decoded_audio(view, file) == audio
        }),
{
    let file = sealed_container(key, gap, meta, middle, cover, audio);
    let table = cipher::key_table(key);
    let masked = cipher::applied(table, audio, 0);
    let k = metadata::sealed_key(key).len() as int;
    let m = meta.len() as int;
    let c = cover.len() as int;
    let meta_at = 14 + k;
    let mid_at = meta_at + 4 + m;
    let start = mid_at + 13 + c;
    let n = file.len() as int;
    lemma_sections(key, gap, meta, middle, cover, audio);
    lemma_number_at(file, 10, k);
    metadata::law_stream_key_round_trip(key);
    lemma_number_at(file, meta_at, m);
    lemma_number_at(file, mid_at + 9, c);
    cipher::law_involution(table, audio, 0);
    let s = container::sniff_len(n - start);
    let head = file.subrange(start, start + s);
    assert(cipher::applied(table, head, 0) == audio.take(s)) by {
        assert(head =~= file.skip(start).take(s));
        cipher::law_involution(table, audio.take(s), 0);
        assert(masked.take(s) =~= cipher::applied(table, audio.take(s), 0));
    }
    let (metadata, warning) = metadata::metadata_or_warning(meta);
    assert(container::parsed(file) == container::parsed_key(file));
    assert(container::parsed_key(file) == container::parsed_metadata(file, table, meta_at));
    assert(container::parsed_metadata(file, table, meta_at) == container::parsed_cover(
        file,
        table,
        metadata,
        warning,
        mid_at,
    ));
}

/// In every container that opens, the audio reaches from its offset to the end
/// of the file and is not empty, its format is known, and the table of its
/// cipher holds each byte value exactly once.
pub proof fn law_opened_container(file: Seq<u8>)
    requires
        container::parsed(file) is Ok,
    ensures
        ({
            let view = container::parsed(file)->Ok_0;
            &&& view.audio_start + view.headers.audio_bytes == file.len()
            &&& view.headers.audio_bytes > 0
            &&& 0 <= view.headers.cover_bytes <= view.audio_start
            &&& view.headers.format != AudioFormat::Unknown
            &&& cipher::is_permutation(view.table)
            &&& container::decoded_audio(view, file).len() == view.headers.audio_bytes
        }),
{
    let len = container::little_endian(file, 10);
    let key = metadata::stream_key(file.subrange(14, 14 + len))->Ok_0;
    cipher::law_table_is_permutation(key);
}

/// A number that stands inside a beginning of a file is the same in both.
proof fn lemma_number_in_beginning(file: Seq<u8>, n: int, at: int)
    requires
        0 <= at,
        at + 4 <= n <= file.len(),
    ensures
        container::little_endian(file.take(n), at) == container::little_endian(file, at),
{
}

/// A container that is cut off anywhere in front of its audio, or right where the
/// audio begins, is rejected.
#[verifier::rlimit(40)]
pub proof fn law_truncated_is_rejected(file: Seq<u8>, n: int)
    requires
        container::parsed(file) is Ok,
        0 <= n <= (container::parsed(file)->Ok_0).audio_start,
    ensures
        container::parsed(file.take(n)) is Err,
{
    let g = file.take(n);
    if n >= 14 {
        assert(g.take(8) =~= file.take(8));
        lemma_number_in_beginning(file, n, 10);
        let len = container::little_endian(file, 10);
        if 14 + len <= n {
            assert(g.subrange(14, 14 + len) =~= file.subrange(14, 14 + len));
            let at = 14 + len;
            let table = cipher::key_table(metadata::stream_key(file.subrange(14, at))->Ok_0);
            assert(container::parsed(g) == container::parsed_metadata(g, table, at));
            assert(container::parsed(file) == container::parsed_metadata(file, table, at));
            if at + 4 <= n {
                lemma_number_in_beginning(file, n, at);
                let m = container::little_endian(file, at);
                let end = at + 4 + m;
                if end + 13 <= n {
                    assert(g.subrange(at + 4, end) =~= file.subrange(at + 4, end));
                    lemma_number_in_beginning(file, n, end + 9);
                }
            }
        }
    }
}

/// Where the metadata section of a file begins.
pub open spec fn metadata_start(file: Seq<u8>) -> int {
    14 + container::little_endian(file, 10) + 4
}

/// Where the metadata section of a file ends.
pub open spec fn metadata_end(file: Seq<u8>) -> int {
    metadata_start(file) + container::little_endian(file, metadata_start(file) - 4)
}

/// What stands in the metadata section does not touch the audio: where the
/// audio shows its format, a container still opens with any other bytes in
/// that section, valid or not, and gives the same audio, sizes and format.
#[verifier::rlimit(40)]
pub proof fn law_metadata_does_not_touch_audio(file: Seq<u8>, other: Seq<u8>)
    requires
        container::parsed(file) is Ok,
        file.len() == other.len(),
        forall|i: int|
            0 <= i < file.len() && !(metadata_start(file) <= i < metadata_end(file))
                ==> #[trigger] other[i] == file[i],
        ({
            let view = container::parsed(file)->Ok_0;
            audio::detected(
                container::decoded_audio(view, file).take(
                    container::sniff_len(view.headers.audio_bytes),
                ),
            ) != AudioFormat::Unknown
        }),
    ensures
        container::parsed(other) is Ok,
        ({
            let view = container::parsed(file)->Ok_0;
            let same = container::parsed(other)->Ok_0;
            &&& same.table == view.table
            &&& same.audio_start == view.audio_start
            &&& same.headers.cover_bytes == view.headers.cover_bytes
            &&& same.headers.audio_bytes == view.headers.audio_bytes
            &&& same.headers.format == view.headers.format
            &&& container::decoded_audio(same, other) == container::decoded_audio(view, file)
        }),
{
    let n = file.len() as int;
    let len = container::little_endian(file, 10);
    let at = 14 + len;
    let m = container::little_endian(file, at);
    let end = at + 4 + m;
    let cover = container::little_endian(file, end + 9);
    let start = end + 13 + cover;
    assert(metadata_start(file) == at + 4 && metadata_end(file) == end);
    assert(other.take(8) =~= file.take(8));
    assert(container::little_endian(other, 10) == len);
    assert(other.subrange(14, at) =~= file.subrange(14, at));
    let table = cipher::key_table(metadata::stream_key(file.subrange(14, at))->Ok_0);
    assert(container::parsed(file) == container::parsed_metadata(file, table, at));
    assert(container::parsed(other) == container::parsed_metadata(other, table, at));
    assert(container::little_endian(other, at) == m);
    assert(container::little_endian(other, end + 9) == cover);
    assert(other.skip(start) =~= file.skip(start));
    let s = container::sniff_len(n - start);
    assert(other.subrange(start, start + s) =~= file.subrange(start, start + s));
    let view = container::parsed(file)->Ok_0;
    assert(view.audio_start == start);
    assert(container::decoded_audio(view, file).take(s) =~= cipher::applied(
        table,
        file.subrange(start, start + s),
        0,
    ));
}

/// Where the cover of a file begins.
pub open spec fn cover_start(file: Seq<u8>) -> int {
    metadata_end(file) + 13
}

/// Where the cover of a file ends.
pub open spec fn cover_end(file: Seq<u8>) -> int {
    cover_start(file) + container::little_endian(file, cover_start(file) - 4)
}

/// Whether the byte at `i` is one that is passed over: one of the two behind the
/// magic number, of the nine behind the metadata, or of the cover.
pub open spec fn is_passed_over(file: Seq<u8>, i: int) -> bool {
    ||| 8 <= i < 10
    ||| metadata_end(file) <= i < metadata_end(file) + 9
    ||| cover_start(file) <= i < cover_end(file)
}

/// The bytes that are passed over never matter: whatever stands in them, a file
/// opens with the same headers and the same audio, or fails in the same way.
#[verifier::rlimit(40)]
pub proof fn law_passed_over_bytes_do_not_matter(file: Seq<u8>, other: Seq<u8>)
    requires
        file.len() == other.len(),
        forall|i: int|
            0 <= i < file.len() && !is_passed_over(file, i) ==> #[trigger] other[i] == file[i],
    ensures
        container::parsed(other) == container::parsed(file),
        container::parsed(file) matches Ok(view) ==> container::decoded_audio(view, other)
            == container::decoded_audio(view, file),
{
    let n = file.len() as int;
    if n >= 8 {
        assert(other.take(8) =~= file.take(8));
    }
    if n >= 14 {
        let at = metadata_start(file) - 4;
        let end = metadata_end(file);
        assert(container::little_endian(other, 10) == container::little_endian(file, 10));
        if at <= n {
            assert(other.subrange(14, at) =~= file.subrange(14, at));
        }
        if at + 4 <= n {
            assert(container::little_endian(other, at) == container::little_endian(file, at));
        }
        if end <= n {
            assert(other.subrange(at + 4, end) =~= file.subrange(at + 4, end));
        }
        if end + 13 <= n {
            assert(container::little_endian(other, end + 9) == container::little_endian(
                file,
                end + 9,
            ));
        }
        let start = cover_end(file);
        if start <= n {
            assert(other.skip(start) =~= file.skip(start));
            let s = container::sniff_len(n - start);
            assert(other.subrange(start, start + s) =~= file.subrange(start, start + s));
        }
    }
}

/// Four bytes are a number in base 256, the lowest byte first.
pub proof fn law_little_endian(bytes: Seq<u8>, at: int)
    requires
        0 <= at,
        at + 4 <= bytes.len(),
    ensures
        container::little_endian(bytes, at) == bytes[at] + 256 * (bytes[at + 1] + 256 * (bytes[at
            + 2] + 256 * bytes[at + 3])),
{
}

/// A section is read into memory exactly if it is not larger than is accepted and
/// the file has all of it; a part that is passed over need only be there. Each
/// fault is told with the numbers that show it.
pub proof fn law_sections_that_are_accepted(
    position: int,
    file_len: int,
    len: int,
    max: int,
    name: Seq<char>,
)
    requires
        0 <= position,
        0 <= len <= u32::MAX,
        0 <= file_len <= u64::MAX,
    ensures
        container::lacking(position, file_len, len, name) is None <==> position + len <= file_len,
        file_len < position + len <= u64::MAX ==> container::lacking(position, file_len, len, name)
            == Some(
            name + "区被截断：需要到偏移 "@ + text::decimal((position + len) as nat)
                + "，文件仅 "@ + text::decimal(file_len as nat) + " 字节"@,
        ),
        position + len > u64::MAX ==> container::lacking(position, file_len, len, name) == Some(
            name + "区偏移溢出"@,
        ),
        container::unreadable(position, file_len, len, max, name) is None <==> len <= max && position
            + len <= file_len,
        len > max ==> container::unreadable(position, file_len, len, max, name) == Some(
            name + "区长度 "@ + text::decimal(len as nat) + " 超过安全上限 "@ + text::decimal(
                max as nat,
            ),
        ),
        len <= max && position + len > file_len ==> container::unreadable(
            position,
            file_len,
            len,
            max,
            name,
        ) == container::lacking(position, file_len, len, name),
{
}

/// Of the sections that are read into memory, that of the key has up to a mebibyte
/// and that of the metadata up to sixteen; no file opens with more.
pub proof fn law_limits(file: Seq<u8>)
    requires
        container::parsed(file) is Ok,
    ensures
        container::little_endian(file, 10) <= 1024 * 1024,
        container::little_endian(file, metadata_start(file) - 4) <= 16 * 1024 * 1024,
        MAX_KEY_BLOB == 1024 * 1024,
        MAX_META_BLOB == 16 * 1024 * 1024,
{
}

/// The file that carries audio under a key, written out: where its parts end.
proof fn lemma_sealed_parses(
    key: Seq<u8>,
    gap: Seq<u8>,
    meta: Seq<u8>,
    middle: Seq<u8>,
    cover: Seq<u8>,
    audio: Seq<u8>,
)
    requires
        key.len() > 0,
        gap.len() == 2,
        middle.len() == 9,
        metadata::sealed_key(key).len() <= MAX_KEY_BLOB,
        meta.len() <= MAX_META_BLOB,
        cover.len() <= u32::MAX,
        sealed_container(key, gap, meta, middle, cover, audio).len() <= u64::MAX,
    ensures
        ({
            let file = sealed_container(key, gap, meta, middle, cover, audio);
            let (metadata, warning) = metadata::metadata_or_warning(meta);
            let at = 18 + metadata::sealed_key(key).len() + meta.len();
            &&& container::parsed(file) == container::parsed_cover(
                file,
                cipher::key_table(key),
                metadata,
                warning,
                at as int,
            )
            &&& container::little_endian(file, at + 9int) == cover.len()
            &&& file.len() == at + 13 + cover.len() + audio.len()
            &&& file.skip((at + 13 + cover.len()) as int) == cipher::applied(
                cipher::key_table(key),
                audio,
                0,
            )
        }),
{
    let file = sealed_container(key, gap, meta, middle, cover, audio);
    let table = cipher::key_table(key);
    let k = metadata::sealed_key(key).len() as int;
    let m = meta.len() as int;
    let c = cover.len() as int;
    let meta_at = 14 + k;
    let mid_at = meta_at + 4 + m;
    lemma_sections(key, gap, meta, middle, cover, audio);
    lemma_number_at(file, 10, k);
    metadata::law_stream_key_round_trip(key);
    lemma_number_at(file, meta_at, m);
    lemma_number_at(file, mid_at + 9, c);
    assert(container::parsed(file) == container::parsed_key(file));
    assert(container::parsed_key(file) == container::parsed_metadata(file, table, meta_at));
}

/// A container without audio is refused, and so is one whose audio shows no format
/// and whose metadata hint at none; each with its own words.
#[verifier::rlimit(40)]
pub proof fn law_audio_that_is_refused(
    key: Seq<u8>,
    gap: Seq<u8>,
    meta: Seq<u8>,
    middle: Seq<u8>,
    cover: Seq<u8>,
    audio: Seq<u8>,
)
    requires
        key.len() > 0,
        gap.len() == 2,
        middle.len() == 9,
        metadata::sealed_key(key).len() <= 1024 * 1024,
        meta.len() <= 16 * 1024 * 1024,
        cover.len() <= u32::MAX,
        sealed_container(key, gap, meta, middle, cover, audio).len() <= u64::MAX,
    ensures
        ({
            let file = sealed_container(key, gap, meta, middle, cover, audio);
            let hint = match metadata::metadata_or_warning(meta).0 {
                Some(m) => m.format_hint,
                None => None,
            };
            &&& audio.len() == 0 ==> container::parsed(file) == Err::<DecoderView, Failure>(
                Failure::Invalid("NCM 文件不包含音频数据"@),
            )
            &&& audio.len() > 0 && audio::detected(audio) == AudioFormat::Unknown && (hint is None
                || audio::hinted(hint->Some_0) == AudioFormat::Unknown) ==> container::parsed(file)
                == Err::<DecoderView, Failure>(
                Failure::Invalid("解密后的音频格式无法识别，且元数据没有可用的格式提示"@),
            )
            &&& audio.len() > 0 && (audio::detected(audio) != AudioFormat::Unknown || hint is Some
                && audio::hinted(hint->Some_0) != AudioFormat::Unknown) ==> container::parsed(file)
                is Ok
        }),
{
    let file = sealed_container(key, gap, meta, middle, cover, audio);
    let table = cipher::key_table(key);
    lemma_sealed_parses(key, gap, meta, middle, cover, audio);
    let start = (31 + metadata::sealed_key(key).len() + meta.len() + cover.len()) as int;
    let s = container::sniff_len(audio.len() as int);
    let head = file.subrange(start, start + s);
    assert(cipher::applied(table, head, 0) == audio.take(s)) by {
        assert(head =~= file.skip(start).take(s));
        cipher::law_involution(table, audio.take(s), 0);
        assert(cipher::applied(table, audio, 0).take(s) =~= cipher::applied(
            table,
            audio.take(s),
            0,
        ));
    }
    lemma_head_shows_all(audio);
}

/// The bytes that are looked at show what all of the audio shows.
proof fn lemma_head_shows_all(audio: Seq<u8>)
    ensures
        audio::detected(audio.take(container::sniff_len(audio.len() as int))) == audio::detected(
            audio,
        ),
{
    let s = container::sniff_len(audio.len() as int);
    if audio.len() < 16 {
        assert(audio.take(s) =~= audio);
    } else {
        audio::law_twelve_bytes_are_enough(audio);
        audio::law_twelve_bytes_are_enough(audio.take(s));
        assert(audio.take(s).take(12) =~= audio.take(12));
    }
}

/// The format of an open container is the one that all of its audio shows, or, if
/// that shows none, the one that the metadata hint at.
#[verifier::rlimit(40)]
pub proof fn law_format_of_opened_container(file: Seq<u8>)
    requires
        container::parsed(file) is Ok,
    ensures
        ({
            let view = container::parsed(file)->Ok_0;
            let shown = audio::detected(container::decoded_audio(view, file));
            if shown != AudioFormat::Unknown {
                view.headers.format == shown
            } else {
                view.headers.metadata matches Some(m) && (m.format_hint matches Some(hint)
                    && view.headers.format == audio::hinted(hint))
            }
        }),
{
    let view = container::parsed(file)->Ok_0;
    law_opened_container(file);
    let n = file.len() as int;
    let start = view.audio_start;
    let audio = container::decoded_audio(view, file);
    let s = container::sniff_len(n - start);
    lemma_head_shows_all(audio);
    assert(audio.take(s) =~= cipher::applied(view.table, file.subrange(start, start + s), 0));
}

/// A file that does not begin with the eight letters `CTENFDAM` is no container.
pub proof fn law_other_files_are_refused(file: Seq<u8>, i: int)
    requires
        8 <= file.len(),
        0 <= i < 8,
        file[i] != "CTENFDAM"@[i] as u8,
    ensures
        container::parsed(file) == Err::<DecoderView, Failure>(
            Failure::Invalid("不是有效的 NCM 文件：文件头不是 CTENFDAM"@),
        ),
{
    reveal_strlit("CTENFDAM");
    assert(MAGIC@ =~= seq![0x43u8, 0x54, 0x45, 0x4e, 0x46, 0x44, 0x41, 0x4d]);
    assert(file.take(8)[i] == file[i]);
    assert(MAGIC@[i] == "CTENFDAM"@[i] as u8);
}

/// Every file that opens is a container: it is made of a key, a metadata section,
/// a cover, bytes between them, and the audio that comes out.
#[verifier::rlimit(40)]
pub proof fn law_opened_is_sealed(file: Seq<u8>) -> (parts: (
    Seq<u8>,
    Seq<u8>,
    Seq<u8>,
    Seq<u8>,
    Seq<u8>,
))
    requires
        container::parsed(file) is Ok,
    ensures
        ({
            let view = container::parsed(file)->Ok_0;
            let (key, gap, meta, middle, cover) = parts;
            &&& key.len() > 0
            &&& gap.len() == 2
            &&& middle.len() == 9
            &&& file == sealed_container(
                key,
                gap,
                meta,
                middle,
                cover,
                container::decoded_audio(view, file),
            )
            &&& view.table == cipher::key_table(key)
            &&& (view.headers.metadata, view.headers.metadata_warning)
                == metadata::metadata_or_warning(meta)
            &&& view.headers.cover_bytes == cover.len()
        }),
{
    let view = container::parsed(file)->Ok_0;
    let n = file.len() as int;
    let len = container::little_endian(file, 10);
    let at = 14 + len;
    let m = container::little_endian(file, at);
    let end = at + 4 + m;
    let c = container::little_endian(file, end + 9);
    let start = end + 13 + c;
    let key = metadata::stream_key(file.subrange(14, at))->Ok_0;
    let gap = file.subrange(8, 10);
    let meta = file.subrange(at + 4, end);
    let middle = file.subrange(end, end + 9);
    let cover = file.subrange(end + 13, start);
    let audio = container::decoded_audio(view, file);
    metadata::law_stream_key_is_sealed(file.subrange(14, at), key);
    assert(view.audio_start == start);
    cipher::law_involution(view.table, file.skip(start), 0);
    lemma_bytes_of_number(file, 10);
    lemma_bytes_of_number(file, at);
    lemma_bytes_of_number(file, end + 9);
    let sealed = metadata::sealed_key(key);
    assert(sealed.len() == len && meta.len() == m && cover.len() == c);
    let f1 = MAGIC@ + gap;
    assert(f1 =~= file.take(10));
    let f2 = f1 + container::little_endian_bytes(sealed.len() as int);
    assert(f2 =~= file.take(14));
    let f3 = f2 + sealed;
    assert(f3 =~= file.take(at));
    let f4 = f3 + container::little_endian_bytes(meta.len() as int);
    assert(f4 =~= file.take(at + 4));
    let f5 = f4 + meta;
    assert(f5 =~= file.take(end));
    let f6 = f5 + middle;
    assert(f6 =~= file.take(end + 9));
    let f7 = f6 + container::little_endian_bytes(cover.len() as int);
    assert(f7 =~= file.take(end + 13));
    let f8 = f7 + cover;
    assert(f8 =~= file.take(start));
    assert(f8 + file.skip(start) =~= file);
    (key, gap, meta, middle, cover)
}

proof fn lemma_bytes_of_number(file: Seq<u8>, at: int)
    requires
        0 <= at,
        at + 4 <= file.len(),
    ensures
        container::little_endian_bytes(container::little_endian(file, at)) == file.subrange(
            at,
            at + 4,
        ),
{
    let n = container::little_endian(file, at);
    let a = file[at];
    let b = file[at + 1];
    let c = file[at + 2];
    let d = file[at + 3];
    assert(n == a + 0x100 * b + 0x10000 * c + 0x1000000 * d);
    assert(n % 0x100 == a);
    assert(n / 0x100 == b + 0x100 * c + 0x10000 * d);
    assert(n / 0x100 % 0x100 == b);
    assert(n / 0x10000 == c + 0x100 * d);
    assert(n / 0x10000 % 0x100 == c);
    assert(n / 0x1000000 == d);
    assert(container::little_endian_bytes(n) =~= file.subrange(at, at + 4));
}

/// What is said of a container that is cut off in front of its audio: which part
/// is cut off, to where it should reach, and how long the file is; inside a number
/// or the eight letters it is an end of the file where none should be.
#[verifier::rlimit(40)]
pub proof fn law_how_truncation_is_told(file: Seq<u8>, n: int)
    requires
        container::parsed(file) is Ok,
        0 <= n <= (container::parsed(file)->Ok_0).audio_start,
        file.len() <= u64::MAX,
    ensures
        ({
            let result = container::parsed(file.take(n));
            let ends_early = result == Err::<DecoderView, Failure>(Failure::Io);
            let says = |name: Seq<char>, end: int|
                result == Err::<DecoderView, Failure>(
                    Failure::Invalid(
                        name + "区被截断：需要到偏移 "@ + text::decimal(end as nat)
                            + "，文件仅 "@ + text::decimal(n as nat) + " 字节"@,
                    ),
                );
            let meta = metadata_start(file);
            let end = metadata_end(file);
            let audio = (container::parsed(file)->Ok_0).audio_start;
            if n < 8 {
                ends_early
            } else if n < 10 {
                says("文件头保留区"@, 10)
            } else if n < 14 {
                ends_early
            } else if n < meta - 4 {
                says("密钥"@, meta - 4)
            } else if n < meta {
                ends_early
            } else if n < end {
                says("元数据"@, end)
            } else if n < end + 4 {
                says("CRC32"@, end + 4)
            } else if n < end + 9 {
                says("封面保留区"@, end + 9)
            } else if n < end + 13 {
                ends_early
            } else if n < audio {
                says("封面数据"@, audio)
            } else {
                result == Err::<DecoderView, Failure>(Failure::Invalid("NCM 文件不包含音频数据"@))
            }
        }),
{
    let g = file.take(n);
    let len = container::little_endian(file, 10);
    let at = 14 + len;
    let table = cipher::key_table(metadata::stream_key(file.subrange(14, at))->Ok_0);
    assert(container::parsed(file) == container::parsed_metadata(file, table, at));
    if n >= 8 {
        assert(g.take(8) =~= file.take(8));
    }
    if n >= 14 {
        lemma_number_in_beginning(file, n, 10);
        if at <= n {
            assert(g.subrange(14, at) =~= file.subrange(14, at));
            assert(container::parsed(g) == container::parsed_metadata(g, table, at));
            if at + 4 <= n {
                lemma_number_in_beginning(file, n, at);
                let m = container::little_endian(file, at);
                let end = at + 4 + m;
                if end <= n {
                    assert(g.subrange(at + 4, end) =~= file.subrange(at + 4, end));
                    if end + 13 <= n {
                        lemma_number_in_beginning(file, n, end + 9);
                    }
                }
            }
        }
    }
}

/// A key section that holds no key decides the failure, whatever follows it.
pub proof fn law_key_faults_decide(file: Seq<u8>)
    requires
        14 <= file.len() <= u64::MAX,
        file.take(8) == MAGIC@,
    ensures
        ({
            let len = container::little_endian(file, 10);
            &&& len > 1024 * 1024 ==> container::parsed(file) == Err::<DecoderView, Failure>(
                Failure::Invalid(
                    "密钥区长度 "@ + text::decimal(len as nat) + " 超过安全上限 1048576"@,
                ),
            )
            &&& len <= 1024 * 1024 && 14 + len <= file.len() ==> (metadata::stream_key(
                file.subrange(14, 14 + len),
            ) matches Err(message) ==> container::parsed(file) == Err::<DecoderView, Failure>(
                Failure::Invalid(message),
            ))
        }),
{
    let len = container::little_endian(file, 10);
    if len > 1024 * 1024 {
        assert(text::decimal(1048576) =~= "1048576"@) by {
            reveal_strlit("1048576");
            reveal_with_fuel(text::decimal, 8);
        }
        reveal_strlit(" 超过安全上限 1048576");
        reveal_strlit(" 超过安全上限 ");
        reveal_strlit("1048576");
        assert(" 超过安全上限 1048576"@ =~= " 超过安全上限 "@ + "1048576"@);
        assert("密钥"@ + "区长度 "@ =~= "密钥区长度 "@) by {
            reveal_strlit("密钥");
            reveal_strlit("区长度 ");
            reveal_strlit("密钥区长度 ");
        }
        let number = text::decimal(len as nat);
        assert("密钥区长度 "@ + number + (" 超过安全上限 "@ + "1048576"@) =~= "密钥区长度 "@ + number
            + " 超过安全上限 "@ + "1048576"@);
    }
}

/// Audio that grows after opening is decoded with what was there: the bytes that
/// are added go on with the key stream, and change nothing in front of them.
pub proof fn law_added_audio(view: DecoderView, file: Seq<u8>, more: Seq<u8>)
    requires
        0 <= view.audio_start <= file.len(),
    ensures
        container::decoded_audio(view, file).len() == file.len() - view.audio_start,
        container::decoded_audio(view, file + more) == container::decoded_audio(view, file)
            + cipher::applied(view.table, more, file.len() - view.audio_start),
{
    assert((file + more).skip(view.audio_start) =~= file.skip(view.audio_start) + more);
    cipher::law_chunk_independence(view.table, file.skip(view.audio_start), more, 0);
}

/// What is known of headers is all that they hold.
pub proof fn law_headers_are_kept_in_full(headers: Headers)
    ensures
        headers@.metadata == metadata::optional_metadata(headers.metadata),
        headers@.metadata_warning == metadata::optional_text(headers.metadata_warning),
        headers@.cover_bytes == headers.cover_bytes,
        headers@.audio_bytes == headers.audio_bytes,
        headers@.format == headers.format,
{
}

/// Audio whose length changed is told with both lengths, the one found on opening
/// first; audio of which nothing is left is empty.
pub proof fn law_changed_length(view: DecoderView, file: Seq<u8>, expected: int, actual: int)
    ensures
        container::length_changed(expected, actual) == "音频长度发生变化：预期 "@ + text::decimal(
            expected as nat,
        ) + " 字节，实际 "@ + text::decimal(actual as nat) + " 字节"@,
        file.len() <= view.audio_start ==> container::decoded_audio(view, file).len() == 0,
{
}

} // verus!
