//! The layout of a container and its reading, piece by piece.
//!
//! Reading is a conversation: an [`Opening`] names the bytes of the file that
//! it needs next, and is fed with them, until a [`Decoder`] comes out. So the
//! file can be of any size and can stand anywhere; only the small sections in
//! front of the audio are ever held in memory. A [`Transfer`] then follows the
//! audio through in chunks.

use crate::ncm::audio;
use crate::ncm::audio::AudioFormat;
use crate::ncm::cipher;
use crate::ncm::cipher::StreamCipher;
use crate::ncm::error::{invalid, Failure, NcmError, Result};
use crate::ncm::metadata;
use crate::ncm::metadata::{Metadata, MetadataView};
use crate::text;
use vstd::prelude::*;

verus! {

/// `CTENFDAM`
pub const MAGIC: [u8; 8] = [0x43, 0x54, 0x45, 0x4e, 0x46, 0x44, 0x41, 0x4d];

/// The largest key section that is accepted.
pub const MAX_KEY_BLOB: u64 = 1048576;

/// The largest metadata section that is accepted.
pub const MAX_META_BLOB: u64 = 16777216;

/// The size of the chunks in which audio is decoded.
pub const STREAM_BUFFER_SIZE: usize = 65536;

/// How much of the audio is looked at to tell its format.
pub const SNIFF_SIZE: u64 = 16;

// ---------------------------------------------------------------------------
// What a container holds
// ---------------------------------------------------------------------------

/// What a container says of itself.
#[derive(Clone, Debug)]
pub struct Headers {
    pub metadata: Option<Metadata>,
    pub metadata_warning: Option<String>,
    pub cover_bytes: u64,
    pub audio_bytes: u64,
    pub format: AudioFormat,
}

/// The values in [`Headers`].
pub struct HeadersView {
    pub metadata: Option<MetadataView>,
    pub metadata_warning: Option<Seq<char>>,
    pub cover_bytes: int,
    pub audio_bytes: int,
    pub format: AudioFormat,
}

impl View for Headers {
    type V = HeadersView;

    open spec fn view(&self) -> HeadersView {
        HeadersView {
            metadata: metadata::optional_metadata(self.metadata),
            metadata_warning: metadata::optional_text(self.metadata_warning),
            cover_bytes: self.cover_bytes as int,
            audio_bytes: self.audio_bytes as int,
            format: self.format,
        }
    }
}

/// A container that has been opened: where its audio begins and how it is decoded.
pub struct Decoder {
    cipher: StreamCipher,
    audio_start: u64,
    headers: Headers,
}

/// The values in a [`Decoder`].
pub struct DecoderView {
    pub table: Seq<u8>,
    pub audio_start: int,
    pub headers: HeadersView,
}

impl View for Decoder {
    type V = DecoderView;

    closed spec fn view(&self) -> DecoderView {
        DecoderView {
            table: self.cipher@,
            audio_start: self.audio_start as int,
            headers: self.headers@,
        }
    }
}

// ---------------------------------------------------------------------------
// Numbers and messages
// ---------------------------------------------------------------------------

/// The number in four bytes at `at`, the lowest byte first.
pub open spec fn little_endian(bytes: Seq<u8>, at: int) -> int {
    bytes[at] + 0x100 * bytes[at + 1] + 0x10000 * bytes[at + 2] + 0x1000000 * bytes[at + 3]
}

/// A number in four bytes, the lowest byte first.
pub open spec fn little_endian_bytes(n: int) -> Seq<u8> {
    seq![
        (n % 0x100) as u8,
        (n / 0x100 % 0x100) as u8,
        (n / 0x10000 % 0x100) as u8,
        (n / 0x1000000 % 0x100) as u8,
    ]
}

/// The message for a section that is larger than is accepted.
pub open spec fn oversized(name: Seq<char>, len: int, max: int) -> Seq<char> {
    name + "区长度 "@ + text::decimal(len as nat) + " 超过安全上限 "@ + text::decimal(max as nat)
}

/// The message for a section that ends behind the largest offset.
pub open spec fn overflowing(name: Seq<char>) -> Seq<char> {
    name + "区偏移溢出"@
}

/// The message for a section that ends at `end`, behind the end of the file.
pub open spec fn cut_off(name: Seq<char>, end: int, file_len: int) -> Seq<char> {
    name + "区被截断：需要到偏移 "@ + text::decimal(end as nat) + "，文件仅 "@ + text::decimal(
        file_len as nat,
    ) + " 字节"@
}

/// The message for a section that is larger than memory can be.
pub open spec fn unloadable(name: Seq<char>) -> Seq<char> {
    name + "区长度无法放入内存"@
}

/// The message for `len` bytes at `position` that the file does not have, if it
/// does not have them.
pub open spec fn lacking(position: int, file_len: int, len: int, name: Seq<char>) -> Option<
    Seq<char>,
> {
    if position + len > u64::MAX {
        Some(overflowing(name))
    } else if position + len > file_len {
        Some(cut_off(name, position + len, file_len))
    } else {
        None
    }
}

/// The message for a section of `len` bytes at `position` that cannot be read
/// into memory, if it cannot.
pub open spec fn unreadable(position: int, file_len: int, len: int, max: int, name: Seq<char>) -> Option<
    Seq<char>,
> {
    if len > max {
        Some(oversized(name, len, max))
    } else if lacking(position, file_len, len, name) is Some {
        lacking(position, file_len, len, name)
    } else if len > usize::MAX {
        Some(unloadable(name))
    } else {
        None
    }
}

/// The message for audio whose length is not the one that was found on opening.
pub open spec fn length_changed(expected: int, actual: int) -> Seq<char> {
    "音频长度发生变化：预期 "@ + text::decimal(expected as nat) + " 字节，实际 "@ + text::decimal(
        actual as nat,
    ) + " 字节"@
}

// ---------------------------------------------------------------------------
// The layout
// ---------------------------------------------------------------------------

/// The format of a container, from the first bytes of its masked audio.
pub open spec fn format_of(table: Seq<u8>, head: Seq<u8>, metadata: Option<MetadataView>) -> AudioFormat {
    audio::chosen(
        audio::detected(cipher::applied(table, head, 0)),
        match metadata {
            Some(m) => m.format_hint,
            None => None,
        },
    )
}

/// How many bytes of the audio are looked at.
pub open spec fn sniff_len(audio_bytes: int) -> int {
    if audio_bytes < SNIFF_SIZE {
        audio_bytes
    } else {
        SNIFF_SIZE as int
    }
}

/// What a file is as a container. In the file follow one another: the magic
/// number and two bytes; the key section with its length in front; the metadata
/// section with its length in front; nine bytes; the cover with its length in
/// front; the audio. The first thing that is missing or wrong decides the
/// failure; a faulty metadata section is none.
pub open spec fn parsed(file: Seq<u8>) -> std::result::Result<DecoderView, Failure> {
    let n = file.len() as int;
    if n < 8 {
        Err(Failure::Io)
    } else if file.take(8) != MAGIC@ {
        Err(Failure::Invalid("不是有效的 NCM 文件：文件头不是 CTENFDAM"@))
    } else if lacking(8, n, 2, "文件头保留区"@) is Some {
        Err(Failure::Invalid(lacking(8, n, 2, "文件头保留区"@)->Some_0))
    } else if n < 14 {
        Err(Failure::Io)
    } else {
        parsed_key(file)
    }
}

/// What a file is as a container, from its key section on.
pub open spec fn parsed_key(file: Seq<u8>) -> std::result::Result<DecoderView, Failure> {
    let n = file.len() as int;
    let len = little_endian(file, 10);
    if unreadable(14, n, len, MAX_KEY_BLOB as int, "密钥"@) is Some {
        Err(Failure::Invalid(unreadable(14, n, len, MAX_KEY_BLOB as int, "密钥"@)->Some_0))
    } else {
        match metadata::stream_key(file.subrange(14, 14 + len)) {
            Err(message) => Err(Failure::Invalid(message)),
            Ok(key) => parsed_metadata(file, cipher::key_table(key), 14 + len),
        }
    }
}

/// What a file is as a container, from the length of its metadata section at
/// `at` on.
pub open spec fn parsed_metadata(file: Seq<u8>, table: Seq<u8>, at: int) -> std::result::Result<
    DecoderView,
    Failure,
> {
    let n = file.len() as int;
    let len = little_endian(file, at);
    if n < at + 4 {
        Err(Failure::Io)
    } else if unreadable(at + 4, n, len, MAX_META_BLOB as int, "元数据"@) is Some {
        Err(
            Failure::Invalid(
                unreadable(at + 4, n, len, MAX_META_BLOB as int, "元数据"@)->Some_0,
            ),
        )
    } else {
        let (metadata, warning) = metadata::metadata_or_warning(
            file.subrange(at + 4, at + 4 + len),
        );
        parsed_cover(file, table, metadata, warning, at + 4 + len)
    }
}

/// What a file is as a container, from the bytes behind its metadata section at
/// `at` on.
pub open spec fn parsed_cover(
    file: Seq<u8>,
    table: Seq<u8>,
    metadata: Option<MetadataView>,
    warning: Option<Seq<char>>,
    at: int,
) -> std::result::Result<DecoderView, Failure> {
    let n = file.len() as int;
    let cover = little_endian(file, at + 9);
    let start = at + 13 + cover;
    if lacking(at, n, 4, "CRC32"@) is Some {
        Err(Failure::Invalid(lacking(at, n, 4, "CRC32"@)->Some_0))
    } else if lacking(at + 4, n, 5, "封面保留区"@) is Some {
        Err(Failure::Invalid(lacking(at + 4, n, 5, "封面保留区"@)->Some_0))
    } else if n < at + 13 {
        Err(Failure::Io)
    } else if lacking(at + 13, n, cover, "封面数据"@) is Some {
        Err(Failure::Invalid(lacking(at + 13, n, cover, "封面数据"@)->Some_0))
    } else if start == n {
        Err(Failure::Invalid("NCM 文件不包含音频数据"@))
    } else {
        let format = format_of(
            table,
            file.subrange(start, start + sniff_len(n - start)),
            metadata,
        );
        if format == AudioFormat::Unknown {
            Err(Failure::Invalid("解密后的音频格式无法识别，且元数据没有可用的格式提示"@))
        } else {
            Ok(
                DecoderView {
                    table,
                    audio_start: start,
                    headers: HeadersView {
                        metadata,
                        metadata_warning: warning,
                        cover_bytes: cover,
                        audio_bytes: n - start,
                        format,
                    },
                },
            )
        }
    }
}

/// The audio that a decoder finds in a file, decoded.
pub open spec fn decoded_audio(decoder: DecoderView, file: Seq<u8>) -> Seq<u8> {
    cipher::applied(
        decoder.table,
        if decoder.audio_start <= file.len() {
            file.skip(decoder.audio_start)
        } else {
            seq![]
        },
        0,
    )
}

// ---------------------------------------------------------------------------
// Code
// ---------------------------------------------------------------------------

/// The number in four bytes, the lowest byte first.
pub fn read_u32(bytes: &[u8]) -> (value: u32)
    requires
        bytes@.len() == 4,
    ensures
        value == little_endian(bytes@, 0),
{
    bytes[0] as u32 + 0x100 * (bytes[1] as u32) + 0x10000 * (bytes[2] as u32) + 0x1000000 * (
    bytes[3] as u32)
}

/// Whether a check passed or failed as a specification says.
pub open spec fn passes<T>(result: Result<T>, fault: Option<Seq<char>>) -> bool {
    match fault {
        None => result is Ok,
        Some(message) => result matches Err(NcmError::Invalid(m)) && m@ == message,
    }
}

/// Checks that the file has `len` bytes at `position`.
pub fn ensure_remaining(position: u64, file_len: u64, len: u64, name: &str) -> (result: Result<()>)
    ensures
        passes(result, lacking(position as int, file_len as int, len as int, name@)),
{
    let end: u64 = match position.checked_add(len) {
        Some(end) => end,
        None => {
            let mut message: String = String::from_str(name);
            message.append("区偏移溢出");
            return invalid(message);
        },
    };
    if end > file_len {
        let mut message: String = String::from_str(name);
        message.append("区被截断：需要到偏移 ");
        message.append(text::decimal_text(end).as_str());
        message.append("，文件仅 ");
        message.append(text::decimal_text(file_len).as_str());
        message.append(" 字节");
        return invalid(message);
    }
    Ok(())
}

/// The position behind `len` bytes that are passed over.
pub fn skip_exact(position: u64, file_len: u64, len: u64, name: &str) -> (next: Result<u64>)
    ensures
        passes(next, lacking(position as int, file_len as int, len as int, name@)),
        next matches Ok(end) ==> end == position + len,
{
    match ensure_remaining(position, file_len, len, name) {
        Ok(()) => Ok(position + len),
        Err(error) => Err(error),
    }
}

/// How many bytes to read for a section of `len` bytes at `position`.
pub fn read_bounded_blob(position: u64, file_len: u64, len: u64, max: u64, name: &str) -> (count:
    Result<usize>)
    ensures
        passes(
            count,
            unreadable(position as int, file_len as int, len as int, max as int, name@),
        ),
        count matches Ok(n) ==> n == len,
{
    if len > max {
        let mut message: String = String::from_str(name);
        message.append("区长度 ");
        message.append(text::decimal_text(len).as_str());
        message.append(" 超过安全上限 ");
        message.append(text::decimal_text(max).as_str());
        return invalid(message);
    }
    match ensure_remaining(position, file_len, len, name) {
        Ok(()) => {},
        Err(error) => return Err(error),
    }
    if len > usize::MAX as u64 {
        let mut message: String = String::from_str(name);
        message.append("区长度无法放入内存");
        return invalid(message);
    }
    Ok(len as usize)
}

impl Decoder {
    /// Puts a decoder together.
    pub(crate) fn assemble(cipher: StreamCipher, audio_start: u64, headers: Headers) -> (decoder:
        Self)
        ensures
            decoder@ == (DecoderView {
                table: cipher@,
                audio_start: audio_start as int,
                headers: headers@,
            }),
    {
        Decoder { cipher, audio_start, headers }
    }

    /// What the container says of itself.
    pub fn headers(&self) -> (headers: &Headers)
        ensures
            headers@ == self@.headers,
    {
        &self.headers
    }

    /// The offset of the audio in the file.
    pub fn audio_start(&self) -> (offset: u64)
        ensures
            offset == self@.audio_start,
    {
        self.audio_start
    }

    /// Decodes the audio of a container held in memory and appends it to
    /// `output`, in chunks. The audio is all that the file has behind the
    /// offset found on opening; if that is not as long as it was then, the
    /// failure says so.
    pub fn decode_to_writer(&self, file: &[u8], output: &mut Vec<u8>) -> (total: Result<u64>)
        ensures
            final(output)@ == old(output)@ + decoded_audio(self@, file@),
            if decoded_audio(self@, file@).len() == self@.headers.audio_bytes {
                total matches Ok(n) && n == decoded_audio(self@, file@).len()
            } else {
                total matches Err(NcmError::Invalid(m)) && m@ == length_changed(
                    self@.headers.audio_bytes,
                    decoded_audio(self@, file@).len() as int,
                )
            },
    {
        let mut transfer: Transfer = Transfer::new();
        let ghost before = output@;
        let ghost audio = decoded_audio(self@, file@);
        let len: usize = file.len();
        let mut position: usize = if self.audio_start > len as u64 {
            len
        } else {
            self.audio_start as usize
        };
        let ghost start = position as int;
        assert(audio =~= cipher::applied(self@.table, file@.skip(start), 0));
        assert(output@ =~= before + audio.take(0));
        while position < len
            invariant
                0 <= start <= position <= len == file@.len(),
                transfer@ == position - start,
                audio == cipher::applied(self@.table, file@.skip(start), 0),
                output@ == before + audio.take(position - start),
            decreases len - position,
        {
            let count: usize = transfer.count();
            let size: usize = if len - position < count {
                len - position
            } else {
                count
            };
            let mut chunk: Vec<u8> = text::to_vec(&file[position..position + size]);
            match transfer.decode_chunk(self, chunk.as_mut_slice()) {
                Ok(()) => {},
                Err(error) => {
                    assert(false);
                    return Err(error);
                },
            }
            proof {
                let done = position - start;
                assert(chunk@ =~= audio.subrange(done, done + size));
                assert(audio.take(done) + audio.subrange(done, done + size) =~= audio.take(
                    done + size,
                ));
            }
            let ghost so_far = output@;
            let ghost piece = chunk@;
            output.append(&mut chunk);
            assert(output@ =~= so_far + piece);
            assert(output@ =~= before + audio.take(position + size - start));
            position = position + size;
        }
        assert(audio.take(len - start) =~= audio);
        transfer.finish(self)
    }
}

/// How far the audio of a container has been decoded.
pub struct Transfer {
    offset: usize,
}

impl View for Transfer {
    type V = int;

    /// The number of bytes decoded so far.
    closed spec fn view(&self) -> int {
        self.offset as int
    }
}

impl Transfer {
    /// Nothing has been decoded yet.
    pub fn new() -> (transfer: Self)
        ensures
            transfer@ == 0,
    {
        Transfer { offset: 0 }
    }

    /// How many bytes of the audio are held at once: as much is wanted next, or
    /// what is left.
    pub fn count(&self) -> (count: usize)
        ensures
            0 < count,
            count == STREAM_BUFFER_SIZE,
    {
        STREAM_BUFFER_SIZE
    }

    /// Decodes the next chunk of the audio in place.
    pub fn decode_chunk(&mut self, decoder: &Decoder, chunk: &mut [u8]) -> (result: Result<()>)
        ensures
            if old(self)@ + old(chunk)@.len() <= usize::MAX {
                &&& result is Ok
                &&& final(chunk)@ == cipher::applied(decoder@.table, old(chunk)@, old(self)@)
                &&& final(self)@ == old(self)@ + old(chunk)@.len()
            } else {
                &&& result matches Err(NcmError::Invalid(m)) && m@ == "音频偏移溢出 usize"@
                &&& final(chunk)@ == old(chunk)@
                &&& final(self)@ == old(self)@
            },
    {
        match self.offset.checked_add(chunk.len()) {
            Some(next) => {
                decoder.cipher.apply(chunk, self.offset);
                self.offset = next;
                Ok(())
            },
            None => invalid(String::from_str("音频偏移溢出 usize")),
        }
    }

    /// Ends the transfer: the number of bytes decoded, if it is the number
    /// found on opening.
    pub fn finish(self, decoder: &Decoder) -> (total: Result<u64>)
        ensures
            if self@ == decoder@.headers.audio_bytes {
                total matches Ok(n) && n == self@
            } else {
                total matches Err(NcmError::Invalid(m)) && m@ == length_changed(
                    decoder@.headers.audio_bytes,
                    self@,
                )
            },
    {
        let total: u64 = self.offset as u64;
        if total != decoder.headers.audio_bytes {
            let mut message: String = String::from_str("音频长度发生变化：预期 ");
            message.append(text::decimal_text(decoder.headers.audio_bytes).as_str());
            message.append(" 字节，实际 ");
            message.append(text::decimal_text(total).as_str());
            message.append(" 字节");
            return invalid(message);
        }
        Ok(total)
    }
}

} // verus!
