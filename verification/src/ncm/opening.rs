//! Opening a container, as a conversation with whoever holds the file.

use crate::ncm::audio::AudioFormat;
use crate::ncm::cipher;
use crate::ncm::cipher::StreamCipher;
use crate::ncm::container;
use crate::ncm::container::{
    Decoder, DecoderView, Headers, HeadersView, MAGIC, MAX_KEY_BLOB, MAX_META_BLOB, SNIFF_SIZE,
};
use crate::ncm::error;
use crate::ncm::error::{invalid, unexpected_end, Failure, NcmError, Result};
use crate::ncm::metadata;
use crate::ncm::metadata::{Metadata, MetadataView};
use crate::text;
use vstd::prelude::*;

verus! {

// ---------------------------------------------------------------------------
// The conversation
// ---------------------------------------------------------------------------

/// What is read next, with what is known so far.
pub enum StageView {
    Magic,
    KeyLength,
    KeyBlob,
    MetaLength { table: Seq<u8> },
    MetaBlob { table: Seq<u8> },
    CoverLength { table: Seq<u8>, metadata: Option<MetadataView>, warning: Option<Seq<char>> },
    Head {
        table: Seq<u8>,
        metadata: Option<MetadataView>,
        warning: Option<Seq<char>>,
        cover_bytes: int,
    },
}

/// The state of an opening: `count` bytes at `offset` are wanted.
pub struct OpeningView {
    pub file_len: int,
    pub offset: int,
    pub count: int,
    pub stage: StageView,
}

/// What feeding an opening leads to.
pub enum StepView {
    More(OpeningView),
    Done(DecoderView),
}

/// The opening of a file of `file_len` bytes, before anything was read.
pub open spec fn started(file_len: int) -> OpeningView {
    OpeningView { file_len, offset: 0, count: 8, stage: StageView::Magic }
}

/// The next request, unless there is a message of something wrong.
pub open spec fn go_on(
    fault: Option<Seq<char>>,
    file_len: int,
    offset: int,
    count: int,
    stage: StageView,
) -> std::result::Result<StepView, Failure> {
    match fault {
        Some(message) => Err(Failure::Invalid(message)),
        None => Ok(StepView::More(OpeningView { file_len, offset, count, stage })),
    }
}

/// The first of two messages that is there.
pub open spec fn first_fault(a: Option<Seq<char>>, b: Option<Seq<char>>) -> Option<Seq<char>> {
    match a {
        Some(message) => Some(message),
        None => b,
    }
}

/// What an opening makes of the bytes that it asked for.
pub open spec fn fed(state: OpeningView, bytes: Seq<u8>) -> std::result::Result<StepView, Failure> {
    let n = state.file_len;
    let at = state.offset;
    let end = state.offset + state.count;
    match state.stage {
        StageView::Magic => if bytes != MAGIC@ {
            Err(Failure::Invalid("不是有效的 NCM 文件：文件头不是 CTENFDAM"@))
        } else {
            go_on(
                container::lacking(end, n, 2, "文件头保留区"@),
                n,
                end + 2,
                4,
                StageView::KeyLength,
            )
        },
        StageView::KeyLength => {
            let len = container::little_endian(bytes, 0);
            go_on(
                container::unreadable(end, n, len, MAX_KEY_BLOB as int, "密钥"@),
                n,
                end,
                len,
                StageView::KeyBlob,
            )
        },
        StageView::KeyBlob => match metadata::stream_key(bytes) {
            Err(message) => Err(Failure::Invalid(message)),
            Ok(key) => go_on(
                None,
                n,
                end,
                4,
                StageView::MetaLength { table: cipher::key_table(key) },
            ),
        },
        StageView::MetaLength { table } => {
            let len = container::little_endian(bytes, 0);
            go_on(
                container::unreadable(end, n, len, MAX_META_BLOB as int, "元数据"@),
                n,
                end,
                len,
                StageView::MetaBlob { table },
            )
        },
        StageView::MetaBlob { table } => {
            let (metadata, warning) = metadata::metadata_or_warning(bytes);
            go_on(
                first_fault(
                    container::lacking(end, n, 4, "CRC32"@),
                    container::lacking(end + 4, n, 5, "封面保留区"@),
                ),
                n,
                end + 9,
                4,
                StageView::CoverLength { table, metadata, warning },
            )
        },
        StageView::CoverLength { table, metadata, warning } => {
            let cover = container::little_endian(bytes, 0);
            go_on(
                first_fault(
                    container::lacking(end, n, cover, "封面数据"@),
                    if end + cover == n {
                        Some("NCM 文件不包含音频数据"@)
                    } else {
                        None
                    },
                ),
                n,
                end + cover,
                container::sniff_len(n - (end + cover)),
                StageView::Head { table, metadata, warning, cover_bytes: cover },
            )
        },
        StageView::Head { table, metadata, warning, cover_bytes } => {
            let format = container::format_of(table, bytes, metadata);
            if format == AudioFormat::Unknown {
                Err(Failure::Invalid("解密后的音频格式无法识别，且元数据没有可用的格式提示"@))
            } else {
                Ok(
                    StepView::Done(
                        DecoderView {
                            table,
                            audio_start: at,
                            headers: HeadersView {
                                metadata,
                                metadata_warning: warning,
                                cover_bytes,
                                audio_bytes: n - at,
                                format,
                            },
                        },
                    ),
                )
            }
        },
    }
}

/// How many answers an opening waits for at most.
pub open spec fn steps_left(stage: StageView) -> nat {
    match stage {
        StageView::Magic => 7,
        StageView::KeyLength => 6,
        StageView::KeyBlob => 5,
        StageView::MetaLength { .. } => 4,
        StageView::MetaBlob { .. } => 3,
        StageView::CoverLength { .. } => 2,
        StageView::Head { .. } => 1,
    }
}

/// What an opening comes to when every request is answered from `file`; a
/// request behind the end of the file fails.
pub open spec fn answered_from(state: OpeningView, file: Seq<u8>) -> std::result::Result<
    DecoderView,
    Failure,
>
    decreases steps_left(state.stage),
{
    if state.offset + state.count > file.len() {
        Err(Failure::Io)
    } else {
        match fed(state, file.subrange(state.offset, state.offset + state.count)) {
            Err(failure) => Err(failure),
            Ok(StepView::Done(decoder)) => Ok(decoder),
            Ok(StepView::More(next)) => answered_from(next, file),
        }
    }
}

/// An opening whose requests are all answered from one file comes to what the
/// layout says of that file.
pub proof fn law_opening_follows_layout(file: Seq<u8>)
    requires
        file.len() <= u64::MAX,
    ensures
        answered_from(started(file.len() as int), file) == container::parsed(file),
{
    let n = file.len() as int;
    let first = started(n);
    if n >= 8 {
        assert(file.subrange(0, 8) =~= file.take(8));
        if file.take(8) == MAGIC@ && n >= 10 {
            let next = OpeningView { file_len: n, offset: 10, count: 4, stage: StageView::KeyLength };
            assert(fed(first, file.subrange(0, 8)) == Ok::<StepView, Failure>(
                StepView::More(next),
            ));
            assert(answered_from(first, file) == answered_from(next, file));
            if n >= 14 {
                lemma_key_stages(file, next);
            }
        }
    }
}

proof fn lemma_key_stages(file: Seq<u8>, state: OpeningView)
    requires
        14 <= file.len() <= u64::MAX,
        state == (OpeningView {
            file_len: file.len() as int,
            offset: 10,
            count: 4,
            stage: StageView::KeyLength,
        }),
    ensures
        answered_from(state, file) == container::parsed_key(file),
{
    let n = file.len() as int;
    let len = container::little_endian(file, 10);
    assert(container::little_endian(file.subrange(10, 14), 0) == len);
    if container::unreadable(14, n, len, MAX_KEY_BLOB as int, "密钥"@) is None {
        let blob = OpeningView { file_len: n, offset: 14, count: len, stage: StageView::KeyBlob };
        assert(answered_from(state, file) == answered_from(blob, file));
        match metadata::stream_key(file.subrange(14, 14 + len)) {
            Ok(key) => {
                let next = OpeningView {
                    file_len: n,
                    offset: 14 + len,
                    count: 4,
                    stage: StageView::MetaLength { table: cipher::key_table(key) },
                };
                lemma_metadata_stages(file, next);
                assert(answered_from(blob, file) == answered_from(next, file));
            },
            Err(_) => {},
        }
    }
}

proof fn lemma_metadata_stages(file: Seq<u8>, state: OpeningView)
    requires
        state.stage is MetaLength,
        state.file_len == file.len(),
        state.count == 4,
        0 <= state.offset,
        file.len() <= u64::MAX,
    ensures
        answered_from(state, file) == container::parsed_metadata(
            file,
            state.stage->MetaLength_table,
            state.offset,
        ),
{
    let n = file.len() as int;
    let at = state.offset;
    let table = state.stage->MetaLength_table;
    if at + 4 <= n {
        let len = container::little_endian(file, at);
        assert(container::little_endian(file.subrange(at, at + 4), 0) == len);
        if container::unreadable(at + 4, n, len, MAX_META_BLOB as int, "元数据"@) is None {
            let blob = OpeningView {
                file_len: n,
                offset: at + 4,
                count: len,
                stage: StageView::MetaBlob { table },
            };
            assert(answered_from(state, file) == answered_from(blob, file));
            let (metadata, warning) = metadata::metadata_or_warning(
                file.subrange(at + 4, at + 4 + len),
            );
            let end = at + 4 + len;
            let next = OpeningView {
                file_len: n,
                offset: end + 9,
                count: 4,
                stage: StageView::CoverLength { table, metadata, warning },
            };
            if container::lacking(end, n, 4, "CRC32"@) is None && container::lacking(
                end + 4,
                n,
                5,
                "封面保留区"@,
            ) is None {
                assert(answered_from(blob, file) == answered_from(next, file));
                lemma_cover_stages(file, next);
            }
        }
    }
}

proof fn lemma_cover_stages(file: Seq<u8>, state: OpeningView)
    requires
        state.stage is CoverLength,
        state.file_len == file.len(),
        state.count == 4,
        9 <= state.offset <= file.len(),
        file.len() <= u64::MAX,
    ensures
        answered_from(state, file) == container::parsed_cover(
            file,
            state.stage->CoverLength_table,
            state.stage->CoverLength_metadata,
            state.stage->CoverLength_warning,
            state.offset - 9,
        ),
{
    let n = file.len() as int;
    let at = state.offset;
    if at + 4 <= n {
        let cover = container::little_endian(file, at);
        assert(container::little_endian(file.subrange(at, at + 4), 0) == cover);
        let start = at + 4 + cover;
        if container::lacking(at + 4, n, cover, "封面数据"@) is None && start != n {
            let head = OpeningView {
                file_len: n,
                offset: start,
                count: container::sniff_len(n - start),
                stage: StageView::Head {
                    table: state.stage->CoverLength_table,
                    metadata: state.stage->CoverLength_metadata,
                    warning: state.stage->CoverLength_warning,
                    cover_bytes: cover,
                },
            };
            assert(answered_from(state, file) == answered_from(head, file));
        }
    }
}

// ---------------------------------------------------------------------------
// Code
// ---------------------------------------------------------------------------

/// What is read next, with what is known so far.
enum Stage {
    Magic,
    KeyLength,
    KeyBlob,
    MetaLength { cipher: StreamCipher },
    MetaBlob { cipher: StreamCipher },
    CoverLength { cipher: StreamCipher, metadata: Option<Metadata>, warning: Option<String> },
    Head {
        cipher: StreamCipher,
        metadata: Option<Metadata>,
        warning: Option<String>,
        cover_bytes: u64,
    },
}

/// A container that is being opened.
pub struct Opening {
    file_len: u64,
    offset: u64,
    count: usize,
    stage: Stage,
}

/// What feeding an [`Opening`] leads to.
pub enum Step {
    /// More of the file is wanted.
    More(Opening),
    /// The container is open.
    Done(Decoder),
}

impl View for Opening {
    type V = OpeningView;

    closed spec fn view(&self) -> OpeningView {
        OpeningView {
            file_len: self.file_len as int,
            offset: self.offset as int,
            count: self.count as int,
            stage: match self.stage {
                Stage::Magic => StageView::Magic,
                Stage::KeyLength => StageView::KeyLength,
                Stage::KeyBlob => StageView::KeyBlob,
                Stage::MetaLength { cipher } => StageView::MetaLength { table: cipher@ },
                Stage::MetaBlob { cipher } => StageView::MetaBlob { table: cipher@ },
                Stage::CoverLength { cipher, metadata, warning } => StageView::CoverLength {
                    table: cipher@,
                    metadata: metadata::optional_metadata(metadata),
                    warning: metadata::optional_text(warning),
                },
                Stage::Head { cipher, metadata, warning, cover_bytes } => StageView::Head {
                    table: cipher@,
                    metadata: metadata::optional_metadata(metadata),
                    warning: metadata::optional_text(warning),
                    cover_bytes: cover_bytes as int,
                },
            },
        }
    }
}

impl View for Step {
    type V = StepView;

    open spec fn view(&self) -> StepView {
        match self {
            Step::More(opening) => StepView::More(opening@),
            Step::Done(decoder) => StepView::Done(decoder@),
        }
    }
}

/// What holds of an opening between two answers.
pub open spec fn is_sound(state: OpeningView) -> bool {
    &&& 0 <= state.file_len <= u64::MAX
    &&& 0 <= state.offset
    &&& state.stage is Magic || state.offset <= state.file_len
    &&& match state.stage {
        StageView::Magic => state.offset == 0 && state.count == 8,
        StageView::KeyBlob => 0 <= state.count <= MAX_KEY_BLOB && state.offset + state.count
            <= state.file_len,
        StageView::MetaBlob { .. } => 0 <= state.count <= MAX_META_BLOB && state.offset
            + state.count <= state.file_len,
        StageView::Head { .. } => state.offset < state.file_len && state.count
            == container::sniff_len(state.file_len - state.offset),
        _ => state.count == 4,
    }
}

/// Whatever a file holds, no request is larger than the largest section that is
/// accepted, sections are asked for only where the file has them, and the
/// conversation ends.
pub proof fn law_requests_are_bounded(state: OpeningView, bytes: Seq<u8>)
    requires
        is_sound(state),
        bytes.len() == state.count,
    ensures
        0 <= state.count <= MAX_META_BLOB,
        state.stage is KeyBlob || state.stage is MetaBlob || state.stage is Head ==> state.offset
            + state.count <= state.file_len,
        fed(state, bytes) matches Ok(StepView::More(next)) ==> {
            &&& is_sound(next)
            &&& next.file_len == state.file_len
            &&& steps_left(next.stage) < steps_left(state.stage)
        },
{
}

impl Opening {
    /// Begins to open a file of `file_len` bytes.
    pub fn start(file_len: u64) -> (opening: Self)
        ensures
            opening@ == started(file_len as int),
            is_sound(opening@),
    {
        Opening { file_len, offset: 0, count: 8, stage: Stage::Magic }
    }

    /// The offset of the bytes that are wanted next.
    pub fn offset(&self) -> (offset: u64)
        ensures
            offset == self@.offset,
    {
        self.offset
    }

    /// The number of the bytes that are wanted next.
    pub fn count(&self) -> (count: usize)
        ensures
            count == self@.count,
    {
        self.count
    }

    /// Takes the bytes that were wanted.
    #[verifier::rlimit(80)]
    pub fn feed(self, bytes: &[u8]) -> (step: Result<Step>)
        requires
            is_sound(self@),
            bytes@.len() == self@.count,
            self@.offset + self@.count <= u64::MAX,
        ensures
            match fed(self@, bytes@) {
                Ok(next) => step matches Ok(s) && s@ == next,
                Err(failure) => step matches Err(e) && e@ == failure,
            },
            step matches Err(e) ==> e is Invalid,
            step matches Ok(Step::More(next)) ==> is_sound(next@) && steps_left(next@.stage)
                < steps_left(self@.stage),
    {
        let file_len: u64 = self.file_len;
        let end: u64 = self.offset + self.count as u64;
        match self.stage {
            Stage::Magic => {
                if !text::same_bytes(bytes, MAGIC.as_slice()) {
                    return invalid(
                        String::from_str("不是有效的 NCM 文件：文件头不是 CTENFDAM"),
                    );
                }
                let offset: u64 = match container::skip_exact(end, file_len, 2, "文件头保留区") {
                    Ok(offset) => offset,
                    Err(error) => return Err(error),
                };
                Ok(Step::More(Opening { file_len, offset, count: 4, stage: Stage::KeyLength }))
            },
            Stage::KeyLength => {
                let len: u64 = container::read_u32(bytes) as u64;
                let count: usize = match container::read_bounded_blob(
                    end,
                    file_len,
                    len,
                    MAX_KEY_BLOB,
                    "密钥",
                ) {
                    Ok(count) => count,
                    Err(error) => return Err(error),
                };
                Ok(Step::More(Opening { file_len, offset: end, count, stage: Stage::KeyBlob }))
            },
            Stage::KeyBlob => {
                let key: Vec<u8> = match metadata::decode_stream_key(bytes) {
                    Ok(key) => key,
                    Err(error) => return Err(error),
                };
                let cipher: StreamCipher = StreamCipher::new(key.as_slice());
                Ok(
                    Step::More(
                        Opening {
                            file_len,
                            offset: end,
                            count: 4,
                            stage: Stage::MetaLength { cipher },
                        },
                    ),
                )
            },
            Stage::MetaLength { cipher } => {
                let len: u64 = container::read_u32(bytes) as u64;
                let count: usize = match container::read_bounded_blob(
                    end,
                    file_len,
                    len,
                    MAX_META_BLOB,
                    "元数据",
                ) {
                    Ok(count) => count,
                    Err(error) => return Err(error),
                };
                Ok(
                    Step::More(
                        Opening { file_len, offset: end, count, stage: Stage::MetaBlob { cipher } },
                    ),
                )
            },
            Stage::MetaBlob { cipher } => {
                let (metadata, warning) = metadata::read_metadata(text::to_vec(bytes));
                let gap: u64 = match container::skip_exact(end, file_len, 4, "CRC32") {
                    Ok(offset) => offset,
                    Err(error) => return Err(error),
                };
                let offset: u64 = match container::skip_exact(gap, file_len, 5, "封面保留区") {
                    Ok(offset) => offset,
                    Err(error) => return Err(error),
                };
                Ok(
                    Step::More(
                        Opening {
                            file_len,
                            offset,
                            count: 4,
                            stage: Stage::CoverLength { cipher, metadata, warning },
                        },
                    ),
                )
            },
            Stage::CoverLength { cipher, metadata, warning } => {
                let cover_bytes: u64 = container::read_u32(bytes) as u64;
                let offset: u64 = match container::skip_exact(
                    end,
                    file_len,
                    cover_bytes,
                    "封面数据",
                ) {
                    Ok(offset) => offset,
                    Err(error) => return Err(error),
                };
                let audio_bytes: u64 = file_len - offset;
                if audio_bytes == 0 {
                    return invalid(String::from_str("NCM 文件不包含音频数据"));
                }
                let count: usize = if audio_bytes < SNIFF_SIZE {
                    audio_bytes as usize
                } else {
                    SNIFF_SIZE as usize
                };
                Ok(
                    Step::More(
                        Opening {
                            file_len,
                            offset,
                            count,
                            stage: Stage::Head { cipher, metadata, warning, cover_bytes },
                        },
                    ),
                )
            },
            Stage::Head { cipher, metadata, warning, cover_bytes } => {
                let mut head: Vec<u8> = text::to_vec(bytes);
                cipher.apply(head.as_mut_slice(), 0);
                let hint: Option<&str> = match &metadata {
                    Some(m) => match &m.format_hint {
                        Some(hint) => Some(hint.as_str()),
                        None => None,
                    },
                    None => None,
                };
                let format: AudioFormat = AudioFormat::choose_format(
                    AudioFormat::detect(head.as_slice()),
                    hint,
                );
                if format == AudioFormat::Unknown {
                    return invalid(
                        String::from_str(
                            "解密后的音频格式无法识别，且元数据没有可用的格式提示",
                        ),
                    );
                }
                let headers: Headers = Headers {
                    metadata,
                    metadata_warning: warning,
                    cover_bytes,
                    audio_bytes: file_len - self.offset,
                    format,
                };
                Ok(Step::Done(Decoder::assemble(cipher, self.offset, headers)))
            },
        }
    }
}

/// What the error shows for a file that ends inside a part of fixed size.
pub open spec fn ended_early() -> Seq<char> {
    "failed to fill whole buffer"@
}

impl Decoder {
    /// Opens a container held in memory.
    pub fn open(file: &[u8]) -> (decoder: Result<Self>)
        ensures
            match container::parsed(file@) {
                Ok(view) => decoder matches Ok(d) && d@ == view,
                Err(failure) => decoder matches Err(e) && e@ == failure,
            },
            decoder matches Err(NcmError::Io(e)) ==> error::shows(&e, ended_early()),
    {
        let file_len: usize = file.len();
        let mut opening: Opening = Opening::start(file_len as u64);
        proof {
            law_opening_follows_layout(file@);
        }
        loop
            invariant
                file_len == file@.len(),
                is_sound(opening@),
                opening@.file_len == file_len,
                answered_from(opening@, file@) == container::parsed(file@),
            decreases steps_left(opening@.stage),
        {
            let offset: u64 = opening.offset();
            let count: usize = opening.count();
            if offset > file_len as u64 || file_len as u64 - offset < count as u64 {
                return Err(NcmError::Io(unexpected_end("failed to fill whole buffer")));
            }
            let from: usize = offset as usize;
            match opening.feed(&file[from..from + count]) {
                Ok(Step::More(next)) => {
                    opening = next;
                },
                Ok(Step::Done(decoder)) => return Ok(decoder),
                Err(error) => return Err(error),
            }
        }
    }
}

} // verus!
