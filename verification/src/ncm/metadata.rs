//! The encrypted sections of a container: the stream key and the metadata.

use crate::aes;
use crate::ncm::base64;
use crate::ncm::error::{invalid, NcmError, Result};
use crate::ncm::json;
use crate::text;
use vstd::prelude::*;
use vstd::utf8::*;

verus! {

/// `hzHRAmso5kInbaxW`
pub const CORE_KEY: [u8; 16] = [
    0x68, 0x7a, 0x48, 0x52, 0x41, 0x6d, 0x73, 0x6f,
    0x35, 0x6b, 0x49, 0x6e, 0x62, 0x61, 0x78, 0x57,
];

/// `#14ljk_!\]&0U<'(`
pub const META_KEY: [u8; 16] = [
    0x23, 0x31, 0x34, 0x6c, 0x6a, 0x6b, 0x5f, 0x21,
    0x5c, 0x5d, 0x26, 0x30, 0x55, 0x3c, 0x27, 0x28,
];

/// `neteasecloudmusic`
pub const KEY_PREFIX: [u8; 17] = [
    0x6e, 0x65, 0x74, 0x65, 0x61, 0x73, 0x65, 0x63,
    0x6c, 0x6f, 0x75, 0x64, 0x6d, 0x75, 0x73, 0x69,
    0x63,
];

/// `163 key(Don't modify):`
pub const META_PREFIX: [u8; 22] = [
    0x31, 0x36, 0x33, 0x20, 0x6b, 0x65, 0x79, 0x28,
    0x44, 0x6f, 0x6e, 0x27, 0x74, 0x20, 0x6d, 0x6f,
    0x64, 0x69, 0x66, 0x79, 0x29, 0x3a,
];

/// `music:`
pub const JSON_PREFIX: [u8; 6] = [0x6d, 0x75, 0x73, 0x69, 0x63, 0x3a];

/// The mask over the stream key section.
pub const KEY_MASK: u8 = 0x64;

/// The mask over the metadata section.
pub const META_MASK: u8 = 0x63;

// ---------------------------------------------------------------------------
// The stream key
// ---------------------------------------------------------------------------

/// The stream key in a key section, or the message of what is wrong with it.
pub open spec fn stream_key(blob: Seq<u8>) -> std::result::Result<Seq<u8>, Seq<char>> {
    match aes::decrypted(CORE_KEY@, text::masked(blob, KEY_MASK)) {
        Err(error) => Err("密钥解密失败："@ + error.spec_message()),
        Ok(plain) => if !text::has_prefix(plain, KEY_PREFIX@) {
            Err("密钥明文缺少 neteasecloudmusic 前缀"@)
        } else if plain.len() == KEY_PREFIX@.len() {
            Err("NCM 流密钥为空"@)
        } else {
            Ok(plain.skip(KEY_PREFIX@.len() as int))
        },
    }
}

/// The key section that carries `key`.
pub open spec fn sealed_key(key: Seq<u8>) -> Seq<u8> {
    text::masked(aes::ecb_encrypt(CORE_KEY@, aes::pkcs7_pad(KEY_PREFIX@ + key)), KEY_MASK)
}

/// A key section gives back the stream key that was put into it.
pub proof fn law_stream_key_round_trip(key: Seq<u8>)
    requires
        key.len() > 0,
    ensures
        stream_key(sealed_key(key)) == Ok::<Seq<u8>, Seq<char>>(key),
{
    let plain = KEY_PREFIX@ + key;
    let locked = aes::ecb_encrypt(CORE_KEY@, aes::pkcs7_pad(plain));
    text::law_mask_twice(locked, KEY_MASK);
    aes::law_decrypt_inverts_encrypt(CORE_KEY@, plain);
    assert(plain.take(KEY_PREFIX@.len() as int) =~= KEY_PREFIX@);
    assert(plain.skip(KEY_PREFIX@.len() as int) =~= key);
}

/// A key section holds a stream key exactly if it is the one that carries it, and
/// a stream key is never empty.
pub proof fn law_stream_key_is_sealed(blob: Seq<u8>, key: Seq<u8>)
    ensures
        stream_key(blob) == Ok::<Seq<u8>, Seq<char>>(key) <==> key.len() > 0 && blob == sealed_key(
            key,
        ),
{
    if key.len() > 0 && blob == sealed_key(key) {
        law_stream_key_round_trip(key);
    }
    if stream_key(blob) == Ok::<Seq<u8>, Seq<char>>(key) {
        let locked = text::masked(blob, KEY_MASK);
        let plain = aes::decrypted(CORE_KEY@, locked)->Ok_0;
        text::law_prefix(KEY_PREFIX@, key, plain);
        assert(plain == KEY_PREFIX@ + key);
        aes::law_accepted_is_encrypted(CORE_KEY@, locked);
        text::law_mask_twice(blob, KEY_MASK);
    }
}

/// What is said of a key section that holds no stream key: why it could not be
/// decrypted, that the words in front of the key are missing, or that nothing is
/// behind them.
pub proof fn law_faults_of_key_section(plain: Seq<u8>, blob: Seq<u8>)
    requires
        blob == text::masked(
            aes::ecb_encrypt(CORE_KEY@, aes::pkcs7_pad(plain)),
            KEY_MASK,
        ),
    ensures
        plain == KEY_PREFIX@ ==> stream_key(blob) == Err::<Seq<u8>, Seq<char>>("NCM 流密钥为空"@),
        !text::has_prefix(plain, KEY_PREFIX@) ==> stream_key(blob) == Err::<Seq<u8>, Seq<char>>(
            "密钥明文缺少 neteasecloudmusic 前缀"@,
        ),
{
    text::law_mask_twice(aes::ecb_encrypt(CORE_KEY@, aes::pkcs7_pad(plain)), KEY_MASK);
    aes::law_decrypt_inverts_encrypt(CORE_KEY@, plain);
    if plain == KEY_PREFIX@ {
        assert(plain.take(plain.len() as int) =~= plain);
    }
}

/// Reads the stream key from a key section.
pub fn decode_stream_key(blob: &[u8]) -> (key: Result<Vec<u8>>)
    ensures
        base64::agrees(key, stream_key(blob@)),
        key matches Ok(k) ==> k@.len() > 0,
{
    let locked: Vec<u8> = text::mask_bytes(blob, KEY_MASK);
    let plain: Vec<u8> = match aes::decrypt_ecb_pkcs7(&CORE_KEY, locked.as_slice()) {
        Ok(plain) => plain,
        Err(error) => {
            let mut message: String = String::from_str("密钥解密失败：");
            message.append(error.message());
            return invalid(message);
        },
    };
    match text::strip_prefix(plain.as_slice(), KEY_PREFIX.as_slice()) {
        None => invalid(String::from_str("密钥明文缺少 neteasecloudmusic 前缀")),
        Some(key) => if key.len() == 0 {
            invalid(String::from_str("NCM 流密钥为空"))
        } else {
            Ok(text::to_vec(key))
        },
    }
}

// ---------------------------------------------------------------------------
// The metadata
// ---------------------------------------------------------------------------

/// What the metadata say of a song.
#[derive(Clone, Debug)]
pub struct Metadata {
    pub raw_json: String,
    pub title: Option<String>,
    pub album: Option<String>,
    pub format_hint: Option<String>,
}

/// The text in [`Metadata`].
pub struct MetadataView {
    pub raw_json: Seq<char>,
    pub title: Option<Seq<char>>,
    pub album: Option<Seq<char>>,
    pub format_hint: Option<Seq<char>>,
}

/// The text of an optional string.
pub open spec fn optional_text(s: Option<String>) -> Option<Seq<char>> {
    match s {
        Some(s) => Some(s@),
        None => None,
    }
}

impl View for Metadata {
    type V = MetadataView;

    open spec fn view(&self) -> MetadataView {
        MetadataView {
            raw_json: self.raw_json@,
            title: optional_text(self.title),
            album: optional_text(self.album),
            format_hint: optional_text(self.format_hint),
        }
    }
}

/// What a JSON text says of a song.
pub open spec fn described(json: Seq<char>) -> MetadataView {
    MetadataView {
        raw_json: json,
        title: json::extracted(json, "musicName"@),
        album: json::extracted(json, "album"@),
        format_hint: json::extracted(json, "format"@),
    }
}

/// The JSON text in a metadata section, or the message of what is wrong with it.
pub open spec fn metadata_json(blob: Seq<u8>) -> std::result::Result<Seq<char>, Seq<char>> {
    let bare = text::masked(blob, META_MASK);
    if !text::has_prefix(bare, META_PREFIX@) {
        Err("元数据缺少 163 key 前缀"@)
    } else {
        match base64::decoded(bare.skip(META_PREFIX@.len() as int)) {
            Err(message) => Err(message),
            Ok(locked) => match aes::decrypted(META_KEY@, locked) {
                Err(error) => Err("元数据 AES 解密失败："@ + error.spec_message()),
                Ok(plain) => if !text::has_prefix(plain, JSON_PREFIX@) {
                    Err("元数据明文缺少 music: 前缀"@)
                } else if !valid_utf8(plain.skip(JSON_PREFIX@.len() as int)) {
                    Err("元数据 JSON 不是 UTF-8"@)
                } else {
                    Ok(decode_utf8(plain.skip(JSON_PREFIX@.len() as int)))
                },
            },
        }
    }
}

/// The metadata section that carries `json`.
pub open spec fn sealed_metadata(json: Seq<char>) -> Seq<u8> {
    let locked = aes::ecb_encrypt(META_KEY@, aes::pkcs7_pad(JSON_PREFIX@ + encode_utf8(json)));
    text::masked(META_PREFIX@ + base64::encoded(locked), META_MASK)
}

/// A metadata section gives back the JSON text that was put into it.
pub proof fn law_metadata_round_trip(json: Seq<char>)
    ensures
        metadata_json(sealed_metadata(json)) == Ok::<Seq<char>, Seq<char>>(json),
{
    let plain = JSON_PREFIX@ + encode_utf8(json);
    let locked = aes::ecb_encrypt(META_KEY@, aes::pkcs7_pad(plain));
    let bare = META_PREFIX@ + base64::encoded(locked);
    text::law_mask_twice(bare, META_MASK);
    assert(bare.take(META_PREFIX@.len() as int) =~= META_PREFIX@);
    assert(bare.skip(META_PREFIX@.len() as int) =~= base64::encoded(locked));
    base64::law_decode_inverts_encode(locked);
    aes::law_decrypt_inverts_encrypt(META_KEY@, plain);
    assert(plain.take(JSON_PREFIX@.len() as int) =~= JSON_PREFIX@);
    assert(plain.skip(JSON_PREFIX@.len() as int) =~= encode_utf8(json));
    encode_utf8_valid_utf8(json);
    encode_utf8_decode_utf8(json);
}

/// A metadata section holds a JSON text exactly if, its mask off, it is the words
/// in front and Base64 of the encryption of that text.
pub proof fn law_metadata_is_sealed(blob: Seq<u8>, json: Seq<char>)
    ensures
        metadata_json(blob) == Ok::<Seq<char>, Seq<char>>(json) <==> {
            let bare = text::masked(blob, 0x63);
            &&& text::has_prefix(bare, META_PREFIX@)
            &&& base64::decoded(bare.skip(META_PREFIX@.len() as int)) == Ok::<Seq<u8>, Seq<char>>(
                aes::ecb_encrypt(META_KEY@, aes::pkcs7_pad(JSON_PREFIX@ + encode_utf8(json))),
            )
        },
{
    let bare = text::masked(blob, META_MASK);
    let e = bare.skip(META_PREFIX@.len() as int);
    let full = JSON_PREFIX@ + encode_utf8(json);
    let locked = aes::ecb_encrypt(META_KEY@, aes::pkcs7_pad(full));
    if metadata_json(blob) == Ok::<Seq<char>, Seq<char>>(json) {
        let data = base64::decoded(e)->Ok_0;
        let plain = aes::decrypted(META_KEY@, data)->Ok_0;
        let tail = plain.skip(JSON_PREFIX@.len() as int);
        text::law_prefix(JSON_PREFIX@, tail, plain);
        decode_utf8_encode_utf8(tail);
        assert(plain == full);
        aes::law_accepted_is_encrypted(META_KEY@, data);
    }
    if text::has_prefix(bare, META_PREFIX@) && base64::decoded(e) == Ok::<Seq<u8>, Seq<char>>(
        locked,
    ) {
        aes::law_decrypt_inverts_encrypt(META_KEY@, full);
        assert(full.take(JSON_PREFIX@.len() as int) =~= JSON_PREFIX@);
        assert(full.skip(JSON_PREFIX@.len() as int) =~= encode_utf8(json));
        encode_utf8_valid_utf8(json);
        encode_utf8_decode_utf8(json);
    }
}

/// What a container says of a song: its title is the member `musicName` of the
/// JSON text, its album the member `album`, its format hint the member `format`,
/// and the text itself is kept.
pub proof fn law_members_of_a_song(json: Seq<char>)
    ensures
        ({
            let m = metadata_or_warning(sealed_metadata(json)).0;
            &&& m is Some
            &&& m->Some_0.raw_json == json
            &&& m->Some_0.title == json::extracted(json, "musicName"@)
            &&& m->Some_0.album == json::extracted(json, "album"@)
            &&& m->Some_0.format_hint == json::extracted(json, "format"@)
        }),
{
    law_sealed_metadata_is_described(json);
}

/// A metadata section gives metadata or a warning and never both; only an empty
/// one gives neither.
pub proof fn law_metadata_or_warning(blob: Seq<u8>)
    ensures
        !(metadata_or_warning(blob).0 is Some && metadata_or_warning(blob).1 is Some),
        metadata_or_warning(blob).0 is None && metadata_or_warning(blob).1 is None <==> blob.len()
            == 0,
        metadata_or_warning(blob).1 is Some ==> forall|json: Seq<char>|
            blob != #[trigger] sealed_metadata(json),
{
    assert forall|json: Seq<char>| metadata_or_warning(blob).1 is Some implies blob
        != #[trigger] sealed_metadata(json) by {
        law_sealed_metadata_is_described(json);
    }
}

/// Reads a metadata section.
pub fn decode_metadata(blob: Vec<u8>) -> (metadata: Result<Metadata>)
    ensures
        match metadata_json(blob@) {
            Ok(json) => metadata matches Ok(m) && m@ == described(json),
            Err(message) => metadata matches Err(NcmError::Invalid(m)) && m@ == message,
        },
{
    let bare: Vec<u8> = text::mask_bytes(blob.as_slice(), META_MASK);
    let encoded: &[u8] = match text::strip_prefix(bare.as_slice(), META_PREFIX.as_slice()) {
        Some(encoded) => encoded,
        None => return invalid(String::from_str("元数据缺少 163 key 前缀")),
    };
    let locked: Vec<u8> = match base64::decode_base64(encoded) {
        Ok(locked) => locked,
        Err(error) => return Err(error),
    };
    let plain: Vec<u8> = match aes::decrypt_ecb_pkcs7(&META_KEY, locked.as_slice()) {
        Ok(plain) => plain,
        Err(error) => {
            let mut message: String = String::from_str("元数据 AES 解密失败：");
            message.append(error.message());
            return invalid(message);
        },
    };
    let body: &[u8] = match text::strip_prefix(plain.as_slice(), JSON_PREFIX.as_slice()) {
        Some(body) => body,
        None => return invalid(String::from_str("元数据明文缺少 music: 前缀")),
    };
    let raw_json: String = match text::utf8_text(text::to_vec(body)) {
        Some(raw_json) => raw_json,
        None => return invalid(String::from_str("元数据 JSON 不是 UTF-8")),
    };
    let title: Option<String> = json::extract_json_string(raw_json.as_str(), "musicName");
    let album: Option<String> = json::extract_json_string(raw_json.as_str(), "album");
    let format_hint: Option<String> = json::extract_json_string(raw_json.as_str(), "format");
    Ok(Metadata { raw_json, title, album, format_hint })
}

/// The metadata of a container and the warning about them: an empty section has
/// neither, a faulty one has a warning only.
pub open spec fn metadata_or_warning(blob: Seq<u8>) -> (Option<MetadataView>, Option<Seq<char>>) {
    if blob.len() == 0 {
        (None, None)
    } else {
        match metadata_json(blob) {
            Ok(json) => (Some(described(json)), None),
            Err(message) => (None, Some(message)),
        }
    }
}

/// A metadata section that carries a JSON text gives what that text says of the
/// song, and no warning.
pub proof fn law_sealed_metadata_is_described(json: Seq<char>)
    ensures
        metadata_or_warning(sealed_metadata(json)) == (
            Some(described(json)),
            None::<Seq<char>>,
        ),
{
    law_metadata_round_trip(json);
}

/// The view of optional metadata.
pub open spec fn optional_metadata(m: Option<Metadata>) -> Option<MetadataView> {
    match m {
        Some(m) => Some(m@),
        None => None,
    }
}

/// What is said of a metadata section that holds no JSON text, by the first thing
/// that is wrong with it: the words in front are missing; it is no Base64; it
/// cannot be decrypted; the word in front of the text is missing; it is no UTF-8.
#[verifier::rlimit(40)]
pub proof fn law_faults_of_metadata_section(blob: Seq<u8>)
    requires
        blob.len() > 0,
    ensures
        ({
            let bare = text::masked(blob, 0x63);
            let encoded = bare.skip(META_PREFIX@.len() as int);
            let warns = |message: Seq<char>|
                metadata_or_warning(blob) == (None::<MetadataView>, Some(message));
            if !text::has_prefix(bare, META_PREFIX@) {
                warns("元数据缺少 163 key 前缀"@)
            } else {
                match base64::decoded(encoded) {
                    Err(message) => warns(message),
                    Ok(locked) => if locked.len() == 0 || locked.len() % 16 != 0 {
                        warns("元数据 AES 解密失败："@ + aes::AesError::Length.spec_message())
                    } else {
                        match aes::pkcs7_unpad(aes::ecb_decrypt(META_KEY@, locked)) {
                            None => warns(
                                "元数据 AES 解密失败："@ + aes::AesError::Padding.spec_message(),
                            ),
                            Some(plain) => if !text::has_prefix(plain, JSON_PREFIX@) {
                                warns("元数据明文缺少 music: 前缀"@)
                            } else if !valid_utf8(plain.skip(JSON_PREFIX@.len() as int)) {
                                warns("元数据 JSON 不是 UTF-8"@)
                            } else {
                                metadata_or_warning(blob).1 is None
                            },
                        }
                    },
                }
            }
        }),
{
}

/// The words of the format, letter by letter, and its two masks.
#[verifier::rlimit(40)]
pub proof fn law_words_of_the_format(i: int)
    ensures
        0 <= i < 16 ==> CORE_KEY@[i] == "hzHRAmso5kInbaxW"@[i] as u8,
        0 <= i < 16 ==> META_KEY@[i] == "#14ljk_!\\]&0U<'("@[i] as u8,
        0 <= i < 17 ==> KEY_PREFIX@[i] == "neteasecloudmusic"@[i] as u8,
        0 <= i < 22 ==> META_PREFIX@[i] == "163 key(Don't modify):"@[i] as u8,
        0 <= i < 6 ==> JSON_PREFIX@[i] == "music:"@[i] as u8,
        KEY_MASK == 0x64,
        META_MASK == 0x63,
{
    reveal_strlit("hzHRAmso5kInbaxW");
    reveal_strlit("#14ljk_!\\]&0U<'(");
    reveal_strlit("neteasecloudmusic");
    reveal_strlit("163 key(Don't modify):");
    reveal_strlit("music:");
}

/// What is known of metadata is all that they hold.
pub proof fn law_metadata_are_kept_in_full(m: Metadata, s: Option<String>)
    ensures
        m@.raw_json == m.raw_json@,
        m@.title == optional_text(m.title),
        m@.album == optional_text(m.album),
        m@.format_hint == optional_text(m.format_hint),
        optional_metadata(Some(m)) == Some(m@),
        optional_metadata(None) is None,
        match s {
            Some(s) => optional_text(Some(s)) == Some(s@),
            None => optional_text(s) is None,
        },
{
}

/// Reads a metadata section; a fault in it becomes a warning.
pub fn read_metadata(blob: Vec<u8>) -> (result: (Option<Metadata>, Option<String>))
    ensures
        (optional_metadata(result.0), optional_text(result.1)) == metadata_or_warning(blob@),
{
    if blob.len() == 0 {
        (None, None)
    } else {
        match decode_metadata(blob) {
            Ok(metadata) => (Some(metadata), None),
            Err(error) => (None, Some(error.message())),
        }
    }
}

} // verus!
