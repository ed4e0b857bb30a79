use uncm::ncm::container::{ensure_remaining, read_bounded_blob, read_u32, skip_exact};
use uncm::ncm::error::{invalid, io_message};
use uncm::ncm::metadata::{decode_stream_key, read_metadata};
use uncm::ncm::{
    decode_metadata, AudioFormat, Decoder, NcmError, Opening, Step, StreamCipher, Transfer,
};

const STREAM_KEY: &[u8] = b"E7fT49x7dof9OKCgg9cdvhEuezy3iZCL";
const KEY_BLOB: &str = "2cced5eb69eafb14550d45bf61dd171de6a22f6a4bd6dddae5cba6805e3e309179d5c1ed680b799b1ae1c2e087d3353981b2d56df21f9ad0d9c15bb1446a166f";
const META_BLOB: &str = "5255504308061a4b270c0d4417430e0c070a051a4a592e0148124c2529120a57323101242425515b040c061a2248562c0e05345a392102330b252007570a1335132236171b375b511b36141554150b575114075713050b2a255b5b2a2b2253121124152704242614560e571726545a571604042121281507090d2c0a2913130b4c2f192b164816080d0c201b19145101251530330635";
const EMPTY_KEY_BLOB: &str =
    "2cced5eb69eafb14550d45bf61dd171d367f371fc2bbb0a1c746b7511b40636b";
const FOREIGN_KEY_BLOB: &str =
    "45e44a857cf318a95fbfd095498b9f439d08e74304da8d5dcb27de1aed017c13";
const META_NO_JSON: &str = "5255504308061a4b270c0d4417430e0c070a051a4a592d270416220732163551112a07260e0b2431072e3b325e5e";
const META_BAD_TEXT: &str = "5255504308061a4b270c0d4417430e0c070a051a4a591a0619572227524c2d102f2d522c2c13140a06133a325e5e";
const META_UNPADDED: &str = "5255504308061a4b270c0d4417430e0c070a051a4a5936010e521b2e330e055556215017323a2d3a24533322";
const META_BAD_PADDING: &str = "5255504308061a4b270c0d4417430e0c070a051a4a59222222222222222222222222222222222222222222225e5e";
const META_MP3: &str = "5255504308061a4b270c0d4417430e0c070a051a4a593552192d361b1148350b504c2b363a20272057542a05101b20151231252e24082148504c0237152d1154325e";

fn unhex(s: &str) -> Vec<u8> {
    let digits: Vec<u8> = s.bytes().collect();
    digits
        .chunks(2)
        .map(|pair| {
            let high = (pair[0] as char).to_digit(16).unwrap();
            let low = (pair[1] as char).to_digit(16).unwrap();
            (16 * high + low) as u8
        })
        .collect()
}

fn build(key_blob: &[u8], meta: &[u8], cover: &[u8], masked: &[u8]) -> Vec<u8> {
    let mut file = b"CTENFDAM\x01\x70".to_vec();
    file.extend((key_blob.len() as u32).to_le_bytes());
    file.extend(key_blob);
    file.extend((meta.len() as u32).to_le_bytes());
    file.extend(meta);
    file.extend([0xcc; 9]);
    file.extend((cover.len() as u32).to_le_bytes());
    file.extend(cover);
    file.extend(masked);
    file
}

fn masked(audio: &[u8]) -> Vec<u8> {
    let mut bytes = audio.to_vec();
    StreamCipher::new(STREAM_KEY).apply(&mut bytes, 0);
    bytes
}

fn failure(file: &[u8]) -> String {
    match Decoder::open(file) {
        Ok(_) => panic!("opened"),
        Err(error) => error.message(),
    }
}

#[test]
fn opens_and_decodes_a_container() {
    let mut audio = b"fLaC".to_vec();
    audio.extend(0..28u8);
    let body = unhex("555f93380aae8357521bbbebdeaa78776fd8b395c663dc1570dde7375baef1b8");
    let file = build(&unhex(KEY_BLOB), &unhex(META_BLOB), b"a cover", &body);
    let decoder = Decoder::open(&file).unwrap();
    let headers = decoder.headers();
    let metadata = headers.metadata.as_ref().unwrap();
    assert_eq!(metadata.title.as_deref(), Some("落华\nLive"));
    assert_eq!(metadata.album.as_deref(), Some("A 中文"));
    assert_eq!(metadata.format_hint.as_deref(), Some("flac"));
    assert!(metadata.raw_json.ends_with("\"bitrate\":320000}"));
    assert_eq!(headers.metadata_warning, None);
    assert_eq!(headers.cover_bytes, 7);
    assert_eq!(headers.audio_bytes, 32);
    assert_eq!(headers.format, AudioFormat::Flac);
    assert_eq!(decoder.audio_start(), file.len() as u64 - 32);
    let mut output = b"before".to_vec();
    assert_eq!(decoder.decode_to_writer(&file, &mut output).unwrap(), 32);
    assert_eq!(output[..6], b"before"[..]);
    assert_eq!(output[6..], audio[..]);
}

#[test]
fn decodes_audio_longer_than_a_chunk() {
    let mut audio = b"ID3".to_vec();
    audio.extend((0..200_000u32).map(|i| (i % 251) as u8));
    let file = build(&unhex(KEY_BLOB), b"", b"", &masked(&audio));
    let decoder = Decoder::open(&file).unwrap();
    assert!(decoder.headers().metadata.is_none());
    assert_eq!(decoder.headers().metadata_warning, None);
    let mut output = Vec::new();
    assert_eq!(decoder.decode_to_writer(&file, &mut output).unwrap(), audio.len() as u64);
    assert_eq!(output, audio);
}

#[test]
fn notices_audio_that_changed_its_length() {
    let file = build(&unhex(KEY_BLOB), b"", b"", &masked(b"ID3 and more"));
    let decoder = Decoder::open(&file).unwrap();
    let mut output = Vec::new();
    let error = decoder.decode_to_writer(&file[..file.len() - 2], &mut output).unwrap_err();
    assert_eq!(error.message(), "音频长度发生变化：预期 12 字节，实际 10 字节");
    assert_eq!(output, b"ID3 and mo");
    let error = decoder.decode_to_writer(b"", &mut Vec::new()).unwrap_err();
    assert_eq!(error.message(), "音频长度发生变化：预期 12 字节，实际 0 字节");
}

#[test]
fn faulty_metadata_is_a_warning() {
    let audio = masked(b"OggS...");
    let file = build(&unhex(KEY_BLOB), b"no metadata", b"", &audio);
    let decoder = Decoder::open(&file).unwrap();
    assert!(decoder.headers().metadata.is_none());
    assert_eq!(
        decoder.headers().metadata_warning.as_deref(),
        Some("元数据缺少 163 key 前缀")
    );
    assert_eq!(decoder.headers().format, AudioFormat::Ogg);
    let mut output = Vec::new();
    decoder.decode_to_writer(&file, &mut output).unwrap();
    assert_eq!(output, b"OggS...");
}

#[test]
fn format_hint_fills_in() {
    let audio = masked(b"strange audio of no known kind");
    let file = build(&unhex(KEY_BLOB), &unhex(META_MP3), b"", &audio);
    let decoder = Decoder::open(&file).unwrap();
    assert_eq!(decoder.headers().format, AudioFormat::Mp3);
    let flac = build(&unhex(KEY_BLOB), &unhex(META_MP3), b"", &masked(b"fLaC"));
    assert_eq!(Decoder::open(&flac).unwrap().headers().format, AudioFormat::Flac);
    let file = build(&unhex(KEY_BLOB), b"", b"", &audio);
    assert_eq!(
        failure(&file),
        "解密后的音频格式无法识别，且元数据没有可用的格式提示"
    );
}

#[test]
fn rejects_truncated_container_without_panicking() {
    let result = Decoder::open(b"CTENFDAM");
    assert!(result.is_err());
}

#[test]
fn every_truncation_is_rejected() {
    let audio = masked(b"fLaC....");
    let file = build(&unhex(KEY_BLOB), &unhex(META_BLOB), b"cover", &audio);
    let start = file.len() - audio.len();
    for n in 0..=start {
        assert!(Decoder::open(&file[..n]).is_err());
    }
    assert!(Decoder::open(&file).is_ok());
}

#[test]
fn failures_of_opening() {
    let key = unhex(KEY_BLOB);
    assert!(matches!(Decoder::open(b"CTEN"), Err(NcmError::Io(_))));
    assert!(failure(b"CTEN").starts_with("I/O 错误: "));
    assert_eq!(failure(b"CTENFDAX"), "不是有效的 NCM 文件：文件头不是 CTENFDAM");
    assert_eq!(
        failure(b"CTENFDAM"),
        "文件头保留区区被截断：需要到偏移 10，文件仅 8 字节"
    );
    assert!(matches!(Decoder::open(b"CTENFDAM..\x01"), Err(NcmError::Io(_))));
    assert_eq!(
        failure(b"CTENFDAM..\x01\x00\x10\x00"),
        "密钥区长度 1048577 超过安全上限 1048576"
    );
    assert_eq!(
        failure(b"CTENFDAM..\x00\x00\x10\x00"),
        "密钥区被截断：需要到偏移 1048590，文件仅 14 字节"
    );
    assert_eq!(
        failure(b"CTENFDAM..\x00\x00\x00\x00"),
        "密钥解密失败：密文长度不是 16 的正整数倍"
    );
    let mut file = build(&key, b"", b"", b"");
    assert_eq!(failure(&file), "NCM 文件不包含音频数据");
    file.truncate(14 + key.len());
    assert!(matches!(Decoder::open(&file), Err(NcmError::Io(_))));
    file.extend([1, 0, 0, 1]);
    assert_eq!(failure(&file), "元数据区长度 16777217 超过安全上限 16777216");
    file.truncate(14 + key.len());
    file.extend([1, 0, 0, 0]);
    assert_eq!(failure(&file), "元数据区被截断：需要到偏移 83，文件仅 82 字节");
    file.truncate(14 + key.len());
    file.extend([0, 0, 0, 0]);
    assert_eq!(failure(&file), "CRC32区被截断：需要到偏移 86，文件仅 82 字节");
    file.extend([0; 4]);
    assert_eq!(failure(&file), "封面保留区区被截断：需要到偏移 91，文件仅 86 字节");
    file.extend([0; 5]);
    assert!(matches!(Decoder::open(&file), Err(NcmError::Io(_))));
    file.extend([255; 4]);
    assert_eq!(
        failure(&file),
        "封面数据区被截断：需要到偏移 4294967390，文件仅 95 字节"
    );
}

#[test]
fn failures_of_the_stream_key() {
    let message = |blob: &[u8]| decode_stream_key(blob).unwrap_err().message();
    assert_eq!(decode_stream_key(&unhex(KEY_BLOB)).unwrap(), STREAM_KEY);
    assert_eq!(message(&unhex(EMPTY_KEY_BLOB)), "NCM 流密钥为空");
    assert_eq!(
        message(&unhex(FOREIGN_KEY_BLOB)),
        "密钥明文缺少 neteasecloudmusic 前缀"
    );
    assert_eq!(message(b"123"), "密钥解密失败：密文长度不是 16 的正整数倍");
    assert_eq!(message(&[0x64; 16]), "密钥解密失败：PKCS#7 填充无效");
}

#[test]
fn failures_of_the_metadata() {
    let message = |blob: Vec<u8>| decode_metadata(blob).unwrap_err().message();
    assert_eq!(message(b"".to_vec()), "元数据缺少 163 key 前缀");
    assert_eq!(message(unhex(META_NO_JSON)), "元数据明文缺少 music: 前缀");
    assert_eq!(message(unhex(META_BAD_TEXT)), "元数据 JSON 不是 UTF-8");
    assert_eq!(
        message(unhex(META_BAD_PADDING)),
        "元数据 AES 解密失败：PKCS#7 填充无效"
    );
    let mut blob = unhex(META_BLOB);
    blob.truncate(22);
    assert_eq!(
        message(blob.clone()),
        "元数据 AES 解密失败：密文长度不是 16 的正整数倍"
    );
    blob.push(b'*' ^ 0x63);
    blob.push(b'*' ^ 0x63);
    assert_eq!(message(blob), "Base64 包含无效字节 0x2a");
    assert_eq!(decode_metadata(unhex(META_UNPADDED)).unwrap().raw_json, "{}");
    let (metadata, warning) = read_metadata(Vec::new());
    assert!(metadata.is_none() && warning.is_none());
}

#[test]
fn an_opening_asks_for_what_it_needs() {
    let audio = masked(b"fLaC.");
    let file = build(&unhex(KEY_BLOB), &unhex(META_BLOB), b"cover", &audio);
    let mut opening = Opening::start(file.len() as u64);
    let mut asked = Vec::new();
    let decoder = loop {
        let from = opening.offset() as usize;
        let count = opening.count();
        asked.push((from, count));
        match opening.feed(&file[from..from + count]).unwrap() {
            Step::More(next) => opening = next,
            Step::Done(decoder) => break decoder,
        }
    };
    let meta = unhex(META_BLOB).len();
    assert_eq!(
        asked,
        vec![
            (0, 8),
            (10, 4),
            (14, 64),
            (78, 4),
            (82, meta),
            (91 + meta, 4),
            (100 + meta, 5)
        ]
    );
    let mut transfer = Transfer::new();
    assert_eq!(transfer.count(), 64 * 1024);
    let mut first = audio[..2].to_vec();
    let mut second = audio[2..].to_vec();
    transfer.decode_chunk(&decoder, &mut first).unwrap();
    transfer.decode_chunk(&decoder, &mut second).unwrap();
    assert_eq!(transfer.finish(&decoder).unwrap(), 5);
    assert_eq!([first, second].concat(), b"fLaC.");
}

#[test]
fn passed_over_bytes_do_not_matter() {
    let audio = masked(b"RIFF....WAVE and sound");
    let file = build(&unhex(KEY_BLOB), &unhex(META_BLOB), b"a cover", &audio);
    let first = Decoder::open(&file).unwrap();
    let mut expected = Vec::new();
    first.decode_to_writer(&file, &mut expected).unwrap();
    let behind_metadata = 82 + unhex(META_BLOB).len();
    let cover = behind_metadata + 13;
    let mut other = file.clone();
    for i in (8..10).chain(behind_metadata..behind_metadata + 9).chain(cover..cover + 7) {
        other[i] = !other[i];
    }
    let second = Decoder::open(&other).unwrap();
    let mut output = Vec::new();
    second.decode_to_writer(&other, &mut output).unwrap();
    assert_eq!(output, expected);
    assert_eq!(format!("{:?}", second.headers()), format!("{:?}", first.headers()));
    assert_eq!(second.audio_start(), first.audio_start());
    assert_eq!(failure(&other[..cover + 7]), failure(&file[..cover + 7]));
}

#[test]
fn bounds_of_sections() {
    assert_eq!(read_u32(&[0x78, 0x56, 0x34, 0x12]), 0x12345678);
    assert_eq!(skip_exact(8, 10, 2, "x").unwrap(), 10);
    assert_eq!(
        ensure_remaining(u64::MAX, u64::MAX, 1, "封面数据").unwrap_err().message(),
        "封面数据区偏移溢出"
    );
    assert_eq!(read_bounded_blob(14, 100, 64, 64, "密钥").unwrap(), 64);
    assert_eq!(
        read_bounded_blob(14, 100, 65, 64, "密钥").unwrap_err().message(),
        "密钥区长度 65 超过安全上限 64"
    );
    assert_eq!(
        read_bounded_blob(14, 77, 64, 64, "密钥").unwrap_err().message(),
        "密钥区被截断：需要到偏移 78，文件仅 77 字节"
    );
    assert_eq!(
        read_bounded_blob(14, 100, u64::MAX, u64::MAX, "密钥").unwrap_err().message(),
        "密钥区偏移溢出"
    );
    assert_eq!(read_bounded_blob(0, 1 << 40, 1 << 20, 1 << 40, "密钥").unwrap(), 1 << 20);
}

#[test]
fn errors_have_messages() {
    let error = NcmError::from(std::io::Error::new(std::io::ErrorKind::Other, "disk"));
    assert_eq!(error.message(), "I/O 错误: disk");
    assert_eq!(io_message("x"), "I/O 错误: x");
    assert_eq!(failure(b"CTEN"), "I/O 错误: failed to fill whole buffer");
    assert_eq!(invalid::<()>("坏".to_string()).unwrap_err().message(), "坏");
    match Decoder::open(b"") {
        Err(NcmError::Io(error)) => {
            assert_eq!(error.kind(), std::io::ErrorKind::UnexpectedEof)
        }
        _ => panic!("no end of file"),
    }
}
