use uncm::ncm::json::{parse_hex4, parse_json_string};
use uncm::ncm::{extract_json_string, AudioFormat};

#[test]
fn detects_audio_formats() {
    assert_eq!(AudioFormat::detect(b"ID3anything"), AudioFormat::Mp3);
    assert_eq!(AudioFormat::detect(b"fLaCanything"), AudioFormat::Flac);
    assert_eq!(AudioFormat::detect(b"....ftypanything"), AudioFormat::M4a);
    assert_eq!(AudioFormat::detect(b"RIFF....WAVE"), AudioFormat::Wav);
    assert_eq!(AudioFormat::detect(b"OggSanything"), AudioFormat::Ogg);
}

#[test]
fn detects_mpeg_frames_and_nothing_else() {
    assert_eq!(AudioFormat::detect(&[0xff, 0xfb]), AudioFormat::Mp3);
    assert_eq!(AudioFormat::detect(&[0xff, 0xe0]), AudioFormat::Mp3);
    assert_eq!(AudioFormat::detect(&[0xff, 0xdf]), AudioFormat::Unknown);
    assert_eq!(AudioFormat::detect(&[0xff]), AudioFormat::Unknown);
    assert_eq!(AudioFormat::detect(b""), AudioFormat::Unknown);
    assert_eq!(AudioFormat::detect(b"RIFF....WAV"), AudioFormat::Unknown);
    assert_eq!(AudioFormat::detect(b"RIFF....AVI "), AudioFormat::Unknown);
    assert_eq!(AudioFormat::detect(b"fLa"), AudioFormat::Unknown);
}

#[test]
fn hints_ignore_case_and_space() {
    assert_eq!(AudioFormat::from_hint("mp3"), AudioFormat::Mp3);
    assert_eq!(AudioFormat::from_hint(" \u{3000}FLAC\n"), AudioFormat::Flac);
    assert_eq!(AudioFormat::from_hint("m4a"), AudioFormat::M4a);
    assert_eq!(AudioFormat::from_hint("Mp4"), AudioFormat::M4a);
    assert_eq!(AudioFormat::from_hint("AAC\u{a0}"), AudioFormat::M4a);
    assert_eq!(AudioFormat::from_hint("\u{85}wav"), AudioFormat::Wav);
    assert_eq!(AudioFormat::from_hint("ogg"), AudioFormat::Ogg);
    assert_eq!(AudioFormat::from_hint("OGA"), AudioFormat::Ogg);
    assert_eq!(AudioFormat::from_hint("m p3"), AudioFormat::Unknown);
    assert_eq!(AudioFormat::from_hint("\u{200b}mp3"), AudioFormat::Unknown);
    assert_eq!(AudioFormat::from_hint("   "), AudioFormat::Unknown);
}

#[test]
fn hint_white_space_is_that_of_std() {
    for code in 0..=0x10ffffu32 {
        if let Some(c) = char::from_u32(code) {
            if c.is_whitespace() {
                let hint: String = [c, 'm', 'p', '3', c].iter().collect();
                assert_eq!(AudioFormat::from_hint(&hint), AudioFormat::Mp3);
            }
        }
    }
    for code in 0..0x3100u32 {
        if let Some(c) = char::from_u32(code) {
            let hint: String = [c, 'm', 'p', '3'].iter().collect();
            let found = AudioFormat::from_hint(&hint) == AudioFormat::Mp3;
            assert_eq!(found, c.is_whitespace());
        }
    }
}

#[test]
fn hints_are_only_a_fallback() {
    let choose = AudioFormat::choose_format;
    assert_eq!(choose(AudioFormat::Flac, Some("mp3")), AudioFormat::Flac);
    assert_eq!(choose(AudioFormat::Unknown, Some("mp3")), AudioFormat::Mp3);
    assert_eq!(choose(AudioFormat::Unknown, Some("?")), AudioFormat::Unknown);
    assert_eq!(choose(AudioFormat::Unknown, None), AudioFormat::Unknown);
}

#[test]
fn extensions() {
    assert_eq!(AudioFormat::Mp3.extension(), "mp3");
    assert_eq!(AudioFormat::Flac.extension(), "flac");
    assert_eq!(AudioFormat::M4a.extension(), "m4a");
    assert_eq!(AudioFormat::Wav.extension(), "wav");
    assert_eq!(AudioFormat::Ogg.extension(), "ogg");
    assert_eq!(AudioFormat::Unknown.extension(), "bin");
}

#[test]
fn extracts_escaped_json_strings() {
    let json = r#"{"musicName":"落华\nLive","album":"A \u4e2d\u6587","format":"flac"}"#;
    assert_eq!(
        extract_json_string(json, "musicName").as_deref(),
        Some("落华\nLive")
    );
    assert_eq!(
        extract_json_string(json, "album").as_deref(),
        Some("A 中文")
    );
    assert_eq!(extract_json_string(json, "format").as_deref(), Some("flac"));
}

#[test]
fn extracts_the_first_member_with_a_string() {
    let json = r#"{"a":["format"],"format" : 3, "format" : "ogg", "format":"mp3"}"#;
    assert_eq!(extract_json_string(json, "format").as_deref(), Some("ogg"));
    assert_eq!(extract_json_string(json, "album"), None);
    assert_eq!(extract_json_string("", "album"), None);
    assert_eq!(extract_json_string(r#"{"x":"#, "x"), None);
    assert_eq!(extract_json_string(r#"{"x" "#, "x"), None);
    assert_eq!(extract_json_string("{\"x\"\t:\r\n\"y\"}", "x").as_deref(), Some("y"));
    assert_eq!(extract_json_string(r#"{"":"empty"}"#, "").as_deref(), Some("empty"));
    assert_eq!(extract_json_string(r#""f"f":"x""#, "f"), None);
    assert_eq!(extract_json_string(r#"{"标题":"值"}"#, "标题").as_deref(), Some("值"));
}

#[test]
fn all_escapes() {
    let text = |s: &str| parse_json_string(s.as_bytes(), 0);
    assert_eq!(
        text(r#""\"\\\/\b\f\n\r\t""#).as_deref(),
        Some("\"\\/\u{8}\u{c}\n\r\t")
    );
    assert_eq!(text(r#""\ud83c\udfb5""#).as_deref(), Some("🎵"));
    assert_eq!(text(r#""\u00E9\u0041""#).as_deref(), Some("éA"));
    assert_eq!(text(r#""""#).as_deref(), Some(""));
    assert_eq!(text(r#""\x""#), None);
    assert_eq!(text(r#""\u12g4""#), None);
    assert_eq!(text(r#""\u12"#), None);
    assert_eq!(text(r#""\ud83c""#), None);
    assert_eq!(text(r#""\ud83c\n""#), None);
    assert_eq!(text(r#""\ud83c\u0041""#), None);
    assert_eq!(text(r#""\udfb5""#), None);
    assert_eq!(text("\"open"), None);
    assert_eq!(text("\"\\"), None);
    assert_eq!(text("\"a\nb\""), None);
    assert_eq!(text("\"\u{7f}\"").as_deref(), Some("\u{7f}"));
    assert_eq!(parse_json_string(b"\"\xff\"", 0), None);
    assert_eq!(parse_json_string(b"x\"ok\"", 1).as_deref(), Some("ok"));
    assert_eq!(parse_json_string(b"x", 9), None);
}

#[test]
fn escaped_text_is_read_back() {
    let original = "quote \" slash \\ control \u{1} 落华 🎵";
    let mut written = String::from("\"");
    for c in original.chars() {
        match c {
            '"' => written.push_str("\\\""),
            '\\' => written.push_str("\\\\"),
            c if (c as u32) < 0x20 => written.push_str(&format!("\\u{:04x}", c as u32)),
            c => written.push(c),
        }
    }
    written.push('"');
    assert_eq!(parse_json_string(written.as_bytes(), 0).as_deref(), Some(original));
}

#[test]
fn every_character_is_read_back_from_its_number() {
    let original = "/\"\\ \u{8}\u{c}\n\r\t\u{0}\u{1f}aé中\u{d7ff}\u{e000}\u{ffff}\u{10000}🎵\u{10ffff}";
    let mut small = String::from("\"");
    let mut large = String::from("\"");
    for unit in original.encode_utf16() {
        small.push_str(&format!("\\u{unit:04x}"));
        large.push_str(&format!("\\u{unit:04X}"));
    }
    small.push('"');
    large.push('"');
    assert_eq!(parse_json_string(small.as_bytes(), 0).as_deref(), Some(original));
    assert_eq!(parse_json_string(large.as_bytes(), 0).as_deref(), Some(original));
}

#[test]
fn hexadecimal_numbers() {
    assert_eq!(parse_hex4(b"4e2d", 0), Some(0x4e2d));
    assert_eq!(parse_hex4(b"xFfFf", 1), Some(0xffff));
    assert_eq!(parse_hex4(b"000", 0), None);
    assert_eq!(parse_hex4(b"00g0", 0), None);
    assert_eq!(parse_hex4(b"0000", usize::MAX), None);
}
