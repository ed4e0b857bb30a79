use uncm::aes::field::{inverse, inverse_substitute, multiply, substitute};
use uncm::aes::{decrypt_ecb_pkcs7, AesError};
use uncm::ncm::base64::base64_value;
use uncm::ncm::{decode_base64, StreamCipher};
use uncm::text;

fn unhex(s: &str) -> Vec<u8> {
    let digits: Vec<u8> = s.bytes().collect();
    digits
        .chunks(2)
        .map(|pair| {
            let high = (pair[0] as char).to_digit(16).unwrap();
            let low = (pair[1] as char).to_digit(16).unwrap();
            (16 * high + low) as u8
        })
        .collect()
}

const KEY: [u8; 16] = [0, 1, 2, 3, 4, 5, 6, 7, 8, 9, 10, 11, 12, 13, 14, 15];

#[test]
fn field_products_and_inverses() {
    assert_eq!(multiply(0x57, 0x83), 0xc1);
    assert_eq!(multiply(0x57, 0x13), 0xfe);
    assert_eq!(inverse(0), 0);
    assert_eq!(inverse(0x53), 0xca);
    for a in 1..=255u8 {
        assert_eq!(multiply(a, inverse(a)), 1);
    }
}

#[test]
fn substitution_values() {
    assert_eq!(substitute(0x00), 0x63);
    assert_eq!(substitute(0x53), 0xed);
    assert_eq!(inverse_substitute(0x63), 0x00);
    for a in 0..=255u8 {
        assert_eq!(inverse_substitute(substitute(a)), a);
        assert_eq!(substitute(inverse_substitute(a)), a);
    }
}

#[test]
fn aes_known_answers() {
    let one = unhex("5d8749e2af7531b2bf6661e9e5daf012");
    assert_eq!(decrypt_ecb_pkcs7(&KEY, &one).unwrap(), b"hello");
    let two = unhex("69c4e0d86a7b0430d8cdb78070b4c55a954f64f2e4e86e9eee82d20216684899");
    assert_eq!(
        decrypt_ecb_pkcs7(&KEY, &two).unwrap(),
        unhex("00112233445566778899aabbccddeeff")
    );
}

#[test]
fn aes_rejects_bad_lengths_and_padding() {
    assert_eq!(decrypt_ecb_pkcs7(&KEY, b""), Err(AesError::Length));
    assert_eq!(decrypt_ecb_pkcs7(&KEY, b"fifteen bytes.."), Err(AesError::Length));
    let unpadded = unhex("69c4e0d86a7b0430d8cdb78070b4c55a");
    assert_eq!(decrypt_ecb_pkcs7(&KEY, &unpadded), Err(AesError::Padding));
    assert_eq!(AesError::Length.message(), "密文长度不是 16 的正整数倍");
    assert_eq!(AesError::Padding.message(), "PKCS#7 填充无效");
}

#[test]
fn base64_vectors() {
    assert_eq!(decode_base64(b"").unwrap(), b"");
    assert_eq!(decode_base64(b"Zg==").unwrap(), b"f");
    assert_eq!(decode_base64(b"Zm8=").unwrap(), b"fo");
    assert_eq!(decode_base64(b"Zm9vYmFy").unwrap(), b"foobar");
}

#[test]
fn base64_ignores_space_and_supplies_padding() {
    assert_eq!(decode_base64(b" Zm9v\r\n\tYmE \x0c").unwrap(), b"fooba");
    assert_eq!(decode_base64(b"Zg").unwrap(), b"f");
    assert_eq!(decode_base64(b"Zg=").unwrap(), b"f");
    assert_eq!(decode_base64(b"+/+/").unwrap(), [0xfb, 0xff, 0xbf]);
    assert_eq!(decode_base64(b"Zh==").unwrap(), b"f");
}

#[test]
fn base64_faults_have_messages() {
    let message = |input: &[u8]| decode_base64(input).unwrap_err().message();
    assert_eq!(message(b"Zm9vY"), "Base64 长度无效");
    assert_eq!(message(b"Zg==Zg=="), "Base64 填充不在末尾");
    assert_eq!(message(b"Zg=v"), "Base64 填充顺序无效");
    assert_eq!(message(b"Zm9*"), "Base64 包含无效字节 0x2a");
    assert_eq!(message(b"=m9v"), "Base64 包含无效字节 0x3d");
    assert_eq!(message(b"Z\x0b9v"), "Base64 包含无效字节 0x0b");
    assert_eq!(base64_value(b'z').unwrap(), 51);
    assert_eq!(base64_value(b'/').unwrap(), 63);
    assert!(base64_value(b'-').is_err());
}

#[test]
fn stream_cipher_is_chunk_independent() {
    let cipher = StreamCipher::new(b"test key material");
    let mut whole = (0..=255).cycle().take(1000).collect::<Vec<_>>();
    let mut chunked = whole.clone();
    cipher.apply(&mut whole, 0);
    cipher.apply(&mut chunked[..333], 0);
    cipher.apply(&mut chunked[333..], 333);
    assert_eq!(whole, chunked);
    cipher.apply(&mut whole, 0);
    assert_eq!(whole, (0..=255).cycle().take(1000).collect::<Vec<_>>());
}

#[test]
fn any_chunks_come_out_alike() {
    let cipher = StreamCipher::new(b"test key material");
    let mut whole: Vec<u8> = (0..=255).cycle().take(1000).collect();
    let mut chunked = whole.clone();
    cipher.apply(&mut whole, 5);
    let mut offset = 0;
    for size in [0, 1, 255, 256, 257, 231] {
        cipher.apply(&mut chunked[offset..offset + size], 5 + offset);
        offset += size;
    }
    assert_eq!(offset, 1000);
    assert_eq!(whole, chunked);
}

#[test]
fn a_key_is_repeated() {
    let apply = |key: &[u8]| {
        let mut bytes = vec![0u8; 300];
        StreamCipher::new(key).apply(&mut bytes, 0);
        bytes
    };
    assert_eq!(apply(b"abc"), apply(b"abcabc"));
    assert_ne!(apply(b"abc"), apply(b"abca"));
    let mut long = vec![7u8; 256];
    long.push(9);
    assert_eq!(apply(&long), apply(&[7]));
}

#[test]
fn base64_is_accepted_or_refused() {
    let accepts = |input: &[u8]| decode_base64(input).is_ok();
    assert!(accepts(b"Z g") && accepts(b"Zg=") && accepts(b"Zg==") && accepts(b"Zm8"));
    assert!(!accepts(b"Z") && !accepts(b"Zg=a") && !accepts(b"Z===") && !accepts(b"===="));
    assert!(!accepts(b"Zg==Zg==") && !accepts(b"Zm9v=") && !accepts(b"Zm9_"));
    assert_eq!(decode_base64(b"Zm9vYg").unwrap().len(), 4);
}

#[test]
fn stream_cipher_known_answer() {
    let cipher = StreamCipher::new(b"E7fT49x7dof9OKCgg9cdvhEuezy3iZCL");
    let mut bytes = b"fLaC".to_vec();
    bytes.extend(0..28u8);
    cipher.apply(&mut bytes, 0);
    assert_eq!(
        bytes,
        unhex("555f93380aae8357521bbbebdeaa78776fd8b395c663dc1570dde7375baef1b8")
    );
}

#[test]
fn key_stream_repeats_every_256_bytes() {
    let cipher = StreamCipher::new(b"k");
    let mut zeros = vec![0u8; 600];
    cipher.apply(&mut zeros, 7);
    assert_eq!(zeros[..256], zeros[256..512]);
    let mut later = vec![0u8; 256];
    cipher.apply(&mut later, 7 + 256);
    assert_eq!(zeros[..256], later[..]);
}

#[test]
fn text_helpers() {
    assert_eq!(text::decimal_text(0), "0");
    assert_eq!(text::decimal_text(10), "10");
    assert_eq!(text::decimal_text(u64::MAX), "18446744073709551615");
    assert_eq!(text::hex_pair_text(0x0f), "0f");
    assert_eq!(text::hex_pair_text(0xa0), "a0");
    assert!(text::same_text("落华", "落华"));
    assert!(!text::same_text("落", "落华"));
    assert!(text::same_bytes(b"abc", b"abc"));
    assert!(!text::same_bytes(b"abc", b"abd"));
    assert_eq!(text::strip_prefix(b"music:{}", b"music:"), Some(&b"{}"[..]));
    assert_eq!(text::strip_prefix(b"musi", b"music:"), None);
    assert!(text::starts_with(b"abc", b""));
    assert_eq!(text::mask_bytes(b"\x00\xff", 0x0f), [0x0f, 0xf0]);
    assert_eq!(text::mask_bytes(&text::mask_bytes(b"twice", 0x63), 0x63), b"twice");
    assert_eq!(text::chars_of("a落"), vec!['a', '落']);
    assert!(text::is_ascii_space(b' ') && !text::is_ascii_space(0x0b));
    assert_eq!(text::to_vec(b"abc"), b"abc");
}
