use beditor::config::OpenMode;
use beditor::encoding;
use beditor::encoding::TextEncoding;

#[test]
fn detect_utf8_text() {
    let s = "你好，世界\nHello world";
    let bytes = s.as_bytes().to_vec();
    let enc = encoding::detect_encoding(&bytes);
    assert!(
        enc.name() == "UTF-8" || enc.name() == "windows-1252",
        "ASCII+中英混合 UTF-8 应检测为 UTF-8 或兼容子集 (got {})",
        enc.name()
    );
}

#[test]
fn detect_gbk_chinese() {
    let bytes_gbk: Vec<u8> = vec![0xB2, 0xE2, 0xCA, 0xD4, 0xD6, 0xD0, 0xCE, 0xC4];
    let enc = encoding::detect_encoding(&bytes_gbk);
    let _ = enc;
    let decoded = encoding::decode(&bytes_gbk, &TextEncoding::gbk());
    assert_eq!(decoded, "测试中文");
}

#[test]
fn detect_mode_binary_via_nul() {
    let header = b"\x7fELF\x00\x00\x00".to_vec();
    let (mode, _enc) = encoding::detect_mode(&header, Some("out"), OpenMode::Auto);
    assert_eq!(mode, OpenMode::Binary);
}

#[test]
fn detect_mode_text_extension_txt() {
    let header = b"Hello world, no NUL bytes at all".to_vec();
    let (mode, _enc) = encoding::detect_mode(&header, Some("txt"), OpenMode::Auto);
    assert_eq!(mode, OpenMode::Text);
}

#[test]
fn explicit_default_override() {
    let header = b"plain text no NUL".to_vec();
    let (mode, _enc) = encoding::detect_mode(&header, Some("bin"), OpenMode::Binary);
    assert_eq!(mode, OpenMode::Binary, "default_mode=Binary 应强制覆盖扩展名判断");
    let (mode2, _) = encoding::detect_mode(&header, None, OpenMode::Text);
    assert_eq!(mode2, OpenMode::Text);
}

#[test]
fn roundtrip_encode_decode_gbk() {
    let orig = "静夜思：床前明月光，疑是地上霜。";
    let bytes = encoding::encode(orig, &TextEncoding::gbk());
    let back = encoding::decode(&bytes, &TextEncoding::gbk());
    assert_eq!(back, orig);
}

#[test]
fn encoded_bytes_are_those_of_the_encoding() {
    assert_eq!(encoding::encode("中", &TextEncoding::gbk()), vec![0xD6, 0xD0]);
    assert_eq!(encoding::encode("中", &TextEncoding::gb18030()), vec![0xD6, 0xD0]);
    assert_eq!(encoding::encode("中", &TextEncoding::utf_8()), "中".as_bytes().to_vec());
}

#[test]
fn malformed_bytes_are_replaced() {
    assert_eq!(encoding::decode(&[0x61, 0xFF, 0x62], &TextEncoding::utf_8()), "a\u{FFFD}b");
}

#[test]
fn labels_name_encodings() {
    assert_eq!(TextEncoding::for_label("utf8").unwrap().name(), "UTF-8");
    assert_eq!(TextEncoding::for_label("latin1").unwrap().name(), "windows-1252");
    assert!(TextEncoding::for_label("no such encoding").is_none());
    assert_eq!(TextEncoding::gbk().name(), "GBK");
    assert_eq!(TextEncoding::gb18030().name(), "gb18030");
}

#[test]
fn binary_extensions_are_binary() {
    let header = b"no zero byte".to_vec();
    let (mode, _) = encoding::detect_mode(&header, Some("EXE"), OpenMode::Auto);
    assert_eq!(mode, OpenMode::Binary);
    let (mode, _) = encoding::detect_mode(&header, Some("unknown"), OpenMode::Auto);
    assert_eq!(mode, OpenMode::Text);
}
