use base64::engine::general_purpose::URL_SAFE_NO_PAD;
use base64::Engine;
use bundle_diagram::string_utils::{
    edit_document_with, edit_url_with, img_url_with, MermaidRelated,
};
use deflate::write::ZlibEncoder;
use deflate::Compression;
use std::io::Write;

fn zlib(data: &[u8]) -> Vec<u8> {
    let mut encoder = ZlibEncoder::new(Vec::new(), Compression::default());
    encoder.write_all(data).unwrap();
    encoder.finish().unwrap()
}

fn document(code: &str) -> String {
    let mut theme = serde_json::Map::new();
    theme.insert("theme".to_string(), serde_json::Value::String("default".to_string()));
    let mut doc = serde_json::Map::new();
    doc.insert("code".to_string(), serde_json::Value::String(code.to_string()));
    doc.insert("mermaid".to_string(), serde_json::Value::Object(theme));
    serde_json::Value::Object(doc).to_string()
}

#[test]
fn base64_of_text() {
    assert_eq!("hello".to_string().to_base64(), "aGVsbG8");
    assert_eq!("".to_string().to_base64(), "");
    assert_eq!("graph LR\na ---|p| b\n".to_string().to_base64(), "Z3JhcGggTFIKYSAtLS18cHwgYgo");
}

#[test]
fn base64_of_bytes_is_url_safe_and_unpadded() {
    let bytes: &[u8] = &[0xfb, 0xff];
    assert_eq!(bytes.to_base64(), "-_8");
    let bytes: &[u8] = &[0xff, 0xff, 0xfe];
    assert_eq!(bytes.to_base64(), "___-");
    let bytes: &[u8] = b"a";
    assert_eq!(bytes.to_base64(), "YQ");
}

#[test]
fn pako_is_the_zlib_stream_in_base64() {
    let text = "graph LR\na ---|p| b\na ---|p| b\na ---|p| b\n".to_string();
    let expected = URL_SAFE_NO_PAD.encode(zlib(text.as_bytes()));
    assert_eq!(text.to_pako(), expected);
    let bytes: &[u8] = text.as_bytes();
    assert_eq!(bytes.to_pako(), expected);
    assert_ne!(text.to_pako(), text.to_base64());
}

#[test]
fn pako_starts_with_the_zlib_header() {
    let packed = URL_SAFE_NO_PAD.decode("hello".to_string().to_pako()).unwrap();
    assert_eq!(packed[0], 0x78);
    assert_eq!((u32::from(packed[0]) * 256 + u32::from(packed[1])) % 31, 0);
    let n = packed.len();
    // the stream ends with the Adler-32 sum of "hello"
    assert_eq!(&packed[n - 4..], &[0x06, 0x2c, 0x02, 0x15]);
}

#[test]
fn img_url_of_text() {
    assert_eq!("hi".to_string().to_img_url(), "https://mermaid.ink/img/aGk");
    assert_eq!(
        "graph LR\na ---|p| b\n".to_string().to_img_url(),
        "https://mermaid.ink/img/Z3JhcGggTFIKYSAtLS18cHwgYgo"
    );
    assert_eq!(img_url_with("abc"), "https://mermaid.ink/img/abc");
}

#[test]
fn img_url_of_bytes_replaces_invalid_parts() {
    let valid: &[u8] = b"hi";
    assert_eq!(valid.to_img_url(), "https://mermaid.ink/img/aGk");
    let invalid: &[u8] = &[0xff];
    assert_eq!(invalid.to_img_url(), "https://mermaid.ink/img/77-9");
}

#[test]
fn edit_document_frames_the_literal() {
    assert_eq!(
        edit_document_with("\"x\""),
        "{\"code\":\"x\",\"mermaid\":{\"theme\":\"default\"}}"
    );
    assert_eq!(edit_url_with("abc"), "https://mermaid.live/edit#pako:abc");
}

#[test]
fn edit_url_of_text() {
    let code = "graph LR\na ---|\"p\"| b\\c\n".to_string();
    let doc = document(&code);
    assert_eq!(
        doc,
        "{\"code\":\"graph LR\\na ---|\\\"p\\\"| b\\\\c\\n\",\"mermaid\":{\"theme\":\"default\"}}"
    );
    let expected = format!(
        "https://mermaid.live/edit#pako:{}",
        URL_SAFE_NO_PAD.encode(zlib(doc.as_bytes()))
    );
    assert_eq!(code.to_edit_url(), expected);
}

#[test]
fn edit_url_of_bytes() {
    let bytes: &[u8] = &[b'a', 0xff, b'b'];
    let doc = document("a\u{fffd}b");
    let expected = format!(
        "https://mermaid.live/edit#pako:{}",
        URL_SAFE_NO_PAD.encode(zlib(doc.as_bytes()))
    );
    assert_eq!(bytes.to_edit_url(), expected);
}
