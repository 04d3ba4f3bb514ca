//! Shareable links for a diagram text: an image link that carries the
//! text in base64, and an editor link that carries a small JSON
//! document, compressed and in base64.
use vstd::prelude::*;
use vstd::string::*;
use vstd::utf8::encode_utf8;
use base64::engine::general_purpose::URL_SAFE_NO_PAD;
use base64::Engine;
use deflate::write::ZlibEncoder;
use deflate::Compression;
use std::io::Write;

verus! {

/// The base64 text of `data` in the URL-safe alphabet, without padding.
pub uninterp spec fn base64_url_no_pad(data: Seq<u8>) -> Seq<char>;

/// The zlib stream that holds `data`, compressed at the default level.
pub uninterp spec fn zlib_stream(data: Seq<u8>) -> Seq<u8>;

/// The JSON string literal for `text`, quotes included.
pub uninterp spec fn json_string(text: Seq<char>) -> Seq<char>;

/// The text that `data` decodes to as UTF-8, each invalid part replaced
/// by U+FFFD.
pub uninterp spec fn utf8_lossy(data: Seq<u8>) -> Seq<char>;

/// `Engine::encode` of base64's `URL_SAFE_NO_PAD`. The result is named,
/// not described. The encoder panics only when the length of the
/// output overflows `usize`, which no slice is long enough for.
#[verifier::external_body]
fn encode_base64(data: &[u8]) -> (text: String)
    ensures
        text@ == base64_url_no_pad(data@),
{
    URL_SAFE_NO_PAD.encode(data)
}

/// deflate's `ZlibEncoder` around a fresh `Vec`, fed with `data` and
/// finished. The result is named, not described. The encoder fails
/// only where its writer does, and writing to a `Vec` does not fail.
#[verifier::external_body]
fn compress_zlib(data: &[u8]) -> (stream: Vec<u8>)
    ensures
        stream@ == zlib_stream(data@),
{
    let mut encoder = ZlibEncoder::new(Vec::new(), Compression::default());
    encoder.write_all(data).unwrap();
    encoder.finish().unwrap()
}

/// serde_json's `Display` of a `Value::String`: the text as a JSON
/// string literal. The result is named, not described.
#[verifier::external_body]
fn quote_json(text: &str) -> (literal: String)
    ensures
        literal@ == json_string(text@),
{
    serde_json::Value::String(text.to_owned()).to_string()
}

/// `String::from_utf8_lossy`, as an owned string. The result is named,
/// not described.
#[verifier::external_body]
fn decode_lossy(data: &[u8]) -> (text: String)
    ensures
        text@ == utf8_lossy(data@),
{
    String::from_utf8_lossy(data).into_owned()
}

/// The payload of an editor link for `data`: the zlib stream of the
/// bytes, in base64.
pub open spec fn pako_text(data: Seq<u8>) -> Seq<char> {
    base64_url_no_pad(zlib_stream(data))
}

/// The document that an editor link carries for the diagram `code`.
pub open spec fn edit_document(code: Seq<char>) -> Seq<char> {
    "{\"code\":"@ + json_string(code) + ",\"mermaid\":{\"theme\":\"default\"}}"@
}

/// The image link for the diagram `code`.
pub open spec fn img_url(code: Seq<char>) -> Seq<char> {
    "https://mermaid.ink/img/"@ + base64_url_no_pad(encode_utf8(code))
}

/// The editor link for the diagram `code`.
pub open spec fn edit_url(code: Seq<char>) -> Seq<char> {
    "https://mermaid.live/edit#pako:"@ + pako_text(encode_utf8(edit_document(code)))
}

/// The editor payload for `data`.
fn pako_of(data: &[u8]) -> (text: String)
    ensures
        text@ == pako_text(data@),
{
    let stream = compress_zlib(data);
    encode_base64(stream.as_slice())
}

/// The image link that carries the base64 text `encoded`.
pub fn img_url_with(encoded: &str) -> (url: String)
    ensures
        url@ == "https://mermaid.ink/img/"@ + encoded@,
{
    let mut url = String::from_str("https://mermaid.ink/img/");
    url.append(encoded);
    url
}

/// The editor document around the JSON string literal `literal`.
pub fn edit_document_with(literal: &str) -> (document: String)
    ensures
        document@ == "{\"code\":"@ + literal@ + ",\"mermaid\":{\"theme\":\"default\"}}"@,
{
    let mut document = String::from_str("{\"code\":");
    document.append(literal);
    document.append(",\"mermaid\":{\"theme\":\"default\"}}");
    document
}

/// The editor link that carries the payload `payload`.
pub fn edit_url_with(payload: &str) -> (url: String)
    ensures
        url@ == "https://mermaid.live/edit#pako:"@ + payload@,
{
    let mut url = String::from_str("https://mermaid.live/edit#pako:");
    url.append(payload);
    url
}

/// A diagram text, or its bytes, from which links can be made.
pub trait MermaidRelated {
    /// The bytes.
    spec fn bytes(&self) -> Seq<u8>;

    /// The diagram text that the bytes stand for.
    spec fn code(&self) -> Seq<char>;

    /// The bytes in URL-safe base64 without padding.
    fn to_base64(&self) -> (text: String)
        ensures
            text@ == base64_url_no_pad(self.bytes()),
    ;

    /// The bytes as a zlib stream in base64.
    fn to_pako(&self) -> (text: String)
        ensures
            text@ == pako_text(self.bytes()),
    ;

    /// The link to an image of the diagram.
    fn to_img_url(&self) -> (url: String)
        ensures
            url@ == img_url(self.code()),
    ;

    /// The link that opens the diagram in the editor.
    fn to_edit_url(&self) -> (url: String)
        ensures
            url@ == edit_url(self.code()),
    ;
}

impl MermaidRelated for &[u8] {
    open spec fn bytes(&self) -> Seq<u8> {
        (*self)@
    }

    open spec fn code(&self) -> Seq<char> {
        utf8_lossy((*self)@)
    }

    fn to_base64(&self) -> (text: String) {
        encode_base64(*self)
    }

    fn to_pako(&self) -> (text: String) {
        pako_of(*self)
    }

    fn to_img_url(&self) -> (url: String) {
        decode_lossy(*self).to_img_url()
    }

    fn to_edit_url(&self) -> (url: String) {
        decode_lossy(*self).to_edit_url()
    }
}

impl MermaidRelated for String {
    open spec fn bytes(&self) -> Seq<u8> {
        encode_utf8(self@)
    }

    open spec fn code(&self) -> Seq<char> {
        self@
    }

    fn to_base64(&self) -> (text: String) {
        encode_base64(self.as_str().as_bytes())
    }

    fn to_pako(&self) -> (text: String) {
        pako_of(self.as_str().as_bytes())
    }

    fn to_img_url(&self) -> (url: String) {
        let encoded = self.to_base64();
        img_url_with(encoded.as_str())
    }

    fn to_edit_url(&self) -> (url: String) {
        let literal = quote_json(self.as_str());
        let document = edit_document_with(literal.as_str());
        let payload = document.to_pako();
        edit_url_with(payload.as_str())
    }
}

} // verus!
