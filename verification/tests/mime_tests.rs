use emailsnap::mime::{decode_imap_utf8, decode_quoted_printable_header, encode_word_b64};

#[test]
fn plain_header_is_unchanged() {
    assert_eq!(decode_imap_utf8(b"Hello, plain subject"), "Hello, plain subject");
    assert_eq!(decode_imap_utf8(b""), "");
    assert_eq!(decode_imap_utf8(b"question? and = sign"), "question? and = sign");
}

#[test]
fn quoted_printable_header_basics() {
    assert_eq!(decode_quoted_printable_header("Hello_World=21"), b"Hello World!".to_vec());
    assert_eq!(decode_quoted_printable_header("=4F=4B"), b"OK".to_vec());
    assert_eq!(decode_quoted_printable_header("a_b"), b"a b".to_vec());
    // An invalid hex pair passes through literally.
    assert_eq!(decode_quoted_printable_header("=ZZok"), b"=ZZok".to_vec());
    // A dangling '=' at the end passes through literally.
    assert_eq!(decode_quoted_printable_header("x="), b"x=".to_vec());
}

#[test]
fn q_encoded_word_decodes() {
    assert_eq!(decode_imap_utf8(b"=?UTF-8?Q?Hello_World=21?="), "Hello World!");
    assert_eq!(decode_imap_utf8(b"pre =?utf-8?q?mid?= post"), "pre mid post");
}

#[test]
fn b_encoded_word_decodes() {
    assert_eq!(decode_imap_utf8(b"=?UTF-8?B?SGVsbG8=?="), "Hello");
    // Korean subject, as a mail client would send it.
    assert_eq!(decode_imap_utf8("=?UTF-8?B?7JWI64WV?=".as_bytes()), "\u{c548}\u{b155}");
}

#[test]
fn multiple_tokens_decode_in_order() {
    assert_eq!(decode_imap_utf8(b"=?UTF-8?B?SGVsbG8=?= =?UTF-8?Q?World?="), "Hello World");
}

#[test]
fn malformed_token_stops_decoding() {
    // No closing "?=": everything stays as it was.
    assert_eq!(decode_imap_utf8(b"abc =?broken"), "abc =?broken");
    // Fewer than three '?'-separated parts.
    assert_eq!(decode_imap_utf8(b"=?onlycharset?="), "=?onlycharset?=");
    // Unknown encoding letter.
    assert_eq!(decode_imap_utf8(b"=?UTF-8?X?abc?="), "=?UTF-8?X?abc?=");
    // Invalid base64 payload.
    assert_eq!(decode_imap_utf8(b"=?UTF-8?B?!!!?="), "=?UTF-8?B?!!!?=");
    // Valid base64, but the decoded bytes are not UTF-8.
    assert_eq!(decode_imap_utf8(b"=?UTF-8?B?/w==?="), "=?UTF-8?B?/w==?=");
}

#[test]
fn decoded_prefix_is_kept_when_a_later_token_fails() {
    assert_eq!(
        decode_imap_utf8(b"=?UTF-8?B?SGVsbG8=?= =?UTF-8?B?!!!?="),
        "Hello =?UTF-8?B?!!!?="
    );
}

#[test]
fn round_trip_base64_encoded_word() {
    for text in ["Hello", "", "\u{c548}\u{b155}\u{d558}\u{c138}\u{c694}", "a?b=c"] {
        let wire = encode_word_b64(text);
        assert_eq!(decode_imap_utf8(&wire), text);
    }
}

#[test]
fn round_trip_matches_external_encoder() {
    // The same wire form a mail client would build with a base64 encoder.
    let text = "\u{c81c}\u{baa9}";
    let wire = format!("=?UTF-8?B?{}?=", data_encoding::BASE64.encode(text.as_bytes()));
    assert_eq!(decode_imap_utf8(wire.as_bytes()), text);
}
