use mail_auth::base64::decode_base64;

#[test]
fn base64_decoding() {
    assert_eq!(decode_base64(b"aGVsbG8="), Some(b"hello".to_vec()));
    assert_eq!(decode_base64(b"aGVs bG8=\r\n\t"), Some(b"hello".to_vec()));
    assert_eq!(decode_base64(b"aGVsbA=="), Some(b"hell".to_vec()));
    assert_eq!(decode_base64(b"aGVsbG8h"), Some(b"hello!".to_vec()));
    assert_eq!(decode_base64(b"+/+/"), Some(vec![0xfb, 0xff, 0xbf]));
    assert_eq!(decode_base64(b""), Some(vec![]));
    assert_eq!(decode_base64(b"aGVsbG8"), None);
    assert_eq!(decode_base64(b"aG=sbG8="), None);
    assert_eq!(decode_base64(b"aGVs*G8="), None);
}
