use mail_auth::tags::{parse_tag_list, split_bytes};

#[test]
fn tag_list_parsing() {
    let tags = parse_tag_list(b"v=1; a=rsa-sha256;\r\n\td=example.org ; bh = ab=c= ;novalue; =x;;");
    let expected: Vec<(Vec<u8>, Vec<u8>)> = vec![
        (b"v".to_vec(), b"1".to_vec()),
        (b"a".to_vec(), b"rsa-sha256".to_vec()),
        (b"d".to_vec(), b"example.org".to_vec()),
        (b"bh".to_vec(), b"ab=c=".to_vec()),
    ];
    assert_eq!(tags, expected);
    assert!(parse_tag_list(b"").is_empty());
}

#[test]
fn splitting() {
    assert_eq!(split_bytes(b"a;;b", b';'), vec![b"a".to_vec(), vec![], b"b".to_vec()]);
    assert_eq!(split_bytes(b"", b';'), vec![Vec::<u8>::new()]);
}
