use mail_auth::dkim::{
    Algorithm, Canonicalization, DkimPublicKey, DomainKey, Flag, HashAlgorithm, Service,
    Signature, Version, R_HASH_SHA1, R_HASH_SHA256, R_SVC_ALL, R_SVC_EMAIL,
};
use mail_auth::error::Error;

#[test]
fn algorithm_hash() {
    assert_eq!(HashAlgorithm::from(Algorithm::RsaSha1), HashAlgorithm::Sha1);
    assert_eq!(HashAlgorithm::from(Algorithm::RsaSha256), HashAlgorithm::Sha256);
    assert_eq!(HashAlgorithm::from(Algorithm::Ed25519Sha256), HashAlgorithm::Sha256);
}

#[test]
fn flag_bits() {
    assert_eq!(u64::from(HashAlgorithm::Sha1), 0x01);
    assert_eq!(u64::from(HashAlgorithm::Sha256), 0x02);
    assert_eq!(u64::from(Service::All), 0x04);
    assert_eq!(u64::from(Service::Email), 0x08);
    assert_eq!(u64::from(Flag::Testing), 0x10);
    assert_eq!(u64::from(Flag::MatchDomain), 0x20);
}

#[test]
fn signature_accessors() {
    let sig = Signature {
        v: 1,
        a: Algorithm::Ed25519Sha256,
        d: b"example.org".to_vec(),
        s: b"sel".to_vec(),
        b: vec![1, 2, 3],
        bh: vec![],
        h: vec![b"From".to_vec()],
        z: vec![],
        i: b"@example.org".to_vec(),
        l: 0,
        x: 0,
        t: 0,
        r: false,
        atps: None,
        ch: Canonicalization::Simple,
        cb: Canonicalization::Relaxed,
    };
    assert_eq!(sig.b(), &[1, 2, 3]);
    assert_eq!(sig.a(), Algorithm::Ed25519Sha256);
    assert_eq!(sig.s(), b"sel");
    assert_eq!(sig.d(), b"example.org");
}

#[test]
fn key_compatibility() {
    let revoked = DomainKey { v: Version::Dkim1, p: DkimPublicKey::Revoked, f: R_HASH_SHA256 | R_SVC_ALL };
    assert_eq!(revoked.check_compatibility(Algorithm::RsaSha256), Err(Error::RevokedPublicKey));
    let key_bytes = [
        0xd7, 0x5a, 0x98, 0x01, 0x82, 0xb1, 0x0a, 0xb7, 0xd5, 0x4b, 0xfe, 0xd3, 0xc9, 0x64, 0x07, 0x3a,
        0x0e, 0xe1, 0x72, 0xf3, 0xda, 0xa6, 0x23, 0x25, 0xaf, 0x02, 0x1a, 0x68, 0xf7, 0x07, 0x51, 0x1a,
    ];
    let pk = ed25519_dalek::PublicKey::from_bytes(&key_bytes).unwrap();
    let key = DomainKey { v: Version::Dkim1, p: DkimPublicKey::Ed25519(pk), f: R_HASH_SHA256 | R_SVC_EMAIL };
    assert_eq!(key.check_compatibility(Algorithm::Ed25519Sha256), Ok(()));
    assert_eq!(key.check_compatibility(Algorithm::RsaSha1), Err(Error::IncompatibleAlgorithms));
    let no_service = DomainKey { v: Version::Dkim1, p: DkimPublicKey::Ed25519(pk), f: R_HASH_SHA1 };
    assert_eq!(no_service.check_compatibility(Algorithm::RsaSha1), Err(Error::UnsupportedKeyType));
}

fn sig(v: u32, d: &str, h: &[&str], x: u64) -> Signature {
    Signature {
        v,
        a: Algorithm::RsaSha256,
        d: d.as_bytes().to_vec(),
        s: b"sel".to_vec(),
        b: vec![],
        bh: vec![],
        h: h.iter().map(|n| n.as_bytes().to_vec()).collect(),
        z: vec![],
        i: vec![],
        l: 0,
        x,
        t: 0,
        r: false,
        atps: None,
        ch: Canonicalization::Relaxed,
        cb: Canonicalization::Relaxed,
    }
}

#[test]
fn signature_validation() {
    assert_eq!(sig(1, "x.org", &["From", "Subject"], 0).validate(1000), Ok(()));
    assert_eq!(sig(1, "x.org", &["fROM"], 2000).validate(1000), Ok(()));
    assert_eq!(sig(2, "x.org", &["From"], 0).validate(1000), Err(Error::UnsupportedVersion));
    assert_eq!(sig(1, "", &["From"], 0).validate(1000), Err(Error::MissingParameters));
    assert_eq!(sig(1, "x.org", &["Subject"], 0).validate(1000), Err(Error::MissingParameters));
    assert_eq!(sig(1, "x.org", &["From"], 999).validate(1000), Err(Error::SignatureExpired));
}

#[test]
fn case_insensitive_names() {
    assert!(mail_auth::dkim::eq_ignore_case(b"Content-Type", b"content-TYPE"));
    assert!(!mail_auth::dkim::eq_ignore_case(b"From", b"Fro"));
    assert!(!mail_auth::dkim::eq_ignore_case(b"a[", b"A{"));
}

#[test]
fn b_value_is_emptied() {
    assert_eq!(
        mail_auth::dkim::clear_b_value(b" v=1; bh=abc=; b = xy\r\n z= ; d=x.org"),
        b" v=1; bh=abc=; b =; d=x.org".to_vec()
    );
    assert_eq!(mail_auth::dkim::clear_b_value(b"v=1"), b"v=1".to_vec());
    assert_eq!(mail_auth::dkim::clear_b_value(b"b=abc"), b"b=".to_vec());
}

#[test]
fn signature_header_parsing() {
    let sig = Signature::parse(
        b"v=1; a=rsa-sha256; c=relaxed/simple; d=example.org; s=sel; t=1000; x=2000;\r\n h=From : Subject:To; bh=aGVsbG8=; b=aGVs\r\n bG8=; atps=other.org; atpsh=sha1",
    )
    .unwrap();
    assert_eq!(sig.v, 1);
    assert_eq!(sig.a, Algorithm::RsaSha256);
    assert_eq!(sig.ch, Canonicalization::Relaxed);
    assert_eq!(sig.cb, Canonicalization::Simple);
    assert_eq!(sig.d, b"example.org".to_vec());
    assert_eq!(sig.s, b"sel".to_vec());
    assert_eq!(sig.i, b"@example.org".to_vec());
    assert_eq!((sig.l, sig.x, sig.t), (0, 2000, 1000));
    assert_eq!(sig.h, vec![b"From".to_vec(), b"Subject".to_vec(), b"To".to_vec()]);
    assert_eq!(sig.b, b"hello".to_vec());
    assert_eq!(sig.bh, b"hello".to_vec());
    assert!(!sig.r);
    let atps = sig.atps.unwrap();
    assert_eq!(atps.atps, b"other.org".to_vec());
    assert_eq!(atps.atpsh, HashAlgorithm::Sha1);

    let sig = Signature::parse(b"v=1; a=ed25519-sha256; d=x.org; s=s; h=from; bh=; b=; i=u@x.org; r=y").unwrap();
    assert_eq!((sig.ch, sig.cb), (Canonicalization::Simple, Canonicalization::Simple));
    assert_eq!(sig.i, b"u@x.org".to_vec());
    assert!(sig.r);
    assert!(sig.atps.is_none());
}

#[test]
fn signature_header_errors() {
    let base = "a=rsa-sha256; d=x.org; s=s; h=from; bh=aGVsbG8=; b=aGVsbG8=";
    assert_eq!(Signature::parse(base.as_bytes()).err(), Some(Error::UnsupportedVersion));
    assert_eq!(Signature::parse(format!("v=2; {base}").as_bytes()).err(), Some(Error::UnsupportedVersion));
    assert_eq!(Signature::parse(b"v=1; a=rsa-sha256; d=x.org; s=s; bh=aGVsbG8=; b=aGVsbG8=").err(), Some(Error::MissingParameters));
    assert_eq!(
        Signature::parse(b"v=1; a=rsa-md5; d=x.org; s=s; h=from; bh=aGVsbG8=; b=aGVsbG8=").err(),
        Some(Error::UnsupportedAlgorithm)
    );
    assert_eq!(Signature::parse(format!("v=1; {base}; l=12a").as_bytes()).err(), Some(Error::ParseError));
    assert_eq!(Signature::parse(format!("v=1; {base}; x=99999999999999999999").as_bytes()).err(), Some(Error::ParseError));
    assert_eq!(Signature::parse(b"v=1; a=rsa-sha256; d=x.org; s=s; h=from; bh=aGVsbG8; b=aGVsbG8=").err(), Some(Error::ParseError));
    assert_eq!(Signature::parse(format!("v=1; {base}; c=loose").as_bytes()).err(), Some(Error::UnsupportedCanonicalization));
    assert_eq!(Signature::parse(format!("v=1; {base}; l=18446744073709551615").as_bytes()).unwrap().l, u64::MAX);
}

#[test]
fn key_record_parsing() {
    let key = DomainKey::parse(b"v=DKIM1; k=ed25519; p=11qYAYKxCrfVS/7TyWQHOg7hcvPapiMlrwIaaPcHURo=").unwrap();
    assert!(matches!(key.p, DkimPublicKey::Ed25519(_)));
    assert_eq!(key.f, R_HASH_SHA1 | R_HASH_SHA256 | R_SVC_ALL);
    assert_eq!(key.check_compatibility(Algorithm::Ed25519Sha256), Ok(()));

    let key = DomainKey::parse(b"v=DKIM1; p=; h=sha256; s=email; t=y:s").unwrap();
    assert!(matches!(key.p, DkimPublicKey::Revoked));
    assert_eq!(key.f, R_HASH_SHA256 | R_SVC_EMAIL | mail_auth::dkim::R_FLAG_TESTING | mail_auth::dkim::R_FLAG_MATCH_DOMAIN);
    assert_eq!(key.check_compatibility(Algorithm::RsaSha256), Err(Error::RevokedPublicKey));

    let key = DomainKey::parse(
        b"k=rsa; p=MIGfMA0GCSqGSIb3DQEBAQUAA4GNADCBiQKBgQDwIRP/UC3SBsEmGqZ9ZJW3/DkMoGeLnQg1fWn7/zYtIxN2SnFCjxOCKG9v3b4jYfcTNh5ijSsq631uBItLa7od+v/RtdC2UzJ1lWT947qR+Rcac2gbto/NMqJ0fzfVjH4OuKhitdY9tf6mcwGjaNBcWToIMmPSPDdQPNUYckcQ2QIDAQAB",
    )
    .unwrap();
    assert!(matches!(key.p, DkimPublicKey::Rsa(_)));

    assert_eq!(DomainKey::parse(b"v=DKIM2; p=").err(), Some(Error::UnsupportedVersion));
    assert_eq!(DomainKey::parse(b"v=DKIM1").err(), Some(Error::MissingParameters));
    assert_eq!(DomainKey::parse(b"k=dsa; p=").err(), Some(Error::UnsupportedKeyType));
    assert_eq!(DomainKey::parse(b"p=abc").err(), Some(Error::ParseError));
    assert_eq!(DomainKey::parse(b"k=ed25519; p=aGVsbG8=").err(), Some(Error::ParseError));
    assert_eq!(DomainKey::parse(b"p=aGVsbG8=").err(), Some(Error::ParseError));
}
