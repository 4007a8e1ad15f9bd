use mail_auth::canonicalize::{
    apply_body_length, body_hash_input, compare_body_hash, canonicalize_body, canonicalize_body_relaxed, canonicalize_body_simple,
    canonicalize_header, canonicalize_header_relaxed, canonicalize_header_simple,
};
use mail_auth::dkim::Canonicalization;
use mail_auth::error::Error;

#[test]
fn simple_body_forms() {
    assert_eq!(canonicalize_body_simple(b""), b"\r\n".to_vec());
    assert_eq!(canonicalize_body_simple(b"\r\n\r\n"), b"\r\n".to_vec());
    assert_eq!(canonicalize_body_simple(b"abc"), b"abc\r\n".to_vec());
    assert_eq!(canonicalize_body_simple(b" C \r\nD \t E\r\n\r\n\r\n"), b" C \r\nD \t E\r\n".to_vec());
}

#[test]
fn relaxed_body_forms() {
    assert_eq!(canonicalize_body_relaxed(b""), b"".to_vec());
    assert_eq!(canonicalize_body_relaxed(b"\r\n\r\n"), b"".to_vec());
    assert_eq!(canonicalize_body_relaxed(b" C \r\nD \t E\r\n\r\n\r\n"), b" C\r\nD E\r\n".to_vec());
    assert_eq!(canonicalize_body_relaxed(b"a  \t b \r\n  \r\nc"), b"a b\r\n\r\nc\r\n".to_vec());
    assert_eq!(canonicalize_body_relaxed(b"a\rb\n"), b"a\rb\n\r\n".to_vec());
}

#[test]
fn body_canonicalization_is_idempotent() {
    for body in [&b""[..], b"x", b" a \t b\r\n\r\n", b"\r\n \r\n", b"a\r\n b  \r\n\r\n\r\n"] {
        for c in [Canonicalization::Simple, Canonicalization::Relaxed] {
            let once = canonicalize_body(c, body);
            assert_eq!(canonicalize_body(c, &once), once);
        }
    }
}

#[test]
fn relaxed_trailing_line_breaks() {
    let one = canonicalize_body_relaxed(b"hello  \r\n");
    for k in 2..6 {
        let mut body = b"hello  ".to_vec();
        for _ in 0..k {
            body.extend_from_slice(b"\r\n");
        }
        assert_eq!(canonicalize_body_relaxed(&body), one);
    }
    assert_eq!(one, b"hello\r\n".to_vec());
}

#[test]
fn body_length_limit() {
    let canon = canonicalize_body_relaxed(b"hello world\r\n");
    assert_eq!(apply_body_length(&canon, 0), Ok(b"hello world\r\n".to_vec()));
    assert_eq!(apply_body_length(&canon, 5), Ok(b"hello".to_vec()));
    assert_eq!(apply_body_length(&canon, 13), Ok(canon.clone()));
    assert_eq!(apply_body_length(&canon, 14), Err(Error::BodyLengthMismatch));
}

#[test]
fn header_forms() {
    assert_eq!(canonicalize_header_relaxed(b"SUBJect ", b" AbC\r\n"), b"subject:AbC\r\n".to_vec());
    assert_eq!(
        canonicalize_header_relaxed(b"Subject", b" Long\r\n  folded \t value \r\n"),
        b"subject:Long folded value\r\n".to_vec()
    );
    assert_eq!(canonicalize_header_simple(b"SUBJect ", b" AbC\r\n"), b"SUBJect : AbC\r\n".to_vec());
    assert_eq!(
        canonicalize_header(Canonicalization::Relaxed, b"From", b" a@b.org\r\n"),
        b"from:a@b.org\r\n".to_vec()
    );
}

#[test]
fn relaxed_header_is_idempotent() {
    let once = canonicalize_header_relaxed(b"X-Mixed  Case", b"  a \t b\r\n c  \r\n");
    let colon = once.iter().position(|&c| c == b':').unwrap();
    let again = canonicalize_header_relaxed(&once[..colon], &once[colon + 1..]);
    assert_eq!(again, once);
}

fn hdrs(list: &[(&str, &str)]) -> Vec<(Vec<u8>, Vec<u8>)> {
    list.iter().map(|(n, v)| (n.as_bytes().to_vec(), v.as_bytes().to_vec())).collect()
}

#[test]
fn header_selection_from_bottom() {
    let headers = hdrs(&[
        ("Received", " one\r\n"),
        ("From", " a@x.org\r\n"),
        ("Received", " two\r\n"),
        ("Subject", " hi\r\n"),
    ]);
    let h = vec![b"received".to_vec(), b"FROM".to_vec(), b"Received".to_vec(), b"Received".to_vec(), b"To".to_vec()];
    assert_eq!(mail_auth::canonicalize::select_headers(&headers, &h), vec![2, 1, 0]);
}

#[test]
fn header_stream_ends_without_line_break() {
    let headers = hdrs(&[("From", " a@x.org\r\n"), ("Subject", "  Hello   there \r\n")]);
    let h = vec![b"from".to_vec(), b"subject".to_vec()];
    let out = mail_auth::canonicalize::canonical_header_stream(
        Canonicalization::Relaxed,
        &headers,
        &h,
        b"DKIM-Signature",
        b" v=1; d=x.org; b=\r\n",
    );
    assert_eq!(out, b"from:a@x.org\r\nsubject:Hello there\r\ndkim-signature:v=1; d=x.org; b=".to_vec());
    let out = mail_auth::canonicalize::canonical_header_stream(
        Canonicalization::Simple,
        &headers,
        &h[..1],
        b"DKIM-Signature",
        b" v=1; b=\r\n",
    );
    assert_eq!(out, b"From: a@x.org\r\nDKIM-Signature: v=1; b=".to_vec());
}

#[test]
fn body_hash_input_and_comparison() {
    assert_eq!(body_hash_input(Canonicalization::Relaxed, b"a  b \r\n\r\n", 0), Ok(b"a b\r\n".to_vec()));
    assert_eq!(body_hash_input(Canonicalization::Relaxed, b"a  b \r\n\r\n", 3), Ok(b"a b".to_vec()));
    assert_eq!(body_hash_input(Canonicalization::Simple, b"a  b \r\n\r\n", 7), Ok(b"a  b \r\n".to_vec()));
    assert_eq!(body_hash_input(Canonicalization::Simple, b"", 3), Err(Error::BodyLengthMismatch));
    assert_eq!(compare_body_hash(b"abc", b"abc"), Ok(()));
    assert_eq!(compare_body_hash(b"abc", b"abd"), Err(Error::FailedBodyHashMatch));
}
