use std::collections::HashMap;

use mail_auth::dkim::{Algorithm, Canonicalization, Signature};
use mail_auth::dmarc::{
    address_domain, dmarc_evaluate, dmarc_from_domain, dmarc_no_record, dmarc_result_from_error,
    dmarc_walk_failed, from_domain, is_aligned, report_address_query, report_lookup_verdict,
    Alignment, Dmarc, DkimOutput, DkimResult, DmarcOutput, DmarcResult, Policy, SpfOutput,
    SpfResult, URI,
};
use mail_auth::error::Error;
use mail_auth::tree_walk::{TreeWalk, WalkStep};

const STRICT: &str =
    "v=DMARC1; p=reject; sp=quarantine; np=None; aspf=s; adkim=s; fo=1;rua=mailto:dmarc-feedback@example.org";
const RELAXED: &str =
    "v=DMARC1; p=reject; sp=quarantine; np=None; aspf=r; adkim=r; fo=1;rua=mailto:dmarc-feedback@example.org";

fn record(aspf: Alignment, adkim: Alignment) -> Dmarc {
    Dmarc {
        p: Policy::Reject,
        sp: Policy::Quarantine,
        aspf,
        adkim,
        rua: vec![URI::new(b"mailto:dmarc-feedback@example.org", 0)],
        ruf: vec![],
    }
}

fn signature(d: &str) -> Signature {
    Signature {
        v: 1,
        a: Algorithm::RsaSha256,
        d: d.as_bytes().to_vec(),
        s: vec![],
        b: vec![],
        bh: vec![],
        h: vec![],
        z: vec![],
        i: vec![],
        l: 0,
        x: 0,
        t: 0,
        r: false,
        atps: None,
        ch: Canonicalization::Relaxed,
        cb: Canonicalization::Relaxed,
    }
}

/// Runs the whole evaluation against a table of published DMARC records.
fn run(
    dns: &HashMap<Vec<u8>, Dmarc>,
    from: &[&str],
    dkim: &[DkimOutput],
    mail_from_domain: &str,
    spf: &SpfOutput,
) -> (DmarcOutput, usize) {
    let from: Vec<Vec<u8>> = from.iter().map(|a| a.as_bytes().to_vec()).collect();
    let domain = match dmarc_from_domain(&from) {
        Ok(d) => d,
        Err(o) => return (o, 0),
    };
    let mut walk = TreeWalk::new(&domain);
    let mut queries = 0;
    while let Some(q) = walk.next_query() {
        queries += 1;
        let found = dns.get(&q).cloned();
        let lookup = if found.is_some() { Ok(()) } else { Err(Error::DNSRecordNotFound) };
        match walk.advance(lookup) {
            WalkStep::Found => {
                let out = dmarc_evaluate(domain, found.unwrap(), dkim, mail_from_domain.as_bytes(), spf);
                return (out, queries);
            }
            WalkStep::Next => {}
            WalkStep::Abort(e) => return (dmarc_walk_failed(domain, e), queries),
        }
    }
    (dmarc_no_record(domain), queries)
}

#[test]
fn dmarc_verify() {
    let s = STRICT;
    let r = RELAXED;
    for (dmarc_dns, dmarc, message_from, mail_from_domain, signature_domain, dkim, spf, expect_dkim, expect_spf, policy) in [
        ("_dmarc.example.org.", s, "hello@example.org", "example.org", "example.org",
            DkimResult::Pass, SpfResult::Pass, DmarcResult::Pass, DmarcResult::Pass, Policy::Reject),
        ("_dmarc.example.org.", r, "hello@example.org", "subdomain.example.org", "subdomain.example.org",
            DkimResult::Pass, SpfResult::Pass, DmarcResult::Pass, DmarcResult::Pass, Policy::Quarantine),
        ("_dmarc.example.org.", s, "hello@example.org", "subdomain.example.org", "subdomain.example.org",
            DkimResult::Pass, SpfResult::Pass, DmarcResult::Fail(Error::DMARCNotAligned),
            DmarcResult::Fail(Error::DMARCNotAligned), Policy::Quarantine),
        ("_dmarc.example.org.", s, "hello@a.b.c.example.org", "a.b.c.example.org", "a.b.c.example.org",
            DkimResult::Pass, SpfResult::Pass, DmarcResult::Pass, DmarcResult::Pass, Policy::Reject),
        ("_dmarc.c.example.org.", r, "hello@a.b.c.example.org", "example.org", "example.org",
            DkimResult::Pass, SpfResult::Pass, DmarcResult::Pass, DmarcResult::Pass, Policy::Quarantine),
        ("_dmarc.example.org.", s, "hello@example.org", "example.org", "example.org",
            DkimResult::Fail(Error::SignatureExpired), SpfResult::Fail, DmarcResult::NoResult,
            DmarcResult::NoResult, Policy::Reject),
    ] {
        let mut dns = HashMap::new();
        dns.insert(dmarc_dns.as_bytes().to_vec(), Dmarc::parse(dmarc.as_bytes()).unwrap());
        let dkim = DkimOutput { result: dkim, signature: Some(signature(signature_domain)), is_atps: false };
        let spf = SpfOutput { result: spf, domain: mail_from_domain.as_bytes().to_vec() };
        let (result, _) = run(&dns, &[message_from], &[dkim], mail_from_domain, &spf);
        assert_eq!(result.dkim_result, expect_dkim);
        assert_eq!(result.spf_result, expect_spf);
        assert_eq!(result.policy, policy);
    }
}

fn report_addresses<'x>(
    dns: &HashMap<Vec<u8>, ()>,
    domain: &str,
    addresses: &'x [URI],
) -> Option<Vec<&'x URI>> {
    let mut result = Vec::new();
    for address in addresses {
        let accepted = match report_address_query(domain.as_bytes(), address) {
            None => true,
            Some(q) => {
                let lookup = if dns.contains_key(&q) { Ok(()) } else { Err(Error::DNSRecordNotFound) };
                report_lookup_verdict(lookup)?
            }
        };
        if accepted {
            result.push(address);
        }
    }
    Some(result)
}

#[test]
fn dmarc_verify_report_address() {
    let mut dns = HashMap::new();
    let record = Dmarc::parse(b"v=DMARC1").unwrap();
    assert!(record.rua.is_empty());
    dns.insert(b"example.org.report.dmarc.external.org.".to_vec(), ());
    let uris = vec![
        URI::new(b"dmarc@example.org", 0),
        URI::new(b"dmarc@external.org", 0),
        URI::new(b"domain@other.org", 0),
    ];
    assert_eq!(
        report_addresses(&dns, "example.org", &uris).unwrap(),
        vec![&URI::new(b"dmarc@example.org", 0), &URI::new(b"dmarc@external.org", 0)]
    );
}

#[test]
fn report_address_in_subdomain_needs_no_lookup() {
    assert_eq!(report_address_query(b"example.org", &URI::new(b"r@mx.example.org", 0)), None);
    assert_eq!(
        report_address_query(b"example.org", &URI::new(b"r@other.net", 0)),
        Some(b"example.org.report.dmarc.other.net.".to_vec())
    );
}

#[test]
fn report_lookup_outcomes() {
    assert_eq!(report_lookup_verdict(Ok(())), Some(true));
    assert_eq!(report_lookup_verdict(Err(Error::DNSError)), None);
    assert_eq!(report_lookup_verdict(Err(Error::DNSRecordNotFound)), Some(false));
}

#[test]
fn multi_from_gives_default_output() {
    let dns = HashMap::new();
    let dkim = DkimOutput { result: DkimResult::Pass, signature: Some(signature("a.org")), is_atps: false };
    let spf = SpfOutput { result: SpfResult::Pass, domain: b"a.org".to_vec() };
    let (out, queries) = run(&dns, &["x@a.org", "y@b.org"], &[dkim], "a.org", &spf);
    assert_eq!(queries, 0);
    assert_eq!(out.spf_result, DmarcResult::NoResult);
    assert_eq!(out.dkim_result, DmarcResult::NoResult);
    assert_eq!(out.policy, Policy::Unspecified);
    assert!(out.domain.is_empty());
    assert!(out.record.is_none());
}

#[test]
fn from_domain_cases() {
    let v = |xs: &[&str]| xs.iter().map(|a| a.as_bytes().to_vec()).collect::<Vec<_>>();
    assert_eq!(from_domain(&v(&["hello@example.org"])), Some(b"example.org".to_vec()));
    assert_eq!(from_domain(&v(&["a@x.org", "b@x.org"])), Some(b"x.org".to_vec()));
    assert_eq!(from_domain(&v(&["a@x.org", "b@y.org"])), None);
    assert_eq!(from_domain(&v(&["no-at-sign"])), None);
    assert_eq!(from_domain(&v(&["a@"])), None);
    assert_eq!(from_domain(&v(&[])), None);
    assert_eq!(address_domain(b"a@b@c.org"), b"c.org".to_vec());
}

#[test]
fn tree_walk_queries() {
    let mut walk = TreeWalk::new(b"a.b.c.d.e.f.example.org");
    let mut names = Vec::new();
    while let Some(q) = walk.next_query() {
        names.push(String::from_utf8(q).unwrap());
        assert_eq!(walk.advance(Err(Error::DNSRecordNotFound)), WalkStep::Next);
    }
    assert_eq!(
        names,
        vec![
            "_dmarc.a.b.c.d.e.f.example.org.",
            "_dmarc.e.f.example.org.",
            "_dmarc.f.example.org.",
            "_dmarc.example.org.",
            "_dmarc.org.",
        ]
    );
    assert_eq!(TreeWalk::new(b"localhost").next_query(), None);
    let mut walk = TreeWalk::new(b"a.b.org");
    assert_eq!(walk.next_query(), Some(b"_dmarc.a.b.org.".to_vec()));
    assert_eq!(walk.advance(Err(Error::InvalidRecordType)), WalkStep::Next);
    assert_eq!(walk.advance(Err(Error::DNSError)), WalkStep::Abort(Error::DNSError));
    assert_eq!(walk.next_query(), None);
}

#[test]
fn tree_walk_query_count_is_bounded() {
    let dns = HashMap::new();
    let spf = SpfOutput { result: SpfResult::Pass, domain: vec![] };
    for (from, expected) in [("x@org", 0), ("x@example.org", 2), ("x@a.b.org", 3), ("x@a.b.c.d.org", 5), ("x@a.b.c.d.e.f.g.h.org", 5)] {
        let (out, queries) = run(&dns, &[from], &[], "", &spf);
        assert_eq!(queries, expected);
        assert_eq!(out.policy, Policy::Unspecified);
    }
}

#[test]
fn tree_walk_transport_error_is_temperror() {
    let domain = b"example.org".to_vec();
    let out = dmarc_walk_failed(domain.clone(), Error::DNSError);
    assert_eq!(out.spf_result, DmarcResult::TempError(Error::DNSError));
    assert_eq!(out.dkim_result, DmarcResult::TempError(Error::DNSError));
    assert_eq!(out.domain, domain);
    assert_eq!(dmarc_result_from_error(Error::ParseError), DmarcResult::PermError(Error::ParseError));
}

#[test]
fn strict_alignment_implies_relaxed() {
    for (a, b) in [("example.org", "example.org"), ("sub.example.org", "example.org"), ("example.org", "sub.example.org"), ("badexample.org", "example.org"), ("x.org", "y.org")] {
        if is_aligned(Alignment::Strict, a.as_bytes(), b.as_bytes()) {
            assert!(is_aligned(Alignment::Relaxed, a.as_bytes(), b.as_bytes()));
        }
    }
    assert!(is_aligned(Alignment::Relaxed, b"sub.example.org", b"example.org"));
    assert!(!is_aligned(Alignment::Strict, b"sub.example.org", b"example.org"));
    assert!(!is_aligned(Alignment::Relaxed, b"badexample.org", b"example.org"));
}

#[test]
fn strict_spf_does_not_align_parent_domain() {
    let dkim = DkimOutput { result: DkimResult::Fail(Error::FailedVerification), signature: None, is_atps: false };
    let spf = SpfOutput { result: SpfResult::Pass, domain: b"example.org".to_vec() };
    let out = dmarc_evaluate(b"sub.example.org".to_vec(), record(Alignment::Strict, Alignment::Strict), &[dkim], b"example.org", &spf);
    assert_eq!(out.spf_result, DmarcResult::Fail(Error::DMARCNotAligned));
    assert_eq!(out.dkim_result, DmarcResult::NoResult);
    assert_eq!(out.policy, Policy::Reject);
}

#[test]
fn dmarc_record_parsing() {
    let d = Dmarc::parse(STRICT.as_bytes()).unwrap();
    assert_eq!(d.p, Policy::Reject);
    assert_eq!(d.sp, Policy::Quarantine);
    assert_eq!(d.aspf, Alignment::Strict);
    assert_eq!(d.adkim, Alignment::Strict);
    assert_eq!(d.rua, vec![URI::new(b"dmarc-feedback@example.org", 0)]);
    assert!(d.ruf.is_empty());

    let d = Dmarc::parse(b" v = DMARC1 ; p=none; ruf=mailto:a@x.org!10m, https://x.org/r ,mailto:b@y.org").unwrap();
    assert_eq!(d.p, Policy::NoAction);
    assert_eq!(d.sp, Policy::NoAction);
    assert_eq!(d.aspf, Alignment::Relaxed);
    assert_eq!(d.ruf, vec![URI::new(b"a@x.org", 0), URI::new(b"b@y.org", 0)]);

    let d = Dmarc::parse(b"v=DMARC1").unwrap();
    assert_eq!(d.p, Policy::Unspecified);
    assert_eq!(d.sp, Policy::Unspecified);

    assert_eq!(Dmarc::parse(b"p=reject").err(), Some(Error::UnsupportedVersion));
    assert_eq!(Dmarc::parse(b"v=DMARC2; p=reject").err(), Some(Error::UnsupportedVersion));
    assert_eq!(Dmarc::parse(b"v=DMARC1; p=maybe").err(), Some(Error::ParseError));
    assert_eq!(Dmarc::parse(b"v=DMARC1; adkim=x").err(), Some(Error::ParseError));
    let d = Dmarc::parse(b"v=DMARC1; p=reject; p=none").unwrap();
    assert_eq!(d.p, Policy::Reject);
}
