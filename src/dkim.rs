use vstd::prelude::*;

use crate::canonicalize::{ascii_lower, lower_byte};
use crate::dmarc::{append_bytes, copy_bytes};
use crate::error::Error;
use crate::base64::{base64_decode, decode_base64};
use crate::tags::{
    find_first, find_tag, first_index_of, pair_views, parse_tag_list, seg_views, split_bytes,
    split_on, sub_vec, tag_list, tag_value, trim, trim_bounds, EQUALS, SEMICOLON,
};

verus! {

#[verifier::external_type_specification]
#[verifier::external_body]
pub struct ExRsaPublicKey(rsa::RsaPublicKey);

#[verifier::external_type_specification]
#[verifier::external_body]
pub struct ExRsaPrivateKey(rsa::RsaPrivateKey);

#[verifier::external_type_specification]
#[verifier::external_body]
pub struct ExEd25519PublicKey(ed25519_dalek::PublicKey);

#[verifier::external_type_specification]
#[verifier::external_body]
pub struct ExEd25519Keypair(ed25519_dalek::Keypair);

/// Canonicalization form, chosen independently for headers and body.
#[derive(Debug, Clone, Copy, PartialEq, Eq, Structural)]
pub enum Canonicalization {
    Relaxed,
    Simple,
}

#[derive(Debug, Clone, Copy, PartialEq, Eq, Structural)]
pub enum HashAlgorithm {
    Sha1,
    Sha256,
}

#[derive(Debug, Clone, Copy, PartialEq, Eq, Structural)]
pub enum Algorithm {
    RsaSha1,
    RsaSha256,
    Ed25519Sha256,
}

/// Key record flag bits (`f` of a `DomainKey`).
pub const R_HASH_SHA1: u64 = 0x01;
pub const R_HASH_SHA256: u64 = 0x02;
pub const R_SVC_ALL: u64 = 0x04;
pub const R_SVC_EMAIL: u64 = 0x08;
pub const R_FLAG_TESTING: u64 = 0x10;
pub const R_FLAG_MATCH_DOMAIN: u64 = 0x20;

#[derive(Debug, Clone, Copy, PartialEq, Eq, Structural)]
pub enum Version {
    Dkim1,
}

#[derive(Debug, Clone, Copy, PartialEq, Eq, Structural)]
pub enum Service {
    All,
    Email,
}

#[derive(Debug, Clone, Copy, PartialEq, Eq, Structural)]
pub enum Flag {
    Testing,
    MatchDomain,
}

pub open spec fn hash_bit(h: HashAlgorithm) -> u64 {
    match h {
        HashAlgorithm::Sha1 => R_HASH_SHA1,
        HashAlgorithm::Sha256 => R_HASH_SHA256,
    }
}

pub open spec fn service_bit(s: Service) -> u64 {
    match s {
        Service::All => R_SVC_ALL,
        Service::Email => R_SVC_EMAIL,
    }
}

pub open spec fn flag_bit(f: Flag) -> u64 {
    match f {
        Flag::Testing => R_FLAG_TESTING,
        Flag::MatchDomain => R_FLAG_MATCH_DOMAIN,
    }
}

/// The hash algorithm that a signing algorithm uses.
pub open spec fn hash_of(a: Algorithm) -> HashAlgorithm {
    match a {
        Algorithm::RsaSha256 | Algorithm::Ed25519Sha256 => HashAlgorithm::Sha256,
        Algorithm::RsaSha1 => HashAlgorithm::Sha1,
    }
}

impl From<Flag> for u64 {
    fn from(v: Flag) -> (r: u64) {
        match v {
            Flag::Testing => R_FLAG_TESTING,
            Flag::MatchDomain => R_FLAG_MATCH_DOMAIN,
        }
    }
}

impl vstd::std_specs::convert::FromSpecImpl<Flag> for u64 {
    open spec fn obeys_from_spec() -> bool {
        true
    }

    open spec fn from_spec(v: Flag) -> u64 {
        flag_bit(v)
    }
}

impl From<HashAlgorithm> for u64 {
    fn from(v: HashAlgorithm) -> (r: u64) {
        match v {
            HashAlgorithm::Sha1 => R_HASH_SHA1,
            HashAlgorithm::Sha256 => R_HASH_SHA256,
        }
    }
}

impl vstd::std_specs::convert::FromSpecImpl<HashAlgorithm> for u64 {
    open spec fn obeys_from_spec() -> bool {
        true
    }

    open spec fn from_spec(v: HashAlgorithm) -> u64 {
        hash_bit(v)
    }
}

impl From<Service> for u64 {
    fn from(v: Service) -> (r: u64) {
        match v {
            Service::All => R_SVC_ALL,
            Service::Email => R_SVC_EMAIL,
        }
    }
}

impl vstd::std_specs::convert::FromSpecImpl<Service> for u64 {
    open spec fn obeys_from_spec() -> bool {
        true
    }

    open spec fn from_spec(v: Service) -> u64 {
        service_bit(v)
    }
}

impl From<Algorithm> for HashAlgorithm {
    fn from(a: Algorithm) -> (r: HashAlgorithm) {
        match a {
            Algorithm::RsaSha256 | Algorithm::Ed25519Sha256 => HashAlgorithm::Sha256,
            Algorithm::RsaSha1 => HashAlgorithm::Sha1,
        }
    }
}

impl vstd::std_specs::convert::FromSpecImpl<Algorithm> for HashAlgorithm {
    open spec fn obeys_from_spec() -> bool {
        true
    }

    open spec fn from_spec(a: Algorithm) -> HashAlgorithm {
        hash_of(a)
    }
}

pub enum DkimPrivateKey {
    Rsa(rsa::RsaPrivateKey),
    Ed25519(ed25519_dalek::Keypair),
    Absent,
}

pub enum DkimPublicKey {
    Rsa(rsa::RsaPublicKey),
    Ed25519(ed25519_dalek::PublicKey),
    Revoked,
}

/// What a signer needs to produce a `DKIM-Signature` header.
pub struct DKIMSigner {
    pub private_key: DkimPrivateKey,
    pub sign_headers: Vec<Vec<u8>>,
    pub a: Algorithm,
    pub d: Vec<u8>,
    pub s: Vec<u8>,
    pub i: Vec<u8>,
    pub l: bool,
    pub x: u64,
    pub ch: Canonicalization,
    pub cb: Canonicalization,
}

/// Authorized third-party signer (`atps` / `atpsh` tags).
#[derive(Debug, PartialEq, Eq, Clone)]
pub struct Atps {
    pub atps: Vec<u8>,
    pub atpsh: HashAlgorithm,
}

/// A parsed `DKIM-Signature` header.
#[derive(Debug, PartialEq, Eq, Clone)]
pub struct Signature {
    pub v: u32,
    pub a: Algorithm,
    pub d: Vec<u8>,
    pub s: Vec<u8>,
    pub b: Vec<u8>,
    pub bh: Vec<u8>,
    pub h: Vec<Vec<u8>>,
    pub z: Vec<Vec<u8>>,
    pub i: Vec<u8>,
    pub l: u64,
    pub x: u64,
    pub t: u64,
    pub r: bool,
    pub atps: Option<Atps>,
    pub ch: Canonicalization,
    pub cb: Canonicalization,
}

impl Signature {
    /// The signature bytes (`b=`).
    pub fn b(&self) -> (r: &[u8])
        ensures
            r@ == self.b@,
    {
        self.b.as_slice()
    }

    /// The signing algorithm (`a=`).
    pub fn a(&self) -> (r: Algorithm)
        ensures
            r == self.a,
    {
        self.a
    }

    /// The selector (`s=`).
    pub fn s(&self) -> (r: &[u8])
        ensures
            r@ == self.s@,
    {
        self.s.as_slice()
    }

    /// The signing domain (`d=`).
    pub fn d(&self) -> (r: &[u8])
        ensures
            r@ == self.d@,
    {
        self.d.as_slice()
    }
}

/// A parsed DKIM key record.
pub struct DomainKey {
    pub v: Version,
    pub p: DkimPublicKey,
    pub f: u64,
}

impl DomainKey {
    pub open spec fn permits(self, a: Algorithm) -> bool {
        self.f & hash_bit(hash_of(a)) != 0 && self.f & (R_SVC_ALL | R_SVC_EMAIL) != 0
    }

    /// Checks that this key may verify a signature made with `a`: a revoked
    /// key fails before anything else, then the key's flags must admit the
    /// algorithm's hash and the email service.
    pub fn check_compatibility(&self, a: Algorithm) -> (r: Result<(), Error>)
        ensures
            self.p is Revoked ==> r == Err::<(), Error>(Error::RevokedPublicKey),
            !(self.p is Revoked) && self.f & hash_bit(hash_of(a)) == 0 ==> r == Err::<(), Error>(
                Error::IncompatibleAlgorithms,
            ),
            !(self.p is Revoked) && self.f & hash_bit(hash_of(a)) != 0 && self.f & (R_SVC_ALL
                | R_SVC_EMAIL) == 0 ==> r == Err::<(), Error>(Error::UnsupportedKeyType),
            r is Ok <==> !(self.p is Revoked) && self.permits(a),
    {
        if let DkimPublicKey::Revoked = self.p {
            return Err(Error::RevokedPublicKey);
        }
        let bit = u64::from(HashAlgorithm::from(a));
        if self.f & bit == 0 {
            Err(Error::IncompatibleAlgorithms)
        } else if self.f & (R_SVC_ALL | R_SVC_EMAIL) == 0 {
            Err(Error::UnsupportedKeyType)
        } else {
            Ok(())
        }
    }
}

pub open spec fn from_name() -> Seq<u8> {
    seq![0x66u8, 0x72u8, 0x6fu8, 0x6du8]
}

/// Header names compare without regard to ASCII case.
pub open spec fn same_name(a: Seq<u8>, b: Seq<u8>) -> bool {
    ascii_lower(a) == ascii_lower(b)
}

pub fn eq_ignore_case(a: &[u8], b: &[u8]) -> (r: bool)
    ensures
        r == same_name(a@, b@),
{
    if a.len() != b.len() {
        assert(ascii_lower(a@).len() != ascii_lower(b@).len());
        return false;
    }
    let mut i: usize = 0;
    while i < a.len()
        invariant
            a.len() == b.len(),
            i <= a.len(),
            forall|k: int| 0 <= k < i ==> lower_byte(a@[k]) == lower_byte(b@[k]),
        decreases a.len() - i,
    {
        let mut x = a[i];
        let mut y = b[i];
        if 0x41 <= x && x <= 0x5a {
            x = x + 0x20;
        }
        if 0x41 <= y && y <= 0x5a {
            y = y + 0x20;
        }
        if x != y {
            assert(ascii_lower(a@)[i as int] != ascii_lower(b@)[i as int]);
            return false;
        }
        i = i + 1;
    }
    assert(ascii_lower(a@) =~= ascii_lower(b@));
    true
}

impl Signature {
    /// The signed header list names `From`.
    pub open spec fn signs_from(&self) -> bool {
        exists|i: int| 0 <= i < self.h@.len() && same_name(#[trigger] self.h@[i]@, from_name())
    }

    /// Checks made before any hashing: the version is 1, the signing domain
    /// is present, `From` is signed, and the signature has not expired at
    /// `now` (an `x` of 0 never expires).
    pub fn validate(&self, now: u64) -> (r: Result<(), Error>)
        ensures
            self.v != 1 ==> r == Err::<(), Error>(Error::UnsupportedVersion),
            self.v == 1 && (self.d@.len() == 0 || !self.signs_from()) ==> r == Err::<(), Error>(
                Error::MissingParameters,
            ),
            self.v == 1 && self.d@.len() > 0 && self.signs_from() && self.x != 0 && self.x < now
                ==> r == Err::<(), Error>(Error::SignatureExpired),
            r is Ok <==> self.v == 1 && self.d@.len() > 0 && self.signs_from() && (self.x == 0
                || self.x >= now),
    {
        if self.v != 1 {
            return Err(Error::UnsupportedVersion);
        }
        if self.d.len() == 0 {
            return Err(Error::MissingParameters);
        }
        let from: [u8; 4] = [0x66, 0x72, 0x6f, 0x6d];
        assert(from@ =~= from_name());
        let mut found = false;
        let mut i: usize = 0;
        while i < self.h.len()
            invariant
                i <= self.h@.len(),
                from@ == from_name(),
                found == exists|k: int| 0 <= k < i && same_name(#[trigger] self.h@[k]@, from_name()),
            decreases self.h.len() - i,
        {
            if eq_ignore_case(self.h[i].as_slice(), from.as_slice()) {
                found = true;
            }
            i = i + 1;
        }
        if !found {
            return Err(Error::MissingParameters);
        }
        if self.x != 0 && self.x < now {
            return Err(Error::SignatureExpired);
        }
        Ok(())
    }
}


/// One tag of a signature header with its value emptied if it is `b`.
pub open spec fn cleared_piece(p: Seq<u8>) -> Seq<u8> {
    let k = first_index_of(p, EQUALS);
    if k >= 0 && trim(p.subrange(0, k)) == seq![0x62u8] {
        p.subrange(0, k + 1)
    } else {
        p
    }
}

pub open spec fn join_pieces(ps: Seq<Seq<u8>>) -> Seq<u8>
    decreases ps.len(),
{
    if ps.len() == 0 {
        Seq::empty()
    } else if ps.len() == 1 {
        ps[0]
    } else {
        join_pieces(ps.drop_last()) + seq![SEMICOLON] + ps.last()
    }
}

pub open spec fn cleared_pieces(ps: Seq<Seq<u8>>) -> Seq<Seq<u8>> {
    ps.map_values(|p: Seq<u8>| cleared_piece(p))
}

/// A `DKIM-Signature` value with the value of its `b=` tag removed (the tag
/// itself stays), everything else as it was.
pub open spec fn without_b_value(v: Seq<u8>) -> Seq<u8> {
    join_pieces(cleared_pieces(split_on(v, SEMICOLON)))
}

fn clear_piece(p: &[u8]) -> (r: Vec<u8>)
    ensures
        r@ == cleared_piece(p@),
{
    let k = find_first(p, 0, p.len(), EQUALS);
    assert(p@.subrange(0, p@.len() as int) =~= p@);
    if k < p.len() {
        let (b, e) = trim_bounds(p, 0, k);
        if e - b == 1 && p[b] == 0x62 {
            assert(p@.subrange(b as int, e as int) =~= seq![0x62u8]);
            return sub_vec(p, 0, k + 1);
        }
        proof {
            let t = p@.subrange(b as int, e as int);
            if t == seq![0x62u8] {
                assert(t.len() == 1);
                assert(t[0] == p@[b as int]);
            }
        }
    }
    copy_bytes(p)
}

/// Empties the value of the `b=` tag of a signature header value, as the
/// header is hashed when the signature is made and checked.
pub fn clear_b_value(v: &[u8]) -> (r: Vec<u8>)
    ensures
        r@ == without_b_value(v@),
{
    let pieces = split_bytes(v, SEMICOLON);
    let ghost segs = seg_views(pieces@);
    let ghost all = cleared_pieces(segs);
    let mut out: Vec<u8> = Vec::new();
    let mut j: usize = 0;
    while j < pieces.len()
        invariant
            j <= pieces@.len(),
            segs == seg_views(pieces@),
            segs.len() == pieces@.len(),
            all == cleared_pieces(segs),
            out@ == join_pieces(all.subrange(0, j as int)),
        decreases pieces.len() - j,
    {
        let piece = clear_piece(pieces[j].as_slice());
        assert(piece@ == all[j as int]);
        let ghost x = all.subrange(0, j + 1);
        assert(x.drop_last() =~= all.subrange(0, j as int));
        if j > 0 {
            out.push(SEMICOLON);
        } else {
            assert(out@ =~= Seq::<u8>::empty());
        }
        append_bytes(&mut out, piece.as_slice());
        assert(out@ =~= join_pieces(x));
        j = j + 1;
    }
    assert(all.subrange(0, j as int) =~= all);
    out
}


// ---------------------------------------------------------------------------
// Parsing a DKIM-Signature header
// ---------------------------------------------------------------------------

pub const COLON_SEP: u8 = 0x3a;

pub const SLASH: u8 = 0x2f;

/// A decimal number that fits in a `u64`; none on any other byte or on
/// overflow.
pub open spec fn decimal(v: Seq<u8>) -> Option<u64>
    decreases v.len(),
{
    if v.len() == 0 {
        Some(0)
    } else {
        match decimal(v.drop_last()) {
            None => None,
            Some(p) => {
                let c = v.last();
                if 0x30 <= c <= 0x39 && p * 10 + (c - 0x30) <= u64::MAX {
                    Some((p * 10 + (c - 0x30)) as u64)
                } else {
                    None
                }
            },
        }
    }
}

pub open spec fn number_of(v: Seq<u8>) -> Option<u64> {
    if v.len() == 0 {
        None
    } else {
        decimal(v)
    }
}

pub fn parse_number(v: &[u8]) -> (r: Option<u64>)
    ensures
        r == number_of(v@),
{
    if v.len() == 0 {
        return None;
    }
    let mut value: u64 = 0;
    let mut i: usize = 0;
    assert(v@.subrange(0, 0) =~= Seq::<u8>::empty());
    while i < v.len()
        invariant
            i <= v.len(),
            decimal(v@.subrange(0, i as int)) == Some(value),
        decreases v.len() - i,
    {
        let c = v[i];
        assert(v@.subrange(0, i + 1).drop_last() =~= v@.subrange(0, i as int));
        if c < 0x30 || c > 0x39 {
            assert(decimal(v@.subrange(0, i + 1)) is None);
            proof {
                lemma_decimal_none(v@, i + 1);
            }
            return None;
        }
        let d = (c - 0x30) as u64;
        if value > (u64::MAX - d) / 10 {
            assert(value * 10 + d > u64::MAX) by (nonlinear_arith)
                requires
                    value > (u64::MAX - d) / 10,
                    d <= 9,
            ;
            proof {
                lemma_decimal_none(v@, i + 1);
            }
            return None;
        }
        assert(value * 10 + d <= u64::MAX) by (nonlinear_arith)
            requires
                value <= (u64::MAX - d) / 10,
                d <= 9,
        ;
        value = value * 10 + d;
        i = i + 1;
    }
    assert(v@.subrange(0, i as int) =~= v@);
    Some(value)
}

proof fn lemma_decimal_none(v: Seq<u8>, i: int)
    requires
        0 <= i <= v.len(),
        decimal(v.subrange(0, i)) is None,
    ensures
        decimal(v) is None,
    decreases v.len() - i,
{
    if i < v.len() {
        assert(v.subrange(0, i + 1).drop_last() =~= v.subrange(0, i));
        lemma_decimal_none(v, i + 1);
    } else {
        assert(v.subrange(0, i) =~= v);
    }
}

/// The names of a colon-separated header-name list, trimmed, empty ones left out.
pub open spec fn names_of(pieces: Seq<Seq<u8>>) -> Seq<Seq<u8>>
    decreases pieces.len(),
{
    if pieces.len() == 0 {
        Seq::empty()
    } else {
        let rest = names_of(pieces.drop_last());
        let n = trim(pieces.last());
        if n.len() > 0 {
            rest.push(n)
        } else {
            rest
        }
    }
}

pub open spec fn name_list(v: Seq<u8>) -> Seq<Seq<u8>> {
    names_of(split_on(v, COLON_SEP))
}

pub fn parse_name_list(v: &[u8]) -> (r: Vec<Vec<u8>>)
    ensures
        seg_views(r@) == name_list(v@),
{
    let pieces = split_bytes(v, COLON_SEP);
    let ghost segs = seg_views(pieces@);
    let mut out: Vec<Vec<u8>> = Vec::new();
    let mut i: usize = 0;
    while i < pieces.len()
        invariant
            i <= pieces.len(),
            segs == seg_views(pieces@),
            segs.len() == pieces@.len(),
            seg_views(out@) == names_of(segs.subrange(0, i as int)),
        decreases pieces.len() - i,
    {
        let piece = pieces[i].as_slice();
        assert(piece@ == segs[i as int]);
        assert(segs.subrange(0, i + 1).drop_last() =~= segs.subrange(0, i as int));
        assert(piece@.subrange(0, piece@.len() as int) =~= piece@);
        let (b, e) = trim_bounds(piece, 0, piece.len());
        if b < e {
            let n = sub_vec(piece, b, e);
            let ghost nv = n@;
            out.push(n);
            assert(seg_views(out@) =~= names_of(segs.subrange(0, i as int)).push(nv));
        }
        i = i + 1;
    }
    assert(segs.subrange(0, i as int) =~= segs);
    out
}

pub open spec fn lit_rsa_sha1() -> Seq<u8> {
    seq![0x72u8, 0x73u8, 0x61u8, 0x2du8, 0x73u8, 0x68u8, 0x61u8, 0x31u8]
}

pub open spec fn lit_rsa_sha256() -> Seq<u8> {
    seq![0x72u8, 0x73u8, 0x61u8, 0x2du8, 0x73u8, 0x68u8, 0x61u8, 0x32u8, 0x35u8, 0x36u8]
}

pub open spec fn lit_ed25519_sha256() -> Seq<u8> {
    seq![0x65u8, 0x64u8, 0x32u8, 0x35u8, 0x35u8, 0x31u8, 0x39u8, 0x2du8, 0x73u8, 0x68u8, 0x61u8, 0x32u8, 0x35u8, 0x36u8]
}

pub open spec fn lit_simple() -> Seq<u8> {
    seq![0x73u8, 0x69u8, 0x6du8, 0x70u8, 0x6cu8, 0x65u8]
}

pub open spec fn lit_relaxed() -> Seq<u8> {
    seq![0x72u8, 0x65u8, 0x6cu8, 0x61u8, 0x78u8, 0x65u8, 0x64u8]
}

pub open spec fn lit_sha1() -> Seq<u8> {
    seq![0x73u8, 0x68u8, 0x61u8, 0x31u8]
}

pub open spec fn algorithm_of(v: Seq<u8>) -> Option<Algorithm> {
    if v == lit_rsa_sha1() {
        Some(Algorithm::RsaSha1)
    } else if v == lit_rsa_sha256() {
        Some(Algorithm::RsaSha256)
    } else if v == lit_ed25519_sha256() {
        Some(Algorithm::Ed25519Sha256)
    } else {
        None
    }
}

pub open spec fn canon_of(v: Seq<u8>) -> Option<Canonicalization> {
    if v == lit_simple() {
        Some(Canonicalization::Simple)
    } else if v == lit_relaxed() {
        Some(Canonicalization::Relaxed)
    } else {
        None
    }
}

/// `c=`: `header[/body]`, the body form simple when left out; simple/simple
/// when the tag is absent.
pub open spec fn canon_pair(v: Option<Seq<u8>>) -> Option<(Canonicalization, Canonicalization)> {
    match v {
        None => Some((Canonicalization::Simple, Canonicalization::Simple)),
        Some(v) => {
            let parts = split_on(v, SLASH);
            if parts.len() == 1 && canon_of(parts[0]) is Some {
                Some((canon_of(parts[0]).unwrap(), Canonicalization::Simple))
            } else if parts.len() == 2 && canon_of(parts[0]) is Some && canon_of(parts[1]) is Some {
                Some((canon_of(parts[0]).unwrap(), canon_of(parts[1]).unwrap()))
            } else {
                None
            }
        },
    }
}

/// A numeric tag: 0 when absent.
pub open spec fn number_tag(v: Option<Seq<u8>>) -> Option<u64> {
    match v {
        None => Some(0),
        Some(v) => number_of(v),
    }
}

pub open spec fn tn(tags: Seq<(Seq<u8>, Seq<u8>)>, name: Seq<u8>) -> Option<Seq<u8>> {
    tag_value(tags, name)
}

pub open spec fn n_v() -> Seq<u8> { seq![0x76u8] }
pub open spec fn n_a() -> Seq<u8> { seq![0x61u8] }
pub open spec fn n_d() -> Seq<u8> { seq![0x64u8] }
pub open spec fn n_s() -> Seq<u8> { seq![0x73u8] }
pub open spec fn n_b() -> Seq<u8> { seq![0x62u8] }
pub open spec fn n_bh() -> Seq<u8> { seq![0x62u8, 0x68u8] }
pub open spec fn n_h() -> Seq<u8> { seq![0x68u8] }
pub open spec fn n_z() -> Seq<u8> { seq![0x7au8] }
pub open spec fn n_i() -> Seq<u8> { seq![0x69u8] }
pub open spec fn n_l() -> Seq<u8> { seq![0x6cu8] }
pub open spec fn n_x() -> Seq<u8> { seq![0x78u8] }
pub open spec fn n_t() -> Seq<u8> { seq![0x74u8] }
pub open spec fn n_r() -> Seq<u8> { seq![0x72u8] }
pub open spec fn n_c() -> Seq<u8> { seq![0x63u8] }
pub open spec fn n_atps() -> Seq<u8> { seq![0x61u8, 0x74u8, 0x70u8, 0x73u8] }
pub open spec fn n_atpsh() -> Seq<u8> { seq![0x61u8, 0x74u8, 0x70u8, 0x73u8, 0x68u8] }

/// The first reason, in this order, why a tag list is no valid signature:
/// the version is not 1; `a`, `d`, `s`, `b`, `bh` or `h` is missing; the
/// algorithm is unknown; `b` or `bh` is not Base64; `l`, `x` or `t` is not
/// a number; the canonicalization is unknown.
pub open spec fn signature_error(tags: Seq<(Seq<u8>, Seq<u8>)>) -> Option<Error> {
    if tn(tags, n_v()) != Some(seq![0x31u8]) {
        Some(Error::UnsupportedVersion)
    } else if tn(tags, n_a()) is None || tn(tags, n_d()) is None || tn(tags, n_s()) is None
        || tn(tags, n_b()) is None || tn(tags, n_bh()) is None || tn(tags, n_h()) is None {
        Some(Error::MissingParameters)
    } else if algorithm_of(tn(tags, n_a()).unwrap()) is None {
        Some(Error::UnsupportedAlgorithm)
    } else if base64_decode(tn(tags, n_b()).unwrap()) is None || base64_decode(
        tn(tags, n_bh()).unwrap(),
    ) is None || number_tag(tn(tags, n_l())) is None || number_tag(tn(tags, n_x())) is None
        || number_tag(tn(tags, n_t())) is None {
        Some(Error::ParseError)
    } else if canon_pair(tn(tags, n_c())) is None {
        Some(Error::UnsupportedCanonicalization)
    } else {
        None
    }
}

/// `@` followed by the signing domain: the identity when `i=` is absent.
pub open spec fn default_identity(d: Seq<u8>) -> Seq<u8> {
    seq![0x40u8] + d
}

fn lit(bytes: &[u8]) -> (r: Vec<u8>)
    ensures
        r@ == bytes@,
{
    copy_bytes(bytes)
}

fn number_value(tags: &Vec<(Vec<u8>, Vec<u8>)>, name: &[u8]) -> (r: Option<u64>)
    ensures
        r == number_tag(tag_value(pair_views(tags@), name@)),
{
    match find_tag(tags, name) {
        None => Some(0),
        Some(v) => parse_number(v.as_slice()),
    }
}

fn canon_value(v: &[u8]) -> (r: Option<Canonicalization>)
    ensures
        r == canon_of(v@),
{
    let simple: [u8; 6] = [0x73, 0x69, 0x6d, 0x70, 0x6c, 0x65];
    let relaxed: [u8; 7] = [0x72, 0x65, 0x6c, 0x61, 0x78, 0x65, 0x64];
    assert(simple@ =~= lit_simple());
    assert(relaxed@ =~= lit_relaxed());
    if crate::dmarc::bytes_equal(v, simple.as_slice()) {
        Some(Canonicalization::Simple)
    } else if crate::dmarc::bytes_equal(v, relaxed.as_slice()) {
        Some(Canonicalization::Relaxed)
    } else {
        None
    }
}

fn canon_pair_value(v: Option<&Vec<u8>>) -> (r: Option<(Canonicalization, Canonicalization)>)
    ensures
        r == canon_pair(
            match v {
                Some(x) => Some(x@),
                None => None,
            },
        ),
{
    match v {
        None => Some((Canonicalization::Simple, Canonicalization::Simple)),
        Some(x) => {
            let parts = split_bytes(x.as_slice(), SLASH);
            let ghost ps = seg_views(parts@);
            if parts.len() == 1 {
                assert(parts[0]@ == ps[0]);
                match canon_value(parts[0].as_slice()) {
                    Some(h) => Some((h, Canonicalization::Simple)),
                    None => None,
                }
            } else if parts.len() == 2 {
                assert(parts[0]@ == ps[0]);
                assert(parts[1]@ == ps[1]);
                match (canon_value(parts[0].as_slice()), canon_value(parts[1].as_slice())) {
                    (Some(h), Some(b)) => Some((h, b)),
                    _ => None,
                }
            } else {
                None
            }
        },
    }
}

fn algorithm_value(v: &[u8]) -> (r: Option<Algorithm>)
    ensures
        r == algorithm_of(v@),
{
    let a1: [u8; 8] = [0x72, 0x73, 0x61, 0x2d, 0x73, 0x68, 0x61, 0x31];
    let a2: [u8; 10] = [0x72, 0x73, 0x61, 0x2d, 0x73, 0x68, 0x61, 0x32, 0x35, 0x36];
    let a3: [u8; 14] = [0x65, 0x64, 0x32, 0x35, 0x35, 0x31, 0x39, 0x2d, 0x73, 0x68, 0x61, 0x32, 0x35, 0x36];
    assert(a1@ =~= lit_rsa_sha1());
    assert(a2@ =~= lit_rsa_sha256());
    assert(a3@ =~= lit_ed25519_sha256());
    if crate::dmarc::bytes_equal(v, a1.as_slice()) {
        Some(Algorithm::RsaSha1)
    } else if crate::dmarc::bytes_equal(v, a2.as_slice()) {
        Some(Algorithm::RsaSha256)
    } else if crate::dmarc::bytes_equal(v, a3.as_slice()) {
        Some(Algorithm::Ed25519Sha256)
    } else {
        None
    }
}

impl Signature {
    /// Parses the value of a `DKIM-Signature` header.
    pub fn parse(s: &[u8]) -> (r: Result<Signature, Error>)
        ensures
            ({
                let tags = tag_list(s@);
                match r {
                    Err(e) => signature_error(tags) == Some(e),
                    Ok(sig) => {
                        &&& signature_error(tags) is None
                        &&& sig.v == 1
                        &&& Some(sig.a) == algorithm_of(tn(tags, n_a()).unwrap())
                        &&& sig.d@ == tn(tags, n_d()).unwrap()
                        &&& sig.s@ == tn(tags, n_s()).unwrap()
                        &&& Some(sig.b@) == base64_decode(tn(tags, n_b()).unwrap())
                        &&& Some(sig.bh@) == base64_decode(tn(tags, n_bh()).unwrap())
                        &&& seg_views(sig.h@) == name_list(tn(tags, n_h()).unwrap())
                        &&& seg_views(sig.z@) == (match tn(tags, n_z()) {
                            Some(z) => name_list(z),
                            None => Seq::empty(),
                        })
                        &&& sig.i@ == (match tn(tags, n_i()) {
                            Some(i) => i,
                            None => default_identity(sig.d@),
                        })
                        &&& Some(sig.l) == number_tag(tn(tags, n_l()))
                        &&& Some(sig.x) == number_tag(tn(tags, n_x()))
                        &&& Some(sig.t) == number_tag(tn(tags, n_t()))
                        &&& sig.r == (tn(tags, n_r()) == Some(seq![0x79u8]))
                        &&& Some((sig.ch, sig.cb)) == canon_pair(tn(tags, n_c()))
                        &&& match tn(tags, n_atps()) {
                            None => sig.atps is None,
                            Some(d) => sig.atps matches Some(at) && at.atps@ == d && at.atpsh == (
                                if tn(tags, n_atpsh()) == Some(lit_sha1()) {
                                    HashAlgorithm::Sha1
                                } else {
                                    HashAlgorithm::Sha256
                                }),
                        }
                    },
                }
            }),
    {
        let tags = parse_tag_list(s);
        let ghost tv = pair_views(tags@);
        let k_v = lit(&[0x76]);
        let k_a = lit(&[0x61]);
        let k_d = lit(&[0x64]);
        let k_s = lit(&[0x73]);
        let k_b = lit(&[0x62]);
        let k_bh = lit(&[0x62, 0x68]);
        let k_h = lit(&[0x68]);
        let k_z = lit(&[0x7a]);
        let k_i = lit(&[0x69]);
        let k_l = lit(&[0x6c]);
        let k_x = lit(&[0x78]);
        let k_t = lit(&[0x74]);
        let k_r = lit(&[0x72]);
        let k_c = lit(&[0x63]);
        let k_atps = lit(&[0x61, 0x74, 0x70, 0x73]);
        let k_atpsh = lit(&[0x61, 0x74, 0x70, 0x73, 0x68]);
        assert(k_v@ =~= n_v() && k_a@ =~= n_a() && k_d@ =~= n_d() && k_s@ =~= n_s());
        assert(k_b@ =~= n_b() && k_bh@ =~= n_bh() && k_h@ =~= n_h() && k_z@ =~= n_z());
        assert(k_i@ =~= n_i() && k_l@ =~= n_l() && k_x@ =~= n_x() && k_t@ =~= n_t());
        assert(k_r@ =~= n_r() && k_c@ =~= n_c() && k_atps@ =~= n_atps() && k_atpsh@ =~= n_atpsh());
        let one: [u8; 1] = [0x31];
        assert(one@ =~= seq![0x31u8]);
        match find_tag(&tags, k_v.as_slice()) {
            Some(v) => {
                if !crate::dmarc::bytes_equal(v.as_slice(), one.as_slice()) {
                    return Err(Error::UnsupportedVersion);
                }
            },
            None => {
                return Err(Error::UnsupportedVersion);
            },
        }
        let a = find_tag(&tags, k_a.as_slice());
        let d = find_tag(&tags, k_d.as_slice());
        let sel = find_tag(&tags, k_s.as_slice());
        let b = find_tag(&tags, k_b.as_slice());
        let bh = find_tag(&tags, k_bh.as_slice());
        let h = find_tag(&tags, k_h.as_slice());
        if a.is_none() || d.is_none() || sel.is_none() || b.is_none() || bh.is_none() || h.is_none() {
            return Err(Error::MissingParameters);
        }
        let a = a.unwrap();
        let d = d.unwrap();
        let sel = sel.unwrap();
        let b = b.unwrap();
        let bh = bh.unwrap();
        let h = h.unwrap();
        let alg = match algorithm_value(a.as_slice()) {
            Some(alg) => alg,
            None => {
                return Err(Error::UnsupportedAlgorithm);
            },
        };
        let b_bytes = decode_base64(b.as_slice());
        let bh_bytes = decode_base64(bh.as_slice());
        let l = number_value(&tags, k_l.as_slice());
        let x = number_value(&tags, k_x.as_slice());
        let t = number_value(&tags, k_t.as_slice());
        if b_bytes.is_none() || bh_bytes.is_none() || l.is_none() || x.is_none() || t.is_none() {
            return Err(Error::ParseError);
        }
        let (ch, cb) = match canon_pair_value(find_tag(&tags, k_c.as_slice())) {
            Some(p) => p,
            None => {
                return Err(Error::UnsupportedCanonicalization);
            },
        };
        let z = match find_tag(&tags, k_z.as_slice()) {
            Some(z) => parse_name_list(z.as_slice()),
            None => {
                let e: Vec<Vec<u8>> = Vec::new();
                assert(seg_views(e@) =~= Seq::<Seq<u8>>::empty());
                e
            },
        };
        let i = match find_tag(&tags, k_i.as_slice()) {
            Some(i) => copy_bytes(i.as_slice()),
            None => {
                let mut i: Vec<u8> = Vec::new();
                i.push(0x40);
                append_bytes(&mut i, d.as_slice());
                assert(i@ =~= default_identity(d@));
                i
            },
        };
        let r = match find_tag(&tags, k_r.as_slice()) {
            Some(v) => {
                let yes = v.len() == 1 && v[0] == 0x79;
                assert(yes == (v@ == seq![0x79u8])) by {
                    if v@ == seq![0x79u8] {
                        assert(v@[0] == 0x79);
                    }
                    if yes {
                        assert(v@ =~= seq![0x79u8]);
                    }
                }
                yes
            },
            None => false,
        };
        let atps = match find_tag(&tags, k_atps.as_slice()) {
            None => None,
            Some(domain) => {
                let sha1: [u8; 4] = [0x73, 0x68, 0x61, 0x31];
                assert(sha1@ =~= lit_sha1());
                let atpsh = match find_tag(&tags, k_atpsh.as_slice()) {
                    Some(v) => if crate::dmarc::bytes_equal(v.as_slice(), sha1.as_slice()) {
                        HashAlgorithm::Sha1
                    } else {
                        HashAlgorithm::Sha256
                    },
                    None => HashAlgorithm::Sha256,
                };
                Some(Atps { atps: copy_bytes(domain.as_slice()), atpsh })
            },
        };
        Ok(Signature {
            v: 1,
            a: alg,
            d: copy_bytes(d.as_slice()),
            s: copy_bytes(sel.as_slice()),
            b: b_bytes.unwrap(),
            bh: bh_bytes.unwrap(),
            h: parse_name_list(h.as_slice()),
            z,
            i,
            l: l.unwrap(),
            x: x.unwrap(),
            t: t.unwrap(),
            r,
            atps,
            ch,
            cb,
        })
    }
}


// ---------------------------------------------------------------------------
// Parsing a key record
// ---------------------------------------------------------------------------

pub uninterp spec fn rsa_spki_accepts(der: Seq<u8>) -> bool;

/// Relies on rsa's `DecodePublicKey::from_public_key_der` for
/// `RsaPublicKey`: it decodes a DER SubjectPublicKeyInfo holding an RSA key,
/// and whether it succeeds depends on the bytes alone.
#[verifier::external_body]
fn rsa_key_from_der(der: &[u8]) -> (r: Option<rsa::RsaPublicKey>)
    ensures
        r is Some <==> rsa_spki_accepts(der@),
{
    <rsa::RsaPublicKey as rsa::pkcs8::DecodePublicKey>::from_public_key_der(der).ok()
}

pub uninterp spec fn ed25519_point_valid(b: Seq<u8>) -> bool;

/// Relies on `ed25519_dalek::PublicKey::from_bytes`: it takes exactly 32
/// bytes that decompress to a curve point, and nothing else.
#[verifier::external_body]
fn ed25519_key_from_bytes(b: &[u8]) -> (r: Option<ed25519_dalek::PublicKey>)
    ensures
        r is Some <==> (b@.len() == 32 && ed25519_point_valid(b@)),
{
    ed25519_dalek::PublicKey::from_bytes(b).ok()
}

pub open spec fn lit_dkim1() -> Seq<u8> {
    seq![0x44u8, 0x4bu8, 0x49u8, 0x4du8, 0x31u8]
}

pub open spec fn lit_rsa() -> Seq<u8> {
    seq![0x72u8, 0x73u8, 0x61u8]
}

pub open spec fn lit_ed25519() -> Seq<u8> {
    seq![0x65u8, 0x64u8, 0x32u8, 0x35u8, 0x35u8, 0x31u8, 0x39u8]
}

pub open spec fn lit_sha256() -> Seq<u8> {
    seq![0x73u8, 0x68u8, 0x61u8, 0x32u8, 0x35u8, 0x36u8]
}

pub open spec fn lit_email() -> Seq<u8> {
    seq![0x65u8, 0x6du8, 0x61u8, 0x69u8, 0x6cu8]
}

pub open spec fn n_k() -> Seq<u8> { seq![0x6bu8] }
pub open spec fn n_p() -> Seq<u8> { seq![0x70u8] }

/// The flag bit that one entry of an `h=`, `s=` or `t=` list sets.
pub open spec fn entry_bit(tag: Seq<u8>, e: Seq<u8>) -> u64 {
    if tag == n_h() && e == lit_sha1() {
        R_HASH_SHA1
    } else if tag == n_h() && e == lit_sha256() {
        R_HASH_SHA256
    } else if tag == n_s() && e == seq![0x2au8] {
        R_SVC_ALL
    } else if tag == n_s() && e == lit_email() {
        R_SVC_EMAIL
    } else if tag == n_t() && e == seq![0x79u8] {
        R_FLAG_TESTING
    } else if tag == n_t() && e == seq![0x73u8] {
        R_FLAG_MATCH_DOMAIN
    } else {
        0
    }
}

pub open spec fn list_bits(tag: Seq<u8>, es: Seq<Seq<u8>>) -> u64
    decreases es.len(),
{
    if es.len() == 0 {
        0
    } else {
        list_bits(tag, es.drop_last()) | entry_bit(tag, es.last())
    }
}

/// The bits a key record's `h=`, `s=` or `t=` tag sets; when absent, `h=`
/// admits both hashes, `s=` every service, `t=` no flag.
pub open spec fn tag_bits(tags: Seq<(Seq<u8>, Seq<u8>)>, tag: Seq<u8>) -> u64 {
    match tn(tags, tag) {
        Some(v) => list_bits(tag, name_list(v)),
        None => if tag == n_h() {
            R_HASH_SHA1 | R_HASH_SHA256
        } else if tag == n_s() {
            R_SVC_ALL
        } else {
            0
        },
    }
}

pub open spec fn key_flags(tags: Seq<(Seq<u8>, Seq<u8>)>) -> u64 {
    tag_bits(tags, n_h()) | tag_bits(tags, n_s()) | tag_bits(tags, n_t())
}

/// The key type of `k=`: none for an unknown one; RSA when absent.
pub open spec fn key_kind(tags: Seq<(Seq<u8>, Seq<u8>)>) -> Option<Algorithm> {
    match tn(tags, n_k()) {
        None => Some(Algorithm::RsaSha256),
        Some(k) => if k == lit_rsa() {
            Some(Algorithm::RsaSha256)
        } else if k == lit_ed25519() {
            Some(Algorithm::Ed25519Sha256)
        } else {
            None
        },
    }
}

/// The first reason, in this order, why a tag list is no valid key record:
/// a version other than `DKIM1`; no `p=`; an unknown key type; `p=` not
/// Base64; key bytes that the key type's decoder refuses.
pub open spec fn key_error(tags: Seq<(Seq<u8>, Seq<u8>)>) -> Option<Error> {
    let p = tn(tags, n_p());
    if tn(tags, n_v()) is Some && tn(tags, n_v()) != Some(lit_dkim1()) {
        Some(Error::UnsupportedVersion)
    } else if p is None {
        Some(Error::MissingParameters)
    } else if key_kind(tags) is None {
        Some(Error::UnsupportedKeyType)
    } else if base64_decode(p.unwrap()) is None {
        Some(Error::ParseError)
    } else {
        let bytes = base64_decode(p.unwrap()).unwrap();
        if bytes.len() > 0 && (if key_kind(tags) == Some(Algorithm::RsaSha256) {
            !rsa_spki_accepts(bytes)
        } else {
            !(bytes.len() == 32 && ed25519_point_valid(bytes))
        }) {
            Some(Error::ParseError)
        } else {
            None
        }
    }
}

fn list_bits_value(tag: &[u8], v: &[u8]) -> (r: u64)
    ensures
        r == list_bits(tag@, name_list(v@)),
{
    let es = parse_name_list(v);
    let ghost ev = seg_views(es@);
    let sha1: [u8; 4] = [0x73, 0x68, 0x61, 0x31];
    let sha256: [u8; 6] = [0x73, 0x68, 0x61, 0x32, 0x35, 0x36];
    let email: [u8; 5] = [0x65, 0x6d, 0x61, 0x69, 0x6c];
    let star: [u8; 1] = [0x2a];
    let y: [u8; 1] = [0x79];
    let st: [u8; 1] = [0x73];
    let kh: [u8; 1] = [0x68];
    let ks: [u8; 1] = [0x73];
    let kt: [u8; 1] = [0x74];
    assert(sha1@ =~= lit_sha1() && sha256@ =~= lit_sha256() && email@ =~= lit_email());
    assert(star@ =~= seq![0x2au8] && y@ =~= seq![0x79u8] && st@ =~= seq![0x73u8]);
    assert(kh@ =~= n_h() && ks@ =~= n_s() && kt@ =~= n_t());
    let is_h = crate::dmarc::bytes_equal(tag, kh.as_slice());
    let is_s = crate::dmarc::bytes_equal(tag, ks.as_slice());
    let is_t = crate::dmarc::bytes_equal(tag, kt.as_slice());
    let mut f: u64 = 0;
    let mut i: usize = 0;
    while i < es.len()
        invariant
            i <= es@.len(),
            ev == seg_views(es@),
            ev.len() == es@.len(),
            is_h == (tag@ == n_h()),
            is_s == (tag@ == n_s()),
            is_t == (tag@ == n_t()),
            sha1@ == lit_sha1(),
            sha256@ == lit_sha256(),
            email@ == lit_email(),
            star@ == seq![0x2au8],
            y@ == seq![0x79u8],
            st@ == seq![0x73u8],
            f == list_bits(tag@, ev.subrange(0, i as int)),
        decreases es.len() - i,
    {
        let e = es[i].as_slice();
        assert(e@ == ev[i as int]);
        assert(ev.subrange(0, i + 1).drop_last() =~= ev.subrange(0, i as int));
        let bit: u64 = if is_h && crate::dmarc::bytes_equal(e, sha1.as_slice()) {
            R_HASH_SHA1
        } else if is_h && crate::dmarc::bytes_equal(e, sha256.as_slice()) {
            R_HASH_SHA256
        } else if is_s && crate::dmarc::bytes_equal(e, star.as_slice()) {
            R_SVC_ALL
        } else if is_s && crate::dmarc::bytes_equal(e, email.as_slice()) {
            R_SVC_EMAIL
        } else if is_t && crate::dmarc::bytes_equal(e, y.as_slice()) {
            R_FLAG_TESTING
        } else if is_t && crate::dmarc::bytes_equal(e, st.as_slice()) {
            R_FLAG_MATCH_DOMAIN
        } else {
            0
        };
        assert(bit == entry_bit(tag@, ev[i as int]));
        f = f | bit;
        i = i + 1;
    }
    assert(ev.subrange(0, i as int) =~= ev);
    f
}

fn tag_bits_value(tags: &Vec<(Vec<u8>, Vec<u8>)>, tag: &[u8]) -> (r: u64)
    ensures
        r == tag_bits(pair_views(tags@), tag@),
{
    match find_tag(tags, tag) {
        Some(v) => list_bits_value(tag, v.as_slice()),
        None => {
            let kh: [u8; 1] = [0x68];
            let ks: [u8; 1] = [0x73];
            assert(kh@ =~= n_h() && ks@ =~= n_s());
            if crate::dmarc::bytes_equal(tag, kh.as_slice()) {
                R_HASH_SHA1 | R_HASH_SHA256
            } else if crate::dmarc::bytes_equal(tag, ks.as_slice()) {
                R_SVC_ALL
            } else {
                0
            }
        },
    }
}

impl DomainKey {
    /// Parses a DKIM key record (the TXT record at `<s>._domainkey.<d>`).
    /// An empty `p=` is a revoked key.
    pub fn parse(s: &[u8]) -> (r: Result<DomainKey, Error>)
        ensures
            ({
                let tags = tag_list(s@);
                match r {
                    Err(e) => key_error(tags) == Some(e),
                    Ok(k) => {
                        let bytes = base64_decode(tn(tags, n_p()).unwrap()).unwrap();
                        &&& key_error(tags) is None
                        &&& k.v == Version::Dkim1
                        &&& k.f == key_flags(tags)
                        &&& (k.p is Revoked <==> bytes.len() == 0)
                        &&& (k.p is Rsa ==> key_kind(tags) == Some(Algorithm::RsaSha256))
                        &&& (k.p is Ed25519 ==> key_kind(tags) == Some(Algorithm::Ed25519Sha256))
                    },
                }
            }),
    {
        let tags = parse_tag_list(s);
        let k_v = lit(&[0x76]);
        let k_p = lit(&[0x70]);
        let k_k = lit(&[0x6b]);
        let k_h = lit(&[0x68]);
        let k_s = lit(&[0x73]);
        let k_t = lit(&[0x74]);
        let dkim1: [u8; 5] = [0x44, 0x4b, 0x49, 0x4d, 0x31];
        let rsa_k: [u8; 3] = [0x72, 0x73, 0x61];
        let ed_k: [u8; 7] = [0x65, 0x64, 0x32, 0x35, 0x35, 0x31, 0x39];
        assert(k_v@ =~= n_v() && k_p@ =~= n_p() && k_k@ =~= n_k());
        assert(k_h@ =~= n_h() && k_s@ =~= n_s() && k_t@ =~= n_t());
        assert(dkim1@ =~= lit_dkim1() && rsa_k@ =~= lit_rsa() && ed_k@ =~= lit_ed25519());
        if let Some(v) = find_tag(&tags, k_v.as_slice()) {
            if !crate::dmarc::bytes_equal(v.as_slice(), dkim1.as_slice()) {
                return Err(Error::UnsupportedVersion);
            }
        }
        let p = match find_tag(&tags, k_p.as_slice()) {
            Some(p) => p,
            None => {
                return Err(Error::MissingParameters);
            },
        };
        let is_rsa = match find_tag(&tags, k_k.as_slice()) {
            None => true,
            Some(k) => if crate::dmarc::bytes_equal(k.as_slice(), rsa_k.as_slice()) {
                true
            } else if crate::dmarc::bytes_equal(k.as_slice(), ed_k.as_slice()) {
                false
            } else {
                return Err(Error::UnsupportedKeyType);
            },
        };
        let bytes = match decode_base64(p.as_slice()) {
            Some(b) => b,
            None => {
                return Err(Error::ParseError);
            },
        };
        let key = if bytes.len() == 0 {
            DkimPublicKey::Revoked
        } else if is_rsa {
            match rsa_key_from_der(bytes.as_slice()) {
                Some(k) => DkimPublicKey::Rsa(k),
                None => {
                    return Err(Error::ParseError);
                },
            }
        } else {
            match ed25519_key_from_bytes(bytes.as_slice()) {
                Some(k) => DkimPublicKey::Ed25519(k),
                None => {
                    return Err(Error::ParseError);
                },
            }
        };
        let f = tag_bits_value(&tags, k_h.as_slice()) | tag_bits_value(&tags, k_s.as_slice())
            | tag_bits_value(&tags, k_t.as_slice());
        Ok(DomainKey { v: Version::Dkim1, p: key, f })
    }
}

} // verus!
