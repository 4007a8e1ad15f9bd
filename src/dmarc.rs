use vstd::prelude::*;

use crate::dkim::Signature;
use crate::error::Error;
use crate::tags::{
    find_first, find_tag, first_index_of, pair_views, parse_tag_list, seg_views, split_bytes,
    split_on, sub_vec, tag_list, tag_value, trim, trim_bounds,
};

verus! {

pub const AT: u8 = 0x40;

pub const DOT: u8 = 0x2e;

#[derive(Debug, Clone, Copy, PartialEq, Eq, Structural)]
pub enum Policy {
    NoAction,
    Quarantine,
    Reject,
    Unspecified,
}

#[derive(Debug, Clone, Copy, PartialEq, Eq, Structural)]
pub enum Alignment {
    Relaxed,
    Strict,
}

/// A `mailto:` report address with an optional size limit (0: none).
#[derive(Debug, Clone, PartialEq, Eq)]
pub struct URI {
    pub uri: Vec<u8>,
    pub max_size: usize,
}

impl URI {
    pub fn new(uri: &[u8], max_size: usize) -> (r: URI)
        ensures
            r.uri@ == uri@,
            r.max_size == max_size,
    {
        URI { uri: copy_bytes(uri), max_size }
    }
}

/// A parsed DMARC record.
#[derive(Debug, Clone, PartialEq, Eq)]
pub struct Dmarc {
    pub p: Policy,
    pub sp: Policy,
    pub aspf: Alignment,
    pub adkim: Alignment,
    pub rua: Vec<URI>,
    pub ruf: Vec<URI>,
}

#[derive(Debug, Clone, Copy, PartialEq, Eq, Structural)]
pub enum DmarcResult {
    Pass,
    Fail(Error),
    TempError(Error),
    PermError(Error),
    NoResult,
}

#[derive(Debug, Clone, Copy, PartialEq, Eq, Structural)]
pub enum DkimResult {
    Pass,
    Neutral(Error),
    Fail(Error),
    PermError(Error),
    TempError(Error),
    NoSignature,
}

#[derive(Debug, Clone, Copy, PartialEq, Eq, Structural)]
pub enum SpfResult {
    Pass,
    Fail,
    SoftFail,
    Neutral,
    TempError,
    PermError,
    NoRecord,
}

/// The verdict of one DKIM signature.
pub struct DkimOutput {
    pub result: DkimResult,
    pub signature: Option<Signature>,
    pub is_atps: bool,
}

/// The verdict of the SPF evaluator.
pub struct SpfOutput {
    pub result: SpfResult,
    pub domain: Vec<u8>,
}

pub struct DmarcOutput {
    pub spf_result: DmarcResult,
    pub dkim_result: DmarcResult,
    pub domain: Vec<u8>,
    pub policy: Policy,
    pub record: Option<Dmarc>,
}

/// The output when DMARC does not apply: no domain, no record, no verdicts.
pub open spec fn is_default_output(o: DmarcOutput) -> bool {
    &&& o.spf_result == DmarcResult::NoResult
    &&& o.dkim_result == DmarcResult::NoResult
    &&& o.domain@.len() == 0
    &&& o.policy == Policy::Unspecified
    &&& o.record is None
}

impl DmarcOutput {
    pub fn new_default() -> (r: DmarcOutput)
        ensures
            is_default_output(r),
    {
        DmarcOutput {
            spf_result: DmarcResult::NoResult,
            dkim_result: DmarcResult::NoResult,
            domain: Vec::new(),
            policy: Policy::Unspecified,
            record: None,
        }
    }
}

// ---------------------------------------------------------------------------
// Byte-string helpers
// ---------------------------------------------------------------------------

/// `a` is a proper subdomain of `b`: it ends with `.` followed by `b`.
pub open spec fn is_subdomain_of(a: Seq<u8>, b: Seq<u8>) -> bool {
    &&& a.len() > b.len()
    &&& a[a.len() - b.len() - 1] == DOT
    &&& a.subrange(a.len() - b.len(), a.len() as int) == b
}

/// Index of the last `c` in `s`, or -1.
pub open spec fn last_index_of(s: Seq<u8>, c: u8) -> int
    decreases s.len(),
{
    if s.len() == 0 {
        -1
    } else if s.last() == c {
        s.len() - 1
    } else {
        last_index_of(s.drop_last(), c)
    }
}

pub open spec fn has_at(a: Seq<u8>) -> bool {
    last_index_of(a, AT) >= 0
}

/// What follows the last `@` of an address; empty when it has none.
pub open spec fn domain_part(a: Seq<u8>) -> Seq<u8> {
    if has_at(a) {
        a.subrange(last_index_of(a, AT) + 1, a.len() as int)
    } else {
        Seq::empty()
    }
}

pub(crate) proof fn lemma_last_index_bounds(s: Seq<u8>, c: u8)
    ensures
        -1 <= last_index_of(s, c) < s.len(),
        last_index_of(s, c) >= 0 ==> s[last_index_of(s, c)] == c,
    decreases s.len(),
{
    if s.len() > 0 && s.last() != c {
        lemma_last_index_bounds(s.drop_last(), c);
    }
}

pub(crate) fn copy_bytes(s: &[u8]) -> (r: Vec<u8>)
    ensures
        r@ == s@,
{
    let mut r: Vec<u8> = Vec::new();
    let mut i: usize = 0;
    while i < s.len()
        invariant
            i <= s.len(),
            r@ == s@.subrange(0, i as int),
        decreases s.len() - i,
    {
        r.push(s[i]);
        i = i + 1;
    }
    assert(r@ =~= s@);
    r
}

pub(crate) fn append_bytes(r: &mut Vec<u8>, s: &[u8])
    ensures
        final(r)@ == old(r)@ + s@,
{
    let mut i: usize = 0;
    while i < s.len()
        invariant
            i <= s.len(),
            r@ == old(r)@ + s@.subrange(0, i as int),
        decreases s.len() - i,
    {
        r.push(s[i]);
        i = i + 1;
        assert(r@ =~= old(r)@ + s@.subrange(0, i as int));
    }
    assert(s@.subrange(0, s.len() as int) =~= s@);
}

pub(crate) fn bytes_equal(a: &[u8], b: &[u8]) -> (r: bool)
    ensures
        r == (a@ == b@),
{
    if a.len() != b.len() {
        return false;
    }
    let mut i: usize = 0;
    while i < a.len()
        invariant
            a.len() == b.len(),
            i <= a.len(),
            forall|k: int| 0 <= k < i ==> a@[k] == b@[k],
        decreases a.len() - i,
    {
        if a[i] != b[i] {
            return false;
        }
        i = i + 1;
    }
    assert(a@ =~= b@);
    true
}

fn is_subdomain(a: &[u8], b: &[u8]) -> (r: bool)
    ensures
        r == is_subdomain_of(a@, b@),
{
    if a.len() <= b.len() {
        return false;
    }
    let off: usize = a.len() - b.len();
    if a[off - 1] != DOT {
        return false;
    }
    let mut i: usize = 0;
    while i < b.len()
        invariant
            off == a.len() - b.len(),
            i <= b.len(),
            forall|k: int| 0 <= k < i ==> a@[off + k] == b@[k],
        decreases b.len() - i,
    {
        if a[off + i] != b[i] {
            assert(a@.subrange(off as int, a.len() as int)[i as int] != b@[i as int]);
            return false;
        }
        i = i + 1;
    }
    assert(a@.subrange(off as int, a.len() as int) =~= b@);
    true
}

fn rfind_byte(s: &[u8], c: u8) -> (r: Option<usize>)
    ensures
        match r {
            Some(k) => k == last_index_of(s@, c),
            None => last_index_of(s@, c) == -1,
        },
{
    let mut i: usize = s.len();
    assert(s@.subrange(0, i as int) =~= s@);
    while i > 0
        invariant
            i <= s.len(),
            last_index_of(s@, c) == last_index_of(s@.subrange(0, i as int), c),
        decreases i,
    {
        assert(s@.subrange(0, i as int).drop_last() =~= s@.subrange(0, i - 1));
        if s[i - 1] == c {
            return Some(i - 1);
        }
        i = i - 1;
    }
    None
}

/// The domain of an address (after its last `@`), empty when it has none.
pub fn address_domain(a: &[u8]) -> (r: Vec<u8>)
    ensures
        r@ == domain_part(a@),
{
    let mut r: Vec<u8> = Vec::new();
    let found = rfind_byte(a, AT);
    match found {
        None => r,
        Some(k) => {
            proof {
                lemma_last_index_bounds(a@, AT);
                assert(k < a@.len());
                assert(k + 1 <= a.len());
            }
            let mut i: usize = k + 1;
            while i < a.len()
                invariant
                    k < a.len(),
                    k + 1 <= i <= a.len(),
                    k == last_index_of(a@, AT),
                    r@ == a@.subrange(k + 1, i as int),
                decreases a.len() - i,
            {
                r.push(a[i]);
                i = i + 1;
                assert(r@ =~= a@.subrange(k + 1, i as int));
            }
            r
        },
    }
}

// ---------------------------------------------------------------------------
// Alignment
// ---------------------------------------------------------------------------

pub open spec fn align_strict(a: Seq<u8>, b: Seq<u8>) -> bool {
    a == b
}

pub open spec fn align_relaxed(a: Seq<u8>, b: Seq<u8>) -> bool {
    a == b || is_subdomain_of(a, b) || is_subdomain_of(b, a)
}

pub open spec fn aligned(mode: Alignment, a: Seq<u8>, b: Seq<u8>) -> bool {
    match mode {
        Alignment::Strict => align_strict(a, b),
        Alignment::Relaxed => align_relaxed(a, b),
    }
}

/// One of the two domains is a proper subdomain of the other.
pub open spec fn related(a: Seq<u8>, b: Seq<u8>) -> bool {
    is_subdomain_of(a, b) || is_subdomain_of(b, a)
}

/// Whether the authenticated domain `a` is aligned with the From domain `b`.
pub fn is_aligned(mode: Alignment, a: &[u8], b: &[u8]) -> (r: bool)
    ensures
        r == aligned(mode, a@, b@),
{
    if bytes_equal(a, b) {
        true
    } else {
        match mode {
            Alignment::Strict => false,
            Alignment::Relaxed => is_subdomain(a, b) || is_subdomain(b, a),
        }
    }
}

fn is_related(a: &[u8], b: &[u8]) -> (r: bool)
    ensures
        r == related(a@, b@),
{
    is_subdomain(a, b) || is_subdomain(b, a)
}

/// Strict alignment implies relaxed alignment, for any pair of domains.
pub proof fn lemma_strict_implies_relaxed(a: Seq<u8>, b: Seq<u8>)
    ensures
        align_strict(a, b) ==> align_relaxed(a, b),
        aligned(Alignment::Strict, a, b) ==> aligned(Alignment::Relaxed, a, b),
{
}


// ---------------------------------------------------------------------------
// RFC5322.From domain
// ---------------------------------------------------------------------------

pub open spec fn addr_views(f: Seq<Vec<u8>>) -> Seq<Seq<u8>> {
    f.map_values(|a: Vec<u8>| a@)
}

/// `d` is the one non-empty domain shared by every From address that has an `@`.
pub open spec fn single_from_domain(f: Seq<Seq<u8>>, d: Seq<u8>) -> bool {
    &&& d.len() > 0
    &&& exists|i: int| 0 <= i < f.len() && has_at(f[i])
    &&& forall|i: int| 0 <= i < f.len() && has_at(#[trigger] f[i]) ==> domain_part(f[i]) == d
}

/// The RFC5322.From domain of a message, from the addresses of its From
/// header. There is none when no address has an `@`, when the addresses name
/// two different domains, or when that domain is empty.
pub fn from_domain(from: &[Vec<u8>]) -> (r: Option<Vec<u8>>)
    ensures
        match r {
            Some(d) => single_from_domain(addr_views(from@), d@),
            None => forall|d: Seq<u8>| !single_from_domain(addr_views(from@), d),
        },
{
    let ghost f = addr_views(from@);
    let mut found: Option<Vec<u8>> = None;
    let ghost mut first: int = -1;
    let mut i: usize = 0;
    while i < from.len()
        invariant
            i <= from.len(),
            f == addr_views(from@),
            f.len() == from@.len(),
            found is None ==> forall|k: int| 0 <= k < i ==> !has_at(#[trigger] f[k]),
            found matches Some(d) ==> {
                &&& 0 <= first < i
                &&& has_at(f[first])
                &&& forall|k: int| 0 <= k < i && has_at(#[trigger] f[k]) ==> domain_part(f[k]) == d@
            },
        decreases from.len() - i,
    {
        let a = from[i].as_slice();
        assert(a@ == f[i as int]);
        if rfind_byte(a, AT).is_some() {
            let d = address_domain(a);
            match &found {
                None => {
                    proof {
                        first = i as int;
                    }
                    found = Some(d);
                },
                Some(prev) => {
                    if !bytes_equal(prev.as_slice(), d.as_slice()) {
                        assert forall|c: Seq<u8>| !single_from_domain(f, c) by {
                            if single_from_domain(f, c) {
                                assert(domain_part(f[first]) == c);
                                assert(domain_part(f[i as int]) == c);
                            }
                        }
                        return None;
                    }
                },
            }
        }
        i = i + 1;
    }
    match found {
        None => {
            assert forall|c: Seq<u8>| !single_from_domain(f, c) by {
                if single_from_domain(f, c) {
                    let k = choose|k: int| 0 <= k < f.len() && has_at(f[k]);
                    assert(!has_at(f[k]));
                }
            }
            None
        },
        Some(d) => {
            if d.len() == 0 {
                assert forall|c: Seq<u8>| !single_from_domain(f, c) by {
                    if single_from_domain(f, c) {
                        assert(domain_part(f[first]) == c);
                    }
                }
                None
            } else {
                Some(d)
            }
        },
    }
}

/// A From header whose addresses name two different domains has no From
/// domain, whatever else it holds: DMARC is then skipped.
pub proof fn lemma_multi_from_skips(f: Seq<Seq<u8>>, i: int, j: int)
    requires
        0 <= i < f.len(),
        0 <= j < f.len(),
        has_at(f[i]),
        has_at(f[j]),
        domain_part(f[i]) != domain_part(f[j]),
    ensures
        forall|d: Seq<u8>| !single_from_domain(f, d),
{
    assert forall|d: Seq<u8>| !single_from_domain(f, d) by {
        if single_from_domain(f, d) {
            assert(domain_part(f[i]) == d);
            assert(domain_part(f[j]) == d);
        }
    }
}

/// The first step of the evaluation: the From domain, or the default output
/// when the message has none (see `from_domain`).
pub fn dmarc_from_domain(from: &[Vec<u8>]) -> (r: Result<Vec<u8>, DmarcOutput>)
    ensures
        match r {
            Ok(d) => single_from_domain(addr_views(from@), d@),
            Err(o) => is_default_output(o) && forall|d: Seq<u8>|
                !single_from_domain(addr_views(from@), d),
        },
{
    match from_domain(from) {
        Some(d) => Ok(d),
        None => Err(DmarcOutput::new_default()),
    }
}


// ---------------------------------------------------------------------------
// Verdict
// ---------------------------------------------------------------------------

pub open spec fn any_dkim_pass(outs: Seq<DkimOutput>) -> bool {
    exists|i: int| 0 <= i < outs.len() && (#[trigger] outs[i]).result == DkimResult::Pass
}

pub open spec fn signed_by(o: DkimOutput) -> Seq<u8> {
    match o.signature {
        Some(sig) => sig.d@,
        None => Seq::empty(),
    }
}

pub open spec fn dkim_passes_with(o: DkimOutput) -> bool {
    o.result == DkimResult::Pass && o.signature is Some
}

pub open spec fn dkim_exact(outs: Seq<DkimOutput>, from: Seq<u8>) -> bool {
    exists|i: int| 0 <= i < outs.len() && dkim_passes_with(#[trigger] outs[i]) && signed_by(outs[i]) == from
}

pub open spec fn dkim_related(outs: Seq<DkimOutput>, from: Seq<u8>) -> bool {
    exists|i: int|
        0 <= i < outs.len() && dkim_passes_with(#[trigger] outs[i]) && related(signed_by(outs[i]), from)
}

pub open spec fn dkim_aligned(outs: Seq<DkimOutput>, mode: Alignment, from: Seq<u8>) -> bool {
    exists|i: int|
        0 <= i < outs.len() && dkim_passes_with(#[trigger] outs[i]) && aligned(mode, signed_by(outs[i]), from)
}

/// SPF axis: no verdict unless SPF passed; then pass iff the MAIL FROM
/// domain is aligned with the From domain.
pub open spec fn spf_verdict(spf: SpfResult, mode: Alignment, mail_from: Seq<u8>, from: Seq<u8>) -> DmarcResult {
    if spf != SpfResult::Pass {
        DmarcResult::NoResult
    } else if aligned(mode, mail_from, from) {
        DmarcResult::Pass
    } else {
        DmarcResult::Fail(Error::DMARCNotAligned)
    }
}

/// DKIM axis: no verdict unless a signature passed; then pass iff a passing
/// signature's domain is aligned with the From domain.
pub open spec fn dkim_verdict(outs: Seq<DkimOutput>, mode: Alignment, from: Seq<u8>) -> DmarcResult {
    if !any_dkim_pass(outs) {
        DmarcResult::NoResult
    } else if dkim_aligned(outs, mode, from) {
        DmarcResult::Pass
    } else {
        DmarcResult::Fail(Error::DMARCNotAligned)
    }
}

/// The subdomain policy applies when SPF aligned through a subdomain
/// relation, or when no passing signature matches exactly but one is in a
/// subdomain relation (aligned or not).
pub open spec fn uses_subdomain_policy(
    spf: SpfResult,
    aspf: Alignment,
    mail_from: Seq<u8>,
    outs: Seq<DkimOutput>,
    from: Seq<u8>,
) -> bool {
    ||| (spf == SpfResult::Pass && mail_from != from && aspf == Alignment::Relaxed && related(mail_from, from))
    ||| (any_dkim_pass(outs) && !dkim_exact(outs, from) && dkim_related(outs, from))
}

pub open spec fn result_from_error(e: Error) -> DmarcResult {
    if e == Error::DNSError {
        DmarcResult::TempError(e)
    } else {
        DmarcResult::PermError(e)
    }
}

pub fn dmarc_result_from_error(e: Error) -> (r: DmarcResult)
    ensures
        r == result_from_error(e),
{
    match e {
        Error::DNSError => DmarcResult::TempError(e),
        _ => DmarcResult::PermError(e),
    }
}

/// The output when the tree walk failed: both axes carry the error.
pub fn dmarc_walk_failed(from_domain: Vec<u8>, err: Error) -> (r: DmarcOutput)
    ensures
        r.domain@ == from_domain@,
        r.spf_result == result_from_error(err),
        r.dkim_result == result_from_error(err),
        r.policy == Policy::Unspecified,
        r.record is None,
{
    let res = dmarc_result_from_error(err);
    DmarcOutput { spf_result: res, dkim_result: res, domain: from_domain, policy: Policy::Unspecified, record: None }
}

/// The output when the tree walk found no record.
pub fn dmarc_no_record(from_domain: Vec<u8>) -> (r: DmarcOutput)
    ensures
        r.domain@ == from_domain@,
        r.spf_result == DmarcResult::NoResult,
        r.dkim_result == DmarcResult::NoResult,
        r.policy == Policy::Unspecified,
        r.record is None,
{
    DmarcOutput {
        spf_result: DmarcResult::NoResult,
        dkim_result: DmarcResult::NoResult,
        domain: from_domain,
        policy: Policy::Unspecified,
        record: None,
    }
}

/// Evaluates identifier alignment against the DMARC record found for the
/// From domain, given the DKIM verdicts and the SPF verdict.
pub fn dmarc_evaluate(
    from_domain: Vec<u8>,
    dmarc: Dmarc,
    dkim_output: &[DkimOutput],
    mail_from_domain: &[u8],
    spf_output: &SpfOutput,
) -> (r: DmarcOutput)
    ensures
        r.domain@ == from_domain@,
        r.spf_result == spf_verdict(spf_output.result, dmarc.aspf, mail_from_domain@, from_domain@),
        r.dkim_result == dkim_verdict(dkim_output@, dmarc.adkim, from_domain@),
        r.policy == if uses_subdomain_policy(
            spf_output.result,
            dmarc.aspf,
            mail_from_domain@,
            dkim_output@,
            from_domain@,
        ) {
            dmarc.sp
        } else {
            dmarc.p
        },
        r.record == Some(dmarc),
{
    let ghost outs = dkim_output@;
    let ghost from = from_domain@;
    let mut any_pass = false;
    let mut exact = false;
    let mut rel = false;
    let mut i: usize = 0;
    while i < dkim_output.len()
        invariant
            i <= dkim_output.len(),
            outs == dkim_output@,
            from == from_domain@,
            any_pass == exists|k: int| 0 <= k < i && (#[trigger] outs[k]).result == DkimResult::Pass,
            exact == exists|k: int| 0 <= k < i && dkim_passes_with(#[trigger] outs[k]) && signed_by(outs[k]) == from,
            rel == exists|k: int| 0 <= k < i && dkim_passes_with(#[trigger] outs[k]) && related(signed_by(outs[k]), from),
        decreases dkim_output.len() - i,
    {
        let o = &dkim_output[i];
        assert(*o == outs[i as int]);
        if o.result == DkimResult::Pass {
            any_pass = true;
            if let Some(sig) = &o.signature {
                if bytes_equal(sig.d.as_slice(), from_domain.as_slice()) {
                    exact = true;
                }
                if is_related(sig.d.as_slice(), from_domain.as_slice()) {
                    rel = true;
                }
            }
        }
        i = i + 1;
    }
    assert(dkim_aligned(outs, Alignment::Strict, from) == exact);
    assert(dkim_aligned(outs, Alignment::Relaxed, from) == (exact || rel)) by {
        if dkim_aligned(outs, Alignment::Relaxed, from) {
            let k = choose|k: int| 0 <= k < outs.len() && dkim_passes_with(#[trigger] outs[k]) && aligned(Alignment::Relaxed, signed_by(outs[k]), from);
            if signed_by(outs[k]) != from {
                assert(related(signed_by(outs[k]), from));
            }
        }
        if exact {
            let k = choose|k: int| 0 <= k < outs.len() && dkim_passes_with(#[trigger] outs[k]) && signed_by(outs[k]) == from;
            assert(aligned(Alignment::Relaxed, signed_by(outs[k]), from));
        }
        if rel {
            let k = choose|k: int| 0 <= k < outs.len() && dkim_passes_with(#[trigger] outs[k]) && related(signed_by(outs[k]), from);
            assert(aligned(Alignment::Relaxed, signed_by(outs[k]), from));
        }
    }
    let mut shift = false;
    let spf_result = if spf_output.result == SpfResult::Pass {
        if bytes_equal(mail_from_domain, from_domain.as_slice()) {
            DmarcResult::Pass
        } else if dmarc.aspf == Alignment::Relaxed && is_related(mail_from_domain, from_domain.as_slice()) {
            shift = true;
            DmarcResult::Pass
        } else {
            DmarcResult::Fail(Error::DMARCNotAligned)
        }
    } else {
        DmarcResult::NoResult
    };
    let dkim_result = if any_pass {
        if exact {
            DmarcResult::Pass
        } else if dmarc.adkim == Alignment::Relaxed && rel {
            shift = true;
            DmarcResult::Pass
        } else {
            if rel {
                shift = true;
            }
            DmarcResult::Fail(Error::DMARCNotAligned)
        }
    } else {
        DmarcResult::NoResult
    };
    let policy = if shift {
        dmarc.sp
    } else {
        dmarc.p
    };
    DmarcOutput { spf_result, dkim_result, domain: from_domain, policy, record: Some(dmarc) }
}

/// Strict alignment is the stronger mode on both axes: whatever passes under
/// strict alignment passes under relaxed alignment too.
pub proof fn lemma_strict_pass_implies_relaxed_pass(
    spf: SpfResult,
    mail_from: Seq<u8>,
    outs: Seq<DkimOutput>,
    from: Seq<u8>,
)
    ensures
        spf_verdict(spf, Alignment::Strict, mail_from, from) == DmarcResult::Pass ==> spf_verdict(
            spf,
            Alignment::Relaxed,
            mail_from,
            from,
        ) == DmarcResult::Pass,
        dkim_verdict(outs, Alignment::Strict, from) == DmarcResult::Pass ==> dkim_verdict(
            outs,
            Alignment::Relaxed,
            from,
        ) == DmarcResult::Pass,
{
    if dkim_aligned(outs, Alignment::Strict, from) {
        let k = choose|k: int| 0 <= k < outs.len() && dkim_passes_with(#[trigger] outs[k]) && aligned(Alignment::Strict, signed_by(outs[k]), from);
        assert(aligned(Alignment::Relaxed, signed_by(outs[k]), from));
    }
}


// ---------------------------------------------------------------------------
// External report addresses
// ---------------------------------------------------------------------------

/// `.report.dmarc.`
pub open spec fn report_infix() -> Seq<u8> {
    seq![0x2eu8, 0x72u8, 0x65u8, 0x70u8, 0x6fu8, 0x72u8, 0x74u8, 0x2eu8, 0x64u8, 0x6du8, 0x61u8, 0x72u8, 0x63u8, 0x2eu8]
}

/// An address in the publishing domain, or one of its subdomains, needs no
/// authorization record.
pub open spec fn report_in_domain(domain: Seq<u8>, addr: Seq<u8>) -> bool {
    domain_part(addr) == domain || is_subdomain_of(domain_part(addr), domain)
}

/// `<domain>.report.dmarc.<address domain>.`
pub open spec fn report_query(domain: Seq<u8>, addr: Seq<u8>) -> Seq<u8> {
    domain + report_infix() + domain_part(addr) + seq![DOT]
}

/// The authorization record to fetch for a report address published by
/// `domain`, or `None` when the address is accepted without one.
pub fn report_address_query(domain: &[u8], uri: &URI) -> (r: Option<Vec<u8>>)
    ensures
        r is None <==> report_in_domain(domain@, uri.uri@),
        r matches Some(q) ==> q@ == report_query(domain@, uri.uri@),
{
    let d = address_domain(uri.uri.as_slice());
    if bytes_equal(d.as_slice(), domain) || is_subdomain(d.as_slice(), domain) {
        return None;
    }
    let mut q = copy_bytes(domain);
    let infix: [u8; 14] = [0x2e, 0x72, 0x65, 0x70, 0x6f, 0x72, 0x74, 0x2e, 0x64, 0x6d, 0x61, 0x72, 0x63, 0x2e];
    assert(infix@ =~= report_infix());
    append_bytes(&mut q, infix.as_slice());
    append_bytes(&mut q, d.as_slice());
    q.push(DOT);
    assert(q@ =~= report_query(domain@, uri.uri@));
    Some(q)
}

/// What the outcome of an authorization lookup means for the address:
/// a record accepts it, a transport error aborts the whole validation
/// (`None`), anything else rejects it.
pub fn report_lookup_verdict(lookup: Result<(), Error>) -> (r: Option<bool>)
    ensures
        r == match lookup {
            Ok(()) => Some(true),
            Err(Error::DNSError) => None::<bool>,
            Err(_) => Some(false),
        },
{
    match lookup {
        Ok(()) => Some(true),
        Err(Error::DNSError) => None,
        Err(_) => Some(false),
    }
}


// ---------------------------------------------------------------------------
// Record parsing
// ---------------------------------------------------------------------------

pub const COMMA: u8 = 0x2c;

pub const BANG: u8 = 0x21;

pub open spec fn mailto() -> Seq<u8> {
    seq![0x6du8, 0x61u8, 0x69u8, 0x6cu8, 0x74u8, 0x6fu8, 0x3au8]
}

/// The address of one `mailto:` entry of a report URI list, without its
/// size suffix; none for an entry of another scheme.
pub open spec fn uri_of(piece: Seq<u8>) -> Option<Seq<u8>> {
    let t = trim(piece);
    if t.len() >= 7 && t.subrange(0, 7) == mailto() {
        let rest = t.subrange(7, t.len() as int);
        let k = first_index_of(rest, BANG);
        Some(
            if k < 0 {
                rest
            } else {
                rest.subrange(0, k)
            },
        )
    } else {
        None
    }
}

pub open spec fn uris_of(pieces: Seq<Seq<u8>>) -> Seq<Seq<u8>>
    decreases pieces.len(),
{
    if pieces.len() == 0 {
        Seq::empty()
    } else {
        let rest = uris_of(pieces.drop_last());
        match uri_of(pieces.last()) {
            Some(u) => rest.push(u),
            None => rest,
        }
    }
}

pub open spec fn uri_views(v: Seq<URI>) -> Seq<Seq<u8>> {
    v.map_values(|u: URI| u.uri@)
}

/// The `mailto:` addresses of a comma-separated URI list.
pub open spec fn uri_list(v: Seq<u8>) -> Seq<Seq<u8>> {
    uris_of(split_on(v, COMMA))
}

fn parse_uri(piece: &[u8]) -> (r: Option<URI>)
    ensures
        match r {
            Some(u) => uri_of(piece@) == Some(u.uri@),
            None => uri_of(piece@) is None,
        },
{
    assert(piece@.subrange(0, piece@.len() as int) =~= piece@);
    let (b, e) = trim_bounds(piece, 0, piece.len());
    let ghost t = piece@.subrange(b as int, e as int);
    if e - b < 7 {
        return None;
    }
    let prefix: [u8; 7] = [0x6d, 0x61, 0x69, 0x6c, 0x74, 0x6f, 0x3a];
    assert(prefix@ =~= mailto());
    let head = sub_vec(piece, b, b + 7);
    assert(head@ =~= t.subrange(0, 7));
    if !bytes_equal(head.as_slice(), prefix.as_slice()) {
        return None;
    }
    let k = find_first(piece, b + 7, e, BANG);
    assert(piece@.subrange(b + 7, e as int) =~= t.subrange(7, t.len() as int));
    let uri = sub_vec(piece, b + 7, k);
    assert(uri@ =~= (if k == e {
        t.subrange(7, t.len() as int)
    } else {
        t.subrange(7, t.len() as int).subrange(0, k - (b + 7))
    }));
    Some(URI { uri, max_size: 0 })
}

/// Parses a comma-separated list of report URIs, keeping the `mailto:` ones.
pub fn parse_uri_list(v: &[u8]) -> (r: Vec<URI>)
    ensures
        uri_views(r@) == uri_list(v@),
{
    let pieces = split_bytes(v, COMMA);
    let ghost segs = seg_views(pieces@);
    let mut out: Vec<URI> = Vec::new();
    let mut i: usize = 0;
    while i < pieces.len()
        invariant
            i <= pieces.len(),
            segs == seg_views(pieces@),
            segs.len() == pieces@.len(),
            uri_views(out@) == uris_of(segs.subrange(0, i as int)),
        decreases pieces.len() - i,
    {
        let piece = pieces[i].as_slice();
        assert(piece@ == segs[i as int]);
        assert(segs.subrange(0, i + 1).drop_last() =~= segs.subrange(0, i as int));
        if let Some(u) = parse_uri(piece) {
            let ghost uv = u.uri@;
            out.push(u);
            assert(uri_views(out@) =~= uris_of(segs.subrange(0, i as int)).push(uv));
        }
        i = i + 1;
    }
    assert(segs.subrange(0, i as int) =~= segs);
    out
}

pub open spec fn policy_of(v: Seq<u8>) -> Option<Policy> {
    if v == seq![0x6eu8, 0x6fu8, 0x6eu8, 0x65u8] {
        Some(Policy::NoAction)
    } else if v == seq![0x71u8, 0x75u8, 0x61u8, 0x72u8, 0x61u8, 0x6eu8, 0x74u8, 0x69u8, 0x6eu8, 0x65u8] {
        Some(Policy::Quarantine)
    } else if v == seq![0x72u8, 0x65u8, 0x6au8, 0x65u8, 0x63u8, 0x74u8] {
        Some(Policy::Reject)
    } else {
        None
    }
}

pub open spec fn alignment_of(v: Seq<u8>) -> Option<Alignment> {
    if v == seq![0x72u8] {
        Some(Alignment::Relaxed)
    } else if v == seq![0x73u8] {
        Some(Alignment::Strict)
    } else {
        None
    }
}

/// A policy tag: `default` when absent, none when its value is not a policy.
pub open spec fn policy_tag(tags: Seq<(Seq<u8>, Seq<u8>)>, name: Seq<u8>, default: Policy) -> Option<Policy> {
    match tag_value(tags, name) {
        None => Some(default),
        Some(v) => policy_of(v),
    }
}

/// An alignment tag: relaxed when absent.
pub open spec fn alignment_tag(tags: Seq<(Seq<u8>, Seq<u8>)>, name: Seq<u8>) -> Option<Alignment> {
    match tag_value(tags, name) {
        None => Some(Alignment::Relaxed),
        Some(v) => alignment_of(v),
    }
}

pub open spec fn uri_tag(tags: Seq<(Seq<u8>, Seq<u8>)>, name: Seq<u8>) -> Seq<Seq<u8>> {
    match tag_value(tags, name) {
        None => Seq::empty(),
        Some(v) => uri_list(v),
    }
}

pub open spec fn dmarc1() -> Seq<u8> {
    seq![0x44u8, 0x4du8, 0x41u8, 0x52u8, 0x43u8, 0x31u8]
}

pub open spec fn name_v() -> Seq<u8> { seq![0x76u8] }
pub open spec fn name_p() -> Seq<u8> { seq![0x70u8] }
pub open spec fn name_sp() -> Seq<u8> { seq![0x73u8, 0x70u8] }
pub open spec fn name_aspf() -> Seq<u8> { seq![0x61u8, 0x73u8, 0x70u8, 0x66u8] }
pub open spec fn name_adkim() -> Seq<u8> { seq![0x61u8, 0x64u8, 0x6bu8, 0x69u8, 0x6du8] }
pub open spec fn name_rua() -> Seq<u8> { seq![0x72u8, 0x75u8, 0x61u8] }
pub open spec fn name_ruf() -> Seq<u8> { seq![0x72u8, 0x75u8, 0x66u8] }

/// The record that a DMARC tag list describes, if it is one.
pub open spec fn dmarc_record_ok(s: Seq<u8>) -> bool {
    let tags = tag_list(s);
    let p = policy_tag(tags, name_p(), Policy::Unspecified);
    &&& tag_value(tags, name_v()) == Some(dmarc1())
    &&& p is Some
    &&& policy_tag(tags, name_sp(), p.unwrap()) is Some
    &&& alignment_tag(tags, name_aspf()) is Some
    &&& alignment_tag(tags, name_adkim()) is Some
}

fn policy_value(tags: &Vec<(Vec<u8>, Vec<u8>)>, name: &[u8], default: Policy) -> (r: Option<Policy>)
    ensures
        r == policy_tag(pair_views(tags@), name@, default),
{
    match find_tag(tags, name) {
        None => Some(default),
        Some(v) => {
            let none: [u8; 4] = [0x6e, 0x6f, 0x6e, 0x65];
            let quarantine: [u8; 10] = [0x71, 0x75, 0x61, 0x72, 0x61, 0x6e, 0x74, 0x69, 0x6e, 0x65];
            let reject: [u8; 6] = [0x72, 0x65, 0x6a, 0x65, 0x63, 0x74];
            assert(none@ =~= seq![0x6eu8, 0x6fu8, 0x6eu8, 0x65u8]);
            assert(quarantine@ =~= seq![0x71u8, 0x75u8, 0x61u8, 0x72u8, 0x61u8, 0x6eu8, 0x74u8, 0x69u8, 0x6eu8, 0x65u8]);
            assert(reject@ =~= seq![0x72u8, 0x65u8, 0x6au8, 0x65u8, 0x63u8, 0x74u8]);
            if bytes_equal(v.as_slice(), none.as_slice()) {
                Some(Policy::NoAction)
            } else if bytes_equal(v.as_slice(), quarantine.as_slice()) {
                Some(Policy::Quarantine)
            } else if bytes_equal(v.as_slice(), reject.as_slice()) {
                Some(Policy::Reject)
            } else {
                None
            }
        },
    }
}

fn alignment_value(tags: &Vec<(Vec<u8>, Vec<u8>)>, name: &[u8]) -> (r: Option<Alignment>)
    ensures
        r == alignment_tag(pair_views(tags@), name@),
{
    match find_tag(tags, name) {
        None => Some(Alignment::Relaxed),
        Some(v) => {
            if v.len() == 1 && v[0] == 0x72 {
                assert(v@ =~= seq![0x72u8]);
                Some(Alignment::Relaxed)
            } else if v.len() == 1 && v[0] == 0x73 {
                assert(v@ =~= seq![0x73u8]);
                Some(Alignment::Strict)
            } else {
                None
            }
        },
    }
}

fn uri_value(tags: &Vec<(Vec<u8>, Vec<u8>)>, name: &[u8]) -> (r: Vec<URI>)
    ensures
        uri_views(r@) == uri_tag(pair_views(tags@), name@),
{
    match find_tag(tags, name) {
        None => {
            let r: Vec<URI> = Vec::new();
            assert(uri_views(r@) =~= Seq::<Seq<u8>>::empty());
            r
        },
        Some(v) => parse_uri_list(v.as_slice()),
    }
}

impl Dmarc {
    /// Parses a DMARC TXT record. It must carry `v=DMARC1`; a policy,
    /// subdomain policy or alignment tag with an unknown value is a parse
    /// error. Absent tags take their defaults: no policy, `sp` as `p`,
    /// relaxed alignment, no report addresses.
    pub fn parse(s: &[u8]) -> (r: Result<Dmarc, Error>)
        ensures
            tag_value(tag_list(s@), name_v()) != Some(dmarc1()) ==> r == Err::<Dmarc, Error>(
                Error::UnsupportedVersion,
            ),
            tag_value(tag_list(s@), name_v()) == Some(dmarc1()) && !dmarc_record_ok(s@) ==> r
                == Err::<Dmarc, Error>(Error::ParseError),
            r is Ok <==> dmarc_record_ok(s@),
            r matches Ok(d) ==> {
                let tags = tag_list(s@);
                &&& Some(d.p) == policy_tag(tags, name_p(), Policy::Unspecified)
                &&& Some(d.sp) == policy_tag(tags, name_sp(), d.p)
                &&& Some(d.aspf) == alignment_tag(tags, name_aspf())
                &&& Some(d.adkim) == alignment_tag(tags, name_adkim())
                &&& uri_views(d.rua@) == uri_tag(tags, name_rua())
                &&& uri_views(d.ruf@) == uri_tag(tags, name_ruf())
            },
    {
        let tags = parse_tag_list(s);
        let n_v: [u8; 1] = [0x76];
        let n_p: [u8; 1] = [0x70];
        let n_sp: [u8; 2] = [0x73, 0x70];
        let n_aspf: [u8; 4] = [0x61, 0x73, 0x70, 0x66];
        let n_adkim: [u8; 5] = [0x61, 0x64, 0x6b, 0x69, 0x6d];
        let n_rua: [u8; 3] = [0x72, 0x75, 0x61];
        let n_ruf: [u8; 3] = [0x72, 0x75, 0x66];
        let v_dmarc1: [u8; 6] = [0x44, 0x4d, 0x41, 0x52, 0x43, 0x31];
        assert(n_v@ =~= name_v());
        assert(n_p@ =~= name_p());
        assert(n_sp@ =~= name_sp());
        assert(n_aspf@ =~= name_aspf());
        assert(n_adkim@ =~= name_adkim());
        assert(n_rua@ =~= name_rua());
        assert(n_ruf@ =~= name_ruf());
        assert(v_dmarc1@ =~= dmarc1());
        match find_tag(&tags, n_v.as_slice()) {
            Some(v) => {
                if !bytes_equal(v.as_slice(), v_dmarc1.as_slice()) {
                    return Err(Error::UnsupportedVersion);
                }
            },
            None => {
                return Err(Error::UnsupportedVersion);
            },
        }
        let p = match policy_value(&tags, n_p.as_slice(), Policy::Unspecified) {
            Some(p) => p,
            None => {
                return Err(Error::ParseError);
            },
        };
        let sp = match policy_value(&tags, n_sp.as_slice(), p) {
            Some(sp) => sp,
            None => {
                return Err(Error::ParseError);
            },
        };
        let aspf = match alignment_value(&tags, n_aspf.as_slice()) {
            Some(a) => a,
            None => {
                return Err(Error::ParseError);
            },
        };
        let adkim = match alignment_value(&tags, n_adkim.as_slice()) {
            Some(a) => a,
            None => {
                return Err(Error::ParseError);
            },
        };
        let rua = uri_value(&tags, n_rua.as_slice());
        let ruf = uri_value(&tags, n_ruf.as_slice());
        Ok(Dmarc { p, sp, aspf, adkim, rua, ruf })
    }
}

} // verus!
