use vstd::prelude::*;

use crate::dkim::{eq_ignore_case, same_name, Canonicalization};
use crate::dmarc::append_bytes;
use crate::tags::pair_views;
use crate::error::Error;

verus! {

pub const CR: u8 = 0x0d;

pub const LF: u8 = 0x0a;

pub const SP: u8 = 0x20;

pub const TAB: u8 = 0x09;

pub open spec fn is_wsp(c: u8) -> bool {
    c == SP || c == TAB
}

pub open spec fn crlf() -> Seq<u8> {
    seq![CR, LF]
}

pub open spec fn ends_with_crlf(s: Seq<u8>) -> bool {
    s.len() >= 2 && s[s.len() - 2] == CR && s[s.len() - 1] == LF
}

/// `k` line breaks.
pub open spec fn crlfs(k: nat) -> Seq<u8>
    decreases k,
{
    if k == 0 {
        Seq::empty()
    } else {
        crlfs((k - 1) as nat) + crlf()
    }
}

/// `s` without the line breaks that end it.
pub open spec fn strip_trailing_crlf(s: Seq<u8>) -> Seq<u8>
    decreases s.len(),
{
    if ends_with_crlf(s) {
        strip_trailing_crlf(s.subrange(0, s.len() - 2))
    } else {
        s
    }
}

/// Whitespace normalization of relaxed body canonicalization: whitespace at
/// the end of each line (and of the input) is dropped, and every other run of
/// whitespace becomes a single space.
pub open spec fn relaxed_wsp(s: Seq<u8>) -> Seq<u8>
    decreases s.len(),
{
    if s.len() == 0 {
        Seq::empty()
    } else if is_wsp(s.last()) {
        relaxed_wsp(s.drop_last())
    } else if ends_with_crlf(s) {
        relaxed_wsp(s.subrange(0, s.len() - 2)) + crlf()
    } else {
        let p = s.drop_last();
        relaxed_wsp(p) + (if p.len() > 0 && is_wsp(p.last()) {
            seq![SP]
        } else {
            Seq::empty()
        }) + seq![s.last()]
    }
}

/// Simple body canonicalization: trailing empty lines removed, and exactly
/// one line break at the end (an empty body becomes a single line break).
pub open spec fn simple_body(s: Seq<u8>) -> Seq<u8> {
    strip_trailing_crlf(s) + crlf()
}

/// Relaxed body canonicalization: whitespace normalized, trailing empty lines
/// removed, and one line break at the end of a non-empty body.
pub open spec fn relaxed_body(s: Seq<u8>) -> Seq<u8> {
    let t = strip_trailing_crlf(relaxed_wsp(s));
    if t.len() == 0 {
        t
    } else {
        t + crlf()
    }
}

pub open spec fn canonical_body(c: Canonicalization, s: Seq<u8>) -> Seq<u8> {
    match c {
        Canonicalization::Simple => simple_body(s),
        Canonicalization::Relaxed => relaxed_body(s),
    }
}

proof fn lemma_strip_len(s: Seq<u8>)
    ensures
        strip_trailing_crlf(s).len() <= s.len(),
        strip_trailing_crlf(s) == s.subrange(0, strip_trailing_crlf(s).len() as int),
        !ends_with_crlf(strip_trailing_crlf(s)),
    decreases s.len(),
{
    if ends_with_crlf(s) {
        let p = s.subrange(0, s.len() - 2);
        lemma_strip_len(p);
        assert(p.subrange(0, strip_trailing_crlf(p).len() as int) =~= s.subrange(
            0,
            strip_trailing_crlf(p).len() as int,
        ));
    } else {
        assert(s.subrange(0, s.len() as int) =~= s);
    }
}

/// Removes the line breaks that end `s[..n]`; returns the new length.
fn strip_crlf_len(s: &Vec<u8>, n: usize) -> (r: usize)
    requires
        n <= s.len(),
    ensures
        r <= n,
        s@.subrange(0, r as int) == strip_trailing_crlf(s@.subrange(0, n as int)),
{
    let mut m: usize = n;
    while m >= 2 && s[m - 2] == CR && s[m - 1] == LF
        invariant
            m <= n <= s.len(),
            strip_trailing_crlf(s@.subrange(0, m as int)) == strip_trailing_crlf(
                s@.subrange(0, n as int),
            ),
        decreases m,
    {
        assert(s@.subrange(0, m as int).subrange(0, m - 2) =~= s@.subrange(0, m - 2));
        m = m - 2;
    }
    m
}

fn truncate_to(s: &mut Vec<u8>, n: usize)
    requires
        n <= old(s).len(),
    ensures
        final(s)@ == old(s)@.subrange(0, n as int),
{
    while s.len() > n
        invariant
            n <= s.len() <= old(s).len(),
            s@ == old(s)@.subrange(0, s.len() as int),
        decreases s.len(),
    {
        s.pop();
        assert(s@ =~= old(s)@.subrange(0, s.len() as int));
    }
}

/// Canonicalizes a message body with the simple algorithm.
pub fn canonicalize_body_simple(body: &[u8]) -> (r: Vec<u8>)
    ensures
        r@ == simple_body(body@),
{
    let mut out: Vec<u8> = Vec::new();
    let mut i: usize = 0;
    while i < body.len()
        invariant
            i <= body.len(),
            out@ == body@.subrange(0, i as int),
        decreases body.len() - i,
    {
        out.push(body[i]);
        i = i + 1;
    }
    assert(out@ =~= body@);
    let n = out.len();
    let m = strip_crlf_len(&out, n);
    assert(out@.subrange(0, n as int) =~= out@);
    truncate_to(&mut out, m);
    out.push(CR);
    out.push(LF);
    assert(out@ =~= simple_body(body@));
    out
}

/// Canonicalizes a message body with the relaxed algorithm.
pub fn canonicalize_body_relaxed(body: &[u8]) -> (r: Vec<u8>)
    ensures
        r@ == relaxed_body(body@),
{
    let ghost s = body@;
    let mut out: Vec<u8> = Vec::new();
    let mut pending = false;
    let mut i: usize = 0;
    while i < body.len()
        invariant
            s == body@,
            i <= body.len(),
            out@ == relaxed_wsp(s.subrange(0, i as int)),
            pending == (i > 0 && is_wsp(s[i - 1])),
            0 < i < s.len() && s[i - 1] == CR ==> s[i as int] != LF,
        decreases body.len() - i,
    {
        let c = body[i];
        let ghost pre = s.subrange(0, i as int);
        if c == SP || c == TAB {
            assert(s.subrange(0, i + 1).drop_last() =~= pre);
            pending = true;
            i = i + 1;
        } else if c == CR && i + 1 < body.len() && body[i + 1] == LF {
            assert(s.subrange(0, i + 2).subrange(0, i as int) =~= pre);
            out.push(CR);
            out.push(LF);
            pending = false;
            i = i + 2;
            assert(out@ =~= relaxed_wsp(s.subrange(0, i as int)));
        } else {
            let ghost q = s.subrange(0, i + 1);
            assert(q.drop_last() =~= pre);
            if pending {
                out.push(SP);
            }
            out.push(c);
            pending = false;
            i = i + 1;
            assert(!ends_with_crlf(q));
            assert(out@ =~= relaxed_wsp(q));
        }
    }
    assert(s.subrange(0, i as int) =~= s);
    let n = out.len();
    let m = strip_crlf_len(&out, n);
    assert(out@.subrange(0, n as int) =~= out@);
    truncate_to(&mut out, m);
    if m > 0 {
        out.push(CR);
        out.push(LF);
    }
    assert(out@ =~= relaxed_body(body@));
    out
}

/// Canonicalizes a message body with the given algorithm.
pub fn canonicalize_body(c: Canonicalization, body: &[u8]) -> (r: Vec<u8>)
    ensures
        r@ == canonical_body(c, body@),
{
    match c {
        Canonicalization::Simple => canonicalize_body_simple(body),
        Canonicalization::Relaxed => canonicalize_body_relaxed(body),
    }
}

/// The part of a canonical body that a body-length limit `l` covers: all of
/// it when `l` is 0, its first `l` bytes when it has that many, and
/// `BodyLengthMismatch` when it is shorter.
pub fn apply_body_length(canonical: &[u8], l: u64) -> (r: Result<Vec<u8>, Error>)
    ensures
        l == 0 ==> (r matches Ok(b) && b@ == canonical@),
        0 < l <= canonical@.len() ==> (r matches Ok(b) && b@ == canonical@.subrange(0, l as int)),
        l > canonical@.len() ==> r == Err::<Vec<u8>, Error>(Error::BodyLengthMismatch),
{
    let n: usize = if l == 0 {
        canonical.len()
    } else if l > canonical.len() as u64 {
        return Err(Error::BodyLengthMismatch);
    } else {
        l as usize
    };
    let mut out: Vec<u8> = Vec::new();
    let mut i: usize = 0;
    while i < n
        invariant
            n <= canonical.len(),
            i <= n,
            out@ == canonical@.subrange(0, i as int),
        decreases n - i,
    {
        out.push(canonical[i]);
        i = i + 1;
    }
    assert(canonical@.subrange(0, canonical.len() as int) =~= canonical@);
    Ok(out)
}


proof fn lemma_one_crlf()
    ensures
        crlfs(1) == crlf(),
{
    assert(crlfs(1) == crlfs(0) + crlf());
    assert(crlfs(0) + crlf() =~= crlf());
}

proof fn lemma_wsp_append_crlf(y: Seq<u8>)
    ensures
        relaxed_wsp(y + crlf()) == relaxed_wsp(y) + crlf(),
{
    let s = y + crlf();
    assert(s.last() == LF);
    assert(s.subrange(0, s.len() - 2) =~= y);
}

proof fn lemma_wsp_append_crlfs(x: Seq<u8>, k: nat)
    ensures
        relaxed_wsp(x + crlfs(k)) == relaxed_wsp(x) + crlfs(k),
    decreases k,
{
    if k == 0 {
        assert(x + crlfs(0) =~= x);
        assert(relaxed_wsp(x) + crlfs(0) =~= relaxed_wsp(x));
    } else {
        let j = (k - 1) as nat;
        lemma_wsp_append_crlfs(x, j);
        assert(x + crlfs(k) =~= (x + crlfs(j)) + crlf());
        lemma_wsp_append_crlf(x + crlfs(j));
        assert(relaxed_wsp(x) + crlfs(k) =~= (relaxed_wsp(x) + crlfs(j)) + crlf());
    }
}

proof fn lemma_strip_append_crlfs(t: Seq<u8>, k: nat)
    ensures
        strip_trailing_crlf(t + crlfs(k)) == strip_trailing_crlf(t),
    decreases k,
{
    if k == 0 {
        assert(t + crlfs(0) =~= t);
    } else {
        let j = (k - 1) as nat;
        let u = t + crlfs(k);
        assert(u =~= (t + crlfs(j)) + crlf());
        assert(ends_with_crlf(u));
        assert(u.subrange(0, u.len() - 2) =~= t + crlfs(j));
        lemma_strip_append_crlfs(t, j);
    }
}

/// Line breaks at the end of a body beyond the first do not change its
/// canonical form, relaxed or simple.
pub proof fn lemma_trailing_crlfs(x: Seq<u8>, k: nat)
    ensures
        relaxed_body(x + crlfs(k + 1)) == relaxed_body(x + crlf()),
        simple_body(x + crlfs(k)) == simple_body(x),
{
    lemma_one_crlf();
    lemma_wsp_append_crlfs(x, k + 1);
    lemma_wsp_append_crlfs(x, 1);
    lemma_strip_append_crlfs(relaxed_wsp(x), k + 1);
    lemma_strip_append_crlfs(relaxed_wsp(x), 1);
    lemma_strip_append_crlfs(x, k);
}

proof fn lemma_wsp_last(p: Seq<u8>)
    ensures
        relaxed_wsp(p).len() == 0 || !is_wsp(relaxed_wsp(p).last()),
        p.len() > 0 && !is_wsp(p.last()) ==> relaxed_wsp(p).len() > 0 && relaxed_wsp(p).last()
            == p.last(),
    decreases p.len(),
{
    if p.len() > 0 && is_wsp(p.last()) {
        lemma_wsp_last(p.drop_last());
    }
}

proof fn lemma_wsp_idempotent(s: Seq<u8>)
    ensures
        relaxed_wsp(relaxed_wsp(s)) == relaxed_wsp(s),
    decreases s.len(),
{
    if s.len() == 0 {
    } else if is_wsp(s.last()) {
        lemma_wsp_idempotent(s.drop_last());
    } else if ends_with_crlf(s) {
        let p = s.subrange(0, s.len() - 2);
        lemma_wsp_idempotent(p);
        lemma_wsp_append_crlf(relaxed_wsp(p));
    } else {
        let p = s.drop_last();
        let c = s.last();
        lemma_wsp_idempotent(p);
        lemma_wsp_last(p);
        let w = relaxed_wsp(p);
        if p.len() > 0 && is_wsp(p.last()) {
            let u = w + seq![SP] + seq![c];
            assert(u.drop_last() =~= w + seq![SP]);
            assert((w + seq![SP]).drop_last() =~= w);
            assert(!ends_with_crlf(u));
            assert(relaxed_wsp(w + seq![SP]) == relaxed_wsp(w));
        } else {
            let u = w + Seq::<u8>::empty() + seq![c];
            assert(u.drop_last() =~= w);
            if c == LF && p.len() > 0 {
                assert(p.last() != CR);
                assert(w.last() == p.last());
            }
            assert(!ends_with_crlf(u));
        }
    }
}

proof fn lemma_strip_keeps_normal(u: Seq<u8>)
    requires
        relaxed_wsp(u) == u,
    ensures
        relaxed_wsp(strip_trailing_crlf(u)) == strip_trailing_crlf(u),
    decreases u.len(),
{
    if ends_with_crlf(u) {
        let p = u.subrange(0, u.len() - 2);
        assert(u =~= p + crlf());
        lemma_wsp_append_crlf(p);
        assert(relaxed_wsp(p) =~= (relaxed_wsp(p) + crlf()).subrange(0, p.len() as int));
        lemma_strip_keeps_normal(p);
    }
}

/// Canonicalizing a canonical body again changes nothing, in both forms.
pub proof fn lemma_body_idempotent(s: Seq<u8>)
    ensures
        simple_body(simple_body(s)) == simple_body(s),
        relaxed_body(relaxed_body(s)) == relaxed_body(s),
{
    let t = strip_trailing_crlf(s);
    lemma_strip_len(s);
    lemma_one_crlf();
    lemma_strip_append_crlfs(t, 1);
    let u = relaxed_wsp(s);
    let r = strip_trailing_crlf(u);
    lemma_strip_len(u);
    lemma_wsp_idempotent(s);
    lemma_strip_keeps_normal(u);
    if r.len() == 0 {
        assert(relaxed_wsp(r) =~= Seq::<u8>::empty());
    } else {
        lemma_wsp_append_crlf(r);
        lemma_strip_append_crlfs(r, 1);
    }
}


/// What the body hash of a signature covers: the body canonicalized with
/// `c`, then cut to the limit `l` (0: no limit); `BodyLengthMismatch` when
/// the canonical body is shorter than `l`.
pub fn body_hash_input(c: Canonicalization, body: &[u8], l: u64) -> (r: Result<Vec<u8>, Error>)
    ensures
        l == 0 ==> (r matches Ok(b) && b@ == canonical_body(c, body@)),
        0 < l <= canonical_body(c, body@).len() ==> (r matches Ok(b) && b@ == canonical_body(
            c,
            body@,
        ).subrange(0, l as int)),
        l > canonical_body(c, body@).len() ==> r == Err::<Vec<u8>, Error>(Error::BodyLengthMismatch),
{
    let canonical = canonicalize_body(c, body);
    apply_body_length(canonical.as_slice(), l)
}

/// Compares the digest of the covered body with the signature's `bh=`.
pub fn compare_body_hash(computed: &[u8], bh: &[u8]) -> (r: Result<(), Error>)
    ensures
        r is Ok <==> computed@ == bh@,
        r is Err ==> r == Err::<(), Error>(Error::FailedBodyHashMatch),
{
    if crate::dmarc::bytes_equal(computed, bh) {
        Ok(())
    } else {
        Err(Error::FailedBodyHashMatch)
    }
}

// ---------------------------------------------------------------------------
// Headers
// ---------------------------------------------------------------------------

pub const COLON: u8 = 0x3a;

/// Whitespace inside a header field, line breaks of folding included.
pub open spec fn is_header_ws(c: u8) -> bool {
    c == SP || c == TAB || c == CR || c == LF
}

pub open spec fn lower_byte(c: u8) -> u8 {
    if 0x41 <= c <= 0x5a {
        (c + 0x20) as u8
    } else {
        c
    }
}

pub open spec fn ascii_lower(s: Seq<u8>) -> Seq<u8> {
    s.map_values(|c: u8| lower_byte(c))
}

/// Relaxed whitespace of a header field: unfolded, whitespace at both ends
/// removed, every inner run of whitespace a single space.
pub open spec fn relaxed_field(s: Seq<u8>) -> Seq<u8>
    decreases s.len(),
{
    if s.len() == 0 {
        Seq::empty()
    } else if is_header_ws(s.last()) {
        relaxed_field(s.drop_last())
    } else {
        let p = s.drop_last();
        let w = relaxed_field(p);
        w + (if w.len() > 0 && is_header_ws(p.last()) {
            seq![SP]
        } else {
            Seq::empty()
        }) + seq![s.last()]
    }
}

pub open spec fn relaxed_name(name: Seq<u8>) -> Seq<u8> {
    relaxed_field(ascii_lower(name))
}

/// Relaxed header canonicalization: `name:value` with a lowercased name,
/// relaxed whitespace on both, and one line break.
pub open spec fn relaxed_header(name: Seq<u8>, value: Seq<u8>) -> Seq<u8> {
    relaxed_name(name) + seq![COLON] + relaxed_field(value) + crlf()
}

/// Simple header canonicalization: the field as it stands (its value keeps
/// its own line break).
pub open spec fn simple_header(name: Seq<u8>, value: Seq<u8>) -> Seq<u8> {
    name + seq![COLON] + value
}

pub open spec fn canonical_header(c: Canonicalization, name: Seq<u8>, value: Seq<u8>) -> Seq<u8> {
    match c {
        Canonicalization::Simple => simple_header(name, value),
        Canonicalization::Relaxed => relaxed_header(name, value),
    }
}

fn relaxed_field_exec(s: &[u8], lower: bool) -> (r: Vec<u8>)
    ensures
        r@ == relaxed_field(if lower {
            ascii_lower(s@)
        } else {
            s@
        }),
{
    let ghost t = if lower {
        ascii_lower(s@)
    } else {
        s@
    };
    let mut out: Vec<u8> = Vec::new();
    let mut pending = false;
    let mut i: usize = 0;
    while i < s.len()
        invariant
            i <= s.len(),
            t.len() == s@.len(),
            t == (if lower {
                ascii_lower(s@)
            } else {
                s@
            }),
            out@ == relaxed_field(t.subrange(0, i as int)),
            pending == (i > 0 && is_header_ws(t[i - 1])),
        decreases s.len() - i,
    {
        let mut c = s[i];
        if lower && 0x41 <= c && c <= 0x5a {
            c = c + 0x20;
        }
        assert(c == t[i as int]);
        let ghost q = t.subrange(0, i + 1);
        assert(q.drop_last() =~= t.subrange(0, i as int));
        if c == SP || c == TAB || c == CR || c == LF {
            pending = true;
        } else {
            if pending && out.len() > 0 {
                out.push(SP);
            }
            out.push(c);
            pending = false;
            assert(out@ =~= relaxed_field(q));
        }
        i = i + 1;
    }
    assert(t.subrange(0, i as int) =~= t);
    out
}

/// Canonicalizes one header field with the relaxed algorithm.
pub fn canonicalize_header_relaxed(name: &[u8], value: &[u8]) -> (r: Vec<u8>)
    ensures
        r@ == relaxed_header(name@, value@),
{
    let mut out = relaxed_field_exec(name, true);
    out.push(COLON);
    let v = relaxed_field_exec(value, false);
    append_bytes(&mut out, v.as_slice());
    out.push(CR);
    out.push(LF);
    out
}

/// Canonicalizes one header field with the simple algorithm.
pub fn canonicalize_header_simple(name: &[u8], value: &[u8]) -> (r: Vec<u8>)
    ensures
        r@ == simple_header(name@, value@),
{
    let mut out = crate::dmarc::copy_bytes(name);
    out.push(COLON);
    append_bytes(&mut out, value);
    out
}

/// Canonicalizes one header field with the given algorithm.
pub fn canonicalize_header(c: Canonicalization, name: &[u8], value: &[u8]) -> (r: Vec<u8>)
    ensures
        r@ == canonical_header(c, name@, value@),
{
    match c {
        Canonicalization::Simple => canonicalize_header_simple(name, value),
        Canonicalization::Relaxed => canonicalize_header_relaxed(name, value),
    }
}

proof fn lemma_field_last(p: Seq<u8>)
    ensures
        relaxed_field(p).len() == 0 || !is_header_ws(relaxed_field(p).last()),
    decreases p.len(),
{
    if p.len() > 0 && is_header_ws(p.last()) {
        lemma_field_last(p.drop_last());
    }
}

proof fn lemma_field_idempotent(s: Seq<u8>)
    ensures
        relaxed_field(relaxed_field(s)) == relaxed_field(s),
    decreases s.len(),
{
    if s.len() == 0 {
    } else if is_header_ws(s.last()) {
        lemma_field_idempotent(s.drop_last());
    } else {
        let p = s.drop_last();
        let c = s.last();
        lemma_field_idempotent(p);
        lemma_field_last(p);
        let w = relaxed_field(p);
        if w.len() > 0 && is_header_ws(p.last()) {
            let u = w + seq![SP] + seq![c];
            assert(u.drop_last() =~= w + seq![SP]);
            assert((w + seq![SP]).drop_last() =~= w);
            assert(relaxed_field(w + seq![SP]) == relaxed_field(w));
        } else {
            let u = w + Seq::<u8>::empty() + seq![c];
            assert(u.drop_last() =~= w);
        }
    }
}

proof fn lemma_field_lower(s: Seq<u8>)
    ensures
        relaxed_field(ascii_lower(s)) == ascii_lower(relaxed_field(s)),
    decreases s.len(),
{
    let l = ascii_lower(s);
    if s.len() == 0 {
        assert(ascii_lower(relaxed_field(s)) =~= Seq::<u8>::empty());
    } else {
        let p = s.drop_last();
        assert(l.drop_last() =~= ascii_lower(p));
        assert(l.last() == lower_byte(s.last()));
        lemma_field_lower(p);
        if is_header_ws(s.last()) {
        } else {
            let w = relaxed_field(p);
            let g = if w.len() > 0 && is_header_ws(p.last()) {
                seq![SP]
            } else {
                Seq::<u8>::empty()
            };
            assert(ascii_lower(w + g + seq![s.last()]) =~= ascii_lower(w) + g + seq![lower_byte(s.last())]);
        }
    }
}

/// Canonicalizing a relaxed header again changes nothing: read back as name
/// and value (the value keeping its line break), it gives itself. (The simple
/// form is the field verbatim, so the same holds of it by construction.)
pub proof fn lemma_header_idempotent(name: Seq<u8>, value: Seq<u8>)
    ensures
        relaxed_header(relaxed_name(name), relaxed_field(value) + crlf()) == relaxed_header(name, value),
{
    let v = relaxed_field(value);
    lemma_field_idempotent(value);
    let u = v + crlf();
    assert(u.drop_last() =~= v + seq![CR]);
    assert((v + seq![CR]).drop_last() =~= v);
    assert(relaxed_field(u) == relaxed_field(v + seq![CR]));
    let l = ascii_lower(name);
    lemma_field_lower(l);
    assert(ascii_lower(l) =~= l);
    lemma_field_idempotent(l);
    assert(ascii_lower(relaxed_field(l)) == relaxed_field(l));
}


// ---------------------------------------------------------------------------
// Header selection
// ---------------------------------------------------------------------------

/// Index of the `n`-th (from 0) header called `name`, counting from the
/// bottom of the message.
pub open spec fn nth_from_bottom(hs: Seq<(Seq<u8>, Seq<u8>)>, name: Seq<u8>, n: nat) -> Option<int>
    decreases hs.len(),
{
    if hs.len() == 0 {
        None
    } else if same_name(hs.last().0, name) {
        if n == 0 {
            Some(hs.len() - 1)
        } else {
            nth_from_bottom(hs.drop_last(), name, (n - 1) as nat)
        }
    } else {
        nth_from_bottom(hs.drop_last(), name, n)
    }
}

/// How many of the first `j` names of `h` are `name`.
pub open spec fn count_same(h: Seq<Seq<u8>>, j: int, name: Seq<u8>) -> nat
    decreases j,
{
    if j <= 0 {
        0
    } else {
        count_same(h, j - 1, name) + (if same_name(h[j - 1], name) {
            1nat
        } else {
            0nat
        })
    }
}

/// The headers signed by the first `j` names of `h`: each name takes the
/// next occurrence from the bottom not yet taken; a missing one adds nothing.
pub open spec fn selected_upto(hs: Seq<(Seq<u8>, Seq<u8>)>, h: Seq<Seq<u8>>, j: int) -> Seq<int>
    decreases j,
{
    if j <= 0 {
        Seq::empty()
    } else {
        let prev = selected_upto(hs, h, j - 1);
        match nth_from_bottom(hs, h[j - 1], count_same(h, j - 1, h[j - 1])) {
            Some(i) => prev.push(i),
            None => prev,
        }
    }
}

pub open spec fn selected_headers(hs: Seq<(Seq<u8>, Seq<u8>)>, h: Seq<Seq<u8>>) -> Seq<int> {
    selected_upto(hs, h, h.len() as int)
}

pub open spec fn name_views(v: Seq<Vec<u8>>) -> Seq<Seq<u8>> {
    v.map_values(|x: Vec<u8>| x@)
}

proof fn lemma_nth_in_range(hs: Seq<(Seq<u8>, Seq<u8>)>, name: Seq<u8>, n: nat)
    ensures
        nth_from_bottom(hs, name, n) matches Some(i) ==> 0 <= i < hs.len(),
    decreases hs.len(),
{
    if hs.len() > 0 {
        if same_name(hs.last().0, name) {
            if n > 0 {
                lemma_nth_in_range(hs.drop_last(), name, (n - 1) as nat);
            }
        } else {
            lemma_nth_in_range(hs.drop_last(), name, n);
        }
    }
}

fn find_from_bottom(headers: &[(Vec<u8>, Vec<u8>)], name: &[u8], n: usize) -> (r: Option<usize>)
    ensures
        match r {
            Some(i) => nth_from_bottom(pair_views(headers@), name@, n as nat) == Some(i as int),
            None => nth_from_bottom(pair_views(headers@), name@, n as nat) is None,
        },
{
    let ghost all = pair_views(headers@);
    let mut i: usize = headers.len();
    let mut left: usize = n;
    assert(all.subrange(0, i as int) =~= all);
    while i > 0
        invariant
            i <= headers@.len(),
            all == pair_views(headers@),
            all.len() == headers@.len(),
            nth_from_bottom(all, name@, n as nat) == nth_from_bottom(
                all.subrange(0, i as int),
                name@,
                left as nat,
            ),
        decreases i,
    {
        let ghost pre = all.subrange(0, i as int);
        assert(pre.drop_last() =~= all.subrange(0, i - 1));
        assert(pre.last().0 == headers@[i - 1].0@);
        if eq_ignore_case(headers[i - 1].0.as_slice(), name) {
            if left == 0 {
                return Some(i - 1);
            }
            left = left - 1;
        }
        i = i - 1;
    }
    None
}

/// The headers that a signed-header list `h` covers, as indices into
/// `headers`, in the order of `h`.
pub fn select_headers(headers: &[(Vec<u8>, Vec<u8>)], h: &[Vec<u8>]) -> (r: Vec<usize>)
    ensures
        r@.len() == selected_headers(pair_views(headers@), name_views(h@)).len(),
        forall|k: int|
            0 <= k < r@.len() ==> r@[k] as int == #[trigger] selected_headers(
                pair_views(headers@),
                name_views(h@),
            )[k],
        forall|k: int| 0 <= k < r@.len() ==> #[trigger] r@[k] < headers@.len(),
{
    let ghost hs = pair_views(headers@);
    let ghost names = name_views(h@);
    let mut out: Vec<usize> = Vec::new();
    let mut j: usize = 0;
    while j < h.len()
        invariant
            j <= h@.len(),
            hs == pair_views(headers@),
            hs.len() == headers@.len(),
            names == name_views(h@),
            names.len() == h@.len(),
            out@.len() == selected_upto(hs, names, j as int).len(),
            forall|k: int|
                0 <= k < out@.len() ==> out@[k] as int == #[trigger] selected_upto(hs, names, j as int)[k],
            forall|k: int| 0 <= k < out@.len() ==> #[trigger] out@[k] < headers@.len(),
        decreases h.len() - j,
    {
        let name = h[j].as_slice();
        assert(name@ == names[j as int]);
        let mut cnt: usize = 0;
        let mut k: usize = 0;
        while k < j
            invariant
                k <= j < h@.len(),
                names == name_views(h@),
                names.len() == h@.len(),
                name@ == names[j as int],
                cnt <= k,
                cnt == count_same(names, k as int, names[j as int]),
            decreases j - k,
        {
            assert(h@[k as int]@ == names[k as int]);
            if eq_ignore_case(h[k].as_slice(), name) {
                cnt = cnt + 1;
            }
            k = k + 1;
        }
        let found = find_from_bottom(headers, name, cnt);
        proof {
            lemma_nth_in_range(hs, name@, cnt as nat);
        }
        if let Some(i) = found {
            out.push(i);
        }
        j = j + 1;
    }
    out
}

/// `headers[sel[0]] ++ headers[sel[1]] ++ ...`, each canonicalized.
pub open spec fn headers_stream(c: Canonicalization, hs: Seq<(Seq<u8>, Seq<u8>)>, sel: Seq<int>) -> Seq<u8>
    decreases sel.len(),
{
    if sel.len() == 0 {
        Seq::empty()
    } else {
        let i = sel.last();
        headers_stream(c, hs, sel.drop_last()) + canonical_header(c, hs[i].0, hs[i].1)
    }
}

/// The canonical header stream that a signature covers: the selected
/// headers, canonicalized, followed by the signature header itself
/// (canonicalized, its `b=` value already emptied by the caller) without a
/// line break at the end.
pub fn canonical_header_stream(
    c: Canonicalization,
    headers: &[(Vec<u8>, Vec<u8>)],
    h: &[Vec<u8>],
    sig_name: &[u8],
    sig_value: &[u8],
) -> (r: Vec<u8>)
    ensures
        ({
            let sig = canonical_header(c, sig_name@, sig_value@);
            let sel = selected_headers(pair_views(headers@), name_views(h@));
            let full = headers_stream(c, pair_views(headers@), sel) + sig;
            &&& r@ == if ends_with_crlf(sig) {
                full.subrange(0, full.len() - 2)
            } else {
                full
            }
        }),
{
    let ghost hs = pair_views(headers@);
    let sel = select_headers(headers, h);
    let ghost sels = selected_headers(hs, name_views(h@));
    let mut out: Vec<u8> = Vec::new();
    let mut k: usize = 0;
    while k < sel.len()
        invariant
            k <= sel@.len(),
            hs == pair_views(headers@),
            hs.len() == headers@.len(),
            sel@.len() == sels.len(),
            forall|m: int| 0 <= m < sel@.len() ==> sel@[m] as int == #[trigger] sels[m],
            forall|m: int| 0 <= m < sel@.len() ==> #[trigger] sel@[m] < headers@.len(),
            out@ == headers_stream(c, hs, sels.subrange(0, k as int)),
        decreases sel.len() - k,
    {
        let i = sel[k];
        assert(sel@[k as int] < headers@.len());
        assert(sels.subrange(0, k + 1).drop_last() =~= sels.subrange(0, k as int));
        assert(sels.subrange(0, k + 1).last() == i as int);
        assert(hs[i as int] == (headers@[i as int].0@, headers@[i as int].1@));
        let one = canonicalize_header(c, headers[i].0.as_slice(), headers[i].1.as_slice());
        append_bytes(&mut out, one.as_slice());
        k = k + 1;
    }
    assert(sels.subrange(0, k as int) =~= sels);
    let sig = canonicalize_header(c, sig_name, sig_value);
    append_bytes(&mut out, sig.as_slice());
    let n = out.len();
    if sig.len() >= 2 && sig[sig.len() - 2] == CR && sig[sig.len() - 1] == LF {
        truncate_to(&mut out, n - 2);
    }
    out
}

} // verus!
