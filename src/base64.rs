use vstd::prelude::*;

use crate::tags::is_fws;

verus! {

pub const PAD: u8 = 0x3d;

/// `s` with folding whitespace removed.
pub open spec fn strip_fws(s: Seq<u8>) -> Seq<u8>
    decreases s.len(),
{
    if s.len() == 0 {
        Seq::empty()
    } else if is_fws(s.last()) {
        strip_fws(s.drop_last())
    } else {
        strip_fws(s.drop_last()).push(s.last())
    }
}

/// The 6-bit value of a Base64 digit, or -1.
pub open spec fn digit_value(c: u8) -> int {
    if 0x41 <= c <= 0x5a {
        c - 0x41
    } else if 0x61 <= c <= 0x7a {
        c - 0x61 + 26
    } else if 0x30 <= c <= 0x39 {
        c - 0x30 + 52
    } else if c == 0x2b {
        62
    } else if c == 0x2f {
        63
    } else {
        -1
    }
}

/// The bytes of one group of four characters; padding only in the last one.
pub open spec fn group_bytes(q: Seq<u8>, last: bool) -> Option<Seq<u8>> {
    let a = digit_value(q[0]);
    let b = digit_value(q[1]);
    let c = digit_value(q[2]);
    let d = digit_value(q[3]);
    let b0 = (a * 4 + b / 16) as u8;
    let b1 = ((b % 16) * 16 + c / 4) as u8;
    let b2 = ((c % 4) * 64 + d) as u8;
    if a < 0 || b < 0 {
        None
    } else if c >= 0 && d >= 0 {
        Some(seq![b0, b1, b2])
    } else if last && c >= 0 && q[3] == PAD {
        Some(seq![b0, b1])
    } else if last && q[2] == PAD && q[3] == PAD {
        Some(seq![b0])
    } else {
        None
    }
}

/// Base64 decoding of a whitespace-free text whose length is a multiple of 4.
pub open spec fn decode_groups(t: Seq<u8>) -> Option<Seq<u8>>
    decreases t.len(),
{
    if t.len() == 0 {
        Some(Seq::empty())
    } else if t.len() < 4 {
        None
    } else {
        match group_bytes(t.subrange(0, 4), t.len() == 4) {
            None => None,
            Some(g) => match decode_groups(t.subrange(4, t.len() as int)) {
                None => None,
                Some(r) => Some(g + r),
            },
        }
    }
}

/// Base64 decoding, whitespace ignored.
pub open spec fn base64_decode(s: Seq<u8>) -> Option<Seq<u8>> {
    decode_groups(strip_fws(s))
}

pub open spec fn prepend(o: Seq<u8>, x: Option<Seq<u8>>) -> Option<Seq<u8>> {
    match x {
        Some(r) => Some(o + r),
        None => None,
    }
}

fn digit(c: u8) -> (r: i16)
    ensures
        r as int == digit_value(c),
{
    if 0x41 <= c && c <= 0x5a {
        (c - 0x41) as i16
    } else if 0x61 <= c && c <= 0x7a {
        (c - 0x61 + 26) as i16
    } else if 0x30 <= c && c <= 0x39 {
        (c - 0x30 + 52) as i16
    } else if c == 0x2b {
        62
    } else if c == 0x2f {
        63
    } else {
        -1
    }
}

fn strip(s: &[u8]) -> (r: Vec<u8>)
    ensures
        r@ == strip_fws(s@),
{
    let mut out: Vec<u8> = Vec::new();
    let mut i: usize = 0;
    while i < s.len()
        invariant
            i <= s.len(),
            out@ == strip_fws(s@.subrange(0, i as int)),
        decreases s.len() - i,
    {
        assert(s@.subrange(0, i + 1).drop_last() =~= s@.subrange(0, i as int));
        let c = s[i];
        if !(c == 0x20 || c == 0x09 || c == 0x0d || c == 0x0a) {
            out.push(c);
        }
        i = i + 1;
    }
    assert(s@.subrange(0, i as int) =~= s@);
    out
}

/// Decodes Base64 text, ignoring whitespace; `None` when it is not valid
/// Base64 (a length that is not a multiple of four after whitespace is
/// removed, a foreign character, or padding before the end).
pub fn decode_base64(s: &[u8]) -> (r: Option<Vec<u8>>)
    ensures
        match r {
            Some(v) => base64_decode(s@) == Some(v@),
            None => base64_decode(s@) is None,
        },
{
    let t = strip(s);
    let n = t.len();
    let mut out: Vec<u8> = Vec::new();
    let mut i: usize = 0;
    assert(t@.subrange(0, n as int) =~= t@);
    assert(out@ + Seq::<u8>::empty() =~= out@);
    while i < n
        invariant
            n == t@.len(),
            t@ == strip_fws(s@),
            i <= n,
            decode_groups(t@) == prepend(out@, decode_groups(t@.subrange(i as int, n as int))),
        decreases n - i,
    {
        let ghost rest = t@.subrange(i as int, n as int);
        if n - i < 4 {
            assert(decode_groups(rest) is None);
            return None;
        }
        let ghost q = rest.subrange(0, 4);
        assert(q =~= t@.subrange(i as int, i + 4));
        assert(rest.subrange(4, rest.len() as int) =~= t@.subrange(i + 4, n as int));
        let last = n - i == 4;
        let a = digit(t[i]);
        let b = digit(t[i + 1]);
        let c = digit(t[i + 2]);
        let d = digit(t[i + 3]);
        if a < 0 || b < 0 {
            assert(group_bytes(q, last) is None);
            assert(decode_groups(rest) is None);
            return None;
        }
        let b0 = (a * 4 + b / 16) as u8;
        let ghost before = out@;
        if c >= 0 && d >= 0 {
            let b1 = ((b % 16) * 16 + c / 4) as u8;
            let b2 = ((c % 4) * 64 + d) as u8;
            out.push(b0);
            out.push(b1);
            out.push(b2);
            assert(out@ =~= before + seq![b0, b1, b2]);
        } else if last && c >= 0 && t[i + 3] == PAD {
            let b1 = ((b % 16) * 16 + c / 4) as u8;
            out.push(b0);
            out.push(b1);
            assert(out@ =~= before + seq![b0, b1]);
        } else if last && t[i + 2] == PAD && t[i + 3] == PAD {
            out.push(b0);
            assert(out@ =~= before + seq![b0]);
        } else {
            assert(group_bytes(q, last) is None);
            assert(decode_groups(rest) is None);
            return None;
        }
        proof {
            let g = out@.subrange(before.len() as int, out@.len() as int);
            assert(before + g =~= out@);
            assert(group_bytes(q, last) == Some(g));
            match decode_groups(t@.subrange(i + 4, n as int)) {
                Some(r) => {
                    assert(before + (g + r) =~= out@ + r);
                },
                None => {},
            }
        }
        i = i + 4;
    }
    assert(t@.subrange(n as int, n as int) =~= Seq::<u8>::empty());
    assert(out@ + Seq::<u8>::empty() =~= out@);
    Some(out)
}

} // verus!
