use vstd::prelude::*;

use crate::dmarc::{last_index_of, lemma_last_index_bounds};

verus! {

pub const SEMICOLON: u8 = 0x3b;

pub const EQUALS: u8 = 0x3d;

/// Whitespace around tags, names and values (folding included).
pub open spec fn is_fws(c: u8) -> bool {
    c == 0x20 || c == 0x09 || c == 0x0d || c == 0x0a
}

pub open spec fn trim_end(s: Seq<u8>) -> Seq<u8>
    decreases s.len(),
{
    if s.len() > 0 && is_fws(s.last()) {
        trim_end(s.drop_last())
    } else {
        s
    }
}

pub open spec fn trim_start(s: Seq<u8>) -> Seq<u8>
    decreases s.len(),
{
    if s.len() > 0 && is_fws(s[0]) {
        trim_start(s.drop_first())
    } else {
        s
    }
}

pub open spec fn trim(s: Seq<u8>) -> Seq<u8> {
    trim_start(trim_end(s))
}

/// The pieces of `s` between the separators `c`.
pub open spec fn split_on(s: Seq<u8>, c: u8) -> Seq<Seq<u8>>
    decreases s.len(),
{
    let k = last_index_of(s, c);
    if k < 0 || k >= s.len() {
        seq![s]
    } else {
        split_on(s.subrange(0, k), c).push(s.subrange(k + 1, s.len() as int))
    }
}

/// Index of the first `c` in `s`, or -1.
pub open spec fn first_index_of(s: Seq<u8>, c: u8) -> int
    decreases s.len(),
{
    if s.len() == 0 {
        -1
    } else if s[0] == c {
        0
    } else {
        let r = first_index_of(s.drop_first(), c);
        if r < 0 {
            -1
        } else {
            r + 1
        }
    }
}

/// One `name=value` piece: both sides trimmed; none without `=` or a name.
pub open spec fn tag_of(seg: Seq<u8>) -> Option<(Seq<u8>, Seq<u8>)> {
    let k = first_index_of(seg, EQUALS);
    if k < 0 {
        None
    } else {
        let name = trim(seg.subrange(0, k));
        if name.len() == 0 {
            None
        } else {
            Some((name, trim(seg.subrange(k + 1, seg.len() as int))))
        }
    }
}

pub open spec fn tags_of(segs: Seq<Seq<u8>>) -> Seq<(Seq<u8>, Seq<u8>)>
    decreases segs.len(),
{
    if segs.len() == 0 {
        Seq::empty()
    } else {
        let rest = tags_of(segs.drop_last());
        match tag_of(segs.last()) {
            Some(t) => rest.push(t),
            None => rest,
        }
    }
}

/// The tags of a tag-list record, in order.
pub open spec fn tag_list(s: Seq<u8>) -> Seq<(Seq<u8>, Seq<u8>)> {
    tags_of(split_on(s, SEMICOLON))
}

/// The value of the first tag called `name`.
pub open spec fn tag_value(tags: Seq<(Seq<u8>, Seq<u8>)>, name: Seq<u8>) -> Option<Seq<u8>>
    decreases tags.len(),
{
    if tags.len() == 0 {
        None
    } else if tags[0].0 == name {
        Some(tags[0].1)
    } else {
        tag_value(tags.drop_first(), name)
    }
}

pub open spec fn pair_views(v: Seq<(Vec<u8>, Vec<u8>)>) -> Seq<(Seq<u8>, Seq<u8>)> {
    v.map_values(|p: (Vec<u8>, Vec<u8>)| (p.0@, p.1@))
}

/// Bounds of `s[lo..hi]` with whitespace at both ends removed.
pub(crate) fn trim_bounds(s: &[u8], lo: usize, hi: usize) -> (r: (usize, usize))
    requires
        lo <= hi <= s.len(),
    ensures
        lo <= r.0 <= r.1 <= hi,
        s@.subrange(r.0 as int, r.1 as int) == trim(s@.subrange(lo as int, hi as int)),
{
    let ghost t = s@.subrange(lo as int, hi as int);
    let mut e: usize = hi;
    assert(s@.subrange(lo as int, e as int) =~= t);
    while e > lo && (s[e - 1] == 0x20 || s[e - 1] == 0x09 || s[e - 1] == 0x0d || s[e - 1] == 0x0a)
        invariant
            lo <= e <= hi <= s.len(),
            trim_end(s@.subrange(lo as int, e as int)) == trim_end(t),
        decreases e,
    {
        assert(s@.subrange(lo as int, e as int).drop_last() =~= s@.subrange(lo as int, e - 1));
        e = e - 1;
    }
    let ghost u = s@.subrange(lo as int, e as int);
    assert(trim_end(u) == u);
    let mut b: usize = lo;
    assert(s@.subrange(b as int, e as int) =~= u);
    while b < e && (s[b] == 0x20 || s[b] == 0x09 || s[b] == 0x0d || s[b] == 0x0a)
        invariant
            lo <= b <= e,
            e <= s.len(),
            trim_start(s@.subrange(b as int, e as int)) == trim_start(u),
        decreases e - b,
    {
        assert(s@.subrange(b as int, e as int).drop_first() =~= s@.subrange(b + 1, e as int));
        b = b + 1;
    }
    (b, e)
}

pub(crate) fn sub_vec(s: &[u8], lo: usize, hi: usize) -> (r: Vec<u8>)
    requires
        lo <= hi <= s.len(),
    ensures
        r@ == s@.subrange(lo as int, hi as int),
{
    let mut r: Vec<u8> = Vec::new();
    let mut i: usize = lo;
    while i < hi
        invariant
            lo <= i <= hi <= s.len(),
            r@ == s@.subrange(lo as int, i as int),
        decreases hi - i,
    {
        r.push(s[i]);
        i = i + 1;
        assert(r@ =~= s@.subrange(lo as int, i as int));
    }
    r
}

/// Parses the piece `s[lo..hi]` as one tag.
fn parse_tag(s: &[u8], lo: usize, hi: usize) -> (r: Option<(Vec<u8>, Vec<u8>)>)
    requires
        lo <= hi <= s.len(),
    ensures
        match r {
            Some(p) => tag_of(s@.subrange(lo as int, hi as int)) == Some((p.0@, p.1@)),
            None => tag_of(s@.subrange(lo as int, hi as int)) is None,
        },
{
    let ghost seg = s@.subrange(lo as int, hi as int);
    let mut i: usize = lo;
    assert(s@.subrange(i as int, hi as int) =~= seg);
    while i < hi && s[i] != EQUALS
        invariant
            lo <= i <= hi <= s.len(),
            first_index_of(seg, EQUALS) == (if first_index_of(s@.subrange(i as int, hi as int), EQUALS)
                < 0 {
                -1
            } else {
                (i - lo) + first_index_of(s@.subrange(i as int, hi as int), EQUALS)
            }),
        decreases hi - i,
    {
        assert(s@.subrange(i as int, hi as int).drop_first() =~= s@.subrange(i + 1, hi as int));
        i = i + 1;
    }
    if i == hi {
        return None;
    }
    let k = i - lo;
    assert(first_index_of(seg, EQUALS) == k);
    assert(seg.subrange(0, k as int) =~= s@.subrange(lo as int, i as int));
    assert(seg.subrange(k + 1, seg.len() as int) =~= s@.subrange(i + 1, hi as int));
    let (nb, ne) = trim_bounds(s, lo, i);
    if nb == ne {
        return None;
    }
    let (vb, ve) = trim_bounds(s, i + 1, hi);
    Some((sub_vec(s, nb, ne), sub_vec(s, vb, ve)))
}

proof fn lemma_last_index_prefix(s: Seq<u8>, c: u8, i: int)
    requires
        0 < i <= s.len(),
        s[i - 1] != c,
    ensures
        last_index_of(s.subrange(0, i), c) == last_index_of(s.subrange(0, i - 1), c),
{
    assert(s.subrange(0, i).drop_last() =~= s.subrange(0, i - 1));
}

pub open spec fn seg_views(v: Seq<Vec<u8>>) -> Seq<Seq<u8>> {
    v.map_values(|x: Vec<u8>| x@)
}

/// The pieces before the one that starts at `start`.
pub open spec fn done_segs(s: Seq<u8>, c: u8, start: int) -> Seq<Seq<u8>> {
    if start == 0 {
        Seq::empty()
    } else {
        split_on(s.subrange(0, start - 1), c)
    }
}

proof fn lemma_split_prefix(s: Seq<u8>, c: u8, start: int, i: int)
    requires
        0 <= start <= i <= s.len(),
        last_index_of(s.subrange(0, i), c) == start - 1,
    ensures
        split_on(s.subrange(0, i), c) == done_segs(s, c, start).push(s.subrange(start, i)),
{
    let t = s.subrange(0, i);
    lemma_last_index_bounds(t, c);
    if start == 0 {
        assert(t =~= s.subrange(start, i));
        assert(seq![t] =~= Seq::<Seq<u8>>::empty().push(t));
    } else {
        assert(t.subrange(0, start - 1) =~= s.subrange(0, start - 1));
        assert(t.subrange(start, t.len() as int) =~= s.subrange(start, i));
    }
}

/// Splits `s` at every `c`.
pub fn split_bytes(s: &[u8], c: u8) -> (r: Vec<Vec<u8>>)
    ensures
        seg_views(r@) == split_on(s@, c),
{
    let mut out: Vec<Vec<u8>> = Vec::new();
    let mut start: usize = 0;
    let mut i: usize = 0;
    assert(s@.subrange(0, 0) =~= Seq::<u8>::empty());
    while i < s.len()
        invariant
            start <= i <= s.len(),
            last_index_of(s@.subrange(0, i as int), c) == start - 1,
            seg_views(out@) == done_segs(s@, c, start as int),
        decreases s.len() - i,
    {
        if s[i] == c {
            proof {
                lemma_split_prefix(s@, c, start as int, i as int);
                assert(s@.subrange(0, i + 1).drop_last() =~= s@.subrange(0, i as int));
            }
            let piece = sub_vec(s, start, i);
            out.push(piece);
            assert(seg_views(out@) =~= done_segs(s@, c, start as int).push(piece@));
            start = i + 1;
        } else {
            proof {
                lemma_last_index_prefix(s@, c, i + 1);
            }
        }
        i = i + 1;
    }
    proof {
        lemma_split_prefix(s@, c, start as int, i as int);
        assert(s@.subrange(0, i as int) =~= s@);
    }
    let piece = sub_vec(s, start, i);
    out.push(piece);
    assert(seg_views(out@) =~= done_segs(s@, c, start as int).push(piece@));
    out
}

/// Parses a tag-list record (`name=value;...`) into its tags, in order.
pub fn parse_tag_list(s: &[u8]) -> (r: Vec<(Vec<u8>, Vec<u8>)>)
    ensures
        pair_views(r@) == tag_list(s@),
{
    let pieces = split_bytes(s, SEMICOLON);
    let ghost segs = seg_views(pieces@);
    let mut out: Vec<(Vec<u8>, Vec<u8>)> = Vec::new();
    let mut i: usize = 0;
    while i < pieces.len()
        invariant
            i <= pieces.len(),
            segs == seg_views(pieces@),
            segs.len() == pieces@.len(),
            pair_views(out@) == tags_of(segs.subrange(0, i as int)),
        decreases pieces.len() - i,
    {
        let piece = pieces[i].as_slice();
        assert(piece@ == segs[i as int]);
        assert(segs.subrange(0, i + 1).drop_last() =~= segs.subrange(0, i as int));
        assert(piece@.subrange(0, piece@.len() as int) =~= piece@);
        let t = parse_tag(piece, 0, piece.len());
        if let Some(p) = t {
            out.push(p);
            assert(pair_views(out@) =~= tags_of(segs.subrange(0, i as int)).push((p.0@, p.1@)));
        }
        i = i + 1;
    }
    assert(segs.subrange(0, i as int) =~= segs);
    out
}

/// The value of the first tag called `name`.
pub fn find_tag<'a>(tags: &'a Vec<(Vec<u8>, Vec<u8>)>, name: &[u8]) -> (r: Option<&'a Vec<u8>>)
    ensures
        match r {
            Some(v) => tag_value(pair_views(tags@), name@) == Some(v@),
            None => tag_value(pair_views(tags@), name@) is None,
        },
{
    let ghost all = pair_views(tags@);
    let mut i: usize = 0;
    assert(all.subrange(0, all.len() as int) =~= all);
    while i < tags.len()
        invariant
            i <= tags.len(),
            all == pair_views(tags@),
            all.len() == tags@.len(),
            tag_value(all, name@) == tag_value(all.subrange(i as int, all.len() as int), name@),
        decreases tags.len() - i,
    {
        let ghost rest = all.subrange(i as int, all.len() as int);
        assert(rest[0] == (tags@[i as int].0@, tags@[i as int].1@));
        if crate::dmarc::bytes_equal(tags[i].0.as_slice(), name) {
            return Some(&tags[i].1);
        }
        assert(rest.drop_first() =~= all.subrange(i + 1, all.len() as int));
        i = i + 1;
    }
    None
}

/// Position of the first `c` in `s[lo..hi]` (as an index of `s`), or `hi`.
pub(crate) fn find_first(s: &[u8], lo: usize, hi: usize, c: u8) -> (r: usize)
    requires
        lo <= hi <= s.len(),
    ensures
        lo <= r <= hi,
        r == hi <==> first_index_of(s@.subrange(lo as int, hi as int), c) < 0,
        r < hi ==> first_index_of(s@.subrange(lo as int, hi as int), c) == r - lo,
{
    let ghost seg = s@.subrange(lo as int, hi as int);
    let mut i: usize = lo;
    assert(s@.subrange(i as int, hi as int) =~= seg);
    while i < hi && s[i] != c
        invariant
            lo <= i <= hi <= s.len(),
            first_index_of(seg, c) == (if first_index_of(s@.subrange(i as int, hi as int), c) < 0 {
                -1
            } else {
                (i - lo) + first_index_of(s@.subrange(i as int, hi as int), c)
            }),
        decreases hi - i,
    {
        assert(s@.subrange(i as int, hi as int).drop_first() =~= s@.subrange(i + 1, hi as int));
        i = i + 1;
    }
    i
}

} // verus!
