use vstd::prelude::*;

use crate::dmarc::{append_bytes, DOT};
use crate::error::Error;

verus! {

/// Start offsets of the labels after the first, among the first `k` bytes.
pub open spec fn dot_starts(s: Seq<u8>, k: nat) -> Seq<int>
    decreases k,
{
    if k == 0 {
        Seq::empty()
    } else {
        let prev = dot_starts(s, (k - 1) as nat);
        if s[k - 1] == DOT {
            prev.push(k as int)
        } else {
            prev
        }
    }
}

/// Start offset of each label of `s`, split at `.`.
pub open spec fn label_starts(s: Seq<u8>) -> Seq<int> {
    seq![0int] + dot_starts(s, s.len())
}

pub open spec fn label_count(s: Seq<u8>) -> nat {
    label_starts(s).len()
}

/// Labels still to try when the walk begins: none for a single label.
pub open spec fn walk_start(s: Seq<u8>) -> nat {
    if label_count(s) <= 1 {
        0
    } else {
        label_count(s)
    }
}

/// The label count tried after `x` gave no record.
pub open spec fn walk_next(x: nat) -> nat {
    if x < 5 {
        (x - 1) as nat
    } else {
        4
    }
}

/// Number of queries a walk makes from `x` when no query finds a record.
pub open spec fn walk_queries(x: nat) -> nat
    decreases x,
{
    if x == 0 {
        0
    } else if x < 5 {
        1 + walk_queries((x - 1) as nat)
    } else {
        1 + walk_queries(4)
    }
}

pub open spec fn dmarc_prefix() -> Seq<u8> {
    seq![0x5fu8, 0x64u8, 0x6du8, 0x61u8, 0x72u8, 0x63u8, 0x2eu8]
}

/// `_dmarc.<rightmost x labels of s>.`
pub open spec fn dmarc_query(s: Seq<u8>, x: nat) -> Seq<u8> {
    dmarc_prefix() + s.subrange(label_starts(s)[label_count(s) - x], s.len() as int) + seq![DOT]
}

proof fn lemma_dot_starts_bounds(s: Seq<u8>, k: nat)
    requires
        k <= s.len(),
    ensures
        forall|j: int|
            0 <= j < dot_starts(s, k).len() ==> 1 <= #[trigger] dot_starts(s, k)[j] <= k,
        dot_starts(s, k).len() <= k,
    decreases k,
{
    if k > 0 {
        lemma_dot_starts_bounds(s, (k - 1) as nat);
    }
}

proof fn lemma_label_starts_bounds(s: Seq<u8>)
    ensures
        forall|j: int|
            0 <= j < label_count(s) ==> 0 <= #[trigger] label_starts(s)[j] <= s.len(),
        1 <= label_count(s) <= s.len() + 1,
{
    lemma_dot_starts_bounds(s, s.len());
    assert forall|j: int| 0 <= j < label_count(s) implies 0 <= #[trigger] label_starts(s)[j]
        <= s.len() by {
        if j > 0 {
            assert(label_starts(s)[j] == dot_starts(s, s.len())[j - 1]);
        }
    }
}

/// What a walk step decided.
#[derive(Debug, Clone, Copy, PartialEq, Eq, Structural)]
pub enum WalkStep {
    /// The last query found a record: the walk is over.
    Found,
    /// Nothing there: ask `next_query` again.
    Next,
    /// A transient failure ends the walk.
    Abort(Error),
}

/// The DMARC policy tree walk, as a state machine: `next_query` names the
/// TXT record to fetch, `advance` takes the lookup's outcome.
pub struct TreeWalk {
    pub domain: Vec<u8>,
    pub starts: Vec<usize>,
    pub x: usize,
}

impl TreeWalk {
    pub open spec fn wf(&self) -> bool {
        &&& self.starts@.len() == label_count(self.domain@)
        &&& forall|j: int|
            0 <= j < self.starts@.len() ==> #[trigger] self.starts@[j] as int == label_starts(
                self.domain@,
            )[j]
        &&& self.x <= self.starts@.len()
    }

    /// Queries left, at most, before the walk ends.
    pub open spec fn remaining(&self) -> nat {
        walk_queries(self.x as nat)
    }

    pub fn new(domain: &[u8]) -> (r: TreeWalk)
        ensures
            r.wf(),
            r.domain@ == domain@,
            r.x == walk_start(domain@),
    {
        let ghost s = domain@;
        let mut starts: Vec<usize> = Vec::new();
        starts.push(0);
        let mut i: usize = 0;
        while i < domain.len()
            invariant
                s == domain@,
                i <= domain.len(),
                starts@.len() == 1 + dot_starts(s, i as nat).len(),
                starts@[0] == 0,
                forall|j: int|
                    0 < j < starts@.len() ==> #[trigger] starts@[j] as int == dot_starts(
                        s,
                        i as nat,
                    )[j - 1],
            decreases domain.len() - i,
        {
            proof {
                lemma_dot_starts_bounds(s, i as nat);
            }
            if domain[i] == DOT {
                starts.push(i + 1);
            }
            i = i + 1;
        }
        proof {
            lemma_dot_starts_bounds(s, s.len());
            assert forall|j: int| 0 <= j < starts@.len() implies #[trigger] starts@[j] as int
                == label_starts(s)[j] by {
                if j > 0 {
                    assert(label_starts(s)[j] == dot_starts(s, s.len())[j - 1]);
                }
            }
        }
        let x: usize = if starts.len() <= 1 {
            0
        } else {
            starts.len()
        };
        TreeWalk { domain: crate::dmarc::copy_bytes(domain), starts, x }
    }

    /// The name of the next record to fetch, or `None` when the walk is over.
    pub fn next_query(&self) -> (r: Option<Vec<u8>>)
        requires
            self.wf(),
        ensures
            r is None <==> self.x == 0,
            r matches Some(q) ==> q@ == dmarc_query(self.domain@, self.x as nat),
    {
        if self.x == 0 {
            return None;
        }
        proof {
            lemma_label_starts_bounds(self.domain@);
        }
        let n = self.starts.len();
        let st = self.starts[n - self.x];
        let mut q: Vec<u8> = Vec::new();
        q.push(0x5f);
        q.push(0x64);
        q.push(0x6d);
        q.push(0x61);
        q.push(0x72);
        q.push(0x63);
        q.push(0x2e);
        assert(q@ =~= dmarc_prefix());
        let ghost before = q@;
        let mut i: usize = st;
        while i < self.domain.len()
            invariant
                st <= i <= self.domain.len(),
                q@ == before + self.domain@.subrange(st as int, i as int),
            decreases self.domain.len() - i,
        {
            q.push(self.domain[i]);
            i = i + 1;
            assert(q@ =~= before + self.domain@.subrange(st as int, i as int));
        }
        q.push(DOT);
        assert(q@ =~= dmarc_query(self.domain@, self.x as nat));
        Some(q)
    }

    /// Takes the outcome of the lookup of `next_query`: a record ends the
    /// walk; no record (or one of another type) moves to fewer labels; any
    /// other error ends it with that error.
    pub fn advance(&mut self, lookup: Result<(), Error>) -> (r: WalkStep)
        requires
            old(self).wf(),
            old(self).x > 0,
        ensures
            final(self).wf(),
            final(self).domain == old(self).domain,
            final(self).starts == old(self).starts,
            match lookup {
                Ok(()) => r == WalkStep::Found && final(self).x == 0,
                Err(Error::DNSRecordNotFound) | Err(Error::InvalidRecordType) => r == WalkStep::Next
                    && final(self).x == walk_next(old(self).x as nat),
                Err(e) => r == WalkStep::Abort(e) && final(self).x == 0,
            },
            final(self).remaining() < old(self).remaining(),
    {
        match lookup {
            Ok(()) => {
                self.x = 0;
                WalkStep::Found
            },
            Err(Error::DNSRecordNotFound) | Err(Error::InvalidRecordType) => {
                if self.x < 5 {
                    self.x = self.x - 1;
                } else {
                    self.x = 4;
                }
                WalkStep::Next
            },
            Err(e) => {
                self.x = 0;
                WalkStep::Abort(e)
            },
        }
    }
}

proof fn lemma_walk_queries(x: nat)
    ensures
        walk_queries(x) == if x < 5 {
            x
        } else {
            5
        },
    decreases x,
{
    if x > 0 && x < 5 {
        lemma_walk_queries((x - 1) as nat);
    } else if x >= 5 {
        lemma_walk_queries(4);
    }
}

/// The walk over a domain of `n` labels makes at most `min(n, 5)` queries,
/// and each step that does not end it uses up exactly one of them.
pub proof fn lemma_walk_bound(s: Seq<u8>, x: nat)
    ensures
        walk_queries(walk_start(s)) <= if label_count(s) < 5 {
            label_count(s)
        } else {
            5
        },
        x > 0 ==> walk_queries(walk_next(x)) + 1 == walk_queries(x),
{
    lemma_walk_queries(walk_start(s));
    if x > 0 {
        lemma_walk_queries(x);
        lemma_walk_queries(walk_next(x));
    }
}

} // verus!
