use vstd::prelude::*;

use crate::extractor::{Extractor, SplitCandidate};

verus! {

pub const SQ_OPEN: u8 = 0x5b;
pub const SQ_CLOSE: u8 = 0x5d;
pub const CURLY_OPEN: u8 = 0x7b;
pub const CURLY_CLOSE: u8 = 0x7d;
pub const PAREN_OPEN: u8 = 0x28;
pub const PAREN_CLOSE: u8 = 0x29;
pub const COLON: u8 = 0x3a;

/// Nesting depth of `[` `]` in front of index `n`; a `]` with no open `[`
/// is ignored.
pub open spec fn square_depth(c: Seq<u8>, n: int) -> int
    decreases n,
{
    if n <= 0 || n > c.len() {
        0
    } else {
        let d = square_depth(c, n - 1);
        let b = c[n - 1];
        if b == 0x5b {
            d + 1
        } else if b == 0x5d && d > 0 {
            d - 1
        } else {
            d
        }
    }
}

/// A colon at index `n` that is outside of every `[` `]` pair.
pub open spec fn top_colon(c: Seq<u8>, n: int) -> bool {
    0 <= n < c.len() && c[n] == 0x3a && square_depth(c, n) == 0
}

/// One past the last top-level colon among the first `n` bytes, or 0.
pub open spec fn variant_end(c: Seq<u8>, n: int) -> int
    decreases n,
{
    if n <= 0 || n > c.len() {
        0
    } else if top_colon(c, n - 1) {
        n
    } else {
        variant_end(c, n - 1)
    }
}

/// Some byte of `bytes` occurs outside every `[` `]` pair (a `[` itself
/// never counts).
pub open spec fn has_unbracketed(c: Seq<u8>, bytes: Seq<u8>) -> bool {
    exists|n: int|
        0 <= n < c.len() && #[trigger] square_depth(c, n) == 0 && c[n] != 0x5b && bytes.contains(
            c[n],
        )
}

pub open spec fn is_open(b: u8) -> bool {
    b == 0x28 || b == 0x5b || b == 0x7b
}

pub open spec fn is_close(b: u8) -> bool {
    b == 0x29 || b == 0x5d || b == 0x7d
}

/// Opening minus closing delimiters among the first `n` bytes.
pub open spec fn net_depth(s: Seq<u8>, n: int) -> int
    decreases n,
{
    if n <= 0 || n > s.len() {
        0
    } else if is_open(s[n - 1]) {
        net_depth(s, n - 1) + 1
    } else if is_close(s[n - 1]) {
        net_depth(s, n - 1) - 1
    } else {
        net_depth(s, n - 1)
    }
}

/// No prefix closes more delimiters than it opens, and the whole closes all.
pub open spec fn balanced(s: Seq<u8>) -> bool {
    &&& forall|n: int| 0 <= n <= s.len() ==> #[trigger] net_depth(s, n) >= 0
    &&& net_depth(s, s.len() as int) == 0
}

/// The two ends are `(` `)`, `{` `}` or `[` `]`.
pub open spec fn wrapped_in_pair(s: Seq<u8>) -> bool {
    s.len() >= 2 && {
        let a = s[0];
        let z = s[s.len() - 1];
        (a == 0x28 && z == 0x29) || (a == 0x7b && z == 0x7d) || (a == 0x5b && z == 0x5d)
    }
}

/// Peel matching outer pairs off `s`. The first balanced interior reached
/// after at least one peel is the answer; where the peeling stops on an
/// unbalanced interior, the last value that was peeled is.
pub open spec fn surround(s: Seq<u8>, peeled: Option<Seq<u8>>) -> Option<Seq<u8>>
    decreases s.len(),
{
    if wrapped_in_pair(s) {
        surround(s.subrange(1, s.len() - 1), Some(s))
    } else if balanced(s) && peeled is Some {
        Some(s)
    } else {
        peeled
    }
}

/// The non-empty pieces of `v` between top-level colons, scanning on from
/// index `n` with the current piece starting at `start`.
pub open spec fn colon_pieces(v: Seq<u8>, start: int, n: int) -> Seq<Seq<u8>>
    decreases v.len() - n,
{
    if n >= v.len() || n < start || start < 0 {
        if 0 <= start < v.len() {
            seq![v.subrange(start, v.len() as int)]
        } else {
            seq![]
        }
    } else if top_colon(v, n) {
        if start < n {
            seq![v.subrange(start, n)] + colon_pieces(v, n + 1, n + 1)
        } else {
            colon_pieces(v, n + 1, n + 1)
        }
    } else {
        colon_pieces(v, start, n + 1)
    }
}

/// `b` occurs in `s`.
pub fn contains_byte(s: &[u8], b: u8) -> (r: bool)
    ensures
        r == s@.contains(b),
{
    let mut i: usize = 0;
    while i < s.len()
        invariant
            i <= s@.len(),
            forall|k: int| 0 <= k < i ==> s@[k] != b,
        decreases s@.len() - i,
    {
        if s[i] == b {
            return true;
        }
        i += 1;
    }
    false
}

/// The two slices hold the same bytes.
pub fn same_bytes(a: &[u8], b: &[u8]) -> (r: bool)
    ensures
        r == (a@ == b@),
{
    if a.len() != b.len() {
        return false;
    }
    let mut i: usize = 0;
    while i < a.len()
        invariant
            i <= a@.len(),
            a@.len() == b@.len(),
            forall|k: int| 0 <= k < i ==> a@[k] == b@[k],
        decreases a@.len() - i,
    {
        if a[i] != b[i] {
            return false;
        }
        i += 1;
    }
    assert(a@ =~= b@);
    true
}

impl<'a> SplitCandidate<'a> {
    pub open spec fn variant_view(&self) -> Seq<u8> {
        self.variant@
    }

    pub open spec fn utility_view(&self) -> Seq<u8> {
        self.utility@
    }
}

impl<'a> Extractor<'a> {
    /// Split at the last colon outside of `[` `]`: the variant keeps that
    /// colon, the utility is the rest.
    pub fn split_candidate(candidate: &'a [u8]) -> (r: SplitCandidate<'a>)
        ensures
            r.variant_view() == candidate@.subrange(
                0,
                variant_end(candidate@, candidate@.len() as int),
            ),
            r.utility_view() == candidate@.subrange(
                variant_end(candidate@, candidate@.len() as int),
                candidate@.len() as int,
            ),
    {
        let mut brackets: usize = 0;
        let mut idx_end: usize = 0;
        let mut n: usize = 0;
        while n < candidate.len()
            invariant
                n <= candidate@.len(),
                brackets == square_depth(candidate@, n as int),
                brackets <= n,
                idx_end == variant_end(candidate@, n as int),
                idx_end <= n,
            decreases candidate@.len() - n,
        {
            let c = candidate[n];
            if c == SQ_OPEN {
                brackets += 1;
            } else if c == SQ_CLOSE && brackets > 0 {
                brackets -= 1;
            } else if c == COLON && brackets == 0 {
                idx_end = n + 1;
            }
            n += 1;
        }
        SplitCandidate { variant: &candidate[0..idx_end], utility: &candidate[idx_end..candidate.len()] }
    }

    /// Some byte of `bytes` occurs in `candidate` outside of `[` `]`.
    pub fn contains_in_constrained(candidate: &'a [u8], bytes: Vec<u8>) -> (r: bool)
        ensures
            r == has_unbracketed(candidate@, bytes@),
    {
        let mut brackets: usize = 0;
        let mut n: usize = 0;
        while n < candidate.len()
            invariant
                n <= candidate@.len(),
                brackets == square_depth(candidate@, n as int),
                brackets <= n,
                forall|k: int|
                    0 <= k < n ==> !(#[trigger] square_depth(candidate@, k) == 0 && candidate@[k]
                        != 0x5b && bytes@.contains(candidate@[k])),
            decreases candidate@.len() - n,
        {
            let c = candidate[n];
            if c == SQ_OPEN {
                brackets += 1;
            } else if c == SQ_CLOSE && brackets > 0 {
                brackets -= 1;
            } else if brackets == 0 {
                if contains_byte(bytes.as_slice(), c) {
                    return true;
                }
            }
            n += 1;
        }
        false
    }

    /// Delimiters `(){}[]` never close below depth zero and end at zero.
    pub fn is_balanced(input: &[u8]) -> (r: bool)
        ensures
            r == balanced(input@),
    {
        let mut depth: usize = 0;
        let mut n: usize = 0;
        while n < input.len()
            invariant
                n <= input@.len(),
                depth == net_depth(input@, n as int),
                depth <= n,
                forall|k: int| 0 <= k <= n ==> #[trigger] net_depth(input@, k) >= 0,
            decreases input@.len() - n,
        {
            let b = input[n];
            if b == SQ_OPEN || b == CURLY_OPEN || b == PAREN_OPEN {
                depth += 1;
            } else if b == SQ_CLOSE || b == CURLY_CLOSE || b == PAREN_CLOSE {
                if depth == 0 {
                    assert(net_depth(input@, n + 1) < 0);
                    return false;
                }
                depth -= 1;
            }
            n += 1;
        }
        depth == 0
    }

    /// Peel matching outer `()`, `{}` or `[]` pairs, in time linear in the
    /// number of pairs.
    pub fn slice_surrounding(input: &[u8]) -> (r: Option<&[u8]>)
        ensures
            match r {
                Some(v) => surround(input@, None) == Some(v@),
                Option::None => surround(input@, None) is None,
            },
    {
        let mut lo: usize = 0;
        let mut hi: usize = input.len();
        let mut prev: Option<&[u8]> = None;
        assert(input@.subrange(0, input@.len() as int) =~= input@);
        loop
            invariant
                lo <= hi <= input@.len(),
                surround(input@, None) == surround(
                    input@.subrange(lo as int, hi as int),
                    match prev {
                        Some(p) => Some(p@),
                        Option::None => Option::<Seq<u8>>::None,
                    },
                ),
            decreases hi - lo,
        {
            let cur = &input[lo..hi];
            let len = hi - lo;
            let leading = if len > 0 { input[lo] } else { 0u8 };
            let trailing = if len > 0 { input[hi - 1] } else { 0u8 };
            let needed = (leading == PAREN_OPEN && trailing == PAREN_CLOSE) || (leading == CURLY_OPEN && trailing
                == CURLY_CLOSE) || (leading == SQ_OPEN && trailing == SQ_CLOSE);
            if needed {
                assert(len >= 2);
                assert(cur@.subrange(1, cur@.len() - 1) =~= input@.subrange(lo + 1, hi - 1));
                prev = Some(cur);
                lo = lo + 1;
                hi = hi - 1;
            } else if prev.is_some() && Self::is_balanced(cur) {
                return Some(cur);
            } else {
                return prev;
            }
        }
    }
}

} // verus!
