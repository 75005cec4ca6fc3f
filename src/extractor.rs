use vstd::prelude::*;

use crate::brackets::{colon_pieces, same_bytes, square_depth, surround, top_colon, COLON, SQ_CLOSE, SQ_OPEN};
use crate::laws::{all_non_empty, law_groups_are_well_formed};
use crate::validate::{candidate_verdict, is_digit, BACKSLASH, BANG, DASH, DOT, GREATER, LESS, SLASH};

verus! {

/// What one scanning step decided.
#[derive(Debug, PartialEq, Eq, Clone)]
pub enum ParseAction<'a> {
    Consume,
    Skip,
    RestartAt(usize),
    SingleCandidate(&'a [u8], Option<usize>),
    MultipleCandidates(Vec<&'a [u8]>, Option<usize>),
    Continue,
    Done,
}

/// Where the interior of a candidate was found once its outer delimiters
/// were peeled off.
#[derive(Debug, PartialEq, Eq, Clone)]
pub enum Bracketing<'a> {
    Included(&'a [u8]),
    Wrapped(&'a [u8]),
    Absent,
}

/// A candidate split at its last colon that is outside of `[` `]`.
#[derive(Debug, PartialEq, Eq, Clone, Copy)]
pub struct SplitCandidate<'a> {
    pub variant: &'a [u8],
    pub utility: &'a [u8],
}

/// How the scan treats its input.
#[derive(Default)]
pub struct ExtractorOptions {
    /// Keep a space inside an arbitrary value instead of restarting there.
    pub preserve_spaces_in_arbitrary: bool,
}

/// A scan over one input buffer; every candidate it yields is a slice of
/// that buffer.
pub struct Extractor<'a> {
    pub(crate) opts: ExtractorOptions,
    pub(crate) input: &'a [u8],
    pub(crate) pos: usize,
    pub(crate) prev: u8,
    pub(crate) idx_start: usize,
    pub(crate) idx_end: usize,
    pub(crate) idx_last: usize,
    pub(crate) idx_arbitrary_start: usize,
    pub(crate) in_arbitrary: bool,
    pub(crate) in_candidate: bool,
    pub(crate) in_escape: bool,
    pub(crate) quote_stack: Vec<u8>,
    pub(crate) bracket_stack: Vec<u8>,
}

pub const SPACE: u8 = 0x20;
pub const AT: u8 = 0x40;
pub const PERCENT: u8 = 0x25;
pub const UNDERSCORE: u8 = 0x5f;
pub const DOUBLE_QUOTE: u8 = 0x22;
pub const SINGLE_QUOTE: u8 = 0x27;
pub const BACKTICK: u8 = 0x60;

/// The scanner's state, as the contracts see it.
pub ghost struct ScanState {
    pub pos: int,
    pub prev: u8,
    pub idx_start: int,
    pub idx_end: int,
    pub idx_last: int,
    pub idx_arbitrary_start: int,
    pub in_arbitrary: bool,
    pub in_candidate: bool,
    pub in_escape: bool,
    pub quotes: Seq<u8>,
    pub brackets: Seq<u8>,
}

/// What a step decided, with candidates as byte sequences.
pub ghost enum Act {
    Consume,
    Skip,
    RestartAt(int),
    Single(Seq<u8>, Option<int>),
    Multiple(Seq<Seq<u8>>, Option<int>),
    Continue,
    Done,
}

/// The interior found by peeling, as byte sequences.
pub ghost enum Peel {
    Included(Seq<u8>),
    Wrapped(Seq<u8>),
    Absent,
}

pub open spec fn slices_view(v: Seq<&[u8]>) -> Seq<Seq<u8>> {
    Seq::new(v.len(), |i: int| v[i]@)
}

pub open spec fn opt_int(p: Option<usize>) -> Option<int> {
    match p {
        Some(q) => Some(q as int),
        Option::None => Option::<int>::None,
    }
}

impl<'a> View for ParseAction<'a> {
    type V = Act;

    open spec fn view(&self) -> Act {
        match self {
            ParseAction::Consume => Act::Consume,
            ParseAction::Skip => Act::Skip,
            ParseAction::RestartAt(p) => Act::RestartAt(*p as int),
            ParseAction::SingleCandidate(c, p) => Act::Single(c@, opt_int(*p)),
            ParseAction::MultipleCandidates(v, p) => Act::Multiple(slices_view(v@), opt_int(*p)),
            ParseAction::Continue => Act::Continue,
            ParseAction::Done => Act::Done,
        }
    }
}

impl<'a> View for Bracketing<'a> {
    type V = Peel;

    open spec fn view(&self) -> Peel {
        match self {
            Bracketing::Included(v) => Peel::Included(v@),
            Bracketing::Wrapped(v) => Peel::Wrapped(v@),
            Bracketing::Absent => Peel::Absent,
        }
    }
}

pub open spec fn is_lower(b: u8) -> bool {
    0x61 <= b <= 0x7a
}

pub open spec fn is_upper(b: u8) -> bool {
    0x41 <= b <= 0x5a
}

/// Bytes that may begin a candidate (besides `[`).
pub open spec fn starts_candidate(b: u8) -> bool {
    b == AT || b == BANG || b == DASH || b == LESS || b == GREATER || is_digit(b) || is_lower(b)
        || is_upper(b)
}

/// Bytes that may go on a candidate anywhere but right after a `]`.
pub open spec fn continues_candidate(b: u8) -> bool {
    is_lower(b) || is_upper(b) || is_digit(b) || b == DASH || b == UNDERSCORE || b == LESS || b
        == GREATER || b == BANG || b == AT || b == PERCENT
}

/// Bytes that may go on a candidate only where more input follows.
pub open spec fn is_separator(b: u8) -> bool {
    b == SLASH || b == COLON || b == DOT
}

/// Bytes after which a `[` opens an arbitrary value inside a candidate.
pub open spec fn opens_arbitrary_after(prev: u8) -> bool {
    prev == AT || prev == DASH || prev == SPACE || prev == COLON || prev == SLASH || prev == BANG
        || prev == 0
}

pub open spec fn is_quote(b: u8) -> bool {
    b == DOUBLE_QUOTE || b == SINGLE_QUOTE || b == BACKTICK
}

/// One byte inside an arbitrary value.
pub open spec fn arbitrary_step(s: ScanState, curr: u8, pos: int, keep_spaces: bool) -> (
    ScanState,
    Act,
) {
    if s.in_escape {
        (ScanState { in_escape: false, ..s }, Act::Consume)
    } else if curr == BACKSLASH {
        (ScanState { in_escape: true, ..s }, Act::Consume)
    } else if curr == SQ_OPEN {
        (ScanState { brackets: s.brackets.push(curr), ..s }, Act::Consume)
    } else if curr == SQ_CLOSE {
        if s.brackets.len() > 0 && s.brackets.last() == SQ_OPEN {
            (ScanState { brackets: s.brackets.drop_last(), ..s }, Act::Consume)
        } else if s.quotes.len() == 0 {
            (
                ScanState { in_arbitrary: false, ..s },
                if pos - s.idx_arbitrary_start == 1 {
                    Act::Skip
                } else {
                    Act::Consume
                },
            )
        } else {
            (s, Act::Consume)
        }
    } else if is_quote(curr) {
        if s.quotes.len() > 0 && s.quotes.last() == curr {
            (ScanState { quotes: s.quotes.drop_last(), ..s }, Act::Consume)
        } else {
            (ScanState { quotes: s.quotes.push(curr), ..s }, Act::Consume)
        }
    } else if curr == SPACE && !keep_spaces {
        (s, Act::RestartAt(s.idx_arbitrary_start + 1))
    } else {
        (s, Act::Consume)
    }
}

/// One byte while no candidate is open.
pub open spec fn start_step(s: ScanState, curr: u8, pos: int) -> (ScanState, Act) {
    if curr == SQ_OPEN {
        (ScanState { in_arbitrary: true, idx_arbitrary_start: pos, ..s }, Act::Consume)
    } else if starts_candidate(curr) {
        (s, Act::Consume)
    } else {
        (s, Act::Skip)
    }
}

/// One byte of an open candidate, outside of arbitrary values.
pub open spec fn continue_step(s: ScanState, prev: u8, curr: u8, pos: int) -> (ScanState, Act) {
    if curr == SQ_OPEN {
        if opens_arbitrary_after(prev) {
            (ScanState { in_arbitrary: true, idx_arbitrary_start: pos, ..s }, Act::Consume)
        } else {
            (s, Act::Skip)
        }
    } else if continues_candidate(curr) && prev != SQ_CLOSE {
        (s, Act::Consume)
    } else if is_separator(curr) && pos + 1 < s.idx_last {
        (s, Act::Consume)
    } else {
        (s, Act::Skip)
    }
}

pub open spec fn char_step(s: ScanState, prev: u8, curr: u8, pos: int, keep_spaces: bool) -> (
    ScanState,
    Act,
) {
    if s.in_arbitrary {
        arbitrary_step(s, curr, pos, keep_spaces)
    } else if s.in_candidate {
        continue_step(s, prev, curr, pos)
    } else {
        let (t, a) = start_step(s, curr, pos);
        if a is Consume {
            (ScanState { in_candidate: true, idx_start: pos, idx_end: pos, ..t }, Act::Consume)
        } else {
            (t, Act::Skip)
        }
    }
}

/// The open span may be judged: it is outside of an arbitrary value, and
/// neither the byte that ended it nor the byte before it is beyond ASCII.
pub open spec fn can_be_candidate(input: Seq<u8>, s: ScanState, c: u8) -> bool {
    &&& s.in_candidate
    &&& !s.in_arbitrary
    &&& c <= 127
    &&& (s.idx_start == 0 || input[s.idx_start - 1] <= 127)
}

/// Judge `c`, trimming a trailing `:`, `/` or `.` after each rejection that
/// asks for no restart.
pub open spec fn shrink_verdict(c: Seq<u8>, start: int) -> Act
    decreases c.len(),
{
    if c.len() == 0 {
        Act::Continue
    } else {
        let (ok, restart) = candidate_verdict(c);
        if ok {
            Act::Single(c, Option::<int>::None)
        } else if restart {
            Act::RestartAt(start + 1)
        } else if is_separator(c.last()) {
            shrink_verdict(c.drop_last(), start)
        } else {
            Act::Continue
        }
    }
}

/// Peel the span `[start, end]`, and failing that the span one byte wider
/// on each side where the input has those bytes.
pub open spec fn peel_span(input: Seq<u8>, start: int, end: int) -> Peel {
    match surround(input.subrange(start, end + 1), Option::<Seq<u8>>::None) {
        Some(v) => Peel::Included(v),
        Option::None => if start == 0 || end + 1 == input.len() {
            Peel::Absent
        } else {
            match surround(input.subrange(start - 1, end + 2), Option::<Seq<u8>>::None) {
                Some(v) => Peel::Wrapped(v),
                Option::None => Peel::Absent,
            }
        },
    }
}

pub open spec fn part(x: Seq<u8>) -> Seq<Seq<u8>> {
    if x.len() > 0 {
        seq![x]
    } else {
        seq![]
    }
}

/// The candidate, the interior, and the interior's pieces between
/// top-level colons, leaving out empty ones.
pub open spec fn nested_group(c: Seq<u8>, v: Seq<u8>) -> Seq<Seq<u8>> {
    part(c) + part(v) + colon_pieces(v, 0, 0)
}

/// What a valid candidate `c` of the span `[start, end]` yields.
pub open spec fn slices_for(input: Seq<u8>, start: int, end: int, c: Seq<u8>, pos: int) -> Act {
    match peel_span(input, start, end) {
        Peel::Included(v) => if v == c {
            Act::Single(c, Some(pos))
        } else {
            Act::Multiple(nested_group(c, v), Some(pos))
        },
        Peel::Wrapped(v) => Act::Multiple(nested_group(c, v), Some(pos)),
        Peel::Absent => Act::Single(c, Some(pos)),
    }
}

/// Close the open candidate after the byte at `pos`.
pub open spec fn skip_state(s: ScanState, pos: int) -> ScanState {
    ScanState {
        idx_start: pos,
        idx_end: pos,
        in_candidate: false,
        in_arbitrary: false,
        in_escape: false,
        ..s
    }
}

/// Reset everything and go on reading at `pos`.
pub open spec fn restart_state(input: Seq<u8>, s: ScanState, pos: int) -> ScanState {
    ScanState {
        pos: pos,
        prev: if 0 <= pos - 1 < input.len() {
            input[pos - 1]
        } else {
            0
        },
        idx_start: pos,
        idx_end: pos,
        idx_arbitrary_start: 0,
        in_arbitrary: false,
        in_candidate: false,
        in_escape: false,
        quotes: seq![],
        brackets: seq![],
        ..s
    }
}

/// Read one byte; past the end, the position `usize::MAX` and the byte 0.
pub open spec fn read_state(input: Seq<u8>, s: ScanState) -> (ScanState, int, u8) {
    if s.pos == s.idx_last {
        (s, usize::MAX as int, 0)
    } else {
        (ScanState { pos: s.pos + 1, ..s }, s.pos, input[s.pos])
    }
}

/// One read, one decision, and where the candidate ends, its judgement.
pub open spec fn step(input: Seq<u8>, keep_spaces: bool, s: ScanState) -> (ScanState, Act) {
    let (s1, pos, curr) = read_state(input, s);
    let (s2, a) = char_step(s1, s.prev, curr, pos, keep_spaces);
    let s3 = ScanState { prev: curr, ..s2 };
    if a is RestartAt {
        (s3, a)
    } else {
        let s4 = if a is Consume {
            ScanState { idx_end: pos, ..s3 }
        } else {
            s3
        };
        if a is Consume && pos + 1 < s4.idx_last {
            (s4, Act::Consume)
        } else {
            let y = if can_be_candidate(input, s4, curr) {
                shrink_verdict(input.subrange(s4.idx_start, s4.idx_end + 1), s4.idx_start)
            } else {
                Act::Continue
            };
            if y is RestartAt {
                (s4, y)
            } else if s.pos == s.idx_last {
                (s4, Act::Done)
            } else {
                match y {
                    Act::Single(c, _) => (s4, slices_for(input, s4.idx_start, s4.idx_end, c, pos)),
                    _ => (s4, Act::RestartAt(pos + 1)),
                }
            }
        }
    }
}

/// Where a scan may go on from.
pub open spec fn wf_base(input: Seq<u8>, s: ScanState) -> bool {
    &&& s.idx_last == input.len()
    &&& 0 <= s.pos <= s.idx_last
    &&& 0 <= s.idx_start <= s.idx_last
    &&& s.in_candidate ==> s.idx_start <= s.idx_end < s.pos
    &&& s.in_arbitrary ==> s.in_candidate && s.idx_start <= s.idx_arbitrary_start <= s.idx_end
    &&& s.in_escape ==> s.in_arbitrary
}

/// Where a step may be taken from: at the end of input nothing is open.
pub open spec fn wf_live(input: Seq<u8>, s: ScanState) -> bool {
    &&& wf_base(input, s)
    &&& s.pos == s.idx_last ==> !s.in_candidate && !s.in_arbitrary && !s.in_escape
}

/// The first offset that the scan can still return to.
pub open spec fn anchor(s: ScanState) -> int {
    if s.in_candidate {
        s.idx_start
    } else {
        s.pos
    }
}

/// A judgement of a span either passes, or asks for a restart one past its
/// start, or yields a non-empty prefix of the span.
pub proof fn lemma_shrink(c: Seq<u8>, start: int)
    ensures
        match shrink_verdict(c, start) {
            Act::Continue => true,
            Act::RestartAt(t) => t == start + 1,
            Act::Single(d, p) => p is None && 0 < d.len() <= c.len(),
            _ => false,
        },
    decreases c.len(),
{
    if c.len() > 0 {
        lemma_shrink(c.drop_last(), start);
    }
}

/// A step from a live state either consumes a byte with the anchor kept,
/// restarts past the anchor, yields at the byte it read, or ends the scan.
pub proof fn lemma_step(input: Seq<u8>, keep_spaces: bool, s: ScanState)
    requires
        wf_live(input, s),
    ensures
        ({
            let (s2, a) = step(input, keep_spaces, s);
            &&& wf_base(input, s2)
            &&& match a {
                Act::Consume => wf_live(input, s2) && anchor(s2) == anchor(s) && s2.pos == s.pos
                    + 1,
                Act::RestartAt(t) => anchor(s) < t <= input.len(),
                Act::Single(c, p) => p == Some(s.pos) && s.pos < input.len() && s2.pos == s.pos
                    + 1 && c.len() > 0,
                Act::Multiple(g, p) => p == Some(s.pos) && s.pos < input.len() && s2.pos == s.pos
                    + 1,
                Act::Done => true,
                _ => false,
            }
        }),
{
    let (s1, pos, curr) = read_state(input, s);
    let (s2, a) = char_step(s1, s.prev, curr, pos, keep_spaces);
    let s3 = ScanState { prev: curr, ..s2 };
    let s4 = if a is Consume {
        ScanState { idx_end: pos, ..s3 }
    } else {
        s3
    };
    if s4.in_candidate {
        lemma_shrink(input.subrange(s4.idx_start, s4.idx_end + 1), s4.idx_start);
    }
}

/// What `next` returns from a state: nothing at the end of input, else the
/// group that the steps reach first.
pub open spec fn drive(input: Seq<u8>, keep_spaces: bool, s: ScanState) -> (
    ScanState,
    Option<Seq<Seq<u8>>>,
)
    decreases s.idx_last + 1 - anchor(s), s.idx_last + 1 - s.pos,
{
    if !wf_live(input, s) {
        (s, Option::<Seq<Seq<u8>>>::None)
    } else {
        proof {
            lemma_step(input, keep_spaces, s);
        }
        let (s2, a) = step(input, keep_spaces, s);
        match a {
            Act::Single(c, p) => (skip_state(s2, s.pos), Some(seq![c])),
            Act::Multiple(g, p) => (skip_state(s2, s.pos), Some(g)),
            Act::RestartAt(t) => drive(input, keep_spaces, restart_state(input, s2, t)),
            Act::Consume => drive(input, keep_spaces, s2),
            _ => (s2, Option::<Seq<Seq<u8>>>::None),
        }
    }
}

/// A group that `drive` yields leaves a live state past the old anchor.
pub proof fn lemma_drive(input: Seq<u8>, keep_spaces: bool, s: ScanState)
    requires
        wf_live(input, s),
    ensures
        wf_base(input, drive(input, keep_spaces, s).0),
        drive(input, keep_spaces, s).1 is Some ==> wf_live(input, drive(input, keep_spaces, s).0)
            && anchor(drive(input, keep_spaces, s).0) > anchor(s),
    decreases s.idx_last + 1 - anchor(s), s.idx_last + 1 - s.pos,
{
    lemma_step(input, keep_spaces, s);
    let (s2, a) = step(input, keep_spaces, s);
    match a {
        Act::RestartAt(t) => lemma_drive(input, keep_spaces, restart_state(input, s2, t)),
        Act::Consume => lemma_drive(input, keep_spaces, s2),
        _ => {},
    }
}

/// The result of one call of `next`.
pub open spec fn next_group(input: Seq<u8>, keep_spaces: bool, s: ScanState) -> (
    ScanState,
    Option<Seq<Seq<u8>>>,
) {
    if s.pos == s.idx_last {
        (s, Option::<Seq<Seq<u8>>>::None)
    } else {
        drive(input, keep_spaces, s)
    }
}

/// Every candidate that calls of `next` yield from `s` on, group after
/// group, until the first call that yields nothing.
pub open spec fn collect(input: Seq<u8>, keep_spaces: bool, s: ScanState) -> Seq<Seq<u8>>
    decreases s.idx_last + 1 - anchor(s), s.idx_last + 1 - s.pos,
{
    if !wf_base(input, s) || s.pos == s.idx_last {
        seq![]
    } else {
        proof {
            lemma_drive(input, keep_spaces, s);
        }
        let (s2, g) = drive(input, keep_spaces, s);
        match g {
            Some(g) => g + collect(input, keep_spaces, s2),
            Option::None => seq![],
        }
    }
}

/// The state a scan of `input` begins in.
pub open spec fn initial_state(input: Seq<u8>) -> ScanState {
    ScanState {
        pos: 0,
        prev: 0,
        idx_start: 0,
        idx_end: 0,
        idx_last: input.len() as int,
        idx_arbitrary_start: 0,
        in_arbitrary: false,
        in_candidate: false,
        in_escape: false,
        quotes: seq![],
        brackets: seq![],
    }
}

/// Every candidate of `input`, in the order the scan finds them.
pub open spec fn all_candidates(input: Seq<u8>, keep_spaces: bool) -> Seq<Seq<u8>> {
    collect(input, keep_spaces, initial_state(input))
}

pub open spec fn opt_group(r: Option<Vec<&[u8]>>) -> Option<Seq<Seq<u8>>> {
    match r {
        Some(v) => Some(slices_view(v@)),
        Option::None => Option::<Seq<Seq<u8>>>::None,
    }
}

proof fn lemma_slices_push(v: Seq<&[u8]>, x: &[u8])
    ensures
        slices_view(v.push(x)) == slices_view(v).push(x@),
{
    assert(slices_view(v.push(x)) =~= slices_view(v).push(x@));
}

proof fn lemma_slices_add(a: Seq<&[u8]>, b: Seq<&[u8]>)
    ensures
        slices_view(a + b) == slices_view(a) + slices_view(b),
{
    assert(slices_view(a + b) =~= slices_view(a) + slices_view(b));
}

/// The candidate, the interior, and the interior's non-empty pieces between
/// top-level colons.
fn nested_parts<'a>(candidate: &'a [u8], slicable: &'a [u8]) -> (r: Vec<&'a [u8]>)
    ensures
        slices_view(r@) == nested_group(candidate@, slicable@),
{
    let mut parts: Vec<&'a [u8]> = Vec::new();
    if candidate.len() > 0 {
        proof {
            lemma_slices_push(parts@, candidate);
        }
        parts.push(candidate);
    }
    if slicable.len() > 0 {
        proof {
            lemma_slices_push(parts@, slicable);
        }
        parts.push(slicable);
    }
    let ghost v = slicable@;
    assert(slices_view(parts@) =~= part(candidate@) + part(v));
    let mut brackets: usize = 0;
    let mut start: usize = 0;
    let mut n: usize = 0;
    while n < slicable.len()
        invariant
            v == slicable@,
            start <= n <= v.len(),
            brackets == square_depth(v, n as int),
            brackets <= n,
            slices_view(parts@) + colon_pieces(v, start as int, n as int) == nested_group(
                candidate@,
                v,
            ),
        decreases v.len() - n,
    {
        let c = slicable[n];
        if c == SQ_OPEN {
            brackets += 1;
        } else if c == SQ_CLOSE && brackets > 0 {
            brackets -= 1;
        } else if c == COLON && brackets == 0 {
            assert(top_colon(v, n as int));
            if start < n {
                let piece = &slicable[start..n];
                proof {
                    lemma_slices_push(parts@, piece);
                    assert(slices_view(parts@).push(piece@) + colon_pieces(v, n + 1, n + 1)
                        =~= slices_view(parts@) + (seq![piece@] + colon_pieces(v, n + 1, n + 1)));
                }
                parts.push(piece);
            }
            start = n + 1;
        }
        n += 1;
    }
    if start < slicable.len() {
        let piece = &slicable[start..slicable.len()];
        proof {
            lemma_slices_push(parts@, piece);
        }
        parts.push(piece);
    }
    assert(slices_view(parts@) =~= nested_group(candidate@, v));
    parts
}

impl<'a> Extractor<'a> {
    /// The scanner's state.
    pub closed spec fn state(&self) -> ScanState {
        ScanState {
            pos: self.pos as int,
            prev: self.prev,
            idx_start: self.idx_start as int,
            idx_end: self.idx_end as int,
            idx_last: self.idx_last as int,
            idx_arbitrary_start: self.idx_arbitrary_start as int,
            in_arbitrary: self.in_arbitrary,
            in_candidate: self.in_candidate,
            in_escape: self.in_escape,
            quotes: self.quote_stack@,
            brackets: self.bracket_stack@,
        }
    }

    /// The bytes being scanned.
    pub closed spec fn source(&self) -> Seq<u8> {
        self.input@
    }

    /// Whether spaces inside arbitrary values are kept.
    pub closed spec fn keeps_spaces(&self) -> bool {
        self.opts.preserve_spaces_in_arbitrary
    }

    pub closed spec fn well_formed(&self) -> bool {
        wf_base(self.input@, self.state())
    }

    pub fn new(input: &'a [u8], opts: ExtractorOptions) -> (r: Self)
        ensures
            r.state() == initial_state(input@),
            r.source() == input@,
            r.keeps_spaces() == opts.preserve_spaces_in_arbitrary,
            r.well_formed(),
    {
        let r = Self {
            opts,
            input,
            pos: 0,
            prev: 0,
            idx_start: 0,
            idx_end: 0,
            idx_arbitrary_start: 0,
            in_arbitrary: false,
            in_candidate: false,
            in_escape: false,
            idx_last: input.len(),
            quote_stack: Vec::with_capacity(8),
            bracket_stack: Vec::with_capacity(8),
        };
        assert(r.state() == initial_state(input@));
        r
    }

    fn in_quotes(&self) -> (r: bool)
        ensures
            r == (self.quote_stack@.len() > 0),
    {
        !self.quote_stack.is_empty()
    }

    fn parse_escaped(&mut self) -> (r: ParseAction<'a>)
        ensures
            final(self).state() == (ScanState { in_escape: false, ..old(self).state() }),
            r@ == Act::Consume,
            final(self).input == old(self).input,
            final(self).opts == old(self).opts,
    {
        self.in_escape = false;
        ParseAction::Consume
    }

    fn parse_arbitrary(&mut self, curr: u8, pos: usize) -> (r: ParseAction<'a>)
        requires
            old(self).idx_arbitrary_start < pos,
        ensures
            (final(self).state(), r@) == arbitrary_step(
                old(self).state(),
                curr,
                pos as int,
                old(self).opts.preserve_spaces_in_arbitrary,
            ),
            final(self).input == old(self).input,
            final(self).opts == old(self).opts,
    {
        if self.in_escape {
            return self.parse_escaped();
        }
        if curr == BACKSLASH {
            self.in_escape = true;
        } else if curr == SQ_OPEN {
            self.bracket_stack.push(curr);
        } else if curr == SQ_CLOSE {
            let n = self.bracket_stack.len();
            if n > 0 && self.bracket_stack[n - 1] == SQ_OPEN {
                self.bracket_stack.pop();
            } else if !self.in_quotes() {
                self.in_arbitrary = false;
                if pos - self.idx_arbitrary_start == 1 {
                    return ParseAction::Skip;
                }
            }
        } else if curr == DOUBLE_QUOTE || curr == SINGLE_QUOTE || curr == BACKTICK {
            let n = self.quote_stack.len();
            if n > 0 && self.quote_stack[n - 1] == curr {
                self.quote_stack.pop();
            } else {
                self.quote_stack.push(curr);
            }
        } else if curr == SPACE && !self.opts.preserve_spaces_in_arbitrary {
            return ParseAction::RestartAt(self.idx_arbitrary_start + 1);
        }
        ParseAction::Consume
    }

    fn parse_start(&mut self, curr: u8, pos: usize) -> (r: ParseAction<'a>)
        ensures
            (final(self).state(), r@) == start_step(old(self).state(), curr, pos as int),
            final(self).input == old(self).input,
            final(self).opts == old(self).opts,
    {
        if curr == SQ_OPEN {
            self.in_arbitrary = true;
            self.idx_arbitrary_start = pos;
            ParseAction::Consume
        } else if curr == AT || curr == BANG || curr == DASH || curr == LESS || curr == GREATER
            || (0x30 <= curr && curr <= 0x39) || (0x61 <= curr && curr <= 0x7a) || (0x41 <= curr
            && curr <= 0x5a) {
            ParseAction::Consume
        } else {
            ParseAction::Skip
        }
    }

    fn parse_continue(&mut self, prev: u8, curr: u8, pos: usize) -> (r: ParseAction<'a>)
        requires
            pos < old(self).idx_last,
        ensures
            (final(self).state(), r@) == continue_step(old(self).state(), prev, curr, pos as int),
            final(self).input == old(self).input,
            final(self).opts == old(self).opts,
    {
        if curr == SQ_OPEN {
            if prev == AT || prev == DASH || prev == SPACE || prev == COLON || prev == SLASH || prev
                == BANG || prev == 0 {
                self.in_arbitrary = true;
                self.idx_arbitrary_start = pos;
            } else {
                return ParseAction::Skip;
            }
        } else if ((0x61 <= curr && curr <= 0x7a) || (0x41 <= curr && curr <= 0x5a) || (0x30
            <= curr && curr <= 0x39) || curr == DASH || curr == UNDERSCORE || curr == LESS || curr
            == GREATER || curr == BANG || curr == AT || curr == PERCENT) && prev != SQ_CLOSE {
        } else if (curr == SLASH || curr == COLON || curr == DOT) && pos + 1 < self.idx_last {
        } else {
            return ParseAction::Skip;
        }
        ParseAction::Consume
    }

    fn can_be_candidate(&mut self, c: u8) -> (r: bool)
        requires
            old(self).idx_start <= old(self).input@.len(),
        ensures
            r == can_be_candidate(old(self).input@, old(self).state(), c),
            *final(self) == *old(self),
    {
        self.in_candidate && !self.in_arbitrary && c <= 127 && (self.idx_start == 0
            || self.input[self.idx_start - 1] <= 127)
    }

    fn handle_skip(&mut self, pos: usize)
        ensures
            final(self).state() == skip_state(old(self).state(), pos as int),
            final(self).input == old(self).input,
            final(self).opts == old(self).opts,
    {
        self.idx_start = pos;
        self.idx_end = pos;
        self.in_candidate = false;
        self.in_arbitrary = false;
        self.in_escape = false;
    }

    fn parse_char(&mut self, prev: u8, curr: u8, pos: usize) -> (r: ParseAction<'a>)
        requires
            old(self).in_candidate ==> pos < old(self).idx_last,
            old(self).in_arbitrary ==> old(self).idx_arbitrary_start < pos,
        ensures
            (final(self).state(), r@) == char_step(
                old(self).state(),
                prev,
                curr,
                pos as int,
                old(self).opts.preserve_spaces_in_arbitrary,
            ),
            final(self).input == old(self).input,
            final(self).opts == old(self).opts,
    {
        if self.in_arbitrary {
            self.parse_arbitrary(curr, pos)
        } else if self.in_candidate {
            self.parse_continue(prev, curr, pos)
        } else if matches!(self.parse_start(curr, pos), ParseAction::Consume) {
            self.in_candidate = true;
            self.idx_start = pos;
            self.idx_end = pos;
            ParseAction::Consume
        } else {
            ParseAction::Skip
        }
    }

    fn get_current_candidate(&mut self) -> (r: ParseAction<'a>)
        requires
            old(self).idx_start <= old(self).idx_end < old(self).input@.len(),
        ensures
            r@ == shrink_verdict(
                old(self).input@.subrange(old(self).idx_start as int, old(self).idx_end + 1),
                old(self).idx_start as int,
            ),
            *final(self) == *old(self),
    {
        let input: &'a [u8] = self.input;
        let start = self.idx_start;
        let len = input.len();
        assert(self.idx_end < len);
        let mut e: usize = self.idx_end + 1;
        loop
            invariant
                input == self.input,
                start == self.idx_start,
                start <= self.idx_end < input@.len(),
                start <= e <= input@.len(),
                shrink_verdict(
                    input@.subrange(start as int, self.idx_end + 1),
                    start as int,
                ) == shrink_verdict(input@.subrange(start as int, e as int), start as int),
            decreases e - start,
        {
            let candidate = &input[start..e];
            if e == start {
                return ParseAction::Continue;
            }
            let (is_valid, needs_restart) = Extractor::is_valid_candidate_string(candidate);
            if is_valid {
                return ParseAction::SingleCandidate(candidate, None);
            }
            if needs_restart {
                return ParseAction::RestartAt(start + 1);
            }
            let last = input[e - 1];
            if last == COLON || last == SLASH || last == DOT {
                assert(candidate@.drop_last() =~= input@.subrange(start as int, e - 1));
                e = e - 1;
            } else {
                return ParseAction::Continue;
            }
        }
    }

    fn yield_candidate(&mut self, _pos: usize, curr: u8) -> (r: ParseAction<'a>)
        requires
            old(self).idx_start <= old(self).input@.len(),
            old(self).in_candidate ==> old(self).idx_start <= old(self).idx_end
                < old(self).input@.len(),
        ensures
            r@ == (if can_be_candidate(old(self).input@, old(self).state(), curr) {
                shrink_verdict(
                    old(self).input@.subrange(old(self).idx_start as int, old(self).idx_end + 1),
                    old(self).idx_start as int,
                )
            } else {
                Act::Continue
            }),
            *final(self) == *old(self),
    {
        if self.can_be_candidate(curr) {
            self.get_current_candidate()
        } else {
            ParseAction::Continue
        }
    }

    fn read(&mut self) -> (r: (usize, u8))
        requires
            old(self).pos <= old(self).idx_last == old(self).input@.len(),
        ensures
            (final(self).state(), r.0 as int, r.1) == read_state(
                old(self).input@,
                old(self).state(),
            ),
            final(self).input == old(self).input,
            final(self).opts == old(self).opts,
    {
        if self.pos == self.idx_last {
            return (usize::MAX, 0);
        }
        let r = (self.pos, self.input[self.pos]);
        self.pos += 1;
        r
    }

    fn restart(&mut self, pos: usize)
        requires
            1 <= pos,
        ensures
            final(self).state() == restart_state(old(self).input@, old(self).state(), pos as int),
            final(self).input == old(self).input,
            final(self).opts == old(self).opts,
    {
        self.idx_start = pos;
        self.idx_end = pos;
        self.idx_arbitrary_start = 0;
        self.in_arbitrary = false;
        self.in_candidate = false;
        self.in_escape = false;
        self.quote_stack.clear();
        self.bracket_stack.clear();
        self.pos = pos;
        self.prev = if pos - 1 < self.input.len() {
            self.input[pos - 1]
        } else {
            0
        };
        assert(self.quote_stack@ =~= Seq::<u8>::empty());
        assert(self.bracket_stack@ =~= Seq::<u8>::empty());
    }

    fn without_surrounding(&self) -> (r: Bracketing<'a>)
        requires
            self.idx_start <= self.idx_end < self.input@.len(),
            self.idx_last == self.input@.len(),
        ensures
            r@ == peel_span(self.input@, self.idx_start as int, self.idx_end as int),
    {
        let input: &'a [u8] = self.input;
        let clipped = &input[self.idx_start..self.idx_end + 1];
        match Self::slice_surrounding(clipped) {
            Some(v) => Bracketing::Included(v),
            None => {
                if self.idx_start == 0 || self.idx_end + 1 == self.idx_last {
                    Bracketing::Absent
                } else {
                    let clipped = &input[self.idx_start - 1..self.idx_end + 2];
                    match Self::slice_surrounding(clipped) {
                        Some(v) => Bracketing::Wrapped(v),
                        None => Bracketing::Absent,
                    }
                }
            },
        }
    }

    fn generate_slices(&mut self, candidate: &'a [u8], pos: usize) -> (r: ParseAction<'a>)
        requires
            old(self).idx_start <= old(self).idx_end < old(self).input@.len(),
            old(self).idx_last == old(self).input@.len(),
        ensures
            r@ == slices_for(
                old(self).input@,
                old(self).idx_start as int,
                old(self).idx_end as int,
                candidate@,
                pos as int,
            ),
            *final(self) == *old(self),
    {
        match self.without_surrounding() {
            Bracketing::Absent => ParseAction::SingleCandidate(candidate, Some(pos)),
            Bracketing::Included(slicable) => {
                if same_bytes(slicable, candidate) {
                    ParseAction::SingleCandidate(candidate, Some(pos))
                } else {
                    ParseAction::MultipleCandidates(nested_parts(candidate, slicable), Some(pos))
                }
            },
            Bracketing::Wrapped(slicable) => {
                ParseAction::MultipleCandidates(nested_parts(candidate, slicable), Some(pos))
            },
        }
    }

    fn parse_and_yield(&mut self) -> (r: ParseAction<'a>)
        requires
            wf_live(old(self).input@, old(self).state()),
        ensures
            (final(self).state(), r@) == step(
                old(self).input@,
                old(self).opts.preserve_spaces_in_arbitrary,
                old(self).state(),
            ),
            final(self).input == old(self).input,
            final(self).opts == old(self).opts,
    {
        let at_end = self.pos == self.idx_last;
        let (pos, curr) = self.read();
        let prev = self.prev;
        let action = self.parse_char(prev, curr, pos);
        self.prev = curr;
        if let ParseAction::RestartAt(_) = action {
            return action;
        }
        if let ParseAction::Consume = action {
            self.idx_end = pos;
            if pos + 1 < self.idx_last {
                return action;
            }
        }
        let action = self.yield_candidate(pos, curr);
        if let ParseAction::RestartAt(_) = action {
            return action;
        }
        if at_end {
            return ParseAction::Done;
        }
        match action {
            ParseAction::SingleCandidate(candidate, _) => self.generate_slices(candidate, pos),
            _ => ParseAction::RestartAt(pos + 1),
        }
    }

    /// The next group of candidates, or `None` once the scan is over.
    pub fn next(&mut self) -> (r: Option<Vec<&'a [u8]>>)
        requires
            old(self).well_formed(),
        ensures
            final(self).well_formed(),
            final(self).source() == old(self).source(),
            final(self).keeps_spaces() == old(self).keeps_spaces(),
            (final(self).state(), opt_group(r)) == next_group(
                old(self).source(),
                old(self).keeps_spaces(),
                old(self).state(),
            ),
            match r {
                Some(g) => g@.len() > 0 && all_non_empty(slices_view(g@)),
                Option::None => true,
            },
    {
        if self.pos == self.idx_last {
            return None;
        }
        let ghost input = self.input@;
        let ghost keep = self.opts.preserve_spaces_in_arbitrary;
        let ghost s0 = self.state();
        proof {
            lemma_drive(input, keep, s0);
            law_groups_are_well_formed(input, keep, s0);
        }
        loop
            invariant
                input == self.input@,
                input == old(self).input@,
                keep == self.opts.preserve_spaces_in_arbitrary,
                keep == old(self).opts.preserve_spaces_in_arbitrary,
                wf_live(input, self.state()),
                drive(input, keep, self.state()) == drive(input, keep, s0),
                wf_base(input, drive(input, keep, s0).0),
                next_group(input, keep, s0) == drive(input, keep, s0),
                match drive(input, keep, s0).1 {
                    Some(g) => g.len() > 0 && all_non_empty(g),
                    Option::None => true,
                },
                s0 == old(self).state(),
            decreases self.idx_last + 1 - anchor(self.state()), self.idx_last + 1 - self.pos,
        {
            let ghost s = self.state();
            proof {
                lemma_step(input, keep, s);
            }
            let action = self.parse_and_yield();
            match action {
                ParseAction::SingleCandidate(candidate, pos) => {
                    if let Some(pos) = pos {
                        self.handle_skip(pos);
                    }
                    let group = vec![candidate];
                    assert(slices_view(group@) =~= seq![candidate@]);
                    return Some(group);
                },
                ParseAction::MultipleCandidates(candidates, pos) => {
                    if let Some(pos) = pos {
                        self.handle_skip(pos);
                    }
                    return Some(candidates);
                },
                ParseAction::Done => {
                    return None;
                },
                ParseAction::RestartAt(pos) => {
                    self.restart(pos);
                },
                _ => {},
            }
        }
    }

    /// Every candidate of `input`, in the order they are found, repeats
    /// included.
    pub fn all(input: &'a [u8], opts: ExtractorOptions) -> (r: Vec<&'a [u8]>)
        ensures
            slices_view(r@) == all_candidates(input@, opts.preserve_spaces_in_arbitrary),
    {
        let ghost keep = opts.preserve_spaces_in_arbitrary;
        let mut ex = Self::new(input, opts);
        let mut out: Vec<&'a [u8]> = Vec::new();
        assert(slices_view(out@) =~= Seq::<Seq<u8>>::empty());
        loop
            invariant
                ex.well_formed(),
                ex.source() == input@,
                ex.keeps_spaces() == keep,
                keep == opts.preserve_spaces_in_arbitrary,
                slices_view(out@) + collect(input@, keep, ex.state()) == all_candidates(
                    input@,
                    keep,
                ),
            decreases ex.state().idx_last + 1 - anchor(ex.state()), ex.state().idx_last + 1
                - ex.state().pos,
        {
            let ghost s = ex.state();
            match ex.next() {
                None => {
                    assert(collect(input@, keep, s) == Seq::<Seq<u8>>::empty());
                    assert(slices_view(out@) =~= slices_view(out@) + collect(input@, keep, s));
                    return out;
                },
                Some(group) => {
                    let mut group = group;
                    proof {
                        lemma_drive(input@, keep, s);
                        lemma_slices_add(out@, group@);
                        assert(collect(input@, keep, s) == slices_view(group@) + collect(
                            input@,
                            keep,
                            ex.state(),
                        ));
                        assert(slices_view(out@) + slices_view(group@) + collect(
                            input@,
                            keep,
                            ex.state(),
                        ) =~= slices_view(out@) + collect(input@, keep, s));
                    }
                    out.append(&mut group);
                },
            }
        }
    }
}

} // verus!
