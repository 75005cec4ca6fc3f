use vstd::prelude::*;

use bstr::ByteSlice;

use crate::brackets::{
    contains_byte, has_unbracketed, variant_end, COLON, SQ_CLOSE, SQ_OPEN,
};
use crate::extractor::Extractor;

verus! {

pub const BANG: u8 = 0x21;
pub const DASH: u8 = 0x2d;
pub const LESS: u8 = 0x3c;
pub const GREATER: u8 = 0x3e;
pub const BACKSLASH: u8 = 0x5c;
pub const SLASH: u8 = 0x2f;
pub const DOT: u8 = 0x2e;

/// The characters that bstr decodes from these bytes.
pub uninterp spec fn utf8_chars(b: Seq<u8>) -> Seq<char>;

/// The characters that bstr decodes from these bytes, each with the byte
/// range it came from.
pub uninterp spec fn utf8_char_indices(b: Seq<u8>) -> Seq<(usize, usize, char)>;

/// Every byte is below 0x80.
pub open spec fn all_ascii(b: Seq<u8>) -> bool {
    forall|i: int| 0 <= i < b.len() ==> b[i] < 0x80
}

/// Relies on bstr's `ByteSlice::chars`: the Unicode scalar values of `b`,
/// with U+FFFD for each invalid UTF-8 sequence; ASCII decodes byte for
/// byte.
#[verifier::external_body]
fn decode_chars(b: &[u8]) -> (r: Vec<char>)
    ensures
        r@ == utf8_chars(b@),
        all_ascii(b@) ==> r@ == Seq::new(b@.len(), |i: int| b@[i] as char),
{
    b.chars().collect()
}

/// Relies on bstr's `ByteSlice::char_indices`: what `chars` yields, each
/// with its start and end byte offset; ASCII decodes byte for byte.
#[verifier::external_body]
fn decode_char_indices(b: &[u8]) -> (r: Vec<(usize, usize, char)>)
    ensures
        r@ == utf8_char_indices(b@),
        all_ascii(b@) ==> r@ == Seq::new(
            b@.len(),
            |i: int| (i as usize, (i + 1) as usize, b@[i] as char),
        ),
{
    b.char_indices().collect()
}

/// The utility part of a candidate: what follows its last top-level colon.
pub open spec fn utility_of(c: Seq<u8>) -> Seq<u8> {
    c.subrange(variant_end(c, c.len() as int), c.len() as int)
}

/// Length of a leading `!-`, `!` or `-` marker.
pub open spec fn marker_len(u: Seq<u8>) -> int {
    if u.len() >= 2 && u[0] == BANG && u[1] == DASH {
        2
    } else if u.len() >= 1 && (u[0] == BANG || u[0] == DASH) {
        1
    } else {
        0
    }
}

/// Index of the first `b` at or after `i`, or the length.
pub open spec fn first_index(v: Seq<u8>, b: u8, i: int) -> int
    decreases v.len() - i,
{
    if i < 0 || i >= v.len() {
        v.len() as int
    } else if v[i] == b {
        i
    } else {
        first_index(v, b, i + 1)
    }
}

pub open spec fn is_digit(b: u8) -> bool {
    0x30 <= b <= 0x39
}

pub open spec fn is_ascii_alnum(b: u8) -> bool {
    is_digit(b) || (0x61 <= b <= 0x7a) || (0x41 <= b <= 0x5a)
}

/// The character in front of the first colon of `v` ends a property name.
/// The colon is ASCII, so that character is ASCII alphanumeric exactly
/// when the byte in front of the colon is.
pub open spec fn property_name_ends_well(v: Seq<u8>) -> bool {
    let k = first_index(v, COLON, 0);
    1 <= k <= v.len() && is_ascii_alnum(v[k - 1])
}

/// A `[a:b]` arbitrary property that is long enough, has a colon, is not
/// negated and names a property.
pub open spec fn arbitrary_property_ok(u: Seq<u8>, v: Seq<u8>) -> bool {
    &&& v.len() >= 5
    &&& v.contains(COLON)
    &&& !(u.len() >= 1 && u[0] == DASH)
    &&& !(u.len() >= 2 && u[0] == BANG && u[1] == DASH)
    &&& property_name_ends_well(v)
}

/// A decoded `]` whose preceding byte is not a backslash.
pub open spec fn unescaped_close(v: Seq<u8>, e: (usize, usize, char)) -> bool {
    e.2 == ']' && 1 <= e.0 <= v.len() && v[e.0 - 1] != BACKSLASH
}

/// Position of the first unescaped `]` among the decoded characters at or
/// after `i`, or their count.
pub open spec fn first_close(v: Seq<u8>, ci: Seq<(usize, usize, char)>, i: int) -> int
    decreases ci.len() - i,
{
    if i < 0 || i >= ci.len() {
        ci.len() as int
    } else if unescaped_close(v, ci[i]) {
        i
    } else {
        first_close(v, ci, i + 1)
    }
}

/// Among the characters `ch` decoded from `v`, with their offsets `ci`, the
/// first unescaped `]` is followed by a `/` modifier.
pub open spec fn modifier_follows(v: Seq<u8>, ch: Seq<char>, ci: Seq<(usize, usize, char)>) -> bool {
    let p = first_close(v, ci, 0);
    p < ci.len() && p + 1 < ch.len() && ch[p + 1] == '/'
}

/// The first unescaped `]` of `v` is followed by a `/` modifier.
pub open spec fn modifier_after_close(v: Seq<u8>) -> bool {
    modifier_follows(v, utf8_chars(v), utf8_char_indices(v))
}

/// Whether a span is a valid candidate, and whether a rejection asks the
/// scanner to restart one byte past the span's start.
pub open spec fn candidate_verdict(c: Seq<u8>) -> (bool, bool) {
    let u = utility_of(c);
    let v = u.subrange(marker_len(u), u.len() as int);
    if has_unbracketed(u, seq![LESS, GREATER]) {
        (false, true)
    } else if v.len() == 0 {
        (false, false)
    } else if v[0] == LESS && !v.contains(COLON) {
        (false, false)
    } else if is_digit(v[0]) && !v.contains(COLON) {
        (false, false)
    } else if v[0] == SQ_OPEN && v.last() == SQ_CLOSE && !arbitrary_property_ok(u, v) {
        (false, false)
    } else if v[0] == SQ_OPEN && modifier_after_close(v) {
        (false, false)
    } else {
        (true, false)
    }
}

fn is_ascii_alnum_byte(b: u8) -> (r: bool)
    ensures
        r == is_ascii_alnum(b),
{
    (0x30 <= b && b <= 0x39) || (0x61 <= b && b <= 0x7a) || (0x41 <= b && b <= 0x5a)
}

/// Index of the first `b` in `v`, or its length.
fn find_byte(v: &[u8], b: u8) -> (r: usize)
    ensures
        r == first_index(v@, b, 0),
{
    let mut i: usize = 0;
    while i < v.len()
        invariant
            i <= v@.len(),
            first_index(v@, b, 0) == first_index(v@, b, i as int),
        decreases v@.len() - i,
    {
        if v[i] == b {
            return i;
        }
        i += 1;
    }
    i
}

/// Position in `indices` of the first `]` whose preceding byte of `v` is not
/// a backslash, or the length of `indices`.
fn first_unescaped_close(v: &[u8], indices: &[(usize, usize, char)]) -> (r: usize)
    ensures
        r == first_close(v@, indices@, 0),
{
    let mut i: usize = 0;
    while i < indices.len()
        invariant
            i <= indices@.len(),
            first_close(v@, indices@, 0) == first_close(v@, indices@, i as int),
        decreases indices@.len() - i,
    {
        let (s, _e, ch) = indices[i];
        if ch == ']' && s >= 1 && s <= v.len() && v[s - 1] != BACKSLASH {
            return i;
        }
        i += 1;
    }
    i
}

/// Whether an arbitrary property `v` carries a modifier: given the
/// characters decoded from `v` and their byte offsets, the first `]` not
/// preceded by a backslash is followed by a `/`.
pub fn modifier_after_property(v: &[u8], chars: &[char], indices: &[(usize, usize, char)]) -> (r:
    bool)
    ensures
        r == modifier_follows(v@, chars@, indices@),
{
    let p = first_unescaped_close(v, indices);
    p < indices.len() && p + 1 < chars.len() && chars[p + 1] == '/'
}

impl<'a> Extractor<'a> {
    /// The rules a span must meet to be handed on as a candidate.
    pub fn is_valid_candidate_string(candidate: &'a [u8]) -> (r: (bool, bool))
        ensures
            r == candidate_verdict(candidate@),
    {
        let split_candidate = Extractor::split_candidate(candidate);
        let utility = split_candidate.utility;
        let ulen = utility.len();
        let offset: usize = if ulen >= 2 && utility[0] == BANG && utility[1] == DASH {
            2
        } else if ulen >= 1 && (utility[0] == BANG || utility[0] == DASH) {
            1
        } else {
            0
        };
        let angles = vec![LESS, GREATER];
        assert(angles@ =~= seq![LESS, GREATER]);
        if Extractor::contains_in_constrained(utility, angles) {
            return (false, true);
        }
        let v = &utility[offset..ulen];
        let vlen = v.len();
        if vlen == 0 {
            return (false, false);
        }
        if v[0] == LESS && !contains_byte(v, COLON) {
            return (false, false);
        }
        if v[0] >= 0x30 && v[0] <= 0x39 && !contains_byte(v, COLON) {
            return (false, false);
        }
        if v[0] == SQ_OPEN && v[vlen - 1] == SQ_CLOSE {
            if vlen < 5 {
                return (false, false);
            }
            if !contains_byte(v, COLON) {
                return (false, false);
            }
            if (ulen >= 1 && utility[0] == DASH) || (ulen >= 2 && utility[0] == BANG && utility[1]
                == DASH) {
                return (false, false);
            }
            let colon = find_byte(v, COLON);
            if !(colon >= 1 && colon <= vlen && is_ascii_alnum_byte(v[colon - 1])) {
                return (false, false);
            }
        }
        if v[0] == SQ_OPEN {
            let indices = decode_char_indices(v);
            let chars = decode_chars(v);
            if modifier_after_property(v, chars.as_slice(), indices.as_slice()) {
                return (false, false);
            }
        }
        (true, false)
    }
}

} // verus!
