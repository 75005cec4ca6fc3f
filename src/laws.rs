use vstd::prelude::*;

use crate::brackets::colon_pieces;
use crate::collect::{first_occurrences, first_pos, lemma_first_occurrences, lemma_first_occurrences_order};
use crate::extractor::{
    all_candidates, anchor, collect, drive, lemma_drive, lemma_shrink, lemma_step, nested_group,
    next_group, part, restart_state, shrink_verdict, slices_for, step, wf_base, wf_live, Act,
    ScanState,
};

verus! {

/// Every item of `g` holds at least one byte.
pub open spec fn all_non_empty(g: Seq<Seq<u8>>) -> bool {
    forall|k: int| 0 <= k < g.len() ==> (#[trigger] g[k]).len() > 0
}

proof fn lemma_colon_pieces_non_empty(v: Seq<u8>, start: int, n: int)
    ensures
        all_non_empty(colon_pieces(v, start, n)),
    decreases v.len() - n,
{
    if n >= v.len() || n < start || start < 0 {
    } else {
        lemma_colon_pieces_non_empty(v, n + 1, n + 1);
        lemma_colon_pieces_non_empty(v, start, n + 1);
        let rest = colon_pieces(v, n + 1, n + 1);
        if start < n {
            let g = seq![v.subrange(start, n)] + rest;
            assert forall|k: int| 0 <= k < g.len() implies (#[trigger] g[k]).len() > 0 by {
                if k > 0 {
                    assert(g[k] == rest[k - 1]);
                }
            }
        }
    }
}

proof fn lemma_nested_group_non_empty(c: Seq<u8>, v: Seq<u8>)
    requires
        c.len() > 0,
    ensures
        nested_group(c, v).len() > 0,
        all_non_empty(nested_group(c, v)),
{
    lemma_colon_pieces_non_empty(v, 0, 0);
    let head = part(c) + part(v);
    let rest = colon_pieces(v, 0, 0);
    assert forall|k: int| 0 <= k < head.len() + rest.len() implies (#[trigger] (head + rest)[
        k
    ]).len() > 0 by {
        if k >= head.len() {
            assert((head + rest)[k] == rest[k - head.len()]);
        }
    }
}

proof fn lemma_step_groups(input: Seq<u8>, keep_spaces: bool, s: ScanState)
    requires
        wf_live(input, s),
    ensures
        match step(input, keep_spaces, s).1 {
            Act::Single(c, _) => c.len() > 0,
            Act::Multiple(g, _) => g.len() > 0 && all_non_empty(g),
            _ => true,
        },
{
    lemma_step(input, keep_spaces, s);
    let s4 = step(input, keep_spaces, s).0;
    if s4.in_candidate && s4.idx_start <= s4.idx_end < input.len() {
        let c = input.subrange(s4.idx_start, s4.idx_end + 1);
        lemma_shrink(c, s4.idx_start);
    }
    match step(input, keep_spaces, s).1 {
        Act::Multiple(g, _) => {
            let c = input.subrange(s4.idx_start, s4.idx_end + 1);
            match shrink_verdict(c, s4.idx_start) {
                Act::Single(d, _) => {
                    assert(forall|v: Seq<u8>|
                        #![trigger nested_group(d, v)]
                        nested_group(d, v).len() > 0 && all_non_empty(nested_group(d, v))) by {
                        assert forall|v: Seq<u8>| #[trigger]
                            nested_group(d, v).len() > 0 && all_non_empty(
                                nested_group(d, v),
                            ) by {
                            lemma_nested_group_non_empty(d, v);
                        }
                    }
                },
                _ => {},
            }
        },
        _ => {},
    }
}

proof fn lemma_drive_groups(input: Seq<u8>, keep_spaces: bool, s: ScanState)
    requires
        wf_live(input, s),
    ensures
        match drive(input, keep_spaces, s).1 {
            Some(g) => g.len() > 0 && all_non_empty(g),
            Option::None => true,
        },
    decreases s.idx_last + 1 - anchor(s), s.idx_last + 1 - s.pos,
{
    lemma_step(input, keep_spaces, s);
    lemma_step_groups(input, keep_spaces, s);
    let (s2, a) = step(input, keep_spaces, s);
    match a {
        Act::RestartAt(t) => lemma_drive_groups(input, keep_spaces, restart_state(input, s2, t)),
        Act::Consume => lemma_drive_groups(input, keep_spaces, s2),
        _ => {},
    }
}

proof fn lemma_collect_non_empty(input: Seq<u8>, keep_spaces: bool, s: ScanState)
    ensures
        all_non_empty(collect(input, keep_spaces, s)),
    decreases s.idx_last + 1 - anchor(s), s.idx_last + 1 - s.pos,
{
    if wf_base(input, s) && s.pos != s.idx_last {
        lemma_drive(input, keep_spaces, s);
        lemma_drive_groups(input, keep_spaces, s);
        let (s2, g) = drive(input, keep_spaces, s);
        if let Some(g) = g {
            lemma_collect_non_empty(input, keep_spaces, s2);
            let rest = collect(input, keep_spaces, s2);
            assert forall|k: int| 0 <= k < g.len() + rest.len() implies (#[trigger] (g + rest)[
                k
            ]).len() > 0 by {
                if k >= g.len() {
                    assert((g + rest)[k] == rest[k - g.len()]);
                }
            }
        }
    }
}

/// A call of `next` from any reachable state that yields, yields a
/// non-empty group of non-empty candidates; the candidates of a whole scan
/// are all non-empty.
pub proof fn law_groups_are_well_formed(input: Seq<u8>, keep_spaces: bool, s: ScanState)
    requires
        wf_base(input, s),
    ensures
        match next_group(input, keep_spaces, s).1 {
            Some(g) => g.len() > 0 && all_non_empty(g),
            Option::None => true,
        },
        all_non_empty(all_candidates(input, keep_spaces)),
{
    if s.pos != s.idx_last {
        lemma_drive_groups(input, keep_spaces, s);
    }
    lemma_collect_non_empty(input, keep_spaces, crate::extractor::initial_state(input));
}

/// Equal input and options give the same candidates, and so do equal
/// states for the next group.
pub proof fn law_scan_is_deterministic(
    a: Seq<u8>,
    b: Seq<u8>,
    keep_a: bool,
    keep_b: bool,
    sa: ScanState,
    sb: ScanState,
)
    requires
        a == b,
        keep_a == keep_b,
        sa == sb,
    ensures
        all_candidates(a, keep_a) == all_candidates(b, keep_b),
        next_group(a, keep_a, sa) == next_group(b, keep_b, sb),
{
}

/// The ordered unique candidates are all the candidates with each repeat of
/// an earlier one left out: no item twice, the same items as the full scan,
/// in the order in which each first occurs there.
pub proof fn law_unique_ord_drops_only_repeats(input: Seq<u8>, keep_spaces: bool)
    ensures
        ({
            let all = all_candidates(input, keep_spaces);
            let uniq = first_occurrences(all);
            &&& uniq.no_duplicates()
            &&& uniq.to_set() == all.to_set()
            &&& forall|i: int, j: int|
                0 <= i < j < uniq.len() ==> first_pos(all, uniq[i]) < first_pos(all, uniq[j])
        }),
{
    lemma_first_occurrences(all_candidates(input, keep_spaces));
    lemma_first_occurrences_order(all_candidates(input, keep_spaces));
}

} // verus!
