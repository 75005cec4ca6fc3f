use vstd::prelude::*;

use fxhash::FxHashSet;

use crate::extractor::{all_candidates, slices_view, Extractor, ExtractorOptions};

verus! {

/// fxhash's hasher, carried opaquely inside `FxHashSet`.
#[verifier::external_type_specification]
#[verifier::external_body]
pub struct ExFxHasher(fxhash::FxHasher);

/// std's hasher builder, carried opaquely inside `FxHashSet`.
#[verifier::external_type_specification]
#[verifier::external_body]
#[verifier::reject_recursive_types(H)]
pub struct ExBuildHasherDefault<H>(core::hash::BuildHasherDefault<H>);

/// The byte strings that a set of slices holds.
pub uninterp spec fn set_bytes(s: FxHashSet<&[u8]>) -> Set<Seq<u8>>;

/// Relies on `FxHashSet::default` (std's `HashSet` with fxhash's hasher):
/// a new set is empty.
#[verifier::external_body]
fn empty_set<'a>() -> (r: FxHashSet<&'a [u8]>)
    ensures
        set_bytes(r) == Set::<Seq<u8>>::empty(),
{
    FxHashSet::default()
}

/// Relies on `HashSet::insert` on slices, which hash and compare by their
/// bytes: the set gains `c`'s bytes, and `true` says they were new.
#[verifier::external_body]
fn insert_bytes<'a>(set: &mut FxHashSet<&'a [u8]>, c: &'a [u8]) -> (r: bool)
    ensures
        set_bytes(*final(set)) == set_bytes(*old(set)).insert(c@),
        r == !set_bytes(*old(set)).contains(c@),
{
    set.insert(c)
}

/// `s` with every repeat of an earlier item left out.
pub open spec fn first_occurrences(s: Seq<Seq<u8>>) -> Seq<Seq<u8>>
    decreases s.len(),
{
    if s.len() == 0 {
        seq![]
    } else {
        let p = first_occurrences(s.drop_last());
        if p.contains(s.last()) {
            p
        } else {
            p.push(s.last())
        }
    }
}

proof fn lemma_to_set_push(s: Seq<Seq<u8>>, x: Seq<u8>)
    ensures
        s.push(x).to_set() == s.to_set().insert(x),
{
    assert forall|a: Seq<u8>| #[trigger] s.push(x).contains(a) <==> s.contains(a) || a == x by {
        if s.contains(a) {
            let k = choose|k: int| 0 <= k < s.len() && s[k] == a;
            assert(s.push(x)[k] == a);
        }
        if a == x {
            assert(s.push(x)[s.len() as int] == a);
        }
        if s.push(x).contains(a) {
            let k = choose|k: int| 0 <= k < s.len() + 1 && s.push(x)[k] == a;
            if k < s.len() {
                assert(s[k] == a);
            }
        }
    }
    assert(s.push(x).to_set() =~= s.to_set().insert(x));
}

/// Leaving out repeats keeps exactly the items of `s`, each once.
pub proof fn lemma_first_occurrences(s: Seq<Seq<u8>>)
    ensures
        first_occurrences(s).to_set() == s.to_set(),
        first_occurrences(s).no_duplicates(),
    decreases s.len(),
{
    if s.len() > 0 {
        let t = s.drop_last();
        let x = s.last();
        lemma_first_occurrences(t);
        let p = first_occurrences(t);
        assert(t.push(x) =~= s);
        lemma_to_set_push(t, x);
        if p.contains(x) {
            assert(p.to_set().contains(x));
            assert(s.to_set() =~= t.to_set());
        } else {
            lemma_to_set_push(p, x);
            assert forall|i: int, j: int|
                0 <= i < p.push(x).len() && 0 <= j < p.push(x).len() && i != j implies p.push(
                    x,
                )[i] != p.push(x)[j] by {
                if i == p.len() as int {
                    assert(p[j] == p.push(x)[j]);
                } else if j == p.len() as int {
                    assert(p[i] == p.push(x)[i]);
                }
            }
        }
    }
}

/// Index of the first occurrence in `s` of an `x` that occurs in it.
pub open spec fn first_pos(s: Seq<Seq<u8>>, x: Seq<u8>) -> int
    decreases s.len(),
{
    if s.len() == 0 || !s.drop_last().contains(x) {
        s.len() - 1
    } else {
        first_pos(s.drop_last(), x)
    }
}

/// `first_pos` finds `x`, with no `x` in front of it.
pub proof fn lemma_first_pos(s: Seq<Seq<u8>>, x: Seq<u8>)
    requires
        s.contains(x),
    ensures
        0 <= first_pos(s, x) < s.len(),
        s[first_pos(s, x)] == x,
        forall|k: int| 0 <= k < first_pos(s, x) ==> s[k] != x,
    decreases s.len(),
{
    let t = s.drop_last();
    if t.contains(x) {
        lemma_first_pos(t, x);
        assert forall|k: int| 0 <= k < first_pos(s, x) implies s[k] != x by {
            assert(s[k] == t[k]);
        }
    } else {
        let k = choose|k: int| 0 <= k < s.len() && s[k] == x;
        if k < s.len() - 1 {
            assert(t[k] == x);
        }
        assert forall|k: int| 0 <= k < s.len() - 1 implies s[k] != x by {
            if s[k] == x {
                assert(t[k] == x);
            }
        }
    }
}

/// Leaving out repeats keeps the items in the order of their first
/// occurrence.
pub proof fn lemma_first_occurrences_order(s: Seq<Seq<u8>>)
    ensures
        forall|i: int, j: int|
            0 <= i < j < first_occurrences(s).len() ==> first_pos(s, first_occurrences(s)[i])
                < first_pos(s, first_occurrences(s)[j]),
        forall|i: int|
            0 <= i < first_occurrences(s).len() ==> s.contains(#[trigger] first_occurrences(s)[i]),
    decreases s.len(),
{
    if s.len() > 0 {
        let t = s.drop_last();
        let x = s.last();
        lemma_first_occurrences_order(t);
        lemma_first_occurrences(t);
        let p = first_occurrences(t);
        assert forall|i: int| 0 <= i < p.len() implies s.contains(#[trigger] p[i])
            && first_pos(s, p[i]) == first_pos(t, p[i]) && first_pos(t, p[i]) < t.len() by {
            assert(t.contains(p[i]));
            lemma_first_pos(t, p[i]);
            assert(s[first_pos(t, p[i])] == p[i]);
        }
        if !p.contains(x) {
            assert(!p.to_set().contains(x));
            assert(!t.contains(x));
            assert(s[s.len() - 1] == x);
            let q = p.push(x);
            assert forall|i: int| 0 <= i < q.len() implies s.contains(#[trigger] q[i]) by {
                if i < p.len() {
                    assert(q[i] == p[i]);
                }
            }
            assert forall|i: int, j: int|
                0 <= i < j < q.len() implies first_pos(s, q[i]) < first_pos(s, q[j]) by {
                assert(q[i] == p[i]);
                if j < p.len() {
                    assert(q[j] == p[j]);
                }
            }
        }
    }
}

impl<'a> Extractor<'a> {
    /// The distinct candidates of `input`.
    pub fn unique(input: &'a [u8], opts: ExtractorOptions) -> (r: FxHashSet<&'a [u8]>)
        ensures
            set_bytes(r) == all_candidates(input@, opts.preserve_spaces_in_arbitrary).to_set(),
    {
        let ghost keep = opts.preserve_spaces_in_arbitrary;
        let candidates = Self::all(input, opts);
        let ghost all = slices_view(candidates@);
        let mut set = empty_set();
        let mut i: usize = 0;
        while i < candidates.len()
            invariant
                i <= candidates@.len(),
                all == slices_view(candidates@),
                set_bytes(set) == all.take(i as int).to_set(),
            decreases candidates@.len() - i,
        {
            let c = candidates[i];
            insert_bytes(&mut set, c);
            assert(all.take(i + 1) =~= all.take(i as int).push(c@));
            proof {
                lemma_to_set_push(all.take(i as int), c@);
            }
            i += 1;
        }
        assert(all.take(i as int) =~= all);
        set
    }

    /// The distinct candidates of `input`, each where it first occurs.
    pub fn unique_ord(input: &'a [u8], opts: ExtractorOptions) -> (r: Vec<&'a [u8]>)
        ensures
            slices_view(r@) == first_occurrences(
                all_candidates(input@, opts.preserve_spaces_in_arbitrary),
            ),
    {
        let candidates = Self::all(input, opts);
        let ghost all = slices_view(candidates@);
        let mut seen = empty_set();
        let mut unique_list: Vec<&'a [u8]> = Vec::new();
        let mut i: usize = 0;
        assert(all.take(0) =~= Seq::<Seq<u8>>::empty());
        assert(slices_view(unique_list@) =~= Seq::<Seq<u8>>::empty());
        while i < candidates.len()
            invariant
                i <= candidates@.len(),
                all == slices_view(candidates@),
                set_bytes(seen) == all.take(i as int).to_set(),
                slices_view(unique_list@) == first_occurrences(all.take(i as int)),
            decreases candidates@.len() - i,
        {
            let c = candidates[i];
            let ghost t = all.take(i as int);
            proof {
                lemma_first_occurrences(t);
                lemma_to_set_push(t, c@);
                assert(all.take(i + 1) =~= t.push(c@));
                assert(all.take(i + 1).drop_last() =~= t);
            }
            if insert_bytes(&mut seen, c) {
                assert(!first_occurrences(t).to_set().contains(c@));
                assert(slices_view(unique_list@.push(c)) =~= slices_view(unique_list@).push(c@));
                unique_list.push(c);
            } else {
                assert(first_occurrences(t).to_set().contains(c@));
            }
            i += 1;
        }
        assert(all.take(i as int) =~= all);
        unique_list
    }
}

} // verus!
