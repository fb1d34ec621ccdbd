//! Multi-pattern tag search.
//!
//! Three fixed 4-byte tags anchor every record this library knows about:
//! `colr`, `gama` and `icpf`.  The occurrences of these tags in a byte
//! stream are specified here as [`all_matches`], a pure function of the
//! bytes, and computed by a single trusted call into `aho_corasick`.

use vstd::prelude::*;

verus! {

/// The `colr` tag, byte for byte.
pub open spec fn colr_tag() -> Seq<u8> {
    seq![0x63u8, 0x6fu8, 0x6cu8, 0x72u8]
}

/// The `gama` tag, byte for byte.
pub open spec fn gama_tag() -> Seq<u8> {
    seq![0x67u8, 0x61u8, 0x6du8, 0x61u8]
}

/// The `icpf` tag, byte for byte.
pub open spec fn icpf_tag() -> Seq<u8> {
    seq![0x69u8, 0x63u8, 0x70u8, 0x66u8]
}

/// The tag with the given pattern index: 0 is `colr`, 1 is `gama`, 2 is `icpf`.
pub open spec fn tag_of(pid: int) -> Seq<u8> {
    if pid == 0 {
        colr_tag()
    } else if pid == 1 {
        gama_tag()
    } else {
        icpf_tag()
    }
}

/// An occurrence of tag `pid` whose last byte sits just before `end`.
pub open spec fn tag_match_at(b: Seq<u8>, pid: int, end: int) -> bool {
    &&& 0 <= pid < 3
    &&& 4 <= end <= b.len()
    &&& b.subrange(end - 4, end) == tag_of(pid)
}

/// The tag, if any, ending at `end`.  At most one tag can end at a given
/// position because the three tags differ.
pub open spec fn pat_at(b: Seq<u8>, end: int) -> Option<int> {
    if tag_match_at(b, 0, end) {
        Some(0int)
    } else if tag_match_at(b, 1, end) {
        Some(1int)
    } else if tag_match_at(b, 2, end) {
        Some(2int)
    } else {
        None
    }
}

/// All `(pid, end)` tag occurrences with `end >= lo`, in ascending end order.
pub open spec fn matches_from(b: Seq<u8>, lo: int) -> Seq<(int, int)>
    decreases b.len() + 1 - lo,
{
    if lo > b.len() {
        Seq::empty()
    } else {
        let rest = matches_from(b, lo + 1);
        match pat_at(b, lo) {
            Some(p) => seq![(p, lo)] + rest,
            None => rest,
        }
    }
}

/// Every tag occurrence in `b`, in ascending end order.
pub open spec fn all_matches(b: Seq<u8>) -> Seq<(int, int)> {
    matches_from(b, 0)
}

/// Every element of `ms` is a tag occurrence in `b`.
pub open spec fn matches_sound(b: Seq<u8>, ms: Seq<(int, int)>) -> bool {
    forall|k: int| 0 <= k < ms.len() ==> #[trigger] tag_match_at(b, ms[k].0, ms[k].1)
}

/// The ends of `ms` are strictly ascending.
pub open spec fn matches_sorted(ms: Seq<(int, int)>) -> bool {
    forall|i: int, j: int| 0 <= i < j < ms.len() ==> ms[i].1 < ms[j].1
}

/// Every tag occurrence in `b` with end at least `lo` appears in `ms`.
pub open spec fn matches_complete_from(b: Seq<u8>, ms: Seq<(int, int)>, lo: int) -> bool {
    forall|p: int, e: int| tag_match_at(b, p, e) && e >= lo ==> #[trigger] ms.contains((p, e))
}

/// The byte values of the three tags, spelled out for the case analyses below.
proof fn lemma_tag_bytes()
    ensures
        colr_tag().len() == 4 && gama_tag().len() == 4 && icpf_tag().len() == 4,
        colr_tag()[0] == 0x63u8 && colr_tag()[1] == 0x6fu8 && colr_tag()[2] == 0x6cu8,
        colr_tag()[3] == 0x72u8,
        gama_tag()[0] == 0x67u8 && gama_tag()[1] == 0x61u8 && gama_tag()[2] == 0x6du8,
        gama_tag()[3] == 0x61u8,
        icpf_tag()[0] == 0x69u8 && icpf_tag()[1] == 0x63u8 && icpf_tag()[2] == 0x70u8,
        icpf_tag()[3] == 0x66u8,
{
}

/// Only one tag can end at a given position.
pub proof fn lemma_pid_unique(b: Seq<u8>, p: int, p2: int, e: int)
    requires
        tag_match_at(b, p, e),
        tag_match_at(b, p2, e),
    ensures
        p == p2,
{
    lemma_tag_bytes();
    assert(tag_of(p) == tag_of(p2));
    assert(tag_of(p)[0] == tag_of(p2)[0]);
}

/// A tag occurrence agrees with [`pat_at`].
pub proof fn lemma_pat_at_some(b: Seq<u8>, p: int, e: int)
    requires
        tag_match_at(b, p, e),
    ensures
        pat_at(b, e) == Some(p),
{
    if tag_match_at(b, 0, e) {
        lemma_pid_unique(b, p, 0, e);
    } else if tag_match_at(b, 1, e) {
        lemma_pid_unique(b, p, 1, e);
    } else {
        lemma_pid_unique(b, p, 2, e);
    }
}

/// No two tag occurrences overlap: no proper suffix of one tag is a prefix
/// of another (or of itself), so distinct ends are at least 4 apart.
pub proof fn lemma_no_overlap(b: Seq<u8>, p: int, e: int, p2: int, e2: int)
    requires
        tag_match_at(b, p, e),
        tag_match_at(b, p2, e2),
        e < e2,
    ensures
        e + 4 <= e2,
{
    lemma_tag_bytes();
    if e2 < e + 4 {
        let d = e2 - e;
        assert(b.subrange(e2 - 4, e2)[0] == b[e2 - 4]);
        assert(b.subrange(e - 4, e)[d] == b[e - 4 + d]);
        assert(tag_of(p2)[0] == tag_of(p)[d]);
        if d < 3 {
            assert(b.subrange(e2 - 4, e2)[1] == b[e2 - 3]);
            assert(b.subrange(e - 4, e)[d + 1] == b[e - 3 + d]);
            assert(tag_of(p2)[1] == tag_of(p)[d + 1]);
        }
    }
}

/// [`matches_from`] is sound, sorted, and stays at or above `lo`.
pub proof fn lemma_matches_from_props(b: Seq<u8>, lo: int)
    ensures
        matches_sound(b, matches_from(b, lo)),
        matches_sorted(matches_from(b, lo)),
        forall|k: int|
            0 <= k < matches_from(b, lo).len() ==> #[trigger] matches_from(b, lo)[k].1 >= lo,
    decreases b.len() + 1 - lo,
{
    if lo > b.len() {
    } else {
        lemma_matches_from_props(b, lo + 1);
        let rest = matches_from(b, lo + 1);
        match pat_at(b, lo) {
            Some(p) => {
                let ms = matches_from(b, lo);
                assert(ms == seq![(p, lo)] + rest);
                assert forall|k: int| 0 <= k < ms.len() implies #[trigger] tag_match_at(
                    b,
                    ms[k].0,
                    ms[k].1,
                ) && ms[k].1 >= lo by {
                    if k == 0 {
                        assert(tag_match_at(b, p, lo));
                    } else {
                        assert(ms[k] == rest[k - 1]);
                    }
                }
                assert forall|i: int, j: int| 0 <= i < j < ms.len() implies ms[i].1 < ms[j].1 by {
                    if i > 0 {
                        assert(ms[i] == rest[i - 1]);
                        assert(ms[j] == rest[j - 1]);
                    } else {
                        assert(ms[j] == rest[j - 1]);
                        assert(rest[j - 1].1 >= lo + 1);
                    }
                }
            },
            None => {
                assert(matches_from(b, lo) == rest);
            },
        }
    }
}

/// A sound, sorted, complete match list is exactly [`matches_from`].
pub proof fn lemma_match_seq_unique(b: Seq<u8>, lo: int, ms: Seq<(int, int)>)
    requires
        0 <= lo,
        matches_sound(b, ms),
        matches_sorted(ms),
        forall|k: int| 0 <= k < ms.len() ==> #[trigger] ms[k].1 >= lo,
        matches_complete_from(b, ms, lo),
    ensures
        ms == matches_from(b, lo),
    decreases b.len() + 1 - lo,
{
    if lo > b.len() {
        if ms.len() > 0 {
            assert(tag_match_at(b, ms[0].0, ms[0].1));
        }
        assert(ms =~= matches_from(b, lo));
    } else {
        let rest = matches_from(b, lo + 1);
        match pat_at(b, lo) {
            Some(p) => {
                assert(tag_match_at(b, p, lo));
                assert(ms.contains((p, lo)));
                let j = choose|j: int| 0 <= j < ms.len() && ms[j] == (p, lo);
                if j > 0 {
                    assert(ms[0].1 < ms[j].1);
                    assert(false);
                }
                assert(ms[0] == (p, lo));
                let tail = ms.drop_first();
                assert forall|k: int| 0 <= k < tail.len() implies #[trigger] tail[k].1 >= lo
                    + 1 by {
                    assert(tail[k] == ms[k + 1]);
                    assert(ms[0].1 < ms[k + 1].1);
                }
                assert(matches_sound(b, tail)) by {
                    assert forall|k: int| 0 <= k < tail.len() implies #[trigger] tag_match_at(
                        b,
                        tail[k].0,
                        tail[k].1,
                    ) by {
                        assert(tail[k] == ms[k + 1]);
                        assert(tag_match_at(b, ms[k + 1].0, ms[k + 1].1));
                    }
                }
                assert(matches_sorted(tail)) by {
                    assert forall|i: int, j2: int| 0 <= i < j2 < tail.len() implies tail[i].1
                        < tail[j2].1 by {
                        assert(tail[i] == ms[i + 1]);
                        assert(tail[j2] == ms[j2 + 1]);
                    }
                }
                assert(matches_complete_from(b, tail, lo + 1)) by {
                    assert forall|p2: int, e2: int|
                        tag_match_at(b, p2, e2) && e2 >= lo + 1 implies #[trigger] tail.contains(
                        (p2, e2),
                    ) by {
                        assert(ms.contains((p2, e2)));
                        let j2 = choose|j2: int| 0 <= j2 < ms.len() && ms[j2] == (p2, e2);
                        assert(j2 != 0);
                        assert(tail[j2 - 1] == (p2, e2));
                    }
                }
                lemma_match_seq_unique(b, lo + 1, tail);
                assert(ms =~= seq![(p, lo)] + tail);
                assert(matches_from(b, lo) == seq![(p, lo)] + rest);
            },
            None => {
                assert forall|k: int| 0 <= k < ms.len() implies #[trigger] ms[k].1 >= lo + 1 by {
                    assert(tag_match_at(b, ms[k].0, ms[k].1));
                    if ms[k].1 == lo {
                        lemma_pat_at_some(b, ms[k].0, lo);
                    }
                }
                lemma_match_seq_unique(b, lo + 1, ms);
                assert(matches_from(b, lo) == rest);
            },
        }
    }
}

/// In a sound, sorted match list, ends are pairwise at least 4 apart.
pub proof fn lemma_matches_gap(b: Seq<u8>, ms: Seq<(int, int)>)
    requires
        matches_sound(b, ms),
        matches_sorted(ms),
    ensures
        forall|i: int, j: int| 0 <= i < j < ms.len() ==> #[trigger] ms[i].1 + 4 <= #[trigger] ms[j].1,
{
    assert forall|i: int, j: int| 0 <= i < j < ms.len() implies #[trigger] ms[i].1 + 4 <= #[trigger] ms[j].1 by {
        assert(tag_match_at(b, ms[i].0, ms[i].1));
        assert(tag_match_at(b, ms[j].0, ms[j].1));
        lemma_no_overlap(b, ms[i].0, ms[i].1, ms[j].0, ms[j].1);
    }
}

/// Each end in a sound, sorted match list is at least `4 + 4 * k`.
proof fn lemma_match_end_growth(b: Seq<u8>, ms: Seq<(int, int)>, k: int)
    requires
        matches_sound(b, ms),
        matches_sorted(ms),
        0 <= k < ms.len(),
    ensures
        ms[k].1 >= 4 + 4 * k,
    decreases k,
{
    lemma_matches_gap(b, ms);
    if k == 0 {
        assert(tag_match_at(b, ms[0].0, ms[0].1));
    } else {
        lemma_match_end_growth(b, ms, k - 1);
    }
}

/// A sound, sorted match list has at most `len / 4` entries.
pub proof fn lemma_match_count(b: Seq<u8>, ms: Seq<(int, int)>)
    requires
        matches_sound(b, ms),
        matches_sorted(ms),
    ensures
        4 * ms.len() <= b.len(),
{
    if ms.len() > 0 {
        let k = ms.len() - 1;
        lemma_match_end_growth(b, ms, k as int);
        assert(tag_match_at(b, ms[k as int].0, ms[k as int].1));
    }
}

/// The match list as mathematical pairs.
pub open spec fn int_matches(ms: Seq<(usize, usize)>) -> Seq<(int, int)> {
    ms.map_values(|m: (usize, usize)| (m.0 as int, m.1 as int))
}

/// Builds the `colr` tag.
pub fn colr_tag_bytes() -> (r: Vec<u8>)
    ensures
        r@ == colr_tag(),
{
    let r = vec![0x63u8, 0x6fu8, 0x6cu8, 0x72u8];
    proof {
        assert(r@ =~= colr_tag());
    }
    r
}

/// Builds the `gama` tag.
pub fn gama_tag_bytes() -> (r: Vec<u8>)
    ensures
        r@ == gama_tag(),
{
    let r = vec![0x67u8, 0x61u8, 0x6du8, 0x61u8];
    proof {
        assert(r@ =~= gama_tag());
    }
    r
}

/// Builds the `icpf` tag.
pub fn icpf_tag_bytes() -> (r: Vec<u8>)
    ensures
        r@ == icpf_tag(),
{
    let r = vec![0x69u8, 0x63u8, 0x70u8, 0x66u8];
    proof {
        assert(r@ =~= icpf_tag());
    }
    r
}

/// Relies on `aho_corasick::AhoCorasick::new` and `find_iter` (standard match
/// semantics, default configuration): `find_iter` reports non-overlapping
/// matches in ascending order as the automaton sees them, and therefore every
/// occurrence of these three tags, since no two occurrences of them can
/// overlap (no proper suffix of one is a prefix of another).  Pattern indices
/// are assigned in the order the patterns are given to `new`.  The build is
/// promised to succeed: `new` fails only on a pattern-ID overflow, a state-ID
/// overflow, or an over-long pattern, none of which three 4-byte patterns can
/// reach.
#[verifier::external_body]
pub(crate) fn scan_tags(haystack: &Vec<u8>, p0: &Vec<u8>, p1: &Vec<u8>, p2: &Vec<u8>) -> (r: Option<
    Vec<(usize, usize)>,
>)
    requires
        p0@ == colr_tag(),
        p1@ == gama_tag(),
        p2@ == icpf_tag(),
    ensures
        r is Some,
        r matches Some(v) ==> {
            &&& forall|k: int|
                0 <= k < v@.len() ==> #[trigger] tag_match_at(
                    haystack@,
                    v@[k].0 as int,
                    v@[k].1 as int,
                )
            &&& forall|i: int, j: int| 0 <= i < j < v@.len() ==> v@[i].1 < v@[j].1
            &&& forall|p: int, e: int|
                #[trigger] tag_match_at(haystack@, p, e) ==> exists|k: int|
                    0 <= k < v@.len() && v@[k].0 as int == p && #[trigger] v@[k].1 as int == e
        },
{
    let pats: [&[u8]; 3] = [p0.as_slice(), p1.as_slice(), p2.as_slice()];
    match aho_corasick::AhoCorasick::new(pats) {
        Ok(ac) => Some(
            ac.find_iter(haystack.as_slice()).map(|m| (m.pattern().as_usize(), m.end())).collect(),
        ),
        Err(_) => None,
    }
}

/// Finds every tag occurrence, in ascending end order: exactly
/// [`all_matches`] of the bytes.
pub fn find_tag_matches(haystack: &Vec<u8>) -> (r: Vec<(usize, usize)>)
    ensures
        int_matches(r@) == all_matches(haystack@),
{
    let t0 = colr_tag_bytes();
    let t1 = gama_tag_bytes();
    let t2 = icpf_tag_bytes();
    let found = scan_tags(haystack, &t0, &t1, &t2);
    let r = found.unwrap();
    proof {
        {
            let v = r;
            let ms = int_matches(v@);
            assert forall|k: int| 0 <= k < ms.len() implies #[trigger] tag_match_at(
                haystack@,
                ms[k].0,
                ms[k].1,
            ) by {
                assert(tag_match_at(haystack@, v@[k].0 as int, v@[k].1 as int));
            }
            assert forall|i: int, j: int| 0 <= i < j < ms.len() implies ms[i].1 < ms[j].1 by {
                assert(v@[i].1 < v@[j].1);
            }
            assert forall|k: int| 0 <= k < ms.len() implies #[trigger] ms[k].1 >= 0 by {
                assert(tag_match_at(haystack@, ms[k].0, ms[k].1));
            }
            assert forall|p: int, e: int| tag_match_at(haystack@, p, e) && e >= 0 implies #[trigger]
            ms.contains((p, e)) by {
                let k = choose|k: int|
                    0 <= k < v@.len() && v@[k].0 as int == p && v@[k].1 as int == e;
                assert(ms[k] == (p, e));
            }
            lemma_match_seq_unique(haystack@, 0, ms);
        }
    }
    r
}

} // verus!
