//! Title hierarchy levels.
//!
//! Heading heights are clustered document-wide (the clustering itself is a
//! caller-supplied black box over the height signal); the centroids, sorted
//! from tallest to shortest, are swept into visual tiers: a centroid whose
//! height falls below 0.7 of its predecessor opens the next level,
//! otherwise it shares the predecessor's level. Each title then gets the
//! level of its cluster, keyed by `(page_id, element_id)`.

use vstd::prelude::*;
use vstd::multiset::Multiset;
use vstd::seq_lib::group_to_multiset_ensures;
use vstd::seq_lib::lemma_multiset_commutative;

use crate::entities::Element;

verus! {

/// Numerator and denominator of the merge threshold: a centroid below
/// 7/10 of its predecessor opens a new level.
pub const TITLE_MERGE_NUM: i64 = 7;

pub const TITLE_MERGE_DEN: i64 = 10;

/// Bucket count used when clustering heading heights.
pub const DEFAULT_TITLE_BUCKETS: usize = 6;

/// The level assigned to one title element, keyed by page and element id.
#[derive(Debug, Clone, Copy, PartialEq, Eq, Structural)]
pub struct TitleLevelEntry {
    pub page_id: usize,
    pub element_id: usize,
    pub level: u8,
}

/// The level stored for `(page_id, element_id)`: the first matching
/// entry's level, or 0 when there is none.
pub open spec fn spec_title_level(
    entries: Seq<TitleLevelEntry>,
    page_id: usize,
    element_id: usize,
) -> u8
    decreases entries.len(),
{
    if entries.len() == 0 {
        0
    } else if entries[0].page_id == page_id && entries[0].element_id == element_id {
        entries[0].level
    } else {
        spec_title_level(entries.drop_first(), page_id, element_id)
    }
}

/// Look a title's level up; unknown keys get level 0.
pub fn title_level_of(entries: &Vec<TitleLevelEntry>, page_id: usize, element_id: usize) -> (r: u8)
    ensures
        r == spec_title_level(entries@, page_id, element_id),
{
    let mut i: usize = 0;
    proof {
        assert(entries@.skip(0) =~= entries@);
    }
    while i < entries.len()
        invariant
            0 <= i <= entries@.len(),
            spec_title_level(entries@, page_id, element_id) == spec_title_level(
                entries@.skip(i as int),
                page_id,
                element_id,
            ),
        decreases entries@.len() - i,
    {
        proof {
            assert(entries@.skip(i as int)[0] == entries@[i as int]);
            assert(entries@.skip(i as int).drop_first() =~= entries@.skip(i + 1));
        }
        let e = entries[i];
        if e.page_id == page_id && e.element_id == element_id {
            return e.level;
        }
        i += 1;
    }
    0
}


/// One centroid of the heading-height clustering: its index in the
/// centroid list and its height value.
#[derive(Debug, Clone, Copy, PartialEq, Eq, Structural)]
pub struct CentroidRank {
    pub idx: usize,
    pub value: i64,
}

/// The centroids paired with their indices.
pub open spec fn spec_ranks(cs: Seq<i64>) -> Seq<CentroidRank> {
    Seq::new(cs.len(), |i: int| CentroidRank { idx: i as usize, value: cs[i] })
}

/// Index of the tallest centroid, the first one on ties.
pub open spec fn spec_first_max_rank(s: Seq<CentroidRank>) -> int
    decreases s.len(),
{
    if s.len() <= 1 {
        0
    } else {
        let rest = spec_first_max_rank(s.drop_last());
        if s.last().value > s[rest].value {
            s.len() - 1
        } else {
            rest
        }
    }
}

proof fn lemma_first_max_rank_props(s: Seq<CentroidRank>)
    requires
        s.len() > 0,
    ensures
        0 <= spec_first_max_rank(s) < s.len(),
        forall|i: int|
            0 <= i < s.len() ==> (#[trigger] s[i]).value <= s[spec_first_max_rank(s)].value,
    decreases s.len(),
{
    if s.len() > 1 {
        lemma_first_max_rank_props(s.drop_last());
        let rest = spec_first_max_rank(s.drop_last());
        assert forall|i: int|
            0 <= i < s.len() implies (#[trigger] s[i]).value <= s[spec_first_max_rank(
            s,
        )].value by {
            if i < s.len() - 1 {
                assert(s.drop_last()[i] == s[i]);
                assert(s.drop_last()[rest] == s[rest]);
            }
        }
    }
}

/// The centroids from tallest to shortest; equal heights keep their input
/// order.
pub open spec fn spec_sort_ranks(s: Seq<CentroidRank>) -> Seq<CentroidRank>
    decreases s.len(),
{
    if s.len() == 0 {
        Seq::empty()
    } else {
        let m = spec_first_max_rank(s);
        if 0 <= m < s.len() {
            seq![s[m]] + spec_sort_ranks(s.remove(m))
        } else {
            Seq::empty()
        }
    }
}

pub proof fn lemma_sort_ranks_multiset(s: Seq<CentroidRank>)
    ensures
        spec_sort_ranks(s).to_multiset() == s.to_multiset(),
        spec_sort_ranks(s).len() == s.len(),
    decreases s.len(),
{
    broadcast use group_to_multiset_ensures;

    if s.len() > 0 {
        let m = spec_first_max_rank(s);
        lemma_first_max_rank_props(s);
        lemma_sort_ranks_multiset(s.remove(m));
        lemma_multiset_commutative(seq![s[m]], spec_sort_ranks(s.remove(m)));
        assert(seq![s[m]].to_multiset() =~= Seq::<CentroidRank>::empty().push(s[m]).to_multiset());
        assert(Seq::<CentroidRank>::empty().push(s[m]).to_multiset() =~= Multiset::<
            CentroidRank,
        >::empty().insert(s[m]));
        assert(s.remove(m).to_multiset() =~= s.to_multiset().remove(s[m]));
        assert(s.to_multiset().contains(s[m]));
        assert(spec_sort_ranks(s).to_multiset() =~= s.to_multiset());
    }
}

/// The ranked centroids come out in non-increasing height order.
pub proof fn lemma_sort_ranks_sorted(s: Seq<CentroidRank>)
    ensures
        forall|i: int, j: int|
            0 <= i < j < spec_sort_ranks(s).len() ==> (#[trigger] spec_sort_ranks(s)[i]).value >= (
            #[trigger] spec_sort_ranks(s)[j]).value,
    decreases s.len(),
{
    broadcast use group_to_multiset_ensures;

    if s.len() > 0 {
        let m = spec_first_max_rank(s);
        lemma_first_max_rank_props(s);
        let rest = s.remove(m);
        lemma_sort_ranks_sorted(rest);
        lemma_sort_ranks_multiset(rest);
        let out = spec_sort_ranks(s);
        assert forall|i: int, j: int| 0 <= i < j < out.len() implies (#[trigger] out[i]).value >= (
        #[trigger] out[j]).value by {
            if i > 0 {
                assert(out[i] == spec_sort_ranks(rest)[i - 1]);
                assert(out[j] == spec_sort_ranks(rest)[j - 1]);
            } else {
                assert(out[j] == spec_sort_ranks(rest)[j - 1]);
                assert(spec_sort_ranks(rest).contains(spec_sort_ranks(rest)[j - 1]));
                assert(spec_sort_ranks(rest).to_multiset().contains(spec_sort_ranks(rest)[j - 1]));
                assert(rest.to_multiset().contains(spec_sort_ranks(rest)[j - 1]));
                assert(rest.contains(spec_sort_ranks(rest)[j - 1]));
                let k = choose|k: int|
                    0 <= k < rest.len() && rest[k] == spec_sort_ranks(rest)[j - 1];
                assert(rest[k] == if k < m {
                    s[k]
                } else {
                    s[k + 1]
                });
                assert(out[0] == s[m]);
            }
        }
    }
}

/// The level of the centroid at position `p` of the tallest-first order:
/// the tallest tier is level 1, and a centroid whose height drops below
/// 7/10 of its predecessor opens the next level.
pub open spec fn spec_level_at(sorted: Seq<CentroidRank>, p: int) -> int
    decreases p,
{
    if p <= 0 {
        1
    } else {
        spec_level_at(sorted, p - 1) + (if TITLE_MERGE_DEN * sorted[p].value < TITLE_MERGE_NUM
            * sorted[p - 1].value {
            1int
        } else {
            0int
        })
    }
}

proof fn lemma_level_at_bounds(sorted: Seq<CentroidRank>, p: int)
    requires
        p >= 0,
    ensures
        1 <= spec_level_at(sorted, p) <= p + 1,
    decreases p,
{
    if p > 0 {
        lemma_level_at_bounds(sorted, p - 1);
    }
}

/// Levels never decrease from tallest to shortest centroid.
proof fn lemma_level_at_monotone(sorted: Seq<CentroidRank>, p: int, q: int)
    requires
        0 <= p <= q,
    ensures
        spec_level_at(sorted, p) <= spec_level_at(sorted, q),
    decreases q - p,
{
    if p < q {
        lemma_level_at_monotone(sorted, p, q - 1);
    }
}

/// Title levels are monotone in height: of two centroids in the
/// tallest-first order, the one on the strictly smaller level is at least
/// 7/10 as tall as the other.
pub proof fn lemma_levels_monotone(sorted: Seq<CentroidRank>, p: int, q: int)
    requires
        forall|i: int, j: int|
            0 <= i < j < sorted.len() ==> (#[trigger] sorted[i]).value >= (
            #[trigger] sorted[j]).value,
        forall|i: int| 0 <= i < sorted.len() ==> (#[trigger] sorted[i]).value >= 0,
        0 <= p < sorted.len(),
        0 <= q < sorted.len(),
        spec_level_at(sorted, p) < spec_level_at(sorted, q),
    ensures
        TITLE_MERGE_DEN * sorted[p].value >= TITLE_MERGE_NUM * sorted[q].value,
{
    if p >= q {
        lemma_level_at_monotone(sorted, q, p);
        assert(false);
    }
    assert(sorted[p].value >= sorted[q].value);
    assert(sorted[q].value >= 0);
}

/// First position of centroid `idx` in the sorted order, or the length
/// when it does not occur.
pub open spec fn spec_pos_of(sorted: Seq<CentroidRank>, idx: usize) -> int
    decreases sorted.len(),
{
    if sorted.len() == 0 {
        0
    } else if sorted[0].idx == idx {
        0
    } else {
        1 + spec_pos_of(sorted.drop_first(), idx)
    }
}

proof fn lemma_pos_of_props(sorted: Seq<CentroidRank>, idx: usize)
    ensures
        0 <= spec_pos_of(sorted, idx) <= sorted.len(),
        spec_pos_of(sorted, idx) < sorted.len() ==> sorted[spec_pos_of(sorted, idx)].idx == idx,
    decreases sorted.len(),
{
    if sorted.len() > 0 && sorted[0].idx != idx {
        lemma_pos_of_props(sorted.drop_first(), idx);
    }
}

/// The level assigned to the cluster `assignment` of the centroid list
/// `cs`: its centroid's level in the tallest-first sweep, or 0 when the
/// centroid cannot be found.
pub open spec fn spec_centroid_level(cs: Seq<i64>, assignment: usize) -> int {
    let sorted = spec_sort_ranks(spec_ranks(cs));
    let p = spec_pos_of(sorted, assignment);
    if p < sorted.len() {
        spec_level_at(sorted, p)
    } else {
        0
    }
}

fn first_max_rank_index(v: &Vec<CentroidRank>) -> (r: usize)
    requires
        v@.len() > 0,
    ensures
        r < v@.len(),
        r == spec_first_max_rank(v@),
{
    let mut best: usize = 0;
    let mut i: usize = 1;
    while i < v.len()
        invariant
            0 < i <= v@.len(),
            best < i,
            best == spec_first_max_rank(v@.take(i as int)),
        decreases v@.len() - i,
    {
        proof {
            lemma_first_max_rank_props(v@.take(i as int));
            assert(v@.take(i + 1).drop_last() =~= v@.take(i as int));
        }
        if v[i].value > v[best].value {
            best = i;
        }
        i += 1;
    }
    proof {
        assert(v@.take(v@.len() as int) =~= v@);
    }
    best
}

fn sort_ranks(ranks: Vec<CentroidRank>) -> (r: Vec<CentroidRank>)
    ensures
        r@ == spec_sort_ranks(ranks@),
{
    let ghost orig = ranks@;
    let mut work = ranks;
    let mut out: Vec<CentroidRank> = Vec::new();
    while work.len() > 0
        invariant
            spec_sort_ranks(orig) == out@ + spec_sort_ranks(work@),
        decreases work@.len(),
    {
        let ghost before = work@;
        let m = first_max_rank_index(&work);
        let x = work[m];
        out.push(x);
        work.remove(m);
        proof {
            assert(spec_sort_ranks(before) == seq![before[m as int]] + spec_sort_ranks(
                before.remove(m as int),
            ));
            assert(out@ + spec_sort_ranks(work@) =~= spec_sort_ranks(orig));
        }
    }
    proof {
        assert(out@ + spec_sort_ranks(work@) =~= out@);
    }
    out
}

fn pos_of(sorted: &Vec<CentroidRank>, idx: usize) -> (r: usize)
    ensures
        r as int == spec_pos_of(sorted@, idx),
        r <= sorted@.len(),
{
    let mut i: usize = 0;
    proof {
        assert(sorted@.skip(0) =~= sorted@);
    }
    while i < sorted.len()
        invariant
            0 <= i <= sorted@.len(),
            spec_pos_of(sorted@, idx) == i + spec_pos_of(sorted@.skip(i as int), idx),
        decreases sorted@.len() - i,
    {
        proof {
            assert(sorted@.skip(i as int)[0] == sorted@[i as int]);
            assert(sorted@.skip(i as int).drop_first() =~= sorted@.skip(i + 1));
        }
        if sorted[i].idx == idx {
            return i;
        }
        i += 1;
    }
    proof {
        assert(sorted@.skip(sorted@.len() as int) =~= Seq::<CentroidRank>::empty());
    }
    i
}

/// Assign each title its level from the height clustering: centroids are
/// ordered tallest first and swept into tiers (a drop below 7/10 of the
/// predecessor opens the next level); each title gets its cluster's tier,
/// keyed by `(page_id, element_id)`.
pub fn title_levels_from_clusters(
    titles: &Vec<Element>,
    centroids: &Vec<i64>,
    assignments: &Vec<usize>,
) -> (r: Vec<TitleLevelEntry>)
    requires
        assignments@.len() == titles@.len(),
        centroids@.len() <= 200,
        forall|i: int|
            0 <= i < centroids@.len() ==> 0 <= #[trigger] centroids@[i]
                <= crate::geom::COORD_LIMIT,
    ensures
        r@.len() == titles@.len(),
        forall|j: int|
            0 <= j < r@.len() ==> (#[trigger] r@[j]) == (TitleLevelEntry {
                page_id: titles@[j].page_id,
                element_id: titles@[j].id,
                level: spec_centroid_level(centroids@, assignments@[j]) as u8,
            }),
{
    let mut ranks: Vec<CentroidRank> = Vec::new();
    let mut i: usize = 0;
    while i < centroids.len()
        invariant
            0 <= i <= centroids@.len(),
            ranks@ == spec_ranks(centroids@).take(i as int),
        decreases centroids@.len() - i,
    {
        ranks.push(CentroidRank { idx: i, value: centroids[i] });
        proof {
            assert(ranks@ =~= spec_ranks(centroids@).take(i + 1));
        }
        i += 1;
    }
    proof {
        assert(spec_ranks(centroids@).take(centroids@.len() as int) =~= spec_ranks(centroids@));
    }
    let sorted = sort_ranks(ranks);
    proof {
        let rv = spec_ranks(centroids@);
        lemma_sort_ranks_multiset(rv);
        broadcast use group_to_multiset_ensures;

        assert forall|q: int|
            0 <= q < sorted@.len() implies 0 <= (#[trigger] sorted@[q]).value
                <= crate::geom::COORD_LIMIT by {
            assert(sorted@.contains(sorted@[q]));
            assert(sorted@.to_multiset().contains(sorted@[q]));
            assert(rv.to_multiset().contains(sorted@[q]));
            assert(rv.contains(sorted@[q]));
            let k = choose|k: int| 0 <= k < rv.len() && rv[k] == sorted@[q];
            assert(rv[k].value == centroids@[k]);
        }
    }
    // Levels by sorted position.
    let mut levels: Vec<u8> = Vec::new();
    let mut p: usize = 0;
    while p < sorted.len()
        invariant
            0 <= p <= sorted@.len(),
            sorted@.len() <= 200,
            sorted@ == spec_sort_ranks(spec_ranks(centroids@)),
            forall|q: int|
                0 <= q < sorted@.len() ==> 0 <= (#[trigger] sorted@[q]).value
                    <= crate::geom::COORD_LIMIT,
            levels@.len() == p,
            forall|q: int| 0 <= q < p ==> (#[trigger] levels@[q]) as int == spec_level_at(
                sorted@,
                q,
            ),
        decreases sorted@.len() - p,
    {
        proof {
            lemma_level_at_bounds(sorted@, p as int);
            if p > 0 {
                lemma_level_at_bounds(sorted@, p - 1);
            }
        }
        let l: u8 = if p == 0 {
            1u8
        } else {
            let bump: u8 = if TITLE_MERGE_DEN * sorted[p].value < TITLE_MERGE_NUM * sorted[p
                - 1].value {
                1u8
            } else {
                0u8
            };
            levels[p - 1] + bump
        };
        levels.push(l);
        p += 1;
    }
    // One entry per title, via its cluster's sorted position.
    let mut out: Vec<TitleLevelEntry> = Vec::new();
    let mut j: usize = 0;
    while j < titles.len()
        invariant
            0 <= j <= titles@.len(),
            assignments@.len() == titles@.len(),
            sorted@ == spec_sort_ranks(spec_ranks(centroids@)),
            levels@.len() == sorted@.len(),
            forall|q: int| 0 <= q < levels@.len() ==> (#[trigger] levels@[q]) as int
                == spec_level_at(sorted@, q),
            out@.len() == j,
            forall|q: int|
                0 <= q < j ==> (#[trigger] out@[q]) == (TitleLevelEntry {
                    page_id: titles@[q].page_id,
                    element_id: titles@[q].id,
                    level: spec_centroid_level(centroids@, assignments@[q]) as u8,
                }),
        decreases titles@.len() - j,
    {
        let pos = pos_of(&sorted, assignments[j]);
        proof {
            lemma_pos_of_props(sorted@, assignments@[j as int]);
        }
        let level: u8 = if pos < levels.len() {
            levels[pos]
        } else {
            0u8
        };
        out.push(
            TitleLevelEntry { page_id: titles[j].page_id, element_id: titles[j].id, level },
        );
        j += 1;
    }
    out
}

} // verus!
