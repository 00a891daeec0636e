use crate::entry::{ContestEntry, EntryView};
use vstd::prelude::*;

verus! {

/// The entries' statistics as values.
pub open spec fn views(s: Seq<ContestEntry>) -> Seq<EntryView> {
    s.map_values(|e: ContestEntry| e@)
}

/// Entry `i` ranks ahead of entry `j`: a higher score, or an equal score and an earlier place.
pub open spec fn ranked_before(s: Seq<EntryView>, i: int, j: int) -> bool {
    s[i].score > s[j].score || (s[i].score == s[j].score && i < j)
}

/// `r` lists the indices of the best `r.len()` entries of `s`, best first:
/// by score, highest first, and among equal scores in the order of `s`.
pub open spec fn is_ranking(s: Seq<EntryView>, r: Seq<int>) -> bool {
    &&& forall|a: int| 0 <= a < r.len() ==> 0 <= #[trigger] r[a] < s.len()
    &&& forall|a: int, b: int|
        0 <= a < b < r.len() ==> ranked_before(s, #[trigger] r[a], #[trigger] r[b])
    &&& forall|j: int, a: int|
        #![trigger r.contains(j), r[a]]
        0 <= j < s.len() && !r.contains(j) && 0 <= a < r.len() ==> ranked_before(s, r[a], j)
}

pub open spec fn min(a: int, b: int) -> int {
    if a <= b {
        a
    } else {
        b
    }
}

pub open spec fn as_ints(r: Seq<usize>) -> Seq<int> {
    r.map_values(|i: usize| i as int)
}

/// The indices of the best `min(k, entries.len())` entries, best first.
pub fn rank_entries(entries: &Vec<ContestEntry>, k: usize) -> (r: Vec<usize>)
    ensures
        r@.len() == min(k as int, entries@.len() as int),
        is_ranking(views(entries@), as_ints(r@)),
{
    let ghost s = views(entries@);
    let n = entries.len();
    let mut rest: Vec<usize> = Vec::new();
    let mut i: usize = 0;
    while i < n
        invariant
            i <= n,
            n == entries@.len(),
            rest@.len() == i,
            forall|p: int| 0 <= p < i ==> #[trigger] rest@[p] == p,
        decreases n - i,
    {
        rest.push(i);
        i = i + 1;
    }
    let mut r: Vec<usize> = Vec::new();
    proof {
        assert forall|j: usize| j < n implies #[trigger] r@.contains(j) || rest@.contains(j) by {
            assert(rest@[j as int] == j);
        }
        assert(as_ints(r@) =~= Seq::<int>::empty());
    }
    while r.len() < k && rest.len() > 0
        invariant
            n == entries@.len(),
            s == views(entries@),
            r@.len() + rest@.len() == n,
            r@.len() <= k,
            forall|p: int| 0 <= p < rest@.len() ==> #[trigger] rest@[p] < n,
            forall|p: int, q: int| 0 <= p < q < rest@.len() ==> #[trigger] rest@[p] < #[trigger] rest@[q],
            forall|j: usize| j < n ==> #[trigger] r@.contains(j) || rest@.contains(j),
            is_ranking(s, as_ints(r@)),
            forall|p: int, a: int|
                0 <= p < rest@.len() && 0 <= a < r@.len() ==> ranked_before(
                    s,
                    #[trigger] r@[a] as int,
                    #[trigger] rest@[p] as int,
                ),
        decreases rest@.len(),
    {
        let mut best: usize = 0;
        let mut q: usize = 1;
        while q < rest.len()
            invariant
                n == entries@.len(),
                s == views(entries@),
                0 <= best < q <= rest@.len(),
                forall|p: int| 0 <= p < rest@.len() ==> #[trigger] rest@[p] < n,
                forall|p: int, p2: int| 0 <= p < p2 < rest@.len() ==> #[trigger] rest@[p] < #[trigger] rest@[p2],
                forall|p: int|
                    0 <= p < q && p != best ==> ranked_before(
                        s,
                        rest@[best as int] as int,
                        #[trigger] rest@[p] as int,
                    ),
            decreases rest@.len() - q,
        {
            if entries[rest[q]].score > entries[rest[best]].score {
                best = q;
            }
            q = q + 1;
        }
        let ghost old_r = r@;
        let ghost old_rest = rest@;
        let chosen = rest.remove(best);
        r.push(chosen);
        proof {
            assert(as_ints(r@) == as_ints(old_r).push(chosen as int));
            assert forall|j: usize| j < n implies #[trigger] r@.contains(j) || rest@.contains(j) by {
                if old_rest.contains(j) {
                    let p = choose|p: int| 0 <= p < old_rest.len() && old_rest[p] == j;
                    if p < best {
                        assert(rest@[p] == j);
                    } else if p > best {
                        assert(rest@[p - 1] == j);
                    } else {
                        assert(r@[r@.len() - 1] == j);
                    }
                } else {
                    assert(old_r.contains(j));
                    let a = choose|a: int| 0 <= a < old_r.len() && old_r[a] == j;
                    assert(r@[a] == j);
                }
            }
            assert forall|j: int, a: int|
                #![trigger as_ints(r@).contains(j), as_ints(r@)[a]]
                0 <= j < s.len() && !as_ints(r@).contains(j) && 0 <= a < as_ints(r@).len() implies ranked_before(
                    s,
                    as_ints(r@)[a],
                    j,
                ) by {
                if !rest@.contains(j as usize) {
                    assert(r@.contains(j as usize));
                    let b = choose|b: int| 0 <= b < r@.len() && r@[b] == j as usize;
                    assert(as_ints(r@)[b] == j);
                }
                let p = choose|p: int| 0 <= p < rest@.len() && rest@[p] == j as usize;
                if p < best {
                    assert(old_rest[p] == j as usize);
                } else {
                    assert(old_rest[p + 1] == j as usize);
                }
            }
        }
    }
    proof {
        if r@.len() < k {
            assert(rest@.len() == 0);
        }
    }
    r
}

/// The entries at the indices `idx`, in that order.
pub open spec fn entries_at(s: Seq<EntryView>, idx: Seq<int>) -> Seq<EntryView> {
    idx.map_values(|i: int| s[i])
}

/// The providers of the entries at the indices `idx`, in that order.
pub open spec fn providers_at(s: Seq<EntryView>, idx: Seq<int>) -> Seq<u64> {
    idx.map_values(|i: int| s[i].provider)
}

/// `out` is the best `min(k, s.len())` entries of `s`, best first.
pub open spec fn is_top(s: Seq<EntryView>, k: int, out: Seq<EntryView>) -> bool {
    exists|idx: Seq<int>|
        #[trigger] is_ranking(s, idx) && idx.len() == min(k, s.len() as int) && out == entries_at(
            s,
            idx,
        )
}

/// `w` is the providers of the best `min(k, s.len())` entries of `s`, best first.
pub open spec fn is_top_providers(s: Seq<EntryView>, k: int, w: Seq<u64>) -> bool {
    exists|idx: Seq<int>|
        #[trigger] is_ranking(s, idx) && idx.len() == min(k, s.len() as int) && w == providers_at(
            s,
            idx,
        )
}

/// The entries that made at least `min_signals` submissions, in their order.
pub open spec fn qualified(s: Seq<EntryView>, min_signals: u32) -> Seq<EntryView>
    decreases s.len(),
{
    if s.len() == 0 {
        s
    } else {
        let earlier = qualified(s.drop_last(), min_signals);
        if s.last().signals.len() >= min_signals {
            earlier.push(s.last())
        } else {
            earlier
        }
    }
}

/// Two rankings of the same length list the same indices: the ranking is unique.
pub proof fn lemma_ranking_unique(s: Seq<EntryView>, r1: Seq<int>, r2: Seq<int>)
    requires
        is_ranking(s, r1),
        is_ranking(s, r2),
        r1.len() == r2.len(),
    ensures
        r1 == r2,
{
    if r1 != r2 {
        assert(!(r1 =~= r2));
        let a = choose|a: int| 0 <= a < r1.len() && r1[a] != r2[a];
        lemma_first_difference(r1, r2, a);
        let d = choose|d: int| 0 <= d < r1.len() && r1[d] != r2[d] && forall|e: int| 0 <= e < d ==> r1[e] == r2[e];
        lemma_beats_at_difference(s, r1, r2, d);
        lemma_beats_at_difference(s, r2, r1, d);
    }
}

proof fn lemma_first_difference(r1: Seq<int>, r2: Seq<int>, a: int)
    requires
        0 <= a < r1.len() == r2.len(),
        r1[a] != r2[a],
    ensures
        exists|d: int| 0 <= d < r1.len() && r1[d] != r2[d] && forall|e: int| 0 <= e < d ==> r1[e] == r2[e],
    decreases a,
{
    if exists|e: int| 0 <= e < a && r1[e] != r2[e] {
        let e = choose|e: int| 0 <= e < a && r1[e] != r2[e];
        lemma_first_difference(r1, r2, e);
    } else {
        assert(forall|e: int| 0 <= e < a ==> r1[e] == r2[e]);
    }
}

proof fn lemma_beats_at_difference(s: Seq<EntryView>, r1: Seq<int>, r2: Seq<int>, d: int)
    requires
        is_ranking(s, r1),
        is_ranking(s, r2),
        r1.len() == r2.len(),
        0 <= d < r1.len(),
        r1[d] != r2[d],
        forall|e: int| 0 <= e < d ==> r1[e] == r2[e],
    ensures
        ranked_before(s, r2[d], r1[d]),
{
    if r2.contains(r1[d]) {
        let b = choose|b: int| 0 <= b < r2.len() && r2[b] == r1[d];
        if b < d {
            assert(r1[b] == r1[d]);
            assert(ranked_before(s, r1[b], r1[d]));
        } else {
            assert(ranked_before(s, r2[d], r2[b]));
        }
    } else {
        assert(0 <= r1[d] < s.len());
        assert(ranked_before(s, r2[d], r1[d]));
    }
}

/// A ranked selection of `min(k, s.len())` entries lists its scores from highest to lowest.
pub proof fn lemma_top_sorted(s: Seq<EntryView>, k: int, out: Seq<EntryView>)
    requires
        k >= 0,
        is_top(s, k, out),
    ensures
        out.len() == min(k, s.len() as int),
        forall|a: int, b: int| 0 <= a < b < out.len() ==> (#[trigger] out[a]).score >= (#[trigger] out[b]).score,
{
    let idx = choose|idx: Seq<int>|
        #[trigger] is_ranking(s, idx) && idx.len() == min(k, s.len() as int) && out == entries_at(s, idx);
    assert forall|a: int, b: int| 0 <= a < b < out.len() implies (#[trigger] out[a]).score >= (#[trigger] out[b]).score by {
        assert(ranked_before(s, idx[a], idx[b]));
    }
}

/// With no entries there is no winner.
pub proof fn lemma_no_entries_no_winners(s: Seq<EntryView>, w: Seq<u64>)
    requires
        s.len() == 0,
        is_top_providers(s, MAX_WINNERS as int, w),
    ensures
        w.len() == 0,
{
}

/// With no minimum every entry qualifies.
pub proof fn lemma_qualified_all(s: Seq<EntryView>)
    ensures
        qualified(s, 0) == s,
    decreases s.len(),
{
    if s.len() > 0 {
        lemma_qualified_all(s.drop_last());
        assert(s.drop_last().push(s.last()) =~= s);
    }
}

/// The number of winners a contest names at most.
pub const MAX_WINNERS: usize = 3;

/// Copies of the best `min(limit, entries.len())` entries, best first.
pub fn top_entries(entries: &Vec<ContestEntry>, limit: usize) -> (r: Vec<ContestEntry>)
    ensures
        is_top(views(entries@), limit as int, views(r@)),
{
    let ghost s = views(entries@);
    let idx = rank_entries(entries, limit);
    let mut r: Vec<ContestEntry> = Vec::new();
    let mut i: usize = 0;
    while i < idx.len()
        invariant
            i <= idx@.len(),
            s == views(entries@),
            is_ranking(s, as_ints(idx@)),
            views(r@) == entries_at(s, as_ints(idx@).take(i as int)),
        decreases idx@.len() - i,
    {
        proof {
            assert(0 <= as_ints(idx@)[i as int] < s.len());
        }
        let e = entries[idx[i]].duplicate();
        let ghost before = r@;
        r.push(e);
        proof {
            assert(e@ == s[idx@[i as int] as int]);
            assert(views(r@) =~= views(before).push(e@));
            assert(as_ints(idx@).take(i + 1) =~= as_ints(idx@).take(i as int).push(idx@[i as int] as int));
            assert(views(r@) =~= entries_at(s, as_ints(idx@).take(i + 1)));
        }
        i = i + 1;
    }
    proof {
        assert(as_ints(idx@).take(i as int) =~= as_ints(idx@));
    }
    r
}

/// The providers of the best `min(3, entries.len())` entries, best first.
pub fn select_winners(entries: &Vec<ContestEntry>) -> (r: Vec<u64>)
    ensures
        is_top_providers(views(entries@), MAX_WINNERS as int, r@),
{
    let ghost s = views(entries@);
    let idx = rank_entries(entries, MAX_WINNERS);
    let mut r: Vec<u64> = Vec::new();
    let mut i: usize = 0;
    while i < idx.len()
        invariant
            i <= idx@.len(),
            s == views(entries@),
            is_ranking(s, as_ints(idx@)),
            r@ == providers_at(s, as_ints(idx@).take(i as int)),
        decreases idx@.len() - i,
    {
        proof {
            assert(0 <= as_ints(idx@)[i as int] < s.len());
        }
        r.push(entries[idx[i]].provider);
        proof {
            assert(as_ints(idx@).take(i + 1) =~= as_ints(idx@).take(i as int).push(idx@[i as int] as int));
            assert(r@ =~= providers_at(s, as_ints(idx@).take(i + 1)));
        }
        i = i + 1;
    }
    proof {
        assert(as_ints(idx@).take(i as int) =~= as_ints(idx@));
    }
    r
}

/// Copies of the entries that made at least `min_signals` submissions, in their order.
pub fn get_qualified_entries(entries: &Vec<ContestEntry>, min_signals: u32) -> (r: Vec<ContestEntry>)
    ensures
        views(r@) == qualified(views(entries@), min_signals),
{
    let ghost s = views(entries@);
    let mut r: Vec<ContestEntry> = Vec::new();
    let mut i: usize = 0;
    while i < entries.len()
        invariant
            i <= entries@.len(),
            s == views(entries@),
            views(r@) == qualified(s.take(i as int), min_signals),
        decreases entries@.len() - i,
    {
        proof {
            assert(s.take(i + 1).drop_last() =~= s.take(i as int));
        }
        if entries[i].signals_submitted.len() >= min_signals as usize {
            let e = entries[i].duplicate();
            r.push(e);
            proof {
                assert(views(r@) =~= qualified(s.take(i as int), min_signals).push(s[i as int]));
            }
        }
        i = i + 1;
    }
    proof {
        assert(s.take(i as int) =~= s);
    }
    r
}

} // verus!
