//! Lane assignment: the greedy interval-partitioning strategy that places the
//! blocks of one overlap group into parallel lanes, reusing the first lane
//! that is free when a block starts.  The number of lanes it opens equals the
//! maximum number of blocks active at any one instant.
use vstd::prelude::*;
use vstd::set_lib::{lemma_int_range, lemma_len_subset, set_int_range};
use crate::model::{clone_lesson, LessonBlock, LessonView};
use crate::order::{
    by_start, leq_start, lemma_sort_spec_ensures, sort_lessons_by_start, sort_spec, sorted_by,
    total_preorder,
};
use crate::gaps::all_wf;

verus! {

/// Index of the first lane whose recorded end time has passed `start`, or the
/// number of lanes when every lane is still busy.
pub open spec fn first_fit(ends: Seq<u64>, start: u64) -> int
    decreases ends.len(),
{
    if ends.len() == 0 {
        0
    } else if ends[0] <= start {
        0
    } else {
        1 + first_fit(ends.drop_first(), start)
    }
}

proof fn lemma_first_fit_props(ends: Seq<u64>, start: u64)
    ensures
        0 <= first_fit(ends, start) <= ends.len(),
        first_fit(ends, start) < ends.len() ==> ends[first_fit(ends, start)] <= start,
        forall|j: int| 0 <= j < first_fit(ends, start) ==> ends[j] > start,
    decreases ends.len(),
{
    if ends.len() > 0 && ends[0] > start {
        lemma_first_fit_props(ends.drop_first(), start);
        let ff = first_fit(ends, start);
        assert forall|j: int| 0 <= j < ff implies ends[j] > start by {
            if j > 0 {
                assert(ends.drop_first()[j - 1] > start);
            }
        }
        if ff < ends.len() {
            assert(ends[ff] == ends.drop_first()[ff - 1]);
        }
    }
}

/// The greedy pass over a start-sorted group: per-block lane indices and the
/// running end time of every lane.
pub open spec fn greedy(s: Seq<LessonView>) -> (Seq<int>, Seq<u64>)
    decreases s.len(),
{
    if s.len() == 0 {
        (Seq::empty(), Seq::empty())
    } else {
        let prev = greedy(s.drop_last());
        let x = s.last();
        let j = first_fit(prev.1, x.time_range.start);
        if j == prev.1.len() {
            (prev.0.push(j), prev.1.push(x.time_range.end))
        } else {
            (prev.0.push(j), prev.1.update(j, x.time_range.end))
        }
    }
}

proof fn lemma_greedy_len(s: Seq<LessonView>)
    ensures
        greedy(s).0.len() == s.len(),
    decreases s.len(),
{
    if s.len() > 0 {
        lemma_greedy_len(s.drop_last());
    }
}

/// A block is running at instant `t`.
pub open spec fn active(b: LessonView, t: int) -> bool {
    b.time_range.start <= t < b.time_range.end
}

/// Indices of the blocks running at instant `t`.
pub open spec fn active_set(s: Seq<LessonView>, t: int) -> Set<int> {
    Set::new(|i: int| 0 <= i < s.len() && active(s[i], t))
}

/// Number of blocks running at instant `t`: the simultaneous overlap depth.
pub open spec fn depth(s: Seq<LessonView>, t: int) -> int {
    active_set(s, t).len() as int
}

/// Lane `j`'s recorded end time is the end of one of the blocks assigned to
/// it.
pub open spec fn lane_attained(s: Seq<LessonView>, j: int) -> bool {
    exists|i: int|
        0 <= i < s.len() && greedy(s).0[i] == j && (#[trigger] s[i]).time_range.end == greedy(
            s,
        ).1[j]
}

proof fn lemma_active_set_finite(s: Seq<LessonView>, t: int)
    ensures
        active_set(s, t).finite(),
        active_set(s, t).len() <= s.len(),
{
    lemma_int_range(0, s.len() as int);
    assert(active_set(s, t).subset_of(set_int_range(0, s.len() as int)));
    lemma_len_subset(active_set(s, t), set_int_range(0, s.len() as int));
}

/// A finite set holding `n` pairwise distinct values has at least `n`
/// elements.
proof fn lemma_card_ge(target: Set<int>, f: spec_fn(int) -> int, n: int)
    requires
        n >= 0,
        target.finite(),
        forall|i: int, j: int| 0 <= i < j < n ==> #[trigger] f(i) != #[trigger] f(j),
        forall|i: int| 0 <= i < n ==> target.contains(#[trigger] f(i)),
    ensures
        target.len() >= n,
    decreases n,
{
    if n > 0 {
        let smaller = target.remove(f(n - 1));
        assert forall|i: int| 0 <= i < n - 1 implies smaller.contains(#[trigger] f(i)) by {
            assert(f(i) != f(n - 1));
        }
        lemma_card_ge(smaller, f, n - 1);
    }
}

/// A finite set mapped injectively into `[lo, hi)` has at most `hi - lo`
/// elements.
proof fn lemma_card_le(s: Set<int>, f: spec_fn(int) -> int, lo: int, hi: int)
    requires
        lo <= hi,
        s.finite(),
        forall|i: int| s.contains(i) ==> lo <= #[trigger] f(i) < hi,
        forall|i: int, j: int| s.contains(i) && s.contains(j) && i != j ==> #[trigger] f(i) != #[trigger] f(j),
    ensures
        s.len() <= hi - lo,
    decreases hi - lo,
{
    if lo == hi {
        assert(s =~= Set::empty()) by {
            if exists|x: int| s.contains(x) {
                let x = choose|x: int| s.contains(x);
                assert(lo <= f(x) < hi);
            }
        }
        assert(s.len() == 0);
    } else {
        if exists|x: int| s.contains(x) && #[trigger] f(x) == hi - 1 {
            let x = choose|x: int| s.contains(x) && #[trigger] f(x) == hi - 1;
            let rest = s.remove(x);
            assert forall|i: int| rest.contains(i) implies lo <= #[trigger] f(i) < hi - 1 by {
                assert(f(i) != f(x));
            }
            lemma_card_le(rest, f, lo, hi - 1);
        } else {
            lemma_card_le(s, f, lo, hi - 1);
        }
    }
}

/// The invariants the greedy pass maintains: every block has a lane, blocks
/// sharing a lane are ordered without overlap, each lane's recorded end is
/// attained by one of its blocks and bounds them all; and some instant keeps
/// every lane busy at once.
proof fn lemma_greedy_invs(s: Seq<LessonView>)
    requires
        sorted_by(s, by_start()),
        all_wf(s),
    ensures
        greedy(s).0.len() == s.len(),
        forall|k: int| 0 <= k < s.len() ==> 0 <= #[trigger] greedy(s).0[k] < greedy(s).1.len(),
        forall|i: int, j: int|
            0 <= i < j < s.len() && greedy(s).0[i] == greedy(s).0[j] ==> (
            #[trigger] s[i]).time_range.end <= (#[trigger] s[j]).time_range.start,
        forall|j: int| 0 <= j < greedy(s).1.len() ==> #[trigger] lane_attained(s, j),
        forall|i: int|
            0 <= i < s.len() ==> (#[trigger] s[i]).time_range.end <= greedy(s).1[greedy(s).0[i]],
        s.len() > 0 ==> exists|t: int| depth(s, t) >= greedy(s).1.len(),
    decreases s.len(),
{
    if s.len() == 0 {
        assert(greedy(s).0.len() == 0);
        assert(greedy(s).1.len() == 0);
    } else {
        let sp = s.drop_last();
        let x = s.last();
        assert(sorted_by(sp, by_start()) && all_wf(sp)) by {
            assert(forall|i: int, j: int| 0 <= i < j < sp.len() ==> leq_start(s[i], s[j]));
            assert forall|k: int| 0 <= k < sp.len() implies (#[trigger] sp[k]).time_range.wf() by {
                assert(s[k].time_range.wf());
            }
        }
        lemma_greedy_invs(sp);
        let prev = greedy(sp);
        let j = first_fit(prev.1, x.time_range.start);
        lemma_first_fit_props(prev.1, x.time_range.start);
        let g = greedy(s);
        let n = s.len() - 1;
        assert(g.0 == prev.0.push(j));
        assert(x.time_range.wf()) by {
            assert(s[n].time_range.wf());
        }
        // per-lane structure
        assert forall|i1: int, i2: int|
            0 <= i1 < i2 < s.len() && g.0[i1] == g.0[i2] implies (#[trigger] s[i1]).time_range.end
            <= (#[trigger] s[i2]).time_range.start by {
            if i2 < n {
                assert(prev.0[i1] == prev.0[i2]);
                assert(sp[i1].time_range.end <= sp[i2].time_range.start);
            } else {
                // i2 is the new block; its lane was free at x's start
                assert(g.0[i1] == j);
                assert(prev.0[i1] == j);
                assert(j < prev.1.len());
                assert(sp[i1].time_range.end <= prev.1[j]);
                assert(prev.1[j] <= x.time_range.start);
            }
        }
        assert forall|jj: int| 0 <= jj < greedy(s).1.len() implies #[trigger] lane_attained(
            s,
            jj,
        ) by {
            if jj == j {
                assert(g.0[n] == j && s[n].time_range.end == g.1[j]);
            } else {
                assert(jj < prev.1.len());
                assert(lane_attained(sp, jj));
                let iw = choose|iw: int|
                    0 <= iw < sp.len() && greedy(sp).0[iw] == jj && (
                    #[trigger] sp[iw]).time_range.end == greedy(sp).1[jj];
                assert(g.0[iw] == jj && s[iw].time_range.end == g.1[jj]);
            }
        }
        assert forall|i: int| 0 <= i < s.len() implies (#[trigger] s[i]).time_range.end
            <= g.1[g.0[i]] by {
            if i < n {
                assert(sp[i].time_range.end <= prev.1[prev.0[i]]);
                if prev.0[i] == j {
                    assert(prev.1[j] <= x.time_range.start);
                    assert(x.time_range.start < x.time_range.end);
                }
            }
        }
        // some instant keeps every lane busy
        if j == prev.1.len() {
            // a fresh lane opened: at x's start, every old lane still runs a
            // block, and x runs as well
            let t = x.time_range.start as int;
            let w = |jj: int|
                if 0 <= jj < prev.1.len() {
                    choose|i: int|
                        0 <= i < sp.len() && greedy(sp).0[i] == jj && (
                        #[trigger] sp[i]).time_range.end == greedy(sp).1[jj]
                } else {
                    n
                };
            assert forall|jj: int| 0 <= jj < g.1.len() implies active_set(s, t).contains(
                #[trigger] w(jj),
            ) by {
                if jj < prev.1.len() {
                    assert(lane_attained(sp, jj));
                    let i = w(jj);
                    assert(0 <= i < sp.len() && prev.0[i] == jj && sp[i].time_range.end
                        == prev.1[jj]);
                    assert(s[i] == sp[i]);
                    assert(leq_start(s[i], s[n]));
                    assert(prev.1[jj] > x.time_range.start);
                    assert(active(s[i], t));
                } else {
                    assert(w(jj) == n);
                    assert(active(s[n], t));
                }
            }
            assert forall|j1: int, j2: int| 0 <= j1 < j2 < g.1.len() implies #[trigger] w(j1)
                != #[trigger] w(j2) by {
                assert(lane_attained(sp, j1));
                if j2 < prev.1.len() {
                    assert(lane_attained(sp, j2));
                    assert(prev.0[w(j1)] == j1 && prev.0[w(j2)] == j2);
                } else {
                    assert(w(j1) < sp.len() && w(j2) == n);
                }
            }
            lemma_active_set_finite(s, t);
            lemma_card_ge(active_set(s, t), w, g.1.len() as int);
            assert(depth(s, t) >= g.1.len());
        } else {
            // no lane was added; the old witness instant still works
            let t = choose|t: int| depth(sp, t) >= prev.1.len();
            assert(g.1.len() == prev.1.len());
            assert(active_set(sp, t).subset_of(active_set(s, t))) by {
                assert forall|i: int| active_set(sp, t).contains(i) implies active_set(
                    s,
                    t,
                ).contains(i) by {
                    assert(s[i] == sp[i]);
                }
            }
            lemma_active_set_finite(s, t);
            lemma_len_subset(active_set(sp, t), active_set(s, t));
            assert(depth(s, t) >= prev.1.len());
        }
    }
}

/// Lane minimality: the greedy pass never opens more lanes than the maximum
/// simultaneous overlap depth, and some instant attains that depth, so the
/// lane count equals the maximum depth exactly.
pub proof fn lemma_lane_minimality(s: Seq<LessonView>)
    requires
        sorted_by(s, by_start()),
        all_wf(s),
    ensures
        greedy(s).0.len() == s.len(),
        forall|k: int| 0 <= k < s.len() ==> 0 <= #[trigger] greedy(s).0[k] < greedy(s).1.len(),
        forall|i: int, j: int|
            0 <= i < j < s.len() && greedy(s).0[i] == greedy(s).0[j] ==> (
            #[trigger] s[i]).time_range.end <= (#[trigger] s[j]).time_range.start,
        forall|t: int| depth(s, t) <= greedy(s).1.len(),
        s.len() > 0 ==> exists|t: int| depth(s, t) == greedy(s).1.len(),
{
    lemma_greedy_invs(s);
    let g = greedy(s);
    assert forall|t: int| depth(s, t) <= g.1.len() by {
        lemma_active_set_finite(s, t);
        let f = |i: int|
            if 0 <= i < s.len() {
                g.0[i]
            } else {
                0
            };
        assert forall|i1: int, i2: int|
            active_set(s, t).contains(i1) && active_set(s, t).contains(i2) && i1 != i2 implies f(
            i1,
        ) != f(i2) by {
            let (a, b) = if i1 < i2 {
                (i1, i2)
            } else {
                (i2, i1)
            };
            if g.0[a] == g.0[b] {
                assert(s[a].time_range.end <= s[b].time_range.start);
                assert(active(s[a], t) && active(s[b], t));
            }
        }
        assert forall|i: int| active_set(s, t).contains(i) implies 0 <= #[trigger] f(i)
            < g.1.len() by {
            assert(0 <= g.0[i] < g.1.len());
        }
        lemma_card_le(active_set(s, t), f, 0, g.1.len() as int);
    }
    if s.len() > 0 {
        let t = choose|t: int| depth(s, t) >= g.1.len();
        assert(depth(s, t) == g.1.len());
    }
}

/// Assign the blocks of one group to lanes: returns the blocks sorted by
/// start, one lane index per block, and the number of lanes used.
pub fn assign_lanes(group: &Vec<LessonBlock>) -> (r: (Vec<LessonBlock>, Vec<usize>, usize))
    ensures
        r.0.deep_view() == sort_spec(group.deep_view(), by_start()),
        r.1@.len() == r.0.deep_view().len(),
        forall|k: int|
            0 <= k < r.1@.len() ==> #[trigger] r.1@[k] as int == greedy(r.0.deep_view()).0[k],
        r.2 == greedy(r.0.deep_view()).1.len(),
{
    let copy = crate::model::clone_lessons(group);
    let sorted = sort_lessons_by_start(copy);
    let ghost sv = sorted.deep_view();
    let mut assigns: Vec<usize> = Vec::new();
    let mut ends: Vec<u64> = Vec::new();
    let mut i: usize = 0;
    proof {
        assert(sv.take(0) =~= Seq::<LessonView>::empty());
    }
    while i < sorted.len()
        invariant
            i <= sorted.len(),
            sv == sorted.deep_view(),
            assigns@.len() == i,
            greedy(sv.take(i as int)).0.len() == i,
            ends@ == greedy(sv.take(i as int)).1,
            forall|k: int|
                0 <= k < i ==> #[trigger] assigns@[k] as int == greedy(sv.take(i as int)).0[k],
        decreases sorted.len() - i,
    {
        let start = sorted[i].time_range.start;
        let end = sorted[i].time_range.end;
        let mut j: usize = 0;
        while j < ends.len() && ends[j] > start
            invariant
                j <= ends.len(),
                forall|jj: int| 0 <= jj < j ==> ends@[jj] > start,
            decreases ends.len() - j,
        {
            j += 1;
        }
        proof {
            lemma_first_fit_props(ends@, start);
            assert(j as int == first_fit(ends@, start)) by {
                let ff = first_fit(ends@, start);
                if ff < j {
                    assert(ends@[ff] > start);
                }
                if j < ff {
                    assert(ends@[j as int] > start);
                }
            }
        }
        let ghost pre = greedy(sv.take(i as int));
        let ghost olda = assigns@;
        if j == ends.len() {
            ends.push(end);
        } else {
            ends[j] = end;
        }
        assigns.push(j);
        proof {
            let now = sv.take(i + 1);
            lemma_greedy_len(now);
            assert(now.drop_last() =~= sv.take(i as int));
            assert(now.last() == sv[i as int]);
            assert(sv[i as int].time_range.start == start && sv[i as int].time_range.end == end);
            assert(greedy(now).0 =~= pre.0.push(j as int));
            assert(ends@ == greedy(now).1);
            assert(assigns@ == olda.push(j));
            assert forall|k: int| 0 <= k < i + 1 implies #[trigger] assigns@[k] as int == greedy(
                now,
            ).0[k] by {
                if k < i {
                    assert(assigns@[k] == olda[k]);
                    assert(olda[k] as int == pre.0[k]);
                } else {
                    assert(assigns@[k] == j);
                }
            }
        }
        i += 1;
    }
    proof {
        assert(sv.take(sorted.len() as int) =~= sv);
    }
    (sorted, assigns, ends.len())
}


// ------------------------------------------------------------------
// Group geometry
// ------------------------------------------------------------------

/// One block's place inside a group's box: its lane, and its time offset and
/// length relative to the group's start, in minutes.  Percentages for a
/// proportional rendering follow by dividing by the group's span and lane
/// count.
pub struct BlockPlacement {
    pub block: LessonBlock,
    pub lane: usize,
    pub offset: u64,
    pub length: u64,
}

/// The geometry of one overlap group: its time extent, the number of
/// parallel lanes, and one placement per block.
pub struct GroupLayout {
    pub start: u64,
    pub end: u64,
    pub lane_count: usize,
    pub items: Vec<BlockPlacement>,
}

/// Compute the layout of one overlap group: blocks in start order, each with
/// the greedy lane assignment, its offset from the group's start and its
/// duration; the group extends from its earliest start to its latest end.
pub fn layout_group(group: &Vec<LessonBlock>) -> (r: GroupLayout)
    requires
        group.len() > 0,
        crate::gaps::all_wf(group.deep_view()),
    ensures
        ({
            let sv = sort_spec(group.deep_view(), by_start());
            &&& r.items@.len() == sv.len()
            &&& r.start == sv[0].time_range.start
            &&& r.end as int == crate::gaps::max_end(sv)
            &&& r.lane_count == greedy(sv).1.len()
            &&& forall|k: int|
                0 <= k < sv.len() ==> (#[trigger] r.items@[k]).block@ == sv[k]
                    && r.items@[k].lane as int == greedy(sv).0[k] && r.items@[k].offset
                    == sv[k].time_range.start - sv[0].time_range.start && r.items@[k].length
                    == sv[k].time_range.end - sv[k].time_range.start
        }),
{
    broadcast use vstd::seq_lib::group_to_multiset_ensures;

    let (sorted, assigns, lane_count) = assign_lanes(group);
    let ghost sv = sorted.deep_view();
    proof {
        assert(total_preorder(by_start()));
        lemma_sort_spec_ensures(group.deep_view(), by_start());
        assert forall|k: int| 0 <= k < sv.len() implies (#[trigger] sv[k]).time_range.wf() by {
            assert(sv.contains(sv[k]));
            assert(sv.to_multiset().count(sv[k]) > 0);
            assert(group.deep_view().to_multiset().count(sv[k]) > 0);
            assert(group.deep_view().contains(sv[k]));
            let m = choose|m: int|
                0 <= m < group.deep_view().len() && group.deep_view()[m] == sv[k];
        }
    }
    let start = sorted[0].time_range.start;
    let mut end: u64 = 0;
    let mut i: usize = 0;
    proof {
        assert(sv.take(0) =~= Seq::<LessonView>::empty());
    }
    while i < sorted.len()
        invariant
            i <= sorted.len(),
            sv == sorted.deep_view(),
            end as int == crate::gaps::max_end(sv.take(i as int)),
        decreases sorted.len() - i,
    {
        let e = sorted[i].time_range.end;
        proof {
            assert(sv.take(i + 1) =~= sv.take(i as int).push(sv[i as int]));
            crate::gaps::lemma_max_end_push(sv.take(i as int), sv[i as int]);
        }
        if e > end {
            end = e;
        }
        i += 1;
    }
    proof {
        assert(sv.take(sorted.len() as int) =~= sv);
    }
    let mut items: Vec<BlockPlacement> = Vec::new();
    let mut k: usize = 0;
    while k < sorted.len()
        invariant
            k <= sorted.len(),
            sv == sorted.deep_view(),
            assigns@.len() == sv.len(),
            sorted.len() == sv.len(),
            start == sv[0].time_range.start,
            sv.len() > 0,
            sorted_by(sv, by_start()),
            forall|n: int| 0 <= n < sv.len() ==> (#[trigger] sv[n]).time_range.wf(),
            forall|n: int| 0 <= n < sv.len() ==> #[trigger] assigns@[n] as int == greedy(sv).0[n],
            items@.len() == k,
            forall|n: int|
                0 <= n < k ==> (#[trigger] items@[n]).block@ == sv[n] && items@[n].lane as int
                    == greedy(sv).0[n] && items@[n].offset == sv[n].time_range.start
                    - sv[0].time_range.start && items@[n].length == sv[n].time_range.end
                    - sv[n].time_range.start,
        decreases sorted.len() - k,
    {
        proof {
            assert(leq_start(sv[0], sv[k as int]) || k == 0);
        }
        let block = clone_lesson(&sorted[k]);
        let offset = sorted[k].time_range.start - start;
        let length = sorted[k].time_range.end - sorted[k].time_range.start;
        let ghost prev = items@;
        items.push(BlockPlacement { block, lane: assigns[k], offset, length });
        proof {
            assert forall|n: int|
                0 <= n < k + 1 implies (#[trigger] items@[n]).block@ == sv[n] && items@[n].lane
                as int == greedy(sv).0[n] && items@[n].offset == sv[n].time_range.start
                - sv[0].time_range.start && items@[n].length == sv[n].time_range.end
                - sv[n].time_range.start by {
                if n < k {
                    assert(items@[n] == prev[n]);
                }
            }
        }
        k += 1;
    }
    GroupLayout { start, end, lane_count, items }
}

// ------------------------------------------------------------------
// Narrow-layout priority block
// ------------------------------------------------------------------

/// Index of the first element satisfying `p`, or -1.
pub open spec fn first_match(s: Seq<LessonView>, p: spec_fn(LessonView) -> bool) -> int
    decreases s.len(),
{
    if s.len() == 0 {
        -1
    } else if p(s[0]) {
        0
    } else if first_match(s.drop_first(), p) < 0 {
        -1
    } else {
        1 + first_match(s.drop_first(), p)
    }
}

pub open spec fn is_exam() -> spec_fn(LessonView) -> bool {
    |l: LessonView| l.kind == "EXAM"@
}

pub open spec fn is_changed() -> spec_fn(LessonView) -> bool {
    |l: LessonView| l.status == "CHANGED"@
}

pub open spec fn is_additional() -> spec_fn(LessonView) -> bool {
    |l: LessonView| l.status == "ADDITIONAL"@
}

pub open spec fn not_cancelled() -> spec_fn(LessonView) -> bool {
    |l: LessonView| l.status != "CANCELLED"@
}

/// The block a narrow layout shows for a group: the first exam, else the
/// first changed block, else the first additional one, else the first that
/// is not cancelled, else the first member.
pub open spec fn priority_choice(s: Seq<LessonView>) -> int {
    if first_match(s, is_exam()) >= 0 {
        first_match(s, is_exam())
    } else if first_match(s, is_changed()) >= 0 {
        first_match(s, is_changed())
    } else if first_match(s, is_additional()) >= 0 {
        first_match(s, is_additional())
    } else if first_match(s, not_cancelled()) >= 0 {
        first_match(s, not_cancelled())
    } else {
        0
    }
}

proof fn lemma_first_match_range(s: Seq<LessonView>, p: spec_fn(LessonView) -> bool)
    ensures
        -1 <= first_match(s, p) < s.len(),
        first_match(s, p) >= 0 ==> p(s[first_match(s, p)]),
        first_match(s, p) < 0 ==> forall|k: int| 0 <= k < s.len() ==> !p(s[k]),
        forall|k: int| 0 <= k < first_match(s, p) ==> !p(s[k]),
    decreases s.len(),
{
    if s.len() > 0 && !p(s[0]) {
        lemma_first_match_range(s.drop_first(), p);
        let r = first_match(s, p);
        if first_match(s.drop_first(), p) < 0 {
            assert forall|k: int| 0 <= k < s.len() implies !p(s[k]) by {
                if k > 0 {
                    assert(!p(s.drop_first()[k - 1]));
                }
            }
        } else {
            assert(p(s.drop_first()[r - 1]));
            assert forall|k: int| 0 <= k < r implies !p(s[k]) by {
                if k > 0 {
                    assert(!p(s.drop_first()[k - 1]));
                }
            }
        }
    }
}

fn scan_first(group: &Vec<LessonBlock>, which: u8) -> (r: Option<usize>)
    requires
        which < 4,
    ensures
        ({
            let p = if which == 0 {
                is_exam()
            } else if which == 1 {
                is_changed()
            } else if which == 2 {
                is_additional()
            } else {
                not_cancelled()
            };
            match r {
                Some(k) => k < group.len() && k as int == first_match(group.deep_view(), p),
                None => first_match(group.deep_view(), p) < 0,
            }
        }),
{
    let ghost p = if which == 0 {
        is_exam()
    } else if which == 1 {
        is_changed()
    } else if which == 2 {
        is_additional()
    } else {
        not_cancelled()
    };
    let mut k: usize = 0;
    while k < group.len()
        invariant
            k <= group.len(),
            group.deep_view().len() == group.len(),
            which < 4,
            p == (if which == 0 {
                is_exam()
            } else if which == 1 {
                is_changed()
            } else if which == 2 {
                is_additional()
            } else {
                not_cancelled()
            }),
            forall|n: int| 0 <= n < k ==> !p(#[trigger] group.deep_view()[n]),
        decreases group.len() - k,
    {
        let l = &group[k];
        let hit = if which == 0 {
            crate::text::str_eq(l.kind.as_str(), "EXAM")
        } else if which == 1 {
            crate::text::str_eq(l.status.as_str(), "CHANGED")
        } else if which == 2 {
            crate::text::str_eq(l.status.as_str(), "ADDITIONAL")
        } else {
            !crate::text::str_eq(l.status.as_str(), "CANCELLED")
        };
        proof {
            assert(hit == p(group.deep_view()[k as int]));
        }
        if hit {
            proof {
                lemma_first_match_range(group.deep_view(), p);
                let fm = first_match(group.deep_view(), p);
                assert(fm >= 0) by {
                    if fm < 0 {
                        assert(!p(group.deep_view()[k as int]));
                    }
                }
                assert(fm == k as int) by {
                    if fm < k {
                        assert(!p(group.deep_view()[fm]));
                        assert(p(group.deep_view()[fm]));
                    }
                    if fm > k {
                        assert(!p(group.deep_view()[k as int]));
                    }
                }
            }
            return Some(k);
        }
        k += 1;
    }
    proof {
        lemma_first_match_range(group.deep_view(), p);
        let fm = first_match(group.deep_view(), p);
        if fm >= 0 {
            assert(!p(group.deep_view()[fm]));
        }
    }
    None
}

/// Pick the block a narrow layout shows for this group, by the precedence
/// exam, changed, additional, not cancelled, first.
pub fn priority_block(group: &Vec<LessonBlock>) -> (r: usize)
    requires
        group.len() > 0,
    ensures
        r < group.len(),
        r as int == priority_choice(group.deep_view()),
{
    if let Some(k) = scan_first(group, 0) {
        return k;
    }
    if let Some(k) = scan_first(group, 1) {
        return k;
    }
    if let Some(k) = scan_first(group, 2) {
        return k;
    }
    if let Some(k) = scan_first(group, 3) {
        return k;
    }
    0
}

} // verus!
