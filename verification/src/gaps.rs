//! Gap filling: insert synthetic "Break" blocks into a day's lesson list so
//! that every instant from the day's visible floor up to the last block's end
//! lies inside some block.
use vstd::prelude::*;
use crate::model::{clone_lesson, LessonBlock, LessonView, TimeRange};
use crate::order::{
    by_start, leq_start, lemma_sort_spec_contains, lemma_sort_spec_ensures, sort_lessons_by_start,
    sort_spec, sorted_by, total_preorder,
};

verus! {

/// The view of a synthetic break block spanning `[start, end)`.
pub open spec fn break_view(start: u64, end: u64) -> LessonView {
    LessonView {
        time_range: TimeRange { start, end },
        entities: Seq::empty(),
        kind: "Break"@,
        status: Seq::empty(),
        color_hex: Seq::empty(),
        icons: Seq::empty(),
        texts: Seq::empty(),
        link: Seq::empty(),
    }
}

/// A synthetic break block carries default, empty fields.
pub fn make_break(start: u64, end: u64) -> (r: LessonBlock)
    ensures
        r@ == break_view(start, end),
{
    let r = LessonBlock {
        time_range: TimeRange { start, end },
        entities: Vec::new(),
        kind: "Break".to_owned(),
        status: String::new(),
        color_hex: String::new(),
        icons: Vec::new(),
        texts: Vec::new(),
        link: String::new(),
    };
    proof {
        assert(r.entities.deep_view() =~= Seq::<crate::model::TrackedView>::empty());
        assert(r.icons.deep_view() =~= Seq::<Seq<char>>::empty());
        assert(r.texts.deep_view() =~= Seq::<crate::model::TextEntryView>::empty());
    }
    r
}

/// Walk a start-sorted day and put a break into every gap between consecutive
/// blocks.  No trailing break is added after the last block.
pub open spec fn fill_gaps(s: Seq<LessonView>) -> Seq<LessonView>
    decreases s.len(),
{
    if s.len() <= 1 {
        s
    } else if s[0].time_range.end < s[1].time_range.start {
        seq![s[0], break_view(s[0].time_range.end, s[1].time_range.start)] + fill_gaps(
            s.drop_first(),
        )
    } else {
        seq![s[0]] + fill_gaps(s.drop_first())
    }
}

/// Start of the day's visible range: the day of the first block, at minute
/// `earliest` of that day.
pub open spec fn day_floor(first_start: u64, earliest: u64) -> int {
    first_start - first_start % 1440 + earliest
}

/// What `fill_breaks` returns: the input sorted by start, a leading break when
/// the first block starts after the day floor, and a break in every gap.
pub open spec fn fill_breaks_spec(lessons: Seq<LessonView>, earliest: u64) -> Seq<LessonView> {
    let sorted = sort_spec(lessons, by_start());
    if sorted.len() == 0 {
        Seq::empty()
    } else {
        let s0 = sorted[0].time_range.start;
        if s0 % 1440 > earliest {
            seq![break_view((s0 - s0 % 1440 + earliest) as u64, s0)] + fill_gaps(sorted)
        } else {
            fill_gaps(sorted)
        }
    }
}

/// Appending one block to a sorted day extends the gap filling by at most one
/// break and the block itself.
proof fn lemma_fill_gaps_push(s: Seq<LessonView>, x: LessonView)
    requires
        s.len() >= 1,
    ensures
        fill_gaps(s.push(x)) == fill_gaps(s) + (if s.last().time_range.end
            < x.time_range.start {
            seq![break_view(s.last().time_range.end, x.time_range.start), x]
        } else {
            seq![x]
        }),
    decreases s.len(),
{
    let tail = if s.last().time_range.end < x.time_range.start {
        seq![break_view(s.last().time_range.end, x.time_range.start), x]
    } else {
        seq![x]
    };
    if s.len() == 1 {
        assert(s.push(x).drop_first() =~= seq![x]);
        assert(fill_gaps(seq![x]) == seq![x]);
        assert(fill_gaps(s.push(x)) =~= fill_gaps(s) + tail);
    } else {
        lemma_fill_gaps_push(s.drop_first(), x);
        assert(s.push(x).drop_first() =~= s.drop_first().push(x));
        assert(s.drop_first().last() == s.last());
        assert(fill_gaps(s.push(x)) =~= fill_gaps(s) + tail);
    }
}

/// Fill the gaps of one day's lessons.  The input need not be sorted; a break
/// is prepended when the first lesson starts after minute `earliest` of its
/// day.  Timestamps near the top of `u64` are excluded so that the day floor
/// can be computed.
pub fn fill_breaks(lessons: Vec<LessonBlock>, earliest: u64) -> (r: Vec<LessonBlock>)
    requires
        earliest < 1440,
        forall|k: int|
            0 <= k < lessons.deep_view().len() ==> (#[trigger] lessons.deep_view()[k]).time_range.start
                <= 0x1000_0000_0000_0000,
    ensures
        r.deep_view() == fill_breaks_spec(lessons.deep_view(), earliest),
{
    let ghost input = lessons.deep_view();
    let sorted = sort_lessons_by_start(lessons);
    proof {
        assert(total_preorder(by_start()));
        lemma_sort_spec_ensures(input, by_start());
        assert forall|k: int| 0 <= k < sorted.deep_view().len() implies (
        #[trigger] sorted.deep_view()[k]).time_range.start <= 0x1000_0000_0000_0000 by {
            lemma_sort_spec_contains(input, by_start(), sorted.deep_view()[k]);
            assert(sorted.deep_view().contains(sorted.deep_view()[k]));
            let m = choose|m: int| 0 <= m < input.len() && input[m] == sorted.deep_view()[k];
        }
    }
    let mut out: Vec<LessonBlock> = Vec::new();
    if sorted.len() == 0 {
        proof {
            assert(out.deep_view() =~= fill_breaks_spec(input, earliest));
        }
        return out;
    }
    let s0 = sorted[0].time_range.start;
    let tod = s0 % 1440;
    if tod > earliest {
        out.push(make_break(s0 - tod + earliest, s0));
    }
    let ghost lead = out.deep_view();
    let mut i: usize = 0;
    while i < sorted.len()
        invariant
            i <= sorted.len(),
            sorted.len() > 0,
            sorted.deep_view() == sort_spec(input, by_start()),
            s0 == sorted.deep_view()[0].time_range.start,
            out.deep_view() == lead + fill_gaps(sorted.deep_view().take(i as int)),
        decreases sorted.len() - i,
    {
        let ghost prev = out.deep_view();
        let ghost dv = sorted.deep_view();
        let gap = i > 0 && sorted[i - 1].time_range.end < sorted[i].time_range.start;
        if gap {
            let b = make_break(sorted[i - 1].time_range.end, sorted[i].time_range.start);
            out.push(b);
            proof {
                assert(out.deep_view() =~= prev.push(
                    break_view(dv[i - 1].time_range.end, dv[i as int].time_range.start),
                ));
            }
        }
        let ghost mid = out.deep_view();
        let x = clone_lesson(&sorted[i]);
        out.push(x);
        proof {
            assert(out.deep_view() =~= mid.push(dv[i as int]));
            let pre = dv.take(i as int);
            let now = dv.take(i + 1);
            assert(now =~= pre.push(dv[i as int]));
            if i == 0 {
                assert(fill_gaps(now) == now);
                assert(out.deep_view() =~= lead + fill_gaps(now));
            } else {
                lemma_fill_gaps_push(pre, dv[i as int]);
                assert(pre.last() == dv[i - 1]);
                assert(out.deep_view() =~= lead + fill_gaps(now));
            }
        }
        i += 1;
    }
    proof {
        assert(sorted.deep_view().take(sorted.len() as int) =~= sorted.deep_view());
        assert(out.deep_view() =~= fill_breaks_spec(input, earliest));
    }
    out
}

// ------------------------------------------------------------------
// Coverage properties
// ------------------------------------------------------------------

/// Every block of a well-formed day is a non-empty interval.
pub open spec fn all_wf(s: Seq<LessonView>) -> bool {
    forall|k: int| 0 <= k < s.len() ==> (#[trigger] s[k]).time_range.wf()
}

/// Consecutive blocks leave no gap: each next block starts no later than the
/// previous block ends.
pub open spec fn chained(s: Seq<LessonView>) -> bool {
    forall|k: int| 0 <= k < s.len() - 1 ==> (#[trigger] s[k + 1]).time_range.start
        <= s[k].time_range.end
}

/// Latest end over the day.
pub open spec fn max_end(s: Seq<LessonView>) -> int
    decreases s.len(),
{
    if s.len() == 0 {
        0
    } else if s[0].time_range.end >= max_end(s.drop_first()) {
        s[0].time_range.end as int
    } else {
        max_end(s.drop_first())
    }
}

/// Some block covers instant `t`.
pub open spec fn covers(s: Seq<LessonView>, t: int) -> bool {
    exists|k: int| 0 <= k < s.len() && (#[trigger] s[k]).time_range.start <= t < s[k].time_range.end
}

/// Appending a block raises the latest end to at least its own end.
pub proof fn lemma_max_end_push(s: Seq<LessonView>, x: LessonView)
    ensures
        max_end(s.push(x)) == if x.time_range.end as int >= max_end(s) {
            x.time_range.end as int
        } else {
            max_end(s)
        },
    decreases s.len(),
{
    assert(max_end(Seq::<LessonView>::empty()) == 0);
    if s.len() == 0 {
        assert(s.push(x)[0] == x);
        assert(s.push(x).drop_first() =~= Seq::<LessonView>::empty());
        assert(max_end(s.push(x).drop_first()) == 0);
        assert(max_end(s.push(x)) == x.time_range.end as int);
        assert(s =~= Seq::<LessonView>::empty());
        assert(max_end(s) == 0);
    } else {
        lemma_max_end_push(s.drop_first(), x);
        assert(s.push(x).drop_first() =~= s.drop_first().push(x));
        assert(s.push(x)[0] == s[0]);
    }
}

pub proof fn lemma_max_end_ge(s: Seq<LessonView>, k: int)
    requires
        0 <= k < s.len(),
    ensures
        max_end(s) >= s[k].time_range.end,
    decreases s.len(),
{
    if k > 0 {
        lemma_max_end_ge(s.drop_first(), k - 1);
    }
}

/// Structural facts about `fill_gaps` over a sorted, well-formed day.
proof fn lemma_fill_gaps_props(s: Seq<LessonView>)
    requires
        sorted_by(s, by_start()),
        all_wf(s),
    ensures
        sorted_by(fill_gaps(s), by_start()),
        all_wf(fill_gaps(s)),
        chained(fill_gaps(s)),
        s.len() > 0 ==> fill_gaps(s).len() > 0 && fill_gaps(s)[0] == s[0],
        forall|x: LessonView| s.contains(x) ==> fill_gaps(s).contains(x),
        forall|x: LessonView|
            fill_gaps(s).contains(x) ==> s.contains(x) || (x.kind == "Break"@
                && x.entities.len() == 0),
        max_end(fill_gaps(s)) == max_end(s),
    decreases s.len(),
{
    if s.len() <= 1 {
    } else {
        let rest = s.drop_first();
        assert forall|i: int, j: int| 0 <= i < j < rest.len() implies leq_start(
            rest[i],
            rest[j],
        ) by {
            assert(leq_start(s[i + 1], s[j + 1]));
        }
        assert(sorted_by(rest, by_start()));
        assert(all_wf(rest));
        lemma_fill_gaps_props(rest);
        let f = fill_gaps(s);
        let fr = fill_gaps(rest);
        let head = if s[0].time_range.end < s[1].time_range.start {
            seq![s[0], break_view(s[0].time_range.end, s[1].time_range.start)]
        } else {
            seq![s[0]]
        };
        assert(f =~= head + fr);
        assert(fr[0] == s[1]);
        // every element of fr comes from rest or is a break, and rest is sorted
        // after s[1], so everything in fr starts no earlier than s[1]
        assert forall|k: int| 0 <= k < fr.len() implies fr[k].time_range.start
            >= s[1].time_range.start && fr[k].time_range.wf() by {
            assert(fr.contains(fr[k]));
            if rest.contains(fr[k]) {
                let m = choose|m: int| 0 <= m < rest.len() && rest[m] == fr[k];
                assert(leq_start(rest[0], rest[m]));
            } else {
                // a break between two members of rest
                assert(sorted_by(fr, by_start()));
                assert(leq_start(fr[0], fr[k]));
            }
        }
        assert forall|i: int, j: int| 0 <= i < j < f.len() implies leq_start(f[i], f[j]) by {
            if i < head.len() && j >= head.len() {
                assert(f[j] == fr[j - head.len()]);
                assert(f[j].time_range.start >= s[1].time_range.start);
                assert(leq_start(s[0], s[1]));
            } else if i >= head.len() {
                assert(leq_start(fr[i - head.len()], fr[j - head.len()]));
            }
        }
        assert forall|k: int| 0 <= k < f.len() - 1 implies (#[trigger] f[k + 1]).time_range.start
            <= f[k].time_range.end by {
            if k + 1 >= head.len() + 1 {
                assert(f[k] == fr[k - head.len()]);
                assert(f[k + 1] == fr[k + 1 - head.len()]);
                assert(chained(fr));
                assert(fr[k - head.len() + 1].time_range.start <= fr[k
                    - head.len()].time_range.end);
            } else if k + 1 == head.len() {
                assert(f[k + 1] == fr[0]);
            }
        }
        assert forall|x: LessonView| s.contains(x) implies f.contains(x) by {
            let m = choose|m: int| 0 <= m < s.len() && s[m] == x;
            if m == 0 {
                assert(f[0] == x);
            } else {
                assert(rest[m - 1] == x);
                assert(rest.contains(x));
                assert(fr.contains(x));
                let n = choose|n: int| 0 <= n < fr.len() && fr[n] == x;
                assert(f[head.len() + n] == x);
            }
        }
        assert forall|x: LessonView| f.contains(x) implies s.contains(x) || (x.kind == "Break"@
            && x.entities.len() == 0) by {
            let m = choose|m: int| 0 <= m < f.len() && f[m] == x;
            if m >= head.len() {
                assert(fr[m - head.len()] == x);
                assert(fr.contains(x));
                if rest.contains(x) {
                    let n = choose|n: int| 0 <= n < rest.len() && rest[n] == x;
                    assert(s[n + 1] == x);
                }
            } else if m == 0 {
                assert(s[0] == x);
            } else {
                assert(x == break_view(s[0].time_range.end, s[1].time_range.start));
                assert(x.kind == "Break"@ && x.entities.len() == 0);
            }
        }
        // max end is unchanged: breaks end exactly where a real block starts
        assert(max_end(f) == max_end(s)) by {
            if s[0].time_range.end < s[1].time_range.start {
                let b = break_view(s[0].time_range.end, s[1].time_range.start);
                assert(f.drop_first() =~= seq![b] + fr);
                assert((seq![b] + fr).drop_first() =~= fr);
                lemma_max_end_ge(fr, 0);
                assert(max_end(fr) >= s[1].time_range.end);
                assert(b.time_range.end <= s[1].time_range.start);
                assert(s[1].time_range.wf());
                assert(max_end(seq![b] + fr) == max_end(fr));
                assert(s.drop_first() == rest);
                assert(max_end(f) == max_end(s));
            } else {
                assert(f.drop_first() =~= fr);
                assert(max_end(f) == max_end(s));
            }
        }
    }
}

/// A chained, well-formed day covers everything from its first start to its
/// latest end.
proof fn lemma_chained_covers(s: Seq<LessonView>, t: int)
    requires
        chained(s),
        all_wf(s),
        s.len() > 0,
        s[0].time_range.start <= t < max_end(s),
    ensures
        covers(s, t),
    decreases s.len(),
{
    if t < s[0].time_range.end {
        assert(covers(s, t));
    } else {
        let rest = s.drop_first();
        if s.len() == 1 {
            assert(max_end(rest) == 0);
            assert(false);
        }
        assert(rest.len() > 0);
        assert forall|k: int| 0 <= k < rest.len() - 1 implies (#[trigger] rest[k
            + 1]).time_range.start <= rest[k].time_range.end by {
            assert(s[k + 1 + 1].time_range.start <= s[k + 1].time_range.end);
        }
        assert(chained(rest));
        assert(rest[0].time_range.start <= s[0].time_range.end <= t);
        assert(t < max_end(rest));
        lemma_chained_covers(rest, t);
        let k = choose|k: int|
            0 <= k < rest.len() && (#[trigger] rest[k]).time_range.start <= t
                < rest[k].time_range.end;
        assert(s[k + 1].time_range.start <= t < s[k + 1].time_range.end);
    }
}

/// Gap coverage: after gap filling, the day's blocks are sorted and chained,
/// they keep every input block, every added block is a break, and every
/// instant from the first block's start (the day floor, when a leading break
/// was added) up to the latest end is covered by some block.
pub proof fn lemma_gap_coverage(lessons: Seq<LessonView>, earliest: u64)
    requires
        earliest < 1440,
        all_wf(lessons),
    ensures
        sorted_by(fill_breaks_spec(lessons, earliest), by_start()),
        chained(fill_breaks_spec(lessons, earliest)),
        all_wf(fill_breaks_spec(lessons, earliest)),
        forall|x: LessonView| lessons.contains(x) ==> fill_breaks_spec(lessons, earliest).contains(x),
        forall|x: LessonView|
            fill_breaks_spec(lessons, earliest).contains(x) ==> lessons.contains(x) || (x.kind
                == "Break"@ && x.entities.len() == 0),
        lessons.len() > 0 ==> {
            let out = fill_breaks_spec(lessons, earliest);
            let s0 = sort_spec(lessons, by_start())[0].time_range.start;
            &&& out.len() > 0
            &&& out[0].time_range.start == (if s0 % 1440 > earliest {
                day_floor(s0, earliest)
            } else {
                s0 as int
            })
            &&& max_end(out) == max_end(sort_spec(lessons, by_start()))
            &&& forall|t: int| out[0].time_range.start <= t < max_end(out) ==> covers(out, t)
        },
{
    assert(total_preorder(by_start()));
    lemma_sort_spec_ensures(lessons, by_start());
    let sorted = sort_spec(lessons, by_start());
    assert(all_wf(sorted)) by {
        assert forall|k: int| 0 <= k < sorted.len() implies (#[trigger] sorted[k]).time_range.wf() by {
            lemma_sort_spec_contains(lessons, by_start(), sorted[k]);
            assert(sorted.contains(sorted[k]));
            let m = choose|m: int| 0 <= m < lessons.len() && lessons[m] == sorted[k];
        }
    }
    lemma_fill_gaps_props(sorted);
    let out = fill_breaks_spec(lessons, earliest);
    assert forall|x: LessonView| lessons.contains(x) implies out.contains(x) by {
        lemma_sort_spec_contains(lessons, by_start(), x);
        assert(fill_gaps(sorted).contains(x));
        let n = choose|n: int| 0 <= n < fill_gaps(sorted).len() && fill_gaps(sorted)[n] == x;
        if sorted.len() > 0 && sorted[0].time_range.start % 1440 > earliest {
            assert(out[n + 1] == x);
        }
    }
    assert forall|x: LessonView| out.contains(x) implies lessons.contains(x) || (x.kind == "Break"@
        && x.entities.len() == 0) by {
        let m = choose|m: int| 0 <= m < out.len() && out[m] == x;
        if sorted.len() > 0 && sorted[0].time_range.start % 1440 > earliest {
            if m == 0 {
                assert(x == break_view(
                    (sorted[0].time_range.start - sorted[0].time_range.start % 1440
                        + earliest) as u64,
                    sorted[0].time_range.start,
                ));
            } else {
                assert(fill_gaps(sorted)[m - 1] == x);
                assert(fill_gaps(sorted).contains(x));
                if sorted.contains(x) {
                    lemma_sort_spec_contains(lessons, by_start(), x);
                }
            }
        } else {
            assert(fill_gaps(sorted).contains(x));
            if sorted.contains(x) {
                lemma_sort_spec_contains(lessons, by_start(), x);
            }
        }
    }
    if lessons.len() > 0 {
        let s0 = sorted[0].time_range.start;
        let f = fill_gaps(sorted);
        if s0 % 1440 > earliest {
            let b = break_view((s0 - s0 % 1440 + earliest) as u64, s0);
            assert(out =~= seq![b] + f);
            assert(b.time_range.wf());
            assert(out.drop_first() =~= f);
            assert(max_end(out) == max_end(sorted)) by {
                lemma_max_end_ge(f, 0);
                assert(max_end(f) >= f[0].time_range.end);
                assert(f[0] == sorted[0]);
                assert(b.time_range.end <= f[0].time_range.end);
            }
            assert forall|i: int, j: int| 0 <= i < j < out.len() implies leq_start(
                out[i],
                out[j],
            ) by {
                if i == 0 {
                    assert(out[j] == f[j - 1]);
                    assert(leq_start(f[0], f[j - 1]) || j == 1);
                    assert(b.time_range.start <= s0);
                } else {
                    assert(leq_start(f[i - 1], f[j - 1]));
                }
            }
            assert(chained(out)) by {
                assert forall|k: int| 0 <= k < out.len() - 1 implies (
                #[trigger] out[k + 1]).time_range.start <= out[k].time_range.end by {
                    if k == 0 {
                        assert(out[1] == f[0]);
                        assert(f[0] == sorted[0]);
                    } else {
                        assert(out[k] == f[k - 1]);
                        assert(out[k + 1] == f[k]);
                        assert(chained(f));
                        assert(f[k - 1 + 1].time_range.start <= f[k - 1].time_range.end);
                    }
                }
            }
            assert(all_wf(out)) by {
                assert forall|k: int| 0 <= k < out.len() implies (
                #[trigger] out[k]).time_range.wf() by {
                    if k > 0 {
                        assert(out[k] == f[k - 1]);
                        assert(all_wf(f));
                        assert(f[k - 1].time_range.wf());
                    }
                }
            }
            assert forall|t: int| out[0].time_range.start <= t < max_end(out) implies covers(
                out,
                t,
            ) by {
                lemma_chained_covers(out, t);
            }
        } else {
            assert(out =~= f);
            assert(out[0] == sorted[0]);
            assert forall|t: int| out[0].time_range.start <= t < max_end(out) implies covers(
                out,
                t,
            ) by {
                lemma_chained_covers(out, t);
            }
        }
    }
}

/// When no two input blocks overlap, gap filling produces an exact partition:
/// every block ends exactly where the next one starts.
pub proof fn lemma_gap_exact_partition(lessons: Seq<LessonView>, earliest: u64)
    requires
        earliest < 1440,
        all_wf(lessons),
        forall|i: int, j: int|
            0 <= i < lessons.len() && 0 <= j < lessons.len() && i != j ==> !(
            #[trigger] lessons[i].time_range).spec_overlaps(#[trigger] lessons[j].time_range),
    ensures
        forall|k: int|
            0 <= k < fill_breaks_spec(lessons, earliest).len() - 1 ==> (#[trigger] fill_breaks_spec(
                lessons,
                earliest,
            )[k + 1]).time_range.start == fill_breaks_spec(lessons, earliest)[k].time_range.end,
{
    assert(total_preorder(by_start()));
    lemma_sort_spec_ensures(lessons, by_start());
    let sorted = sort_spec(lessons, by_start());
    assert(all_wf(sorted) && forall|i: int, j: int|
        0 <= i < sorted.len() && 0 <= j < sorted.len() && i != j ==> !(
        #[trigger] sorted[i].time_range).spec_overlaps(#[trigger] sorted[j].time_range)) by {
        broadcast use vstd::seq_lib::group_to_multiset_ensures;

        assert forall|k: int| 0 <= k < sorted.len() implies (#[trigger] sorted[k]).time_range.wf() by {
            assert(sorted.contains(sorted[k]));
            lemma_sort_spec_contains(lessons, by_start(), sorted[k]);
            let m = choose|m: int| 0 <= m < lessons.len() && lessons[m] == sorted[k];
        }
        assert forall|i: int, j: int|
            0 <= i < sorted.len() && 0 <= j < sorted.len() && i != j implies !(
        #[trigger] sorted[i].time_range).spec_overlaps(#[trigger] sorted[j].time_range) by {
            if sorted[i] == sorted[j] {
                // two distinct positions holding the same well-formed block
                // would overlap themselves; multiset counts rule that out
                // unless the input already held two copies, which overlap too
                let a = sorted[i];
                assert(sorted.to_multiset().count(a) >= 2) by {
                    let without = sorted.remove(i);
                    assert(without.to_multiset() == sorted.to_multiset().remove(a));
                    if i < j {
                        assert(without[j - 1] == a);
                    } else {
                        assert(without[j] == a);
                    }
                    assert(without.contains(a));
                    assert(without.to_multiset().count(a) > 0);
                }
                assert(lessons.to_multiset().count(a) >= 2);
                let i0 = choose|i0: int| 0 <= i0 < lessons.len() && lessons[i0] == a;
                let without0 = lessons.remove(i0);
                assert(without0.to_multiset() == lessons.to_multiset().remove(a));
                assert(without0.to_multiset().count(a) > 0);
                assert(without0.contains(a));
                let j1 = choose|j1: int| 0 <= j1 < without0.len() && without0[j1] == a;
                let j0 = if j1 < i0 {
                    j1
                } else {
                    j1 + 1
                };
                assert(lessons[j0] == a && j0 != i0);
                assert(!lessons[i0].time_range.spec_overlaps(lessons[j0].time_range));
                assert(a.time_range.wf());
                assert(false);
            } else {
                lemma_sort_spec_contains(lessons, by_start(), sorted[i]);
                lemma_sort_spec_contains(lessons, by_start(), sorted[j]);
                let a = choose|a: int| 0 <= a < lessons.len() && lessons[a] == sorted[i];
                let b = choose|b: int| 0 <= b < lessons.len() && lessons[b] == sorted[j];
                assert(a != b);
                assert(!lessons[a].time_range.spec_overlaps(lessons[b].time_range));
            }
        }
    }
    lemma_gap_partition_sorted(sorted);
    let f = fill_gaps(sorted);
    let out = fill_breaks_spec(lessons, earliest);
    if sorted.len() > 0 && sorted[0].time_range.start % 1440 > earliest {
        let b = break_view(
            (sorted[0].time_range.start - sorted[0].time_range.start % 1440 + earliest) as u64,
            sorted[0].time_range.start,
        );
        assert(out =~= seq![b] + f);
        lemma_fill_gaps_props(sorted);
        assert forall|k: int| 0 <= k < out.len() - 1 implies (#[trigger] out[k
            + 1]).time_range.start == out[k].time_range.end by {
            if k == 0 {
                assert(out[1] == f[0]);
                assert(f[0] == sorted[0]);
            } else {
                assert(out[k] == f[k - 1] && out[k + 1] == f[k]);
                assert(f[k - 1 + 1].time_range.start == f[k - 1].time_range.end);
            }
        }
    } else {
        if sorted.len() > 0 {
            assert(out =~= f);
        }
    }
}

/// Over a sorted, pairwise non-overlapping day, consecutive blocks of the gap
/// filling abut exactly.
proof fn lemma_gap_partition_sorted(s: Seq<LessonView>)
    requires
        sorted_by(s, by_start()),
        all_wf(s),
        forall|i: int, j: int|
            0 <= i < s.len() && 0 <= j < s.len() && i != j ==> !(
            #[trigger] s[i].time_range).spec_overlaps(#[trigger] s[j].time_range),
    ensures
        forall|k: int|
            0 <= k < fill_gaps(s).len() - 1 ==> (#[trigger] fill_gaps(s)[k + 1]).time_range.start
                == fill_gaps(s)[k].time_range.end,
    decreases s.len(),
{
    if s.len() <= 1 {
    } else {
        let rest = s.drop_first();
        assert forall|i: int, j: int| 0 <= i < j < rest.len() implies leq_start(
            rest[i],
            rest[j],
        ) by {
            assert(leq_start(s[i + 1], s[j + 1]));
        }
        assert(sorted_by(rest, by_start()));
        assert(forall|i: int, j: int|
            0 <= i < rest.len() && 0 <= j < rest.len() && i != j ==> !(
            #[trigger] rest[i].time_range).spec_overlaps(#[trigger] rest[j].time_range));
        lemma_gap_partition_sorted(rest);
        let f = fill_gaps(s);
        let fr = fill_gaps(rest);
        assert(fr.len() > 0 && fr[0] == s[1]) by {
            lemma_fill_gaps_props(rest);
        }
        // consecutive distinct non-overlapping blocks in start order abut or
        // leave a genuine gap
        assert(!s[0].time_range.spec_overlaps(s[1].time_range));
        assert(leq_start(s[0], s[1]));
        assert(s[0].time_range.end <= s[1].time_range.start);
        let head = if s[0].time_range.end < s[1].time_range.start {
            seq![s[0], break_view(s[0].time_range.end, s[1].time_range.start)]
        } else {
            seq![s[0]]
        };
        assert(f =~= head + fr);
        assert forall|k: int| 0 <= k < f.len() - 1 implies (#[trigger] f[k + 1]).time_range.start
            == f[k].time_range.end by {
            if k >= head.len() {
                assert(f[k] == fr[k - head.len()] && f[k + 1] == fr[k + 1 - head.len()]);
                assert(fr[k - head.len() + 1].time_range.start == fr[k - head.len()].time_range.end);
            } else if k == head.len() - 1 {
                assert(f[k + 1] == fr[0]);
            }
        }
    }
}

} // verus!
