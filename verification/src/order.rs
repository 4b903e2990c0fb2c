//! Stable sorting of lesson blocks, pinned down by recursive spec functions:
//! sorting by ascending start time, and sorting by descending duration with
//! ascending start time as tie break (the order used inside an overlap group).
use vstd::prelude::*;
use vstd::multiset::Multiset;
use crate::model::{clone_lesson, LessonBlock, LessonView};

verus! {

/// Ascending start times.
pub open spec fn leq_start(a: LessonView, b: LessonView) -> bool {
    a.time_range.start <= b.time_range.start
}

pub open spec fn duration_of(a: LessonView) -> int {
    a.time_range.end - a.time_range.start
}

/// Descending duration, then ascending start time.
pub open spec fn leq_priority(a: LessonView, b: LessonView) -> bool {
    duration_of(a) > duration_of(b) || (duration_of(a) == duration_of(b)
        && a.time_range.start <= b.time_range.start)
}

/// The start-time order as a spec closure, usable as a `spec_fn` value.
pub open spec fn by_start() -> spec_fn(LessonView, LessonView) -> bool {
    |a: LessonView, b: LessonView| leq_start(a, b)
}

/// The in-group order as a spec closure, usable as a `spec_fn` value.
pub open spec fn by_priority() -> spec_fn(LessonView, LessonView) -> bool {
    |a: LessonView, b: LessonView| leq_priority(a, b)
}

pub open spec fn sorted_by(s: Seq<LessonView>, leq: spec_fn(LessonView, LessonView) -> bool) -> bool {
    forall|i: int, j: int| 0 <= i < j < s.len() ==> leq(s[i], s[j])
}

/// A total preorder: enough for insertion sort to produce a sorted sequence.
pub open spec fn total_preorder(leq: spec_fn(LessonView, LessonView) -> bool) -> bool {
    &&& forall|a: LessonView, b: LessonView| #[trigger] leq(a, b) || #[trigger] leq(b, a)
    &&& forall|a: LessonView, b: LessonView, c: LessonView| #[trigger] leq(a, b) && #[trigger] leq(b, c)
        ==> leq(a, c)
}

/// Insert `x` after every element that is `leq` it: the stable position.
pub open spec fn insert_sorted(
    s: Seq<LessonView>,
    x: LessonView,
    leq: spec_fn(LessonView, LessonView) -> bool,
) -> Seq<LessonView>
    decreases s.len(),
{
    if s.len() == 0 {
        seq![x]
    } else if leq(s.last(), x) {
        s.push(x)
    } else {
        insert_sorted(s.drop_last(), x, leq).push(s.last())
    }
}

/// Stable insertion sort, processing elements left to right.
pub open spec fn sort_spec(
    s: Seq<LessonView>,
    leq: spec_fn(LessonView, LessonView) -> bool,
) -> Seq<LessonView>
    decreases s.len(),
{
    if s.len() == 0 {
        Seq::empty()
    } else {
        insert_sorted(sort_spec(s.drop_last(), leq), s.last(), leq)
    }
}

pub proof fn lemma_insert_sorted_multiset(
    s: Seq<LessonView>,
    x: LessonView,
    leq: spec_fn(LessonView, LessonView) -> bool,
)
    ensures
        insert_sorted(s, x, leq).to_multiset() == s.to_multiset().insert(x),
        insert_sorted(s, x, leq).len() == s.len() + 1,
    decreases s.len(),
{
    broadcast use vstd::seq_lib::group_to_multiset_ensures;

    if s.len() == 0 {
        assert(seq![x] =~= Seq::empty().push(x));
        assert(Seq::<LessonView>::empty().to_multiset() =~= Multiset::empty());
        assert(insert_sorted(s, x, leq).to_multiset() =~= s.to_multiset().insert(x));
    } else if leq(s.last(), x) {
        assert(s.push(x).to_multiset() =~= s.to_multiset().insert(x));
    } else {
        lemma_insert_sorted_multiset(s.drop_last(), x, leq);
        assert(s =~= s.drop_last().push(s.last()));
        assert(s.to_multiset() =~= s.drop_last().to_multiset().insert(s.last()));
        assert(insert_sorted(s, x, leq).to_multiset() =~= insert_sorted(
            s.drop_last(),
            x,
            leq,
        ).to_multiset().insert(s.last()));
        assert(insert_sorted(s, x, leq).to_multiset() =~= s.to_multiset().insert(x));
    }
}

pub proof fn lemma_insert_sorted_sorted(
    s: Seq<LessonView>,
    x: LessonView,
    leq: spec_fn(LessonView, LessonView) -> bool,
)
    requires
        total_preorder(leq),
        sorted_by(s, leq),
    ensures
        sorted_by(insert_sorted(s, x, leq), leq),
    decreases s.len(),
{
    broadcast use vstd::seq_lib::group_to_multiset_ensures;

    if s.len() == 0 {
    } else if leq(s.last(), x) {
        let r = s.push(x);
        assert forall|i: int, j: int| 0 <= i < j < r.len() implies leq(r[i], r[j]) by {
            if j == r.len() - 1 {
                if i < s.len() - 1 {
                    assert(leq(s[i], s.last()));
                }
            }
        }
    } else {
        lemma_insert_sorted_sorted(s.drop_last(), x, leq);
        lemma_insert_sorted_multiset(s.drop_last(), x, leq);
        let inner = insert_sorted(s.drop_last(), x, leq);
        let r = inner.push(s.last());
        assert forall|i: int, j: int| 0 <= i < j < r.len() implies leq(r[i], r[j]) by {
            if j == r.len() - 1 {
                // every element of `inner` is either from `s.drop_last()` or is `x`,
                // and both are leq the last element of `s`
                assert(inner.to_multiset().contains(inner[i]));
                assert(s.drop_last().to_multiset().insert(x).contains(inner[i]));
                if inner[i] == x {
                    assert(leq(x, s.last()));
                } else {
                    assert(s.drop_last().to_multiset().contains(inner[i]));
                    assert(s.drop_last().contains(inner[i]));
                    let k = choose|k: int|
                        0 <= k < s.drop_last().len() && s.drop_last()[k] == inner[i];
                    assert(leq(s[k], s.last()));
                }
            }
        }
    }
}

pub proof fn lemma_sort_spec_ensures(
    s: Seq<LessonView>,
    leq: spec_fn(LessonView, LessonView) -> bool,
)
    requires
        total_preorder(leq),
    ensures
        sorted_by(sort_spec(s, leq), leq),
        sort_spec(s, leq).to_multiset() == s.to_multiset(),
        sort_spec(s, leq).len() == s.len(),
    decreases s.len(),
{
    broadcast use vstd::seq_lib::group_to_multiset_ensures;

    if s.len() == 0 {
        assert(Seq::<LessonView>::empty().to_multiset() =~= Multiset::empty());
    } else {
        lemma_sort_spec_ensures(s.drop_last(), leq);
        lemma_insert_sorted_sorted(sort_spec(s.drop_last(), leq), s.last(), leq);
        lemma_insert_sorted_multiset(sort_spec(s.drop_last(), leq), s.last(), leq);
        assert(s =~= s.drop_last().push(s.last()));
        assert(s.to_multiset() =~= s.drop_last().to_multiset().insert(s.last()));
    }
}

/// Everything a sorted sequence holds comes from the input, and conversely.
pub proof fn lemma_sort_spec_contains(
    s: Seq<LessonView>,
    leq: spec_fn(LessonView, LessonView) -> bool,
    x: LessonView,
)
    requires
        total_preorder(leq),
    ensures
        sort_spec(s, leq).contains(x) <==> s.contains(x),
{
    broadcast use vstd::seq_lib::group_to_multiset_ensures;

    lemma_sort_spec_ensures(s, leq);
    assert(sort_spec(s, leq).contains(x) <==> sort_spec(s, leq).to_multiset().count(x) > 0);
    assert(s.contains(x) <==> s.to_multiset().count(x) > 0);
}

/// Inserting at the stable position: splitting a sorted sequence at the first
/// index whose element is not `leq x` is exactly `insert_sorted`.
proof fn lemma_insert_sorted_split(
    s: Seq<LessonView>,
    x: LessonView,
    leq: spec_fn(LessonView, LessonView) -> bool,
    j: int,
)
    requires
        total_preorder(leq),
        sorted_by(s, leq),
        0 <= j <= s.len(),
        forall|k: int| 0 <= k < j ==> leq(s[k], x),
        j < s.len() ==> !leq(s[j], x),
    ensures
        insert_sorted(s, x, leq) == s.take(j) + seq![x] + s.skip(j),
    decreases s.len(),
{
    if s.len() == 0 {
        assert(insert_sorted(s, x, leq) =~= s.take(j) + seq![x] + s.skip(j));
    } else if leq(s.last(), x) {
        // x belongs at the very end, so j must be s.len()
        if j < s.len() {
            assert(leq(s[j], x));
        }
        assert(j == s.len());
        assert(insert_sorted(s, x, leq) =~= s.take(j) + seq![x] + s.skip(j));
    } else {
        assert(j < s.len());
        lemma_insert_sorted_split(s.drop_last(), x, leq, j);
        assert(insert_sorted(s, x, leq) =~= insert_sorted(s.drop_last(), x, leq).push(s.last()));
        assert(insert_sorted(s.drop_last(), x, leq) =~= s.drop_last().take(j) + seq![x]
            + s.drop_last().skip(j));
        assert(s.drop_last().take(j) =~= s.take(j));
        assert(s.drop_last().skip(j).push(s.last()) =~= s.skip(j));
        assert(insert_sorted(s, x, leq) =~= s.take(j) + seq![x] + s.skip(j));
    }
}

/// Stable sort by ascending start time.
pub fn sort_lessons_by_start(v: Vec<LessonBlock>) -> (r: Vec<LessonBlock>)
    ensures
        r.deep_view() == sort_spec(v.deep_view(), by_start()),
{
    let mut out: Vec<LessonBlock> = Vec::new();
    let mut i: usize = 0;
    proof {
        assert(v.deep_view().take(0) =~= Seq::empty());
    }
    while i < v.len()
        invariant
            i <= v.len(),
            out.deep_view() == sort_spec(v.deep_view().take(i as int), by_start()),
            sorted_by(out.deep_view(), by_start()),
        decreases v.len() - i,
    {
        proof {
            assert(total_preorder(by_start()));
        }
        let x = clone_lesson(&v[i]);
        let mut j: usize = out.len();
        while j > 0 && out[j - 1].time_range.start > x.time_range.start
            invariant
                j <= out.len(),
                x@ == v.deep_view()[i as int],
                sorted_by(out.deep_view(), by_start()),
                forall|k: int| j <= k < out.len() ==> !leq_start(out.deep_view()[k], x@),
            decreases j,
        {
            proof {
                assert(!leq_start(out.deep_view()[j - 1], x@));
            }
            j -= 1;
        }
        proof {
            if j > 0 {
                assert(leq_start(out.deep_view()[j - 1], x@));
                assert forall|k: int| 0 <= k < j implies leq_start(out.deep_view()[k], x@) by {
                    if k < j - 1 {
                        assert(leq_start(out.deep_view()[k], out.deep_view()[j - 1]));
                    }
                }
            }
            lemma_insert_sorted_split(out.deep_view(), x@, by_start(), j as int);
            lemma_insert_sorted_sorted(out.deep_view(), x@, by_start());
        }
        let ghost prev = out.deep_view();
        out.insert(j, x);
        proof {
            assert(out.deep_view() =~= prev.take(j as int) + seq![v.deep_view()[i as int]]
                + prev.skip(j as int));
            assert(v.deep_view().take(i + 1).drop_last() =~= v.deep_view().take(i as int));
            assert(v.deep_view().take(i + 1).last() == v.deep_view()[i as int]);
            assert(out.deep_view() == sort_spec(v.deep_view().take(i + 1), by_start()));
        }
        i += 1;
    }
    proof {
        assert(v.deep_view().take(v.len() as int) =~= v.deep_view());
    }
    out
}

/// Stable sort by descending duration, then ascending start time.
pub fn sort_lessons_by_priority(v: Vec<LessonBlock>) -> (r: Vec<LessonBlock>)
    ensures
        r.deep_view() == sort_spec(v.deep_view(), by_priority()),
{
    let mut out: Vec<LessonBlock> = Vec::new();
    let mut i: usize = 0;
    proof {
        assert(v.deep_view().take(0) =~= Seq::empty());
    }
    while i < v.len()
        invariant
            i <= v.len(),
            out.deep_view() == sort_spec(v.deep_view().take(i as int), by_priority()),
            sorted_by(out.deep_view(), by_priority()),
        decreases v.len() - i,
    {
        proof {
            assert(total_preorder(by_priority()));
        }
        let x = clone_lesson(&v[i]);
        // compare durations by cross addition, which cannot wrap in u128
        let xs = x.time_range.start as u128;
        let xe = x.time_range.end as u128;
        let mut j: usize = out.len();
        while j > 0 && (out[j - 1].time_range.end as u128 + xs < xe + out[j
            - 1].time_range.start as u128 || (out[j - 1].time_range.end as u128 + xs == xe + out[j
            - 1].time_range.start as u128 && out[j - 1].time_range.start > x.time_range.start))
            invariant
                j <= out.len(),
                x@ == v.deep_view()[i as int],
                xs == x@.time_range.start,
                xe == x@.time_range.end,
                sorted_by(out.deep_view(), by_priority()),
                forall|k: int| j <= k < out.len() ==> !leq_priority(out.deep_view()[k], x@),
            decreases j,
        {
            proof {
                assert(!leq_priority(out.deep_view()[j - 1], x@));
            }
            j -= 1;
        }
        proof {
            if j > 0 {
                assert(leq_priority(out.deep_view()[j - 1], x@));
                assert forall|k: int| 0 <= k < j implies leq_priority(out.deep_view()[k], x@) by {
                    if k < j - 1 {
                        assert(leq_priority(out.deep_view()[k], out.deep_view()[j - 1]));
                    }
                }
            }
            lemma_insert_sorted_split(out.deep_view(), x@, by_priority(), j as int);
            lemma_insert_sorted_sorted(out.deep_view(), x@, by_priority());
        }
        let ghost prev = out.deep_view();
        out.insert(j, x);
        proof {
            assert(out.deep_view() =~= prev.take(j as int) + seq![v.deep_view()[i as int]]
                + prev.skip(j as int));
            assert(v.deep_view().take(i + 1).drop_last() =~= v.deep_view().take(i as int));
            assert(v.deep_view().take(i + 1).last() == v.deep_view()[i as int]);
            assert(out.deep_view() == sort_spec(v.deep_view().take(i + 1), by_priority()));
        }
        i += 1;
    }
    proof {
        assert(v.deep_view().take(v.len() as int) =~= v.deep_view());
    }
    out
}

} // verus!
