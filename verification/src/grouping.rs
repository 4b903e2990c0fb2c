//! Overlap grouping: partition a day's blocks into maximal clusters of
//! transitively overlapping blocks.  Two blocks that do not overlap land in
//! one group whenever a chain of pairwise overlapping blocks joins them.
use vstd::prelude::*;
use vstd::multiset::Multiset;
use crate::model::{LessonBlock, LessonView};
use crate::order::{
    by_priority, by_start, leq_start, lemma_sort_spec_ensures, sort_lessons_by_priority,
    sort_lessons_by_start, sort_spec, sorted_by, total_preorder,
};
use crate::gaps::all_wf;

verus! {

/// Concatenation of all groups, in order.
pub open spec fn groups_flatten(gs: Seq<Seq<LessonView>>) -> Seq<LessonView>
    decreases gs.len(),
{
    if gs.len() == 0 {
        Seq::empty()
    } else {
        groups_flatten(gs.drop_last()) + gs.last()
    }
}

/// Every block of `a` ends no later than any block of `b` starts.
pub open spec fn sep_before(a: Seq<LessonView>, b: Seq<LessonView>) -> bool {
    forall|x: LessonView, y: LessonView|
        #[trigger] a.contains(x) && #[trigger] b.contains(y) ==> x.time_range.end
            <= y.time_range.start
}

/// A time instant that splits the blocks into a nonempty earlier part and a
/// nonempty later part, no block crossing it: the group would fall apart
/// there.
pub open spec fn has_cut(g: Seq<LessonView>, t: int) -> bool {
    &&& forall|k: int|
        0 <= k < g.len() ==> ((#[trigger] g[k]).time_range.end <= t || g[k].time_range.start >= t)
    &&& exists|k: int| 0 <= k < g.len() && (#[trigger] g[k]).time_range.end <= t
    &&& exists|k: int| 0 <= k < g.len() && (#[trigger] g[k]).time_range.start >= t
}

/// No instant splits the group: its blocks overlap transitively.
pub open spec fn cut_free(g: Seq<LessonView>) -> bool {
    forall|t: int| !has_cut(g, t)
}

/// Multiset membership and sequence membership coincide.
proof fn lemma_contains_transfer(a: Seq<LessonView>, b: Seq<LessonView>, x: LessonView)
    requires
        a.to_multiset() == b.to_multiset(),
        a.contains(x),
    ensures
        b.contains(x),
{
    broadcast use vstd::seq_lib::group_to_multiset_ensures;

    assert(a.to_multiset().count(x) > 0);
    assert(b.to_multiset().count(x) > 0);
}

proof fn lemma_single_multiset(x: LessonView)
    ensures
        seq![x].to_multiset() == Multiset::<LessonView>::empty().insert(x),
{
    broadcast use vstd::seq_lib::group_to_multiset_ensures;
    broadcast use vstd::multiset::lemma_multiset_empty_len;

    assert(seq![x] =~= Seq::<LessonView>::empty().push(x));
    assert(Seq::<LessonView>::empty().to_multiset().len() == 0);
    assert(Seq::<LessonView>::empty().to_multiset() =~= Multiset::<LessonView>::empty());
    assert(Seq::<LessonView>::empty().push(x).to_multiset() =~= Seq::<LessonView>::empty()
        .to_multiset().insert(x));
}

proof fn lemma_remove_multiset(s: Seq<LessonView>, i: int)
    requires
        0 <= i < s.len(),
    ensures
        s.remove(i).to_multiset() == s.to_multiset().remove(s[i]),
        s.to_multiset().count(s[i]) > 0,
        s.remove(i).to_multiset().insert(s[i]) == s.to_multiset(),
{
    broadcast use vstd::seq_lib::group_to_multiset_ensures;
    broadcast use vstd::multiset::group_multiset_axioms;

    assert(s.remove(i).to_multiset() =~= s.to_multiset().remove(s[i]));
    assert(s.contains(s[i]));
    assert(s.to_multiset().count(s[i]) > 0);
    assert(s.to_multiset().remove(s[i]).insert(s[i]) =~= s.to_multiset());
}

/// Adding a block that overlaps a member keeps a group transitively joined.
proof fn lemma_cut_free_extend(g: Seq<LessonView>, u: LessonView, b: LessonView)
    requires
        cut_free(g),
        g.contains(u),
        u.time_range.spec_overlaps(b.time_range),
    ensures
        cut_free(g.push(b)),
{
    let gp = g.push(b);
    assert forall|t: int| !has_cut(gp, t) by {
        if has_cut(gp, t) {
            assert(!has_cut(g, t));
            assert forall|k: int|
                0 <= k < g.len() implies ((#[trigger] g[k]).time_range.end <= t
                || g[k].time_range.start >= t) by {
                assert(gp[k] == g[k]);
            }
            let ku = choose|ku: int| 0 <= ku < g.len() && g[ku] == u;
            assert(gp[ku] == u);
            if exists|k: int| 0 <= k < g.len() && (#[trigger] g[k]).time_range.end <= t {
                // the later-part witness of the cut must then be b itself
                assert(!(exists|k: int|
                    0 <= k < g.len() && (#[trigger] g[k]).time_range.start >= t));
                let kr = choose|kr: int|
                    0 <= kr < gp.len() && (#[trigger] gp[kr]).time_range.start >= t;
                assert(kr == g.len());
                assert(b.time_range.start >= t);
                assert(u.time_range.end <= t);
                assert(b.time_range.start < u.time_range.end);
                assert(false);
            } else {
                // the earlier-part witness of the cut must be b itself
                let kl = choose|kl: int|
                    0 <= kl < gp.len() && (#[trigger] gp[kl]).time_range.end <= t;
                assert(kl == g.len());
                assert(b.time_range.end <= t);
                assert(u.time_range.start >= t);
                assert(u.time_range.start < b.time_range.end);
                assert(false);
            }
        }
    }
}

/// Being transitively joined does not depend on the order of the blocks.
proof fn lemma_cut_free_transfer(a: Seq<LessonView>, b: Seq<LessonView>)
    requires
        a.to_multiset() == b.to_multiset(),
        cut_free(a),
    ensures
        cut_free(b),
{
    broadcast use vstd::seq_lib::group_to_multiset_ensures;

    assert forall|t: int| !has_cut(b, t) by {
        if has_cut(b, t) {
            assert forall|k: int|
                0 <= k < a.len() implies ((#[trigger] a[k]).time_range.end <= t
                || a[k].time_range.start >= t) by {
                assert(a.contains(a[k]));
                lemma_contains_transfer(a, b, a[k]);
                let m = choose|m: int| 0 <= m < b.len() && b[m] == a[k];
            }
            let kl = choose|kl: int| 0 <= kl < b.len() && (#[trigger] b[kl]).time_range.end <= t;
            assert(b.contains(b[kl]));
            lemma_contains_transfer(b, a, b[kl]);
            let ml = choose|ml: int| 0 <= ml < a.len() && a[ml] == b[kl];
            let kr = choose|kr: int| 0 <= kr < b.len() && (#[trigger] b[kr]).time_range.start >= t;
            assert(b.contains(b[kr]));
            lemma_contains_transfer(b, a, b[kr]);
            let mr = choose|mr: int| 0 <= mr < a.len() && a[mr] == b[kr];
            assert(has_cut(a, t));
            assert(false);
        }
    }
}

/// Well-formedness carries across any reordering.
proof fn lemma_all_wf_transfer(a: Seq<LessonView>, b: Seq<LessonView>)
    requires
        a.to_multiset() == b.to_multiset(),
        all_wf(a),
    ensures
        all_wf(b),
{
    broadcast use vstd::seq_lib::group_to_multiset_ensures;

    assert forall|k: int| 0 <= k < b.len() implies (#[trigger] b[k]).time_range.wf() by {
        assert(b.contains(b[k]));
        lemma_contains_transfer(b, a, b[k]);
        let m = choose|m: int| 0 <= m < a.len() && a[m] == b[k];
    }
}

/// A transitively joined group covers every instant between any member start
/// and any later member end: there is no internal hole.
proof fn lemma_cut_free_covers(g: Seq<LessonView>, t: int)
    requires
        cut_free(g),
        all_wf(g),
        exists|k: int| 0 <= k < g.len() && (#[trigger] g[k]).time_range.start <= t,
        exists|k: int| 0 <= k < g.len() && (#[trigger] g[k]).time_range.end > t,
    ensures
        exists|k: int|
            0 <= k < g.len() && (#[trigger] g[k]).time_range.start <= t && t
                < g[k].time_range.end,
{
    if !(exists|k: int|
        0 <= k < g.len() && (#[trigger] g[k]).time_range.start <= t && t < g[k].time_range.end) {
        let ka = choose|ka: int| 0 <= ka < g.len() && (#[trigger] g[ka]).time_range.start <= t;
        let kb = choose|kb: int| 0 <= kb < g.len() && (#[trigger] g[kb]).time_range.end > t;
        assert(g[ka].time_range.end <= t);
        assert(g[kb].time_range.start >= t);
        assert(has_cut(g, t));
        assert(false);
    }
}

/// Partition a day's blocks into maximal transitive-overlap clusters.
///
/// Each group is ordered by descending duration with ascending start as tie
/// break; the groups themselves are time-disjoint and ordered: everything in
/// an earlier group ends no later than anything in a later group starts.
pub fn group_by_time(lessons: Vec<LessonBlock>) -> (res: Vec<Vec<LessonBlock>>)
    requires
        all_wf(lessons.deep_view()),
    ensures
        groups_flatten(res.deep_view()).to_multiset() == lessons.deep_view().to_multiset(),
        forall|k: int| 0 <= k < res.deep_view().len() ==> (#[trigger] res.deep_view()[k]).len() > 0,
        forall|k: int|
            0 <= k < res.deep_view().len() ==> sorted_by(#[trigger] res.deep_view()[k], by_priority()),
        forall|k: int| 0 <= k < res.deep_view().len() ==> cut_free(#[trigger] res.deep_view()[k]),
        forall|k1: int, k2: int|
            0 <= k1 < k2 < res.deep_view().len() ==> sep_before(
                #[trigger] res.deep_view()[k1],
                #[trigger] res.deep_view()[k2],
            ),
        forall|k1: int, k2: int, x: LessonView, y: LessonView|
            0 <= k1 < res.deep_view().len() && 0 <= k2 < res.deep_view().len() && k1 != k2
                && (#[trigger] res.deep_view()[k1].contains(x)) && (
            #[trigger] res.deep_view()[k2].contains(y)) ==> !x.time_range.spec_overlaps(
                y.time_range,
            ),
{
    broadcast use vstd::seq_lib::group_to_multiset_ensures;
    broadcast use vstd::seq_lib::lemma_multiset_commutative;

    let ghost input = lessons.deep_view();
    let mut remaining = sort_lessons_by_start(lessons);
    proof {
        assert(total_preorder(by_start()));
        lemma_sort_spec_ensures(input, by_start());
        lemma_all_wf_transfer(input, remaining.deep_view());
    }
    let mut res: Vec<Vec<LessonBlock>> = Vec::new();
    proof {
        assert(res.deep_view() =~= Seq::<Seq<LessonView>>::empty());
        assert(groups_flatten(res.deep_view()).to_multiset().add(
            remaining.deep_view().to_multiset(),
        ) =~= input.to_multiset());
    }
    while remaining.len() > 0
        invariant
            all_wf(remaining.deep_view()),
            sorted_by(remaining.deep_view(), by_start()),
            groups_flatten(res.deep_view()).to_multiset().add(remaining.deep_view().to_multiset())
                == input.to_multiset(),
            forall|k: int|
                0 <= k < res.deep_view().len() ==> (#[trigger] res.deep_view()[k]).len() > 0,
            forall|k: int|
                0 <= k < res.deep_view().len() ==> sorted_by(
                    #[trigger] res.deep_view()[k],
                    by_priority(),
                ),
            forall|k: int|
                0 <= k < res.deep_view().len() ==> cut_free(#[trigger] res.deep_view()[k]),
            forall|k: int|
                0 <= k < res.deep_view().len() ==> all_wf(#[trigger] res.deep_view()[k]),
            forall|k1: int, k2: int|
                0 <= k1 < k2 < res.deep_view().len() ==> sep_before(
                    #[trigger] res.deep_view()[k1],
                    #[trigger] res.deep_view()[k2],
                ),
            forall|k: int|
                0 <= k < res.deep_view().len() ==> sep_before(
                    #[trigger] res.deep_view()[k],
                    remaining.deep_view(),
                ),
        decreases remaining.len(),
    {
        let ghost rem0 = remaining.deep_view();
        let seed = remaining.remove(0);
        let ghost seed_v = seed@;
        proof {
            assert(remaining.deep_view() =~= rem0.drop_first());
            assert(rem0.to_multiset() == remaining.deep_view().to_multiset().insert(seed_v)) by {
                assert(remaining.deep_view() =~= rem0.remove(0));
                lemma_remove_multiset(rem0, 0);
            }
            assert forall|i2: int, j2: int|
                0 <= i2 < j2 < remaining.deep_view().len() implies leq_start(
                remaining.deep_view()[i2],
                remaining.deep_view()[j2],
            ) by {
                assert(leq_start(rem0[i2 + 1], rem0[j2 + 1]));
            }
            assert(all_wf(remaining.deep_view())) by {
                assert forall|k: int| 0 <= k < remaining.deep_view().len() implies (
                #[trigger] remaining.deep_view()[k]).time_range.wf() by {
                    assert(remaining.deep_view()[k] == rem0[k + 1]);
                }
            }
        }
        let mut group: Vec<LessonBlock> = Vec::new();
        group.push(seed);
        proof {
            assert(group.deep_view() =~= seq![seed_v]);
            assert(group.deep_view()[0] == seed_v);
            assert(group.deep_view().contains(seed_v));
            assert(cut_free(group.deep_view())) by {
                assert forall|t: int| !has_cut(seq![seed_v], t) by {
                    if has_cut(seq![seed_v], t) {
                        assert(seed_v.time_range.end <= t && seed_v.time_range.start >= t);
                        assert(rem0[0] == seed_v);
                        assert(seed_v.time_range.wf());
                        assert(false);
                    }
                }
            }
            assert(all_wf(group.deep_view())) by {
                assert(rem0[0] == seed_v);
            }
            assert(group.deep_view().to_multiset().add(remaining.deep_view().to_multiset())
                =~= rem0.to_multiset()) by {
                lemma_single_multiset(seed_v);
                broadcast use vstd::multiset::group_multiset_axioms;

            }
            // the seed starts no later than anything else drawn from this day
            assert forall|j: int| 0 <= j < remaining.deep_view().len() implies seed_v.time_range.start
                <= (#[trigger] remaining.deep_view()[j]).time_range.start by {
                assert(leq_start(rem0[0], rem0[j + 1]));
            }
            assert forall|k: int| 0 <= k < res.deep_view().len() implies sep_before(
                #[trigger] res.deep_view()[k],
                group.deep_view(),
            ) && sep_before(res.deep_view()[k], remaining.deep_view()) by {
                assert(sep_before(res.deep_view()[k], rem0));
                assert forall|x: LessonView, y: LessonView|
                    #[trigger] res.deep_view()[k].contains(x) && #[trigger] group.deep_view()
                        .contains(y) implies x.time_range.end <= y.time_range.start by {
                    assert(rem0.contains(y)) by {
                        assert(group.deep_view()[0] == seed_v && rem0[0] == seed_v);
                    }
                }
                assert forall|x: LessonView, y: LessonView|
                    #[trigger] res.deep_view()[k].contains(x) && #[trigger] remaining.deep_view()
                        .contains(y) implies x.time_range.end <= y.time_range.start by {
                    assert(rem0.contains(y)) by {
                        let j = choose|j: int|
                            0 <= j < remaining.deep_view().len() && remaining.deep_view()[j] == y;
                        assert(rem0[j + 1] == y);
                    }
                }
            }
        }
        let mut i: usize = 0;
        while i < remaining.len()
            invariant
                i <= remaining.len(),
                all_wf(remaining.deep_view()),
                all_wf(group.deep_view()),
                sorted_by(remaining.deep_view(), by_start()),
                group.deep_view().len() > 0,
                cut_free(group.deep_view()),
                group.deep_view().to_multiset().add(remaining.deep_view().to_multiset())
                    == rem0.to_multiset(),
                group.deep_view().contains(seed_v),
                forall|j: int|
                    0 <= j < remaining.deep_view().len() ==> seed_v.time_range.start <= (
                    #[trigger] remaining.deep_view()[j]).time_range.start,
                forall|j: int, x: LessonView|
                    0 <= j < i && #[trigger] group.deep_view().contains(x) ==> !(
                    #[trigger] remaining.deep_view()[j]).time_range.spec_overlaps(x.time_range),
                forall|k: int|
                    0 <= k < res.deep_view().len() ==> sep_before(
                        #[trigger] res.deep_view()[k],
                        group.deep_view(),
                    ) && sep_before(res.deep_view()[k], remaining.deep_view()),
            decreases remaining.len(), remaining.len() - i,
        {
            let mut m: usize = 0;
            while m < group.len() && !group[m].overlaps(&remaining[i])
                invariant
                    m <= group.len(),
                    i < remaining.len(),
                    forall|mm: int|
                        0 <= mm < m ==> !(#[trigger] group.deep_view()[mm]).time_range.spec_overlaps(
                            remaining.deep_view()[i as int].time_range,
                        ),
                decreases group.len() - m,
            {
                m += 1;
            }
            if m < group.len() {
                // the block joins the group through the member it overlaps
                let ghost u = group.deep_view()[m as int];
                let ghost old_rem = remaining.deep_view();
                let ghost old_group = group.deep_view();
                let b = remaining.remove(i);
                group.push(b);
                proof {
                    assert(b@ == old_rem[i as int]);
                    assert(remaining.deep_view() =~= old_rem.remove(i as int));
                    assert(group.deep_view() =~= old_group.push(b@));
                    assert(group.deep_view().contains(seed_v)) by {
                        let j = choose|j: int|
                            0 <= j < old_group.len() && old_group[j] == seed_v;
                        assert(group.deep_view()[j] == seed_v);
                    }
                    assert(u.time_range.spec_overlaps(b@.time_range));
                    assert(old_group.contains(u));
                    lemma_cut_free_extend(old_group, u, b@);
                    assert(all_wf(group.deep_view())) by {
                        assert forall|k: int| 0 <= k < group.deep_view().len() implies (
                        #[trigger] group.deep_view()[k]).time_range.wf() by {
                            if k < old_group.len() {
                                assert(group.deep_view()[k] == old_group[k]);
                            } else {
                                assert(group.deep_view()[k] == old_rem[i as int]);
                            }
                        }
                    }
                    assert forall|i2: int, j2: int|
                        0 <= i2 < j2 < remaining.deep_view().len() implies leq_start(
                        remaining.deep_view()[i2],
                        remaining.deep_view()[j2],
                    ) by {
                        let a2 = if i2 < i {
                            i2
                        } else {
                            i2 + 1
                        };
                        let b2 = if j2 < i {
                            j2
                        } else {
                            j2 + 1
                        };
                        assert(leq_start(old_rem[a2], old_rem[b2]));
                    }
                    assert(all_wf(remaining.deep_view())) by {
                        assert forall|k: int| 0 <= k < remaining.deep_view().len() implies (
                        #[trigger] remaining.deep_view()[k]).time_range.wf() by {
                            if k < i {
                                assert(remaining.deep_view()[k] == old_rem[k]);
                            } else {
                                assert(remaining.deep_view()[k] == old_rem[k + 1]);
                            }
                        }
                    }
                    assert forall|j: int| 0 <= j < remaining.deep_view().len() implies
                        seed_v.time_range.start <= (
                    #[trigger] remaining.deep_view()[j]).time_range.start by {
                        if j < i {
                            assert(remaining.deep_view()[j] == old_rem[j]);
                        } else {
                            assert(remaining.deep_view()[j] == old_rem[j + 1]);
                        }
                    }
                    assert(group.deep_view().to_multiset().add(
                        remaining.deep_view().to_multiset(),
                    ) =~= rem0.to_multiset()) by {
                        assert(old_rem.to_multiset() == remaining.deep_view().to_multiset().insert(
                            b@,
                        )) by {
                            assert(remaining.deep_view() == old_rem.remove(i as int));
                            lemma_remove_multiset(old_rem, i as int);
                        }
                        vstd::seq_lib::to_multiset_build::<LessonView>(old_group, b@);
                        assert(group.deep_view().to_multiset() == old_group.to_multiset().insert(
                            b@,
                        ));
                    }
                    assert forall|k: int| 0 <= k < res.deep_view().len() implies sep_before(
                        #[trigger] res.deep_view()[k],
                        group.deep_view(),
                    ) && sep_before(res.deep_view()[k], remaining.deep_view()) by {
                        assert(sep_before(res.deep_view()[k], old_group));
                        assert(sep_before(res.deep_view()[k], old_rem));
                        assert forall|x: LessonView, y: LessonView|
                            #[trigger] res.deep_view()[k].contains(x)
                                && #[trigger] group.deep_view().contains(y) implies
                            x.time_range.end <= y.time_range.start by {
                            if old_group.contains(y) {
                            } else {
                                let j = choose|j: int|
                                    0 <= j < group.deep_view().len() && group.deep_view()[j] == y;
                                assert(j == old_group.len());
                                assert(y == old_rem[i as int]);
                                assert(old_rem.contains(y));
                            }
                        }
                        assert forall|x: LessonView, y: LessonView|
                            #[trigger] res.deep_view()[k].contains(x)
                                && #[trigger] remaining.deep_view().contains(y) implies
                            x.time_range.end <= y.time_range.start by {
                            let j = choose|j: int|
                                0 <= j < remaining.deep_view().len() && remaining.deep_view()[j]
                                    == y;
                            if j < i {
                                assert(old_rem[j] == y);
                            } else {
                                assert(old_rem[j + 1] == y);
                            }
                            assert(old_rem.contains(y));
                        }
                    }
                }
                i = 0;
            } else {
                proof {
                    assert forall|x: LessonView| #[trigger] group.deep_view().contains(x) implies !(
                    remaining.deep_view()[i as int]).time_range.spec_overlaps(x.time_range) by {
                        let mm = choose|mm: int|
                            0 <= mm < group.deep_view().len() && group.deep_view()[mm] == x;
                    }
                }
                i += 1;
            }
        }
        // nothing left overlaps the group; the group covers its own span, so
        // everything left starts at or after the group's end
        proof {
            assert forall|x: LessonView, y: LessonView|
                #[trigger] group.deep_view().contains(x) && #[trigger] remaining.deep_view()
                    .contains(y) implies x.time_range.end <= y.time_range.start by {
                let gv = group.deep_view();
                if x.time_range.end > y.time_range.start {
                    let t = y.time_range.start as int;
                    assert(seed_v.time_range.start <= t) by {
                        let j = choose|j: int|
                            0 <= j < remaining.deep_view().len() && remaining.deep_view()[j] == y;
                    }
                    assert(exists|k: int|
                        0 <= k < gv.len() && (#[trigger] gv[k]).time_range.start <= t) by {
                        let ks = choose|ks: int| 0 <= ks < gv.len() && gv[ks] == seed_v;
                    }
                    assert(exists|k: int|
                        0 <= k < gv.len() && (#[trigger] gv[k]).time_range.end > t) by {
                        let kx = choose|kx: int| 0 <= kx < gv.len() && gv[kx] == x;
                    }
                    lemma_cut_free_covers(gv, t);
                    let km = choose|km: int|
                        0 <= km < gv.len() && (#[trigger] gv[km]).time_range.start <= t && t
                            < gv[km].time_range.end;
                    let j = choose|j: int|
                        0 <= j < remaining.deep_view().len() && remaining.deep_view()[j] == y;
                    assert(gv.contains(gv[km]));
                    assert(!y.time_range.spec_overlaps(gv[km].time_range));
                    assert(y.time_range.wf());
                    assert(false);
                }
            }
        }
        proof {
            broadcast use vstd::seq_lib::group_to_multiset_ensures;
            broadcast use vstd::multiset::group_multiset_axioms;

            assert(group.deep_view().to_multiset().len() + remaining.deep_view().to_multiset().len()
                == rem0.to_multiset().len());
            assert(remaining.len() < rem0.len());
        }
        let ghost unsorted = group.deep_view();
        let sorted_group = sort_lessons_by_priority(group);
        proof {
            assert(total_preorder(by_priority()));
            lemma_sort_spec_ensures(unsorted, by_priority());
            lemma_cut_free_transfer(unsorted, sorted_group.deep_view());
            lemma_all_wf_transfer(unsorted, sorted_group.deep_view());
        }
        let ghost old_res = res.deep_view();
        res.push(sorted_group);
        proof {
            let sg = sorted_group.deep_view();
            assert(res.deep_view() =~= old_res.push(sg));
            assert(res.deep_view().drop_last() =~= old_res);
            assert(groups_flatten(res.deep_view()) == groups_flatten(old_res) + sg);
            vstd::seq_lib::lemma_multiset_commutative::<LessonView>(groups_flatten(old_res), sg);
            assert(groups_flatten(res.deep_view()).to_multiset() == groups_flatten(
                old_res,
            ).to_multiset().add(sg.to_multiset()));
            assert(sg.to_multiset() == unsorted.to_multiset());
            assert(groups_flatten(res.deep_view()).to_multiset().add(
                remaining.deep_view().to_multiset(),
            ) =~= input.to_multiset());
            // carry each per-group invariant over to the extended list
            assert forall|k: int| 0 <= k < res.deep_view().len() implies (
            #[trigger] res.deep_view()[k]).len() > 0 && sorted_by(res.deep_view()[k], by_priority())
                && cut_free(res.deep_view()[k]) && all_wf(res.deep_view()[k]) && sep_before(
                res.deep_view()[k],
                remaining.deep_view(),
            ) by {
                if k < old_res.len() {
                    assert(res.deep_view()[k] == old_res[k]);
                } else {
                    assert(res.deep_view()[k] == sg);
                    assert(sg.len() == unsorted.len());
                    assert forall|x: LessonView, y: LessonView|
                        #[trigger] sg.contains(x) && #[trigger] remaining.deep_view().contains(
                            y,
                        ) implies x.time_range.end <= y.time_range.start by {
                        lemma_contains_transfer(sg, unsorted, x);
                    }
                }
            }
            assert forall|k1: int, k2: int| 0 <= k1 < k2 < res.deep_view().len() implies sep_before(
                #[trigger] res.deep_view()[k1],
                #[trigger] res.deep_view()[k2],
            ) by {
                if k2 < old_res.len() {
                    assert(res.deep_view()[k1] == old_res[k1]);
                    assert(res.deep_view()[k2] == old_res[k2]);
                } else {
                    assert(res.deep_view()[k2] == sg);
                    assert(res.deep_view()[k1] == old_res[k1]);
                    assert(sep_before(old_res[k1], unsorted));
                    assert forall|x: LessonView, y: LessonView|
                        #[trigger] old_res[k1].contains(x) && #[trigger] sg.contains(y) implies
                        x.time_range.end <= y.time_range.start by {
                        lemma_contains_transfer(sg, unsorted, y);
                    }
                }
            }
        }
    }
    proof {
        assert(remaining.deep_view() =~= Seq::<LessonView>::empty());
        assert(remaining.deep_view().to_multiset() =~= Multiset::empty());
        assert(groups_flatten(res.deep_view()).to_multiset() =~= input.to_multiset());
        // two blocks in different groups never overlap
        assert forall|k1: int, k2: int, x: LessonView, y: LessonView|
            0 <= k1 < res.deep_view().len() && 0 <= k2 < res.deep_view().len() && k1 != k2 && (
            #[trigger] res.deep_view()[k1].contains(x)) && (
        #[trigger] res.deep_view()[k2].contains(y)) implies !x.time_range.spec_overlaps(
            y.time_range,
        ) by {
            assert(all_wf(res.deep_view()[k1]));
            assert(all_wf(res.deep_view()[k2]));
            let kx = choose|kx: int|
                0 <= kx < res.deep_view()[k1].len() && res.deep_view()[k1][kx] == x;
            let ky = choose|ky: int|
                0 <= ky < res.deep_view()[k2].len() && res.deep_view()[k2][ky] == y;
            if k1 < k2 {
                assert(sep_before(res.deep_view()[k1], res.deep_view()[k2]));
                assert(x.time_range.end <= y.time_range.start);
            } else {
                assert(sep_before(res.deep_view()[k2], res.deep_view()[k1]));
                assert(y.time_range.end <= x.time_range.start);
            }
        }
    }
    res
}

} // verus!
