//! The duplicate rule for one group of co-positional entries.

use crate::index_set::bitmap_members;
use crate::metadata::Metadata;
use crate::second_ends::SecondEndSet;
use roaring::RoaringBitmap;
use vstd::prelude::*;

verus! {

/// An entry of a resolved pair.
pub open spec fn is_pair(m: Metadata) -> bool {
    m.ref_id2 != -1
}

/// An entry of a single read that was never expected to have a mapped mate.
pub open spec fn is_fragment(m: Metadata) -> bool {
    m.ref_id2 == -1 && m.paired_end == 0
}

/// An entry of a paired read whose partner never arrived.
pub open spec fn is_lone_mate(m: Metadata) -> bool {
    m.ref_id2 == -1 && m.paired_end == 1
}

/// The pair entries of a group, in the group's order.
pub open spec fn pairs_of(group: Seq<Metadata>) -> Seq<Metadata> {
    group.filter(|m: Metadata| is_pair(m))
}

/// The fragment entries of a group, in the group's order.
pub open spec fn fragments_of(group: Seq<Metadata>) -> Seq<Metadata> {
    group.filter(|m: Metadata| is_fragment(m))
}

/// The lone-mate entries of a group, in the group's order.
pub open spec fn lone_mates_of(group: Seq<Metadata>) -> Seq<Metadata> {
    group.filter(|m: Metadata| is_lone_mate(m))
}

/// Whether the group's coordinate hosts the right end of some pair.
pub open spec fn on_second_end(group: Seq<Metadata>, second_ends: Set<(i32, i32, i32, u8)>) -> bool {
    group.len() > 0 && second_ends.contains(group[0].group_key())
}

/// Whether anything paired was seen at the group's coordinate.
pub open spec fn seen_paired_read(group: Seq<Metadata>, second_end: bool) -> bool {
    lone_mates_of(group).len() > 0 || pairs_of(group).len() > 0 || second_end
}

/// The number of reads and pairs at the group's coordinate, a pair's right
/// end counted once.
pub open spec fn group_total(group: Seq<Metadata>, second_end: bool) -> int {
    fragments_of(group).len() + lone_mates_of(group).len() + pairs_of(group).len() + if second_end {
        1int
    } else {
        0int
    }
}

/// `b` is the first fragment among those of highest score.
pub open spec fn is_best_fragment(frag: Seq<Metadata>, b: int) -> bool {
    &&& 0 <= b < frag.len()
    &&& forall|j: int|
        0 <= j < frag.len() ==> (#[trigger] frag[j]).score <= frag[b].score && (j < b
            ==> frag[j].score < frag[b].score)
}

/// Whether fragment `i` is marked where the fragment rule applies: every
/// fragment beside paired reads, every fragment but the best among fragments
/// alone.
pub open spec fn fragment_marked(frag: Seq<Metadata>, paired: bool, i: int) -> bool {
    0 <= i < frag.len() && (paired || !is_best_fragment(frag, i))
}

/// The entries from `a` to `b` share the coordinate of their right end.
pub open spec fn same_run(pes: Seq<Metadata>, a: int, b: int) -> bool {
    &&& 0 <= a <= b < pes.len()
    &&& forall|k: int| a <= k <= b ==> (#[trigger] pes[k]).mate_key() == pes[a].mate_key()
}

/// Whether pair `k` is marked: in its run of pairs with the same right end a
/// pair before it has a higher score, or a pair after it has a score at least
/// as high.
pub open spec fn pair_marked(pes: Seq<Metadata>, k: int) -> bool {
    &&& 0 <= k < pes.len()
    &&& {
        ||| exists|j: int| j < k && #[trigger] same_run(pes, j, k) && pes[j].score > pes[k].score
        ||| exists|j: int| k < j && #[trigger] same_run(pes, k, j) && pes[j].score >= pes[k].score
    }
}

/// The number of runs that start among the first `n` pairs.
pub open spec fn run_count(pes: Seq<Metadata>, n: int) -> int
    decreases n,
{
    if n <= 0 {
        0
    } else {
        run_count(pes, n - 1) + if n == 1 || pes[n - 1].mate_key() != pes[n - 2].mate_key() {
            1int
        } else {
            0int
        }
    }
}

/// The indices that the marked fragments among the first `n` contribute.
pub open spec fn fragment_marks(frag: Seq<Metadata>, paired: bool, n: int) -> Set<u32> {
    Set::new(
        |v: u32|
            exists|i: int|
                0 <= i < n && #[trigger] fragment_marked(frag, paired, i) && frag[i].idx1 == v,
    )
}

/// The indices that the marked pairs among the first `n` contribute: both
/// ends of each.
pub open spec fn pair_marks(pes: Seq<Metadata>, n: int) -> Set<u32> {
    Set::new(
        |v: u32|
            exists|k: int|
                0 <= k < n && #[trigger] pair_marked(pes, k) && (pes[k].idx1 == v || pes[k].idx2
                    == v),
    )
}

/// Whether the fragment rule applies to the group.
pub open spec fn fragment_rule_applies(group: Seq<Metadata>, second_end: bool) -> bool {
    group_total(group, second_end) >= 2 && fragments_of(group).len() > 0
}

/// The record indices that the duplicate rule marks in a group.
pub open spec fn duplicate_indices(group: Seq<Metadata>, second_end: bool) -> Set<u32> {
    let frag = fragments_of(group);
    let pes = pairs_of(group);
    let by_fragments = if fragment_rule_applies(group, second_end) {
        fragment_marks(frag, seen_paired_read(group, second_end), frag.len() as int)
    } else {
        Set::<u32>::empty()
    };
    by_fragments.union(pair_marks(pes, pes.len() as int))
}

/// The three tallies of a group: fragments marked beside paired reads, ends
/// of marked pairs, fragments marked among fragments alone.
pub open spec fn duplicate_counts(group: Seq<Metadata>, second_end: bool) -> (int, int, int) {
    let frag = fragments_of(group);
    let pes = pairs_of(group);
    let applies = fragment_rule_applies(group, second_end);
    let paired = seen_paired_read(group, second_end);
    (
        if applies && paired {
            frag.len() as int
        } else {
            0
        },
        2 * (pes.len() - run_count(pes, pes.len() as int)),
        if applies && !paired {
            frag.len() - 1
        } else {
            0
        },
    )
}

/// Every index of the group fits the 32-bit domain of the duplicate-index set.
pub open spec fn indices_fit(group: Seq<Metadata>) -> bool {
    forall|i: int|
        0 <= i < group.len() ==> (#[trigger] group[i]).idx1 <= u32::MAX && group[i].idx2
            <= u32::MAX
}

/// Splits a group into its pairs and its fragments, and counts its lone mates.
fn split_group(group: &[Metadata]) -> (r: (Vec<Metadata>, Vec<Metadata>, usize))
    ensures
        r.0@ == pairs_of(group@),
        r.1@ == fragments_of(group@),
        r.2 == lone_mates_of(group@).len(),
        r.0.len() + r.1.len() + r.2 <= group.len(),
        indices_fit(group@) ==> indices_fit(r.0@) && indices_fit(r.1@),
{
    let mut pes: Vec<Metadata> = Vec::new();
    let mut frag: Vec<Metadata> = Vec::new();
    let mut mates: usize = 0;
    let mut i: usize = 0;
    proof {
        reveal(Seq::filter);
        assert(group@.take(0) =~= Seq::<Metadata>::empty());
    }
    while i < group.len()
        invariant
            0 <= i <= group.len(),
            pes@ == pairs_of(group@.take(i as int)),
            frag@ == fragments_of(group@.take(i as int)),
            mates == lone_mates_of(group@.take(i as int)).len(),
            pes.len() + frag.len() + mates <= i,
            indices_fit(group@) ==> indices_fit(pes@) && indices_fit(frag@),
        decreases group.len() - i,
    {
        let m = group[i];
        proof {
            let head = group@.take(i as int);
            assert(group@.take(i + 1) =~= head.push(m));
            head.lemma_filter_push(m, |m: Metadata| is_pair(m));
            head.lemma_filter_push(m, |m: Metadata| is_fragment(m));
            head.lemma_filter_push(m, |m: Metadata| is_lone_mate(m));
            head.lemma_filter_len(|m: Metadata| is_lone_mate(m));
        }
        if m.ref_id2 != -1 {
            pes.push(m);
        } else if m.paired_end == 0 {
            frag.push(m);
        } else if m.paired_end == 1 {
            mates = mates + 1;
        }
        i = i + 1;
    }
    proof {
        assert(group@.take(group.len() as int) =~= group@);
    }
    (pes, frag, mates)
}

proof fn lemma_fragment_marks_step(frag: Seq<Metadata>, paired: bool, n: int)
    requires
        0 <= n < frag.len(),
        frag[n].idx1 <= u32::MAX,
    ensures
        fragment_marks(frag, paired, 0) == Set::<u32>::empty(),
        fragment_marks(frag, paired, n + 1) == if fragment_marked(frag, paired, n) {
            fragment_marks(frag, paired, n).insert(frag[n].idx1 as u32)
        } else {
            fragment_marks(frag, paired, n)
        },
{
    assert(fragment_marks(frag, paired, 0) =~= Set::<u32>::empty());
    let next = fragment_marks(frag, paired, n + 1);
    let prev = fragment_marks(frag, paired, n);
    let v0 = frag[n].idx1 as u32;
    if fragment_marked(frag, paired, n) {
        assert forall|v: u32| next.contains(v) == prev.insert(v0).contains(v) by {
            if prev.insert(v0).contains(v) {
                if v == v0 {
                    assert(fragment_marked(frag, paired, n) && frag[n].idx1 == v);
                } else {
                    let i = choose|i: int|
                        0 <= i < n && #[trigger] fragment_marked(frag, paired, i) && frag[i].idx1
                            == v;
                    assert(0 <= i < n + 1 && fragment_marked(frag, paired, i));
                }
            }
        }
        assert(next =~= prev.insert(v0));
    } else {
        assert forall|v: u32| next.contains(v) == prev.contains(v) by {
            if prev.contains(v) {
                let i = choose|i: int|
                    0 <= i < n && #[trigger] fragment_marked(frag, paired, i) && frag[i].idx1 == v;
                assert(0 <= i < n + 1 && fragment_marked(frag, paired, i));
            }
        }
        assert(next =~= prev);
    }
}

proof fn lemma_best_fragment_is_unique(frag: Seq<Metadata>, a: int, b: int)
    requires
        is_best_fragment(frag, a),
        is_best_fragment(frag, b),
    ensures
        a == b,
{
    assert(frag[a].score <= frag[b].score);
    assert(frag[b].score <= frag[a].score);
}

/// Among fragments alone one is kept: there is exactly one best fragment,
/// and no fragment has a higher score.
pub proof fn lemma_one_fragment_is_kept(frag: Seq<Metadata>) -> (best: int)
    requires
        frag.len() > 0,
    ensures
        is_best_fragment(frag, best),
        !fragment_marked(frag, false, best),
        forall|i: int| 0 <= i < frag.len() && i != best ==> fragment_marked(frag, false, i),
    decreases frag.len(),
{
    let n = frag.len() - 1;
    let best = if n == 0 {
        0
    } else {
        let head = frag.drop_last();
        let b = lemma_one_fragment_is_kept(head);
        assert(forall|j: int| 0 <= j < n ==> head[j] == frag[j]);
        assert(head[b] == frag[b]);
        if frag[n].score > frag[b].score {
            n
        } else {
            b
        }
    };
    assert(is_best_fragment(frag, best)) by {
        if n > 0 {
            let head = frag.drop_last();
            assert forall|j: int| 0 <= j < frag.len() implies (#[trigger] frag[j]).score
                <= frag[best].score && (j < best ==> frag[j].score < frag[best].score) by {
                if j < n {
                    assert(head[j] == frag[j]);
                }
            }
        }
    }
    assert forall|i: int| 0 <= i < frag.len() && i != best implies fragment_marked(
        frag,
        false,
        i,
    ) by {
        if is_best_fragment(frag, i) {
            lemma_best_fragment_is_unique(frag, i, best);
        }
    }
    best
}

/// Marks the fragments of a group to which the fragment rule applies, and
/// counts the marks.
fn mark_fragments(frag: &Vec<Metadata>, paired: bool, mask: &mut RoaringBitmap) -> (marked: usize)
    requires
        frag.len() > 0,
        indices_fit(frag@),
    ensures
        bitmap_members(*final(mask)) == bitmap_members(*old(mask)).union(
            fragment_marks(frag@, paired, frag.len() as int),
        ),
        marked == if paired {
            frag.len() as int
        } else {
            frag.len() - 1
        },
{
    let mut best: usize = 0;
    let mut i: usize = 1;
    while i < frag.len()
        invariant
            1 <= i <= frag.len(),
            best < i,
            forall|j: int|
                0 <= j < i ==> (#[trigger] frag@[j]).score <= frag@[best as int].score && (j
                    < best ==> frag@[j].score < frag@[best as int].score),
        decreases frag.len() - i,
    {
        if frag[i].score > frag[best].score {
            best = i;
        }
        i = i + 1;
    }
    assert(is_best_fragment(frag@, best as int));
    let mut marked: usize = 0;
    let mut i: usize = 0;
    proof {
        lemma_fragment_marks_step(frag@, paired, 0);
        assert(bitmap_members(*mask) =~= bitmap_members(*old(mask)).union(
            fragment_marks(frag@, paired, 0),
        ));
    }
    while i < frag.len()
        invariant
            0 <= i <= frag.len(),
            best < frag.len(),
            indices_fit(frag@),
            is_best_fragment(frag@, best as int),
            bitmap_members(*mask) == bitmap_members(*old(mask)).union(
                fragment_marks(frag@, paired, i as int),
            ),
            marked == if paired || i <= best {
                i as int
            } else {
                i - 1
            },
        decreases frag.len() - i,
    {
        proof {
            lemma_fragment_marks_step(frag@, paired, i as int);
            if is_best_fragment(frag@, i as int) {
                lemma_best_fragment_is_unique(frag@, i as int, best as int);
            }
        }
        if paired || i != best {
            let m = &frag[i];
            mask.insert(m.idx1 as u32);
            marked = marked + 1;
            assert(bitmap_members(*mask) =~= bitmap_members(*old(mask)).union(
                fragment_marks(frag@, paired, i + 1),
            ));
        }
        i = i + 1;
    }
    marked
}

/// The pairs from `lo` up to `hi` are one whole run.
spec fn is_run(pes: Seq<Metadata>, lo: int, hi: int) -> bool {
    &&& 0 <= lo < hi <= pes.len()
    &&& forall|k: int| lo <= k < hi ==> (#[trigger] pes[k]).mate_key() == pes[lo].mate_key()
    &&& (lo == 0 || pes[lo - 1].mate_key() != pes[lo].mate_key())
    &&& (hi == pes.len() || pes[hi].mate_key() != pes[lo].mate_key())
}

/// `best` is the last pair among those of highest score from `lo` up to `hi`.
spec fn is_best_in_run(pes: Seq<Metadata>, lo: int, hi: int, best: int) -> bool {
    &&& lo <= best < hi
    &&& forall|k: int|
        lo <= k < hi ==> (#[trigger] pes[k]).score <= pes[best].score && (best < k
            ==> pes[k].score < pes[best].score)
}

proof fn lemma_marked_in_run(pes: Seq<Metadata>, lo: int, hi: int, best: int, k: int)
    requires
        is_run(pes, lo, hi),
        is_best_in_run(pes, lo, hi, best),
        lo <= k < hi,
    ensures
        pair_marked(pes, k) == (k != best),
{
    if k < best {
        assert(same_run(pes, k, best));
        assert(pes[best].score >= pes[k].score);
    } else if best < k {
        assert(same_run(pes, best, k));
        assert(pes[best].score > pes[k].score);
    } else {
        if exists|j: int| j < k && #[trigger] same_run(pes, j, k) && pes[j].score > pes[k].score {
            let j = choose|j: int|
                j < k && #[trigger] same_run(pes, j, k) && pes[j].score > pes[k].score;
            if j < lo {
                assert(pes[lo - 1].mate_key() == pes[j].mate_key());
                assert(pes[lo].mate_key() == pes[j].mate_key());
            } else {
                assert(pes[j].score <= pes[best].score);
            }
        }
        if exists|j: int| k < j && #[trigger] same_run(pes, k, j) && pes[j].score >= pes[k].score {
            let j = choose|j: int|
                k < j && #[trigger] same_run(pes, k, j) && pes[j].score >= pes[k].score;
            if j >= hi {
                assert(pes[hi].mate_key() == pes[k].mate_key());
                assert(pes[k].mate_key() == pes[lo].mate_key());
            } else {
                assert(pes[j].score < pes[best].score);
            }
        }
    }
}

/// The run of pair `k`: it begins at the first place from which all pairs
/// up to `k` share the right end of `k`, and ends behind the last such
/// place after `k`.
proof fn lemma_run_of(pes: Seq<Metadata>, k: int, lo: int, hi: int) -> (r: (int, int))
    requires
        0 <= lo <= k < hi <= pes.len(),
        forall|m: int| lo <= m < hi ==> (#[trigger] pes[m]).mate_key() == pes[k].mate_key(),
    ensures
        r.0 <= k < r.1,
        is_run(pes, r.0, r.1),
    decreases lo + (pes.len() - hi),
{
    if lo > 0 && pes[lo - 1].mate_key() == pes[k].mate_key() {
        lemma_run_of(pes, k, lo - 1, hi)
    } else if hi < pes.len() && pes[hi].mate_key() == pes[k].mate_key() {
        lemma_run_of(pes, k, lo, hi + 1)
    } else {
        assert(pes[lo].mate_key() == pes[k].mate_key());
        (lo, hi)
    }
}

/// The last pair of highest score among those from `lo` up to `hi`.
proof fn lemma_best_in_run(pes: Seq<Metadata>, lo: int, hi: int) -> (best: int)
    requires
        0 <= lo < hi <= pes.len(),
    ensures
        is_best_in_run(pes, lo, hi, best),
    decreases hi - lo,
{
    if hi - lo == 1 {
        lo
    } else {
        let b = lemma_best_in_run(pes, lo, hi - 1);
        if pes[hi - 1].score >= pes[b].score {
            hi - 1
        } else {
            b
        }
    }
}

/// Of every run of pairs one is kept, and none of the run has a higher
/// score: for each pair there is an unmarked pair in its run whose score is
/// at least as high.
pub proof fn lemma_one_pair_is_kept(pes: Seq<Metadata>, k: int) -> (kept: int)
    requires
        0 <= k < pes.len(),
    ensures
        0 <= kept < pes.len(),
        !pair_marked(pes, kept),
        pes[kept].score >= pes[k].score,
        kept <= k ==> same_run(pes, kept, k),
        k <= kept ==> same_run(pes, k, kept),
        kept != k ==> pair_marked(pes, k),
{
    let (lo, hi) = lemma_run_of(pes, k, k, k + 1);
    let kept = lemma_best_in_run(pes, lo, hi);
    lemma_marked_in_run(pes, lo, hi, kept, kept);
    lemma_marked_in_run(pes, lo, hi, kept, k);
    assert(pes[k].score <= pes[kept].score);
    if kept <= k {
        assert(same_run(pes, kept, k));
    }
    if k <= kept {
        assert(same_run(pes, k, kept));
    }
    kept
}

proof fn lemma_pair_marks_step(pes: Seq<Metadata>, n: int)
    requires
        0 <= n < pes.len(),
        pes[n].idx1 <= u32::MAX,
        pes[n].idx2 <= u32::MAX,
    ensures
        pair_marks(pes, 0) == Set::<u32>::empty(),
        pair_marks(pes, n + 1) == if pair_marked(pes, n) {
            pair_marks(pes, n).insert(pes[n].idx1 as u32).insert(pes[n].idx2 as u32)
        } else {
            pair_marks(pes, n)
        },
{
    assert(pair_marks(pes, 0) =~= Set::<u32>::empty());
    let next = pair_marks(pes, n + 1);
    let prev = pair_marks(pes, n);
    let v1 = pes[n].idx1 as u32;
    let v2 = pes[n].idx2 as u32;
    if pair_marked(pes, n) {
        assert forall|v: u32| next.contains(v) == prev.insert(v1).insert(v2).contains(v) by {
            if prev.insert(v1).insert(v2).contains(v) {
                if v == v1 || v == v2 {
                    assert(pair_marked(pes, n) && (pes[n].idx1 == v || pes[n].idx2 == v));
                } else {
                    let k = choose|k: int|
                        0 <= k < n && #[trigger] pair_marked(pes, k) && (pes[k].idx1 == v
                            || pes[k].idx2 == v);
                    assert(0 <= k < n + 1 && pair_marked(pes, k));
                }
            }
        }
        assert(next =~= prev.insert(v1).insert(v2));
    } else {
        assert forall|v: u32| next.contains(v) == prev.contains(v) by {
            if prev.contains(v) {
                let k = choose|k: int|
                    0 <= k < n && #[trigger] pair_marked(pes, k) && (pes[k].idx1 == v
                        || pes[k].idx2 == v);
                assert(0 <= k < n + 1 && pair_marked(pes, k));
            }
        }
        assert(next =~= prev);
    }
}

/// Whether two pairs share the coordinate of their right end.
fn same_mate(a: &Metadata, b: &Metadata) -> (r: bool)
    ensures
        r == (a.mate_key() == b.mate_key()),
{
    a.rev2 == b.rev2 && a.ref_id2 == b.ref_id2 && a.pos2 == b.pos2
}

/// Marks both ends of every pair but the best of each run, and counts the
/// marks.
fn mark_pairs(pes: &Vec<Metadata>, mask: &mut RoaringBitmap) -> (marked: usize)
    requires
        indices_fit(pes@),
        pes.len() <= usize::MAX / 2,
    ensures
        bitmap_members(*final(mask)) == bitmap_members(*old(mask)).union(
            pair_marks(pes@, pes.len() as int),
        ),
        marked == 2 * (pes.len() - run_count(pes@, pes.len() as int)),
{
    let n = pes.len();
    let mut marked: usize = 0;
    let mut i: usize = 0;
    proof {
        assert(pair_marks(pes@, 0) =~= Set::<u32>::empty());
        assert(bitmap_members(*mask) =~= bitmap_members(*old(mask)).union(pair_marks(pes@, 0)));
    }
    while i < n
        invariant
            0 <= i <= n,
            n == pes.len(),
            n <= usize::MAX / 2,
            indices_fit(pes@),
            i == 0 || i == n || pes@[i - 1].mate_key() != pes@[i as int].mate_key(),
            bitmap_members(*mask) == bitmap_members(*old(mask)).union(pair_marks(pes@, i as int)),
            marked == 2 * (i - run_count(pes@, i as int)),
            0 <= run_count(pes@, i as int) <= i,
        decreases n - i,
    {
        let mut j: usize = i + 1;
        let mut best: usize = i;
        proof {
            reveal_with_fuel(run_count, 2);
        }
        while j < n && same_mate(&pes[i], &pes[j])
            invariant
                i < j <= n,
                n == pes.len(),
                i <= best < j,
                forall|k: int|
                    i <= k < j ==> (#[trigger] pes@[k]).mate_key() == pes@[i as int].mate_key(),
                forall|k: int|
                    i <= k < j ==> (#[trigger] pes@[k]).score <= pes@[best as int].score && (best
                        < k ==> pes@[k].score < pes@[best as int].score),
                run_count(pes@, j as int) == run_count(pes@, i as int) + 1,
            decreases n - j,
        {
            if pes[j].score >= pes[best].score {
                best = j;
            }
            proof {
                assert(pes@[j as int].mate_key() == pes@[j - 1].mate_key());
                reveal_with_fuel(run_count, 2);
            }
            j = j + 1;
        }
        assert(is_run(pes@, i as int, j as int));
        assert(is_best_in_run(pes@, i as int, j as int, best as int));
        let mut k: usize = i;
        while k < j
            invariant
                i <= k <= j <= n,
                n == pes.len(),
                n <= usize::MAX / 2,
                indices_fit(pes@),
                is_run(pes@, i as int, j as int),
                is_best_in_run(pes@, i as int, j as int, best as int),
                bitmap_members(*mask) == bitmap_members(*old(mask)).union(
                    pair_marks(pes@, k as int),
                ),
                0 <= run_count(pes@, i as int) <= i,
                marked == 2 * (i - run_count(pes@, i as int)) + 2 * (k - i) - if best < k {
                    2int
                } else {
                    0int
                },
            decreases j - k,
        {
            proof {
                lemma_marked_in_run(pes@, i as int, j as int, best as int, k as int);
                lemma_pair_marks_step(pes@, k as int);
            }
            if k != best {
                let m = &pes[k];
                mask.insert(m.idx1 as u32);
                mask.insert(m.idx2 as u32);
                marked = marked + 2;
                assert(bitmap_members(*mask) =~= bitmap_members(*old(mask)).union(
                    pair_marks(pes@, k + 1),
                ));
            }
            k = k + 1;
        }
        i = j;
    }
    marked
}

/// Applies the duplicate rule to one group of entries that share their group
/// key, and adds the indices of the duplicates to `mask`.
///
/// Returns the tallies of the group: fragments marked beside paired reads,
/// ends of marked pairs, and fragments marked among fragments alone.
pub fn identify_dups(
    group: &[Metadata],
    mask: &mut RoaringBitmap,
    pe_second_ends: &SecondEndSet,
) -> (counts: (usize, usize, usize))
    requires
        indices_fit(group@),
        group.len() <= usize::MAX / 2,
    ensures
        bitmap_members(*final(mask)) == bitmap_members(*old(mask)).union(
            duplicate_indices(group@, on_second_end(group@, pe_second_ends@)),
        ),
        (counts.0 as int, counts.1 as int, counts.2 as int) == duplicate_counts(
            group@,
            on_second_end(group@, pe_second_ends@),
        ),
{
    let ghost second_end = on_second_end(group@, pe_second_ends@);
    if group.len() == 0 {
        proof {
            reveal(Seq::filter);
            reveal_with_fuel(run_count, 1);
            assert(pair_marks(pairs_of(group@), 0) =~= Set::<u32>::empty());
            assert(bitmap_members(*mask) =~= bitmap_members(*mask).union(
                duplicate_indices(group@, second_end),
            ));
        }
        return (0, 0, 0);
    }
    let (pes, frag, mates) = split_group(group);
    let first = &group[0];
    let k_pos: usize = if pe_second_ends.contains(&(first.lib_id, first.ref_id1, first.pos1, first.rev1)) {
        1
    } else {
        0
    };
    let total = frag.len() + mates + pes.len() + k_pos;
    let seen_fragment = frag.len() > 0;
    let seen_paired_read = mates > 0 || pes.len() > 0 || k_pos > 0;
    let mut orphan_marked: usize = 0;
    let mut se_only_marked: usize = 0;
    if total >= 2 && seen_fragment {
        let marked = mark_fragments(&frag, seen_paired_read, mask);
        if seen_paired_read {
            orphan_marked = marked;
        } else {
            se_only_marked = marked;
        }
    }
    let pe_marked = mark_pairs(&pes, mask);
    proof {
        assert(bitmap_members(*mask) =~= bitmap_members(*old(mask)).union(
            duplicate_indices(group@, second_end),
        ));
    }
    (orphan_marked, pe_marked, se_only_marked)
}

} // verus!
