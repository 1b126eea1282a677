//! Grouping of the ordered stream: entries that share their group key are
//! gathered, and each group is put to the duplicate rule when the next one
//! begins.

use crate::algorithm::{
    duplicate_counts, duplicate_indices, identify_dups, indices_fit, on_second_end,
};
use crate::index_set::bitmap_members;
use crate::metadata::{lemma_group_is_contiguous, lemma_right_ends_are_contiguous, Metadata};
use crate::second_ends::{Coordinate, SecondEndSet};
use crate::spill::{is_sorted, lemma_sorted, sorted};
use roaring::RoaringBitmap;
use vstd::prelude::*;

verus! {

/// Why the classifier refused an entry.
#[derive(Debug, Clone, Copy, PartialEq, Eq, Structural)]
pub enum ClassifyError {
    /// A record index of the entry is beyond the 32-bit domain of the
    /// duplicate-index set.
    IndexOutOfRange,
    /// The group has more entries than can be tallied.
    GroupTooLarge,
}

/// The three tallies of a run: fragments marked beside paired reads, ends of
/// marked pairs, fragments marked among fragments alone.
#[derive(Debug, Clone, Copy, PartialEq, Eq, Structural)]
pub struct Tallies {
    pub orphan: usize,
    pub pe: usize,
    pub se_only: usize,
}

impl Tallies {
    /// The tallies with those of one more group added. A tally that would
    /// pass the largest number stays there.
    pub open spec fn plus(self, counts: (int, int, int)) -> Tallies {
        Tallies {
            orphan: saturated(self.orphan + counts.0),
            pe: saturated(self.pe + counts.1),
            se_only: saturated(self.se_only + counts.2),
        }
    }
}

/// A count held to the largest number that a tally can be.
pub open spec fn saturated(n: int) -> usize {
    if n > usize::MAX {
        usize::MAX
    } else {
        n as usize
    }
}

/// Whether an entry can be classified: its record indices fit the
/// duplicate-index set.
pub open spec fn fits(m: Metadata) -> bool {
    m.idx1 <= u32::MAX && m.idx2 <= u32::MAX
}

/// Whether `m` begins a new group after the entries of `group`.
pub open spec fn begins_group(group: Seq<Metadata>, m: Metadata) -> bool {
    group.len() > 0 && m.group_key() != group[0].group_key()
}

/// What the classifier holds after a stream: the group that is being
/// gathered, the record indices marked so far, and the tallies.
pub open spec fn classified(stream: Seq<Metadata>, second_ends: Set<Coordinate>) -> (
    Seq<Metadata>,
    Set<u32>,
    Tallies,
)
    decreases stream.len(),
{
    if stream.len() == 0 {
        (Seq::<Metadata>::empty(), Set::<u32>::empty(), Tallies { orphan: 0, pe: 0, se_only: 0 })
    } else {
        let (group, marked, tallies) = classified(stream.drop_last(), second_ends);
        let m = stream.last();
        if begins_group(group, m) {
            let second_end = on_second_end(group, second_ends);
            (
                seq![m],
                marked.union(duplicate_indices(group, second_end)),
                tallies.plus(duplicate_counts(group, second_end)),
            )
        } else {
            (group.push(m), marked, tallies)
        }
    }
}

/// The record indices that are duplicates in a stream: those of every group
/// of the stream, the last one included.
pub open spec fn stream_duplicates(stream: Seq<Metadata>, second_ends: Set<Coordinate>) -> Set<u32> {
    let (group, marked, tallies) = classified(stream, second_ends);
    marked.union(duplicate_indices(group, on_second_end(group, second_ends)))
}

/// The tallies of a stream, those of the last group included.
pub open spec fn stream_tallies(stream: Seq<Metadata>, second_ends: Set<Coordinate>) -> Tallies {
    let (group, marked, tallies) = classified(stream, second_ends);
    tallies.plus(duplicate_counts(group, on_second_end(group, second_ends)))
}

/// The classifier of the ordered stream.
pub struct GroupClassifier {
    second_ends: SecondEndSet,
    group: Vec<Metadata>,
    mask: RoaringBitmap,
    tallies: Tallies,
    seen: Ghost<Seq<Metadata>>,
}

impl GroupClassifier {
    /// The coordinates that host the right end of a pair.
    pub closed spec fn second_ends(&self) -> Set<Coordinate> {
        self.second_ends@
    }

    /// The entries taken so far.
    pub closed spec fn seen(&self) -> Seq<Metadata> {
        self.seen@
    }

    /// The entries of the group that is being gathered.
    pub closed spec fn group(&self) -> Seq<Metadata> {
        self.group@
    }

    /// The record indices marked so far.
    pub closed spec fn marked(&self) -> Set<u32> {
        bitmap_members(self.mask)
    }

    /// The tallies so far.
    pub closed spec fn tallies(&self) -> Tallies {
        self.tallies
    }

    /// The invariant of the classifier: it holds what the entries taken so
    /// far come to, and the gathered entries share one group key and can be
    /// put to the duplicate rule.
    pub closed spec fn well_formed(&self) -> bool {
        &&& indices_fit(self.group@)
        &&& self.group@.len() <= usize::MAX / 2
        &&& forall|i: int|
            0 <= i < self.group@.len() ==> (#[trigger] self.group@[i]).group_key()
                == self.group@[0].group_key()
        &&& classified(self.seen@, self.second_ends@) == (
            self.group@,
            bitmap_members(self.mask),
            self.tallies,
        )
    }

    /// A classifier that has seen nothing.
    pub fn new(second_ends: SecondEndSet) -> (c: GroupClassifier)
        ensures
            c.well_formed(),
            c.second_ends() == second_ends@,
            c.seen() == Seq::<Metadata>::empty(),
            c.group() == Seq::<Metadata>::empty(),
            c.marked() == Set::<u32>::empty(),
            c.tallies() == (Tallies { orphan: 0, pe: 0, se_only: 0 }),
    {
        GroupClassifier {
            second_ends,
            group: Vec::new(),
            mask: RoaringBitmap::new(),
            tallies: Tallies { orphan: 0, pe: 0, se_only: 0 },
            seen: Ghost(Seq::empty()),
        }
    }

    /// The classifier holds what the entries taken so far come to, and
    /// every entry of the gathered group has the group key of the first.
    pub proof fn lemma_state(self, i: int)
        requires
            self.well_formed(),
        ensures
            classified(self.seen(), self.second_ends()) == (
                self.group(),
                self.marked(),
                self.tallies(),
            ),
            0 <= i < self.group().len() ==> self.group()[i].group_key()
                == self.group()[0].group_key(),
    {
    }

    /// Puts the gathered group to the duplicate rule and empties it.
    fn flush(&mut self)
        requires
            indices_fit(old(self).group@),
            old(self).group@.len() <= usize::MAX / 2,
        ensures
            final(self).second_ends == old(self).second_ends,
            final(self).seen == old(self).seen,
            final(self).group@ == Seq::<Metadata>::empty(),
            final(self).marked() == old(self).marked().union(
                duplicate_indices(
                    old(self).group(),
                    on_second_end(old(self).group(), old(self).second_ends()),
                ),
            ),
            final(self).tallies() == old(self).tallies().plus(
                duplicate_counts(
                    old(self).group(),
                    on_second_end(old(self).group(), old(self).second_ends()),
                ),
            ),
    {
        let (o, p, s) = identify_dups(self.group.as_slice(), &mut self.mask, &self.second_ends);
        self.tallies = Tallies {
            orphan: self.tallies.orphan.saturating_add(o),
            pe: self.tallies.pe.saturating_add(p),
            se_only: self.tallies.se_only.saturating_add(s),
        };
        self.group.clear();
    }

    /// Takes the next entry of the ordered stream.
    ///
    /// An entry whose group key differs from that of the gathered group ends
    /// the group: the group is put to the duplicate rule, and the entry
    /// begins the next one. An entry that cannot be classified is refused,
    /// and the classifier stays as it was.
    pub fn accept(&mut self, m: Metadata) -> (r: Result<(), ClassifyError>)
        requires
            old(self).well_formed(),
        ensures
            final(self).well_formed(),
            final(self).second_ends() == old(self).second_ends(),
            !fits(m) ==> r == Err::<(), ClassifyError>(ClassifyError::IndexOutOfRange),
            fits(m) && !begins_group(old(self).group(), m) && old(self).group().len()
                >= usize::MAX / 2 ==> r == Err::<(), ClassifyError>(ClassifyError::GroupTooLarge),
            fits(m) && (begins_group(old(self).group(), m) || old(self).group().len() < usize::MAX
                / 2) ==> r.is_ok(),
            r.is_err() ==> final(self).seen() == old(self).seen() && final(self).group() == old(
                self,
            ).group() && final(self).marked() == old(self).marked() && final(self).tallies()
                == old(self).tallies(),
            r.is_ok() ==> final(self).seen() == old(self).seen().push(m),
            r.is_ok() && begins_group(old(self).group(), m) ==> {
                let second_end = on_second_end(old(self).group(), old(self).second_ends());
                &&& final(self).group() == seq![m]
                &&& final(self).marked() == old(self).marked().union(
                    duplicate_indices(old(self).group(), second_end),
                )
                &&& final(self).tallies() == old(self).tallies().plus(
                    duplicate_counts(old(self).group(), second_end),
                )
            },
            r.is_ok() && !begins_group(old(self).group(), m) ==> {
                &&& final(self).group() == old(self).group().push(m)
                &&& final(self).marked() == old(self).marked()
                &&& final(self).tallies() == old(self).tallies()
            },
    {
        if m.idx1 > 0xffff_ffff || m.idx2 > 0xffff_ffff {
            return Err(ClassifyError::IndexOutOfRange);
        }
        if self.group.len() > 0 {
            let first = self.group[0];
            if !m.same_group(&first) {
                self.flush();
            } else if self.group.len() >= usize::MAX / 2 {
                return Err(ClassifyError::GroupTooLarge);
            }
        }
        self.group.push(m);
        proof {
            if begins_group(old(self).group(), m) {
                assert(self.group@ =~= seq![m]);
            }
            self.seen@ = self.seen@.push(m);
            assert(self.seen@.drop_last() =~= old(self).seen@);
        }
        Ok(())
    }

    /// Ends the stream: the gathered group is put to the duplicate rule, and
    /// the duplicate-index set and the tallies of the whole stream are
    /// handed over.
    pub fn finish(self) -> (r: (RoaringBitmap, Tallies))
        requires
            self.well_formed(),
        ensures
            bitmap_members(r.0) == stream_duplicates(self.seen(), self.second_ends()),
            r.1 == stream_tallies(self.seen(), self.second_ends()),
            bitmap_members(r.0) == self.marked().union(
                duplicate_indices(self.group(), on_second_end(self.group(), self.second_ends())),
            ),
    {
        let mut this = self;
        this.flush();
        (this.mask, this.tallies)
    }
}

/// The entries with the group key `key`.
pub open spec fn with_key(key: Coordinate) -> spec_fn(Metadata) -> bool {
    |m: Metadata| m.group_key() == key
}

/// In a sorted stream the entries of one group stand side by side, and
/// within a group the entries with one right end do.
pub proof fn lemma_groups_are_contiguous(s: Seq<Metadata>, i: int, k: int, j: int)
    requires
        is_sorted(s),
        0 <= i <= k <= j < s.len(),
        s[i].group_key() == s[j].group_key(),
    ensures
        s[k].group_key() == s[i].group_key(),
        s[i].mate_key() == s[j].mate_key() ==> s[k].mate_key() == s[i].mate_key(),
{
    if i < k {
        assert(s[i].not_after(s[k]));
    }
    if k < j {
        assert(s[k].not_after(s[j]));
    }
    lemma_group_is_contiguous(s[i], s[k], s[j]);
    if s[i].mate_key() == s[j].mate_key() {
        lemma_right_ends_are_contiguous(s[i], s[k], s[j]);
    }
}

/// In a sorted stream the group that is being gathered holds every entry
/// with the group key of the last entry: no group is cut in two.
pub proof fn lemma_group_is_whole(s: Seq<Metadata>, second_ends: Set<Coordinate>)
    requires
        is_sorted(s),
        s.len() > 0,
    ensures
        classified(s, second_ends).0 == s.filter(with_key(s.last().group_key())),
    decreases s.len(),
{
    let t = s.drop_last();
    let x = s.last();
    let key = x.group_key();
    assert(s =~= t.push(x));
    t.lemma_filter_push(x, with_key(key));
    if t.len() == 0 {
        reveal(Seq::filter);
        assert(t.filter(with_key(key)) =~= Seq::<Metadata>::empty());
        assert(classified(t, second_ends).0 =~= Seq::<Metadata>::empty());
        assert(Seq::<Metadata>::empty().push(x) =~= seq![x]);
    } else {
        assert(is_sorted(t)) by {
            assert forall|i: int, j: int| 0 <= i < j < t.len() implies #[trigger] t[i].not_after(
                #[trigger] t[j],
            ) by {
                assert(s[i].not_after(s[j]));
            }
        }
        lemma_group_is_whole(t, second_ends);
        let last_key = t.last().group_key();
        let g = classified(t, second_ends).0;
        assert(g == t.filter(with_key(last_key)));
        t.lemma_filter_contains(with_key(last_key), t.len() - 1);
        assert(g.len() > 0);
        t.lemma_filter_pred(with_key(last_key), 0);
        assert(g[0].group_key() == last_key);
        if key != last_key {
            assert forall|i: int| 0 <= i < t.len() implies !with_key(key)(#[trigger] t[i]) by {
                if t[i].group_key() == key {
                    lemma_groups_are_contiguous(s, i, t.len() - 1, s.len() - 1);
                }
            }
            t.lemma_all_neg_filter_empty(with_key(key));
            assert(t.filter(with_key(key)).push(x) =~= seq![x]);
        }
    }
}

/// The duplicates do not depend on how the entries were split into batches
/// or on the order in which they were found: entries that are the same up
/// to their order have the same duplicates in their sorted arrangement.
pub proof fn lemma_duplicates_are_determined(
    entries: Seq<Metadata>,
    others: Seq<Metadata>,
    second_ends: Set<Coordinate>,
)
    requires
        entries.to_multiset() == others.to_multiset(),
    ensures
        stream_duplicates(sorted(entries), second_ends) == stream_duplicates(
            sorted(others),
            second_ends,
        ),
{
    lemma_sorted(entries, others);
}

} // verus!
