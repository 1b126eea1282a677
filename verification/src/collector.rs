//! The second half of the pipeline: the sorted runs are merged into one
//! stream, and the stream is classified into the duplicate-index set.

use crate::classifier::{
    begins_group, fits, stream_duplicates, stream_tallies, ClassifyError, GroupClassifier, Tallies,
};
use crate::index_set::bitmap_members;
use crate::merge::{is_first, lemma_merge_is_sorting, MergeError, MergeItem, Merger};
use crate::metadata::Metadata;
use crate::second_ends::{Coordinate, SecondEndSet};
use crate::spill::{is_sorted, sorted};
use roaring::RoaringBitmap;
use vstd::multiset::Multiset;
use vstd::prelude::*;

verus! {

/// Why the collector stopped.
#[derive(Debug, Clone, Copy, PartialEq, Eq, Structural)]
pub enum CollectError {
    /// The merge refused an entry.
    Merge(MergeError),
    /// The classifier refused an entry.
    Classify(ClassifyError),
}

/// The merge of the sorted runs together with the classifier of the merged
/// stream.
///
/// The caller hands in the first entry of each run, and then, as long as
/// [`DuplicateCollector::advance`] names a run, the next entry of that run
/// if the run has one.
pub struct DuplicateCollector {
    merger: Merger,
    classifier: GroupClassifier,
}

impl DuplicateCollector {
    /// The items that wait in the merge.
    pub closed spec fn pending(&self) -> Multiset<MergeItem> {
        self.merger.pending()
    }

    /// The entries handed in so far.
    pub closed spec fn received(&self) -> Multiset<Metadata> {
        self.merger.received()
    }

    /// The merged stream so far: the entries that went on to the classifier.
    pub closed spec fn stream(&self) -> Seq<Metadata> {
        self.merger.emitted()
    }

    /// The coordinates that host the right end of a pair.
    pub closed spec fn second_ends(&self) -> Set<Coordinate> {
        self.classifier.second_ends()
    }

    /// The entries of the group that the classifier is gathering.
    pub closed spec fn group(&self) -> Seq<Metadata> {
        self.classifier.group()
    }

    /// The invariant of the collector: the classifier has taken exactly the
    /// merged stream.
    pub closed spec fn well_formed(&self) -> bool {
        &&& self.merger.well_formed()
        &&& self.classifier.well_formed()
        &&& self.classifier.seen() == self.merger.emitted()
    }

    /// Whether the merge takes `entry` in: it must not sort before the entry
    /// that went on to the classifier last.
    pub open spec fn accepts(&self, entry: Metadata) -> bool {
        self.stream().len() == 0 || self.stream().last().not_after(entry)
    }

    /// Whether the classifier takes `entry`: its indices fit the
    /// duplicate-index set, and the group that it joins has room.
    pub open spec fn classifies(&self, entry: Metadata) -> bool {
        fits(entry) && (begins_group(self.group(), entry) || self.group().len() < usize::MAX / 2)
    }

    /// A collector that has seen nothing.
    pub fn new(second_ends: SecondEndSet) -> (c: DuplicateCollector)
        ensures
            c.well_formed(),
            c.second_ends() == second_ends@,
            c.pending() == Multiset::<MergeItem>::empty(),
            c.received() == Multiset::<Metadata>::empty(),
            c.stream() == Seq::<Metadata>::empty(),
            c.group() == Seq::<Metadata>::empty(),
    {
        DuplicateCollector { merger: Merger::new(), classifier: GroupClassifier::new(second_ends) }
    }

    /// Hands in the next entry of the run `f_idx`. An entry that sorts
    /// before the merged stream is refused, and the collector stays as it
    /// was.
    pub fn push(&mut self, data: Metadata, f_idx: usize) -> (r: Result<(), CollectError>)
        requires
            old(self).well_formed(),
        ensures
            final(self).well_formed(),
            final(self).second_ends() == old(self).second_ends(),
            final(self).stream() == old(self).stream(),
            final(self).group() == old(self).group(),
            old(self).accepts(data) ==> r.is_ok() && final(self).pending() == old(
                self,
            ).pending().insert(MergeItem { data, f_idx }) && final(self).received() == old(
                self,
            ).received().insert(data),
            !old(self).accepts(data) ==> r == Err::<(), CollectError>(
                CollectError::Merge(MergeError::OutOfOrder),
            ) && final(self).pending() == old(self).pending() && final(self).received() == old(
                self,
            ).received(),
    {
        match self.merger.push(MergeItem { data, f_idx }) {
            Ok(()) => Ok(()),
            Err(e) => Err(CollectError::Merge(e)),
        }
    }

    /// Moves the first entry of the merge on to the classifier and names the
    /// run that it came from, or tells that the merge is empty.
    ///
    /// After a refusal of the classifier the collector is of no more use.
    pub fn advance(&mut self) -> (r: Result<Option<usize>, CollectError>)
        requires
            old(self).well_formed(),
        ensures
            final(self).second_ends() == old(self).second_ends(),
            final(self).received() == old(self).received(),
            old(self).pending().len() == 0 ==> r == Ok::<Option<usize>, CollectError>(None)
                && final(self).well_formed() && final(self).stream() == old(self).stream()
                && final(self).pending() == old(self).pending() && final(self).group() == old(
                self,
            ).group(),
            old(self).pending().len() > 0 ==> exists|it: MergeItem|
                {
                    &&& #[trigger] is_first(it, old(self).pending())
                    &&& final(self).pending() == old(self).pending().remove(it)
                    &&& if old(self).classifies(it.data) {
                        &&& r == Ok::<Option<usize>, CollectError>(Some(it.f_idx))
                        &&& final(self).well_formed()
                        &&& final(self).stream() == old(self).stream().push(it.data)
                    } else if !fits(it.data) {
                        r == Err::<Option<usize>, CollectError>(
                            CollectError::Classify(ClassifyError::IndexOutOfRange),
                        )
                    } else {
                        r == Err::<Option<usize>, CollectError>(
                            CollectError::Classify(ClassifyError::GroupTooLarge),
                        )
                    }
                },
    {
        match self.merger.pop() {
            None => Ok(None),
            Some(item) => {
                assert(is_first(item, old(self).pending()));
                match self.classifier.accept(item.data) {
                    Ok(()) => Ok(Some(item.f_idx)),
                    Err(e) => Err(CollectError::Classify(e)),
                }
            },
        }
    }

    /// Ends the stream and hands over the duplicate-index set and the
    /// tallies of the merged stream.
    pub fn finish(self) -> (r: (RoaringBitmap, Tallies))
        requires
            self.well_formed(),
        ensures
            bitmap_members(r.0) == stream_duplicates(self.stream(), self.second_ends()),
            r.1 == stream_tallies(self.stream(), self.second_ends()),
    {
        self.classifier.finish()
    }
}

/// The merged stream never steps back, and once nothing waits in the merge
/// it is the sorted arrangement of all the entries that were handed in: the
/// duplicates that the collector finds depend on those entries alone, not
/// on the batches in which they came.
pub proof fn lemma_collected(c: DuplicateCollector, all: Seq<Metadata>)
    requires
        c.well_formed(),
    ensures
        is_sorted(c.stream()),
        c.pending().len() == 0 && all.to_multiset() == c.received() ==> c.stream() == sorted(all)
            && stream_duplicates(c.stream(), c.second_ends()) == stream_duplicates(
            sorted(all),
            c.second_ends(),
        ),
{
    crate::merge::lemma_merged_stream_is_sorted(c.merger);
    if c.pending().len() == 0 && all.to_multiset() == c.received() {
        lemma_merge_is_sorting(c.merger, all);
    }
}

} // verus!
