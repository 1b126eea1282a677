//! The k-way merge of sorted runs: a priority queue of run heads that hands
//! out the entries of all runs in one ordered stream.

use crate::metadata::{lemma_order_is_strict_total, Metadata};
use crate::spill::{is_sorted, is_sorting_of, lemma_sorted_is_unique, sorted};
use vstd::multiset::Multiset;
use vstd::prelude::*;

verus! {

/// The head of a run in the merge: an entry and the index of the run that it
/// was read from.
#[derive(Debug, Clone, Copy, PartialEq, Eq, Structural)]
pub struct MergeItem {
    pub data: Metadata,
    pub f_idx: usize,
}

/// Why the merge refused an entry.
#[derive(Debug, Clone, Copy, PartialEq, Eq, Structural)]
pub enum MergeError {
    /// The entry sorts before one that was handed out already: the run that
    /// it comes from is not sorted.
    OutOfOrder,
}

/// The order in which the merge hands out its items: by entry, and among
/// equal entries by run index.
pub open spec fn item_before(a: MergeItem, b: MergeItem) -> bool {
    a.data.before(b.data) || (a.data == b.data && a.f_idx < b.f_idx)
}

/// The entries of a sequence of items.
pub open spec fn data_of(items: Seq<MergeItem>) -> Seq<Metadata> {
    items.map_values(|it: MergeItem| it.data)
}

/// `it` is among `pending`, and no item of `pending` comes before it.
pub open spec fn is_first(it: MergeItem, pending: Multiset<MergeItem>) -> bool {
    &&& pending.contains(it)
    &&& forall|x: MergeItem| pending.contains(x) ==> !item_before(x, it)
}

/// The order of items is a strict total order.
pub proof fn lemma_item_order(a: MergeItem, b: MergeItem, c: MergeItem)
    ensures
        !item_before(a, a),
        item_before(a, b) && item_before(b, c) ==> item_before(a, c),
        !item_before(b, a) && !item_before(c, b) ==> !item_before(c, a),
        item_before(a, b) || item_before(b, a) || a == b,
{
    lemma_order_is_strict_total(a.data, b.data, c.data);
    lemma_order_is_strict_total(b.data, a.data, c.data);
    lemma_order_is_strict_total(c.data, b.data, a.data);
}

/// Whether `a` is handed out before `b`.
fn item_precedes(a: &MergeItem, b: &MergeItem) -> (r: bool)
    ensures
        r == item_before(*a, *b),
{
    if a.data.precedes(&b.data) {
        true
    } else if b.data.precedes(&a.data) {
        false
    } else {
        a.f_idx < b.f_idx
    }
}

/// No item of the heap comes before its parent.
spec fn heap_ordered(s: Seq<MergeItem>) -> bool {
    forall|i: int| 1 <= i < s.len() ==> !item_before(#[trigger] s[i], s[(i - 1) / 2])
}

/// The heap is in order but for the item at `k`, which may come before its
/// parent; the children of `k` do not come before the parent of `k`.
spec fn ordered_but_above(s: Seq<MergeItem>, k: int) -> bool {
    &&& forall|i: int| 1 <= i < s.len() && i != k ==> !item_before(#[trigger] s[i], s[(i - 1) / 2])
    &&& forall|i: int|
        1 <= i < s.len() && k >= 1 && (i - 1) / 2 == k ==> !item_before(
            #[trigger] s[i],
            s[(k - 1) / 2],
        )
}

/// The heap is in order but for the item at `k`, which may come after its
/// children; the children of `k` do not come before the parent of `k`.
spec fn ordered_but_below(s: Seq<MergeItem>, k: int) -> bool {
    &&& forall|i: int|
        1 <= i < s.len() && (i - 1) / 2 != k ==> !item_before(#[trigger] s[i], s[(i - 1) / 2])
    &&& forall|i: int|
        1 <= i < s.len() && k >= 1 && (i - 1) / 2 == k ==> !item_before(
            #[trigger] s[i],
            s[(k - 1) / 2],
        )
}

proof fn lemma_root_is_first(s: Seq<MergeItem>, i: int)
    requires
        heap_ordered(s),
        0 <= i < s.len(),
    ensures
        !item_before(s[i], s[0]),
    decreases i,
{
    if i > 0 {
        let p = (i - 1) / 2;
        lemma_root_is_first(s, p);
        lemma_item_order(s[0], s[p], s[i]);
    } else {
        lemma_item_order(s[0], s[0], s[0]);
    }
}

proof fn lemma_empty_multiset<A>(s: Seq<A>)
    requires
        s.len() == 0,
    ensures
        s.to_multiset() == Multiset::<A>::empty(),
{
    s.to_multiset_ensures();
    assert forall|a: A| s.to_multiset().count(a) == 0 by {
        assert(!s.contains(a));
    }
    assert(s.to_multiset() =~= Multiset::<A>::empty());
}

proof fn lemma_update_multiset(s: Seq<MergeItem>, i: int, v: MergeItem)
    requires
        0 <= i < s.len(),
    ensures
        s.update(i, v).to_multiset() == s.to_multiset().remove(s[i]).insert(v),
        data_of(s.update(i, v)).to_multiset() == data_of(s).to_multiset().remove(s[i].data).insert(
            v.data,
        ),
{
    vstd::seq_lib::to_multiset_remove(s, i);
    vstd::seq_lib::to_multiset_insert(s.remove(i), i, v);
    assert(s.update(i, v) =~= s.remove(i).insert(i, v));
    let d = data_of(s);
    vstd::seq_lib::to_multiset_remove(d, i);
    vstd::seq_lib::to_multiset_insert(d.remove(i), i, v.data);
    assert(data_of(s.update(i, v)) =~= d.remove(i).insert(i, v.data));
}

proof fn lemma_swap_multiset(s: Seq<MergeItem>, i: int, j: int)
    requires
        0 <= i < s.len(),
        0 <= j < s.len(),
    ensures
        s.update(i, s[j]).update(j, s[i]).to_multiset() == s.to_multiset(),
        data_of(s.update(i, s[j]).update(j, s[i])).to_multiset() == data_of(s).to_multiset(),
{
    let t = s.update(i, s[j]);
    lemma_update_multiset(s, i, s[j]);
    lemma_update_multiset(t, j, s[i]);
    s.to_multiset_ensures();
    data_of(s).to_multiset_ensures();
    assert(s.contains(s[i]) && s.contains(s[j]));
    assert(data_of(s)[i] == s[i].data && data_of(s)[j] == s[j].data);
    assert(data_of(s).contains(s[i].data) && data_of(s).contains(s[j].data));
    assert(t.update(j, s[i]).to_multiset() =~= s.to_multiset());
    assert(data_of(t.update(j, s[i])).to_multiset() =~= data_of(s).to_multiset());
}

/// Moves the item at `k` up until its parent does not come after it.
fn sift_up(heap: &mut Vec<MergeItem>, k: usize)
    requires
        k < old(heap).len(),
        ordered_but_above(old(heap)@, k as int),
    ensures
        heap_ordered(final(heap)@),
        final(heap)@.to_multiset() == old(heap)@.to_multiset(),
        data_of(final(heap)@).to_multiset() == data_of(old(heap)@).to_multiset(),
{
    let mut k = k;
    while k > 0
        invariant
            k < heap.len(),
            ordered_but_above(heap@, k as int),
            heap@.to_multiset() == old(heap)@.to_multiset(),
            data_of(heap@).to_multiset() == data_of(old(heap)@).to_multiset(),
        ensures
            heap_ordered(heap@),
            heap@.to_multiset() == old(heap)@.to_multiset(),
            data_of(heap@).to_multiset() == data_of(old(heap)@).to_multiset(),
        decreases k,
    {
        let parent = (k - 1) / 2;
        let child_item = heap[k];
        let parent_item = heap[parent];
        if !item_precedes(&child_item, &parent_item) {
            break ;
        }
        let ghost before = heap@;
        heap[k] = parent_item;
        heap[parent] = child_item;
        proof {
            lemma_swap_multiset(before, k as int, parent as int);
            assert(heap@ =~= before.update(k as int, before[parent as int]).update(
                parent as int,
                before[k as int],
            ));
            assert forall|i: int| 1 <= i < heap@.len() && i != parent implies !item_before(
                #[trigger] heap@[i],
                heap@[(i - 1) / 2],
            ) by {
                let p = (i - 1) / 2;
                if i == k {
                    lemma_item_order(child_item, parent_item, child_item);
                } else if p == k {
                    assert(!item_before(before[i], before[(k - 1) / 2]));
                } else if p == parent {
                    assert(!item_before(before[i], before[p]));
                    lemma_item_order(child_item, parent_item, before[i]);
                } else {
                    assert(!item_before(before[i], before[p]));
                }
            }
            assert forall|i: int|
                1 <= i < heap@.len() && parent >= 1 && (i - 1) / 2 == parent implies !item_before(
                #[trigger] heap@[i],
                heap@[(parent - 1) / 2],
            ) by {
                let g = (parent - 1) / 2;
                assert(!item_before(before[parent as int], before[g]));
                if i == k {
                } else {
                    assert(!item_before(before[i], before[parent as int]));
                    lemma_item_order(before[g], before[parent as int], before[i]);
                }
            }
        }
        k = parent;
    }
}

/// Moves the item at the root down until no child comes before it.
fn sift_down(heap: &mut Vec<MergeItem>)
    requires
        old(heap).len() > 0,
        ordered_but_below(old(heap)@, 0),
    ensures
        heap_ordered(final(heap)@),
        final(heap)@.to_multiset() == old(heap)@.to_multiset(),
        data_of(final(heap)@).to_multiset() == data_of(old(heap)@).to_multiset(),
{
    let n = heap.len();
    let mut k: usize = 0;
    while k < n / 2
        invariant
            n == heap.len(),
            k < n,
            ordered_but_below(heap@, k as int),
            heap@.to_multiset() == old(heap)@.to_multiset(),
            data_of(heap@).to_multiset() == data_of(old(heap)@).to_multiset(),
        ensures
            heap_ordered(heap@),
            heap@.to_multiset() == old(heap)@.to_multiset(),
            data_of(heap@).to_multiset() == data_of(old(heap)@).to_multiset(),
        decreases n - k,
    {
        let left = 2 * k + 1;
        let right = left + 1;
        let mut child = left;
        if right < n {
            let r = heap[right];
            let l = heap[left];
            if item_precedes(&r, &l) {
                child = right;
            }
        }
        let child_item = heap[child];
        let item = heap[k];
        if !item_precedes(&child_item, &item) {
            proof {
                assert forall|i: int| 1 <= i < heap@.len() implies !item_before(
                    #[trigger] heap@[i],
                    heap@[(i - 1) / 2],
                ) by {
                    if (i - 1) / 2 == k {
                        assert(i == left || i == right);
                        lemma_item_order(item, child_item, heap@[i]);
                        lemma_item_order(heap@[left as int], heap@[i], item);
                    }
                }
            }
            break ;
        }
        let ghost before = heap@;
        heap[k] = child_item;
        heap[child] = item;
        proof {
            lemma_swap_multiset(before, k as int, child as int);
            assert(heap@ =~= before.update(k as int, before[child as int]).update(
                child as int,
                before[k as int],
            ));
            assert forall|i: int|
                1 <= i < heap@.len() && (i - 1) / 2 != child implies !item_before(
                #[trigger] heap@[i],
                heap@[(i - 1) / 2],
            ) by {
                let p = (i - 1) / 2;
                if i == child {
                    lemma_item_order(child_item, item, child_item);
                } else if p == k {
                    assert(i == left || i == right);
                    lemma_item_order(child_item, before[i], child_item);
                } else if i == k {
                    assert(!item_before(before[child as int], before[(k - 1) / 2]));
                } else {
                    assert(!item_before(before[i], before[p]));
                }
            }
            assert forall|i: int|
                1 <= i < heap@.len() && child >= 1 && (i - 1) / 2 == child implies !item_before(
                #[trigger] heap@[i],
                heap@[(child - 1) / 2],
            ) by {
                assert(!item_before(before[i], before[child as int]));
            }
        }
        k = child;
    }
}

/// The merge of sorted runs.
///
/// The caller seeds the merge with the head of each run, then takes the
/// first item, reads the next entry of the run that the item came from, and
/// hands that in, until no item is left.
pub struct Merger {
    heap: Vec<MergeItem>,
    last: Option<Metadata>,
    emitted: Ghost<Seq<Metadata>>,
    received: Ghost<Multiset<Metadata>>,
}

impl Merger {
    /// The items that wait in the merge.
    pub closed spec fn pending(&self) -> Multiset<MergeItem> {
        self.heap@.to_multiset()
    }

    /// The stream of entries handed out so far.
    pub closed spec fn emitted(&self) -> Seq<Metadata> {
        self.emitted@
    }

    /// The entries taken in so far.
    pub closed spec fn received(&self) -> Multiset<Metadata> {
        self.received@
    }

    /// The invariant of the merge: what was handed out is in order, nothing
    /// that waits sorts before it, and nothing that was taken in is lost.
    pub closed spec fn well_formed(&self) -> bool {
        &&& heap_ordered(self.heap@)
        &&& is_sorted(self.emitted@)
        &&& self.last == if self.emitted@.len() > 0 {
            Some(self.emitted@.last())
        } else {
            None
        }
        &&& forall|x: MergeItem|
            self.emitted@.len() > 0 && #[trigger] self.heap@.to_multiset().contains(x)
                ==> self.emitted@.last().not_after(x.data)
        &&& self.received@ == self.emitted@.to_multiset().add(data_of(self.heap@).to_multiset())
    }

    /// Whether the merge takes `entry` in: it must not sort before the entry
    /// handed out last.
    pub open spec fn accepts(&self, entry: Metadata) -> bool {
        self.emitted().len() == 0 || self.emitted().last().not_after(entry)
    }

    /// A merge with nothing in it.
    pub fn new() -> (m: Merger)
        ensures
            m.well_formed(),
            m.pending() == Multiset::<MergeItem>::empty(),
            m.emitted() == Seq::<Metadata>::empty(),
            m.received() == Multiset::<Metadata>::empty(),
    {
        let m = Merger {
            heap: Vec::new(),
            last: None,
            emitted: Ghost(Seq::empty()),
            received: Ghost(Multiset::empty()),
        };
        proof {
            lemma_empty_multiset(m.heap@);
            lemma_empty_multiset(data_of(m.heap@));
            lemma_empty_multiset(m.emitted@);
            assert(m.received@ =~= m.emitted@.to_multiset().add(data_of(m.heap@).to_multiset()));
        }
        m
    }

    /// The number of items that wait in the merge.
    pub fn len(&self) -> (n: usize)
        ensures
            n == self.pending().len(),
    {
        proof {
            self.heap@.to_multiset_ensures();
        }
        self.heap.len()
    }

    /// Takes an item in. An item that sorts before the entry handed out last
    /// is refused, and the merge stays as it was.
    pub fn push(&mut self, item: MergeItem) -> (r: Result<(), MergeError>)
        requires
            old(self).well_formed(),
        ensures
            final(self).well_formed(),
            final(self).emitted() == old(self).emitted(),
            old(self).accepts(item.data) ==> r.is_ok() && final(self).pending() == old(
                self,
            ).pending().insert(item) && final(self).received() == old(self).received().insert(
                item.data,
            ),
            !old(self).accepts(item.data) ==> r == Err::<(), MergeError>(MergeError::OutOfOrder)
                && final(self).pending() == old(self).pending() && final(self).received() == old(
                self,
            ).received(),
    {
        match self.last {
            Some(last) => {
                if item.data.precedes(&last) {
                    proof {
                        lemma_order_is_strict_total(item.data, last, last);
                    }
                    return Err(MergeError::OutOfOrder);
                }
                proof {
                    lemma_order_is_strict_total(item.data, last, last);
                }
            },
            None => {},
        }
        let ghost before = self.heap@;
        self.heap.push(item);
        proof {
            before.to_multiset_ensures();
            data_of(before).to_multiset_ensures();
            assert(self.heap@ =~= before.push(item));
            assert(data_of(self.heap@) =~= data_of(before).push(item.data));
            assert(ordered_but_above(self.heap@, before.len() as int)) by {
                assert forall|i: int|
                    1 <= i < self.heap@.len() && i != before.len() implies !item_before(
                    #[trigger] self.heap@[i],
                    self.heap@[(i - 1) / 2],
                ) by {
                    assert(!item_before(before[i], before[(i - 1) / 2]));
                }
            }
        }
        let k = self.heap.len() - 1;
        sift_up(&mut self.heap, k);
        proof {
            self.received@ = self.received@.insert(item.data);
            assert(self.heap@.to_multiset() =~= before.to_multiset().insert(item));
            assert(data_of(self.heap@).to_multiset() =~= data_of(before).to_multiset().insert(
                item.data,
            ));
            assert(self.received@ =~= self.emitted@.to_multiset().add(
                data_of(self.heap@).to_multiset(),
            ));
            assert forall|x: MergeItem|
                self.emitted@.len() > 0 && #[trigger] self.heap@.to_multiset().contains(
                    x,
                ) implies self.emitted@.last().not_after(x.data) by {
                if x != item {
                    assert(before.to_multiset().contains(x));
                }
            }
        }
        Ok(())
    }

    /// Hands out the first of the items that wait, if any waits.
    pub fn pop(&mut self) -> (r: Option<MergeItem>)
        requires
            old(self).well_formed(),
        ensures
            final(self).well_formed(),
            final(self).received() == old(self).received(),
            match r {
                None => old(self).pending().len() == 0 && final(self).pending() == old(
                    self,
                ).pending() && final(self).emitted() == old(self).emitted(),
                Some(it) => is_first(it, old(self).pending()) && final(self).pending() == old(
                    self,
                ).pending().remove(it) && final(self).emitted() == old(self).emitted().push(
                    it.data,
                ) && old(self).accepts(it.data),
            },
    {
        let n = self.heap.len();
        proof {
            self.heap@.to_multiset_ensures();
            data_of(self.heap@).to_multiset_ensures();
        }
        if n == 0 {
            return None;
        }
        let ghost before = self.heap@;
        let top = self.heap[0];
        proof {
            assert(before.contains(top));
            assert forall|x: MergeItem| before.to_multiset().contains(x) implies !item_before(
                x,
                top,
            ) by {
                assert(before.contains(x));
                let i = choose|i: int| 0 <= i < before.len() && before[i] == x;
                lemma_root_is_first(before, i);
            }
        }
        let moved = self.heap.pop().unwrap();
        let ghost shrunk = self.heap@;
        proof {
            assert(shrunk =~= before.remove(n - 1));
            vstd::seq_lib::to_multiset_remove(before, n - 1);
            assert(data_of(shrunk) =~= data_of(before).remove(n - 1));
            vstd::seq_lib::to_multiset_remove(data_of(before), n - 1);
        }
        if n > 1 {
            self.heap[0] = moved;
            proof {
                let swapped = before.update(0, moved).update(n - 1, top);
                lemma_swap_multiset(before, 0, n - 1);
                assert(self.heap@ =~= swapped.remove(n - 1));
                vstd::seq_lib::to_multiset_remove(swapped, n - 1);
                assert(data_of(self.heap@) =~= data_of(swapped).remove(n - 1));
                vstd::seq_lib::to_multiset_remove(data_of(swapped), n - 1);
                assert(self.heap@.to_multiset() == before.to_multiset().remove(top));
                assert(data_of(self.heap@).to_multiset() == data_of(before).to_multiset().remove(
                    top.data,
                ));
                assert(ordered_but_below(self.heap@, 0)) by {
                    assert forall|i: int|
                        1 <= i < self.heap@.len() && (i - 1) / 2 != 0 implies !item_before(
                        #[trigger] self.heap@[i],
                        self.heap@[(i - 1) / 2],
                    ) by {
                        assert(!item_before(before[i], before[(i - 1) / 2]));
                    }
                }
            }
            sift_down(&mut self.heap);
        }
        proof {
            let old_last = self.emitted@;
            assert(self.heap@.to_multiset() == before.to_multiset().remove(top));
            assert(data_of(self.heap@).to_multiset() == data_of(before).to_multiset().remove(
                top.data,
            ));
            assert(data_of(before)[0] == top.data);
            assert(data_of(before).contains(top.data));
            assert(before.to_multiset().contains(top));
            assert(old_last.len() > 0 ==> old_last.last().not_after(top.data));
            self.emitted@ = self.emitted@.push(top.data);
            old_last.to_multiset_ensures();
            assert(self.received@ =~= self.emitted@.to_multiset().add(
                data_of(self.heap@).to_multiset(),
            ));
            assert(is_sorted(self.emitted@)) by {
                assert forall|i: int, j: int| 0 <= i < j < self.emitted@.len() implies (
                #[trigger] self.emitted@[i]).not_after(#[trigger] self.emitted@[j]) by {
                    if j < old_last.len() {
                        assert(old_last[i].not_after(old_last[j]));
                    } else if i < old_last.len() - 1 {
                        assert(old_last[i].not_after(old_last[old_last.len() - 1]));
                        lemma_order_is_strict_total(old_last[i], old_last.last(), top.data);
                    }
                }
            }
            assert forall|x: MergeItem| #[trigger]
                self.heap@.to_multiset().contains(x) implies top.data.not_after(x.data) by {
                assert(before.to_multiset().contains(x));
                assert(!item_before(x, top));
                lemma_order_is_strict_total(x.data, top.data, top.data);
            }
        }
        self.last = Some(top.data);
        Some(top)
    }
}

/// The merged stream is in order, whatever was taken in and in whatever
/// batches: it never steps back.
pub proof fn lemma_merged_stream_is_sorted(m: Merger)
    requires
        m.well_formed(),
    ensures
        is_sorted(m.emitted()),
{
}

/// Once nothing waits, the merged stream is the sorted arrangement of all
/// the entries that were taken in: it does not depend on how the entries
/// were split into runs.
pub proof fn lemma_merge_is_sorting(m: Merger, all: Seq<Metadata>)
    requires
        m.well_formed(),
        m.pending().len() == 0,
        all.to_multiset() == m.received(),
    ensures
        m.emitted() == sorted(all),
{
    m.heap@.to_multiset_ensures();
    assert(m.heap@ =~= Seq::<MergeItem>::empty());
    lemma_empty_multiset(data_of(m.heap@));
    assert(m.emitted@.to_multiset() =~= m.received@);
    assert(is_sorting_of(m.emitted(), all));
    lemma_sorted_is_unique(m.emitted(), sorted(all));
}

} // verus!
