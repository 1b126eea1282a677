//! The first pass: every record of the input is given its index, mates are
//! joined by read name, and the metadata entries are gathered into batches.

use crate::library::{library_id, LibraryTable, ReadGroup};
use crate::metadata::Metadata;
use crate::pending::{PendingMate, PendingPairs};
use crate::position::{
    add_scores, combined_score, five_prime_position, get_5p_pos, get_score, score_of,
};
use crate::record::{expects_mate, flag_set, is_skipped, AlignmentRecord, REVERSE_COMPLEMENTED};
use crate::second_ends::{Coordinate, SecondEndSet};
use vstd::prelude::*;

verus! {

/// Why the resolver refused a record.
#[derive(Debug, Clone, Copy, PartialEq, Eq, Structural)]
pub enum ResolveError {
    /// The input has more records than the duplicate-index set has indices.
    TooManyRecords,
    /// The 5' coordinate of the record does not fit a position.
    PositionOutOfRange,
    /// A record that expects its mate has no read name to find it by.
    MissingName,
}

/// The strand as the byte that entries carry.
pub open spec fn strand(rev: bool) -> u8 {
    if rev {
        1
    } else {
        0
    }
}

/// The entry of a read that stands alone. `paired_end` is 0 for a fragment
/// and 1 for a mate whose partner never arrived.
pub open spec fn lone_entry(m: PendingMate, paired_end: u8) -> Metadata {
    Metadata {
        lib_id: m.lib_id,
        ref_id1: m.ref_id,
        pos1: m.pos,
        rev1: strand(m.rev),
        rev2: 0,
        ref_id2: -1i32,
        pos2: 0,
        score: m.score,
        idx1: m.idx,
        idx2: 0,
        paired_end,
    }
}

/// Whether the mate that arrived second is the left end of the pair: it is
/// where its reference and position come strictly first.
pub open spec fn second_is_left(first: PendingMate, second: PendingMate) -> bool {
    second.ref_id < first.ref_id || (second.ref_id == first.ref_id && second.pos < first.pos)
}

/// The entry of a resolved pair. The left end is the mate with the smaller
/// reference and position; the library is that of the mate that arrived
/// first; the score is the sum of both.
pub open spec fn pair_entry(first: PendingMate, second: PendingMate) -> Metadata {
    let (left, right) = if second_is_left(first, second) {
        (second, first)
    } else {
        (first, second)
    };
    Metadata {
        lib_id: first.lib_id,
        ref_id1: left.ref_id,
        pos1: left.pos,
        rev1: strand(left.rev),
        rev2: strand(right.rev),
        ref_id2: right.ref_id,
        pos2: right.pos,
        score: combined_score(second.score, first.score),
        idx1: left.idx,
        idx2: right.idx,
        paired_end: 1,
    }
}

/// The coordinate of the right end of a resolved pair, in the library of the
/// mate that arrived first.
pub open spec fn second_end_of(first: PendingMate, second: PendingMate) -> Coordinate {
    let e = pair_entry(first, second);
    (first.lib_id, e.ref_id2, e.pos2, e.rev2)
}

/// The left end of a pair entry does not come after its right end.
pub proof fn lemma_pair_is_canonical(first: PendingMate, second: PendingMate)
    ensures
        ({
            let e = pair_entry(first, second);
            e.ref_id1 < e.ref_id2 || (e.ref_id1 == e.ref_id2 && e.pos1 <= e.pos2)
        }),
        pair_entry(first, second).paired_end == 1,
{
}

/// The entries of the mates that were left waiting at the end of the input.
pub open spec fn residue_entries(mates: Seq<PendingMate>) -> Seq<Metadata> {
    mates.map_values(|m: PendingMate| lone_entry(m, 1))
}

/// What the resolver holds between two records.
#[verifier::ext_equal]
pub struct ResolverState {
    /// The index of the next record.
    pub next_index: nat,
    /// The mates that wait for their partners.
    pub pending: Map<Seq<u8>, PendingMate>,
    /// The entries of the batch that is being gathered.
    pub batch: Seq<Metadata>,
    /// The entries made so far: those of the batches handed out, then those
    /// of the batch at hand.
    pub emitted: Seq<Metadata>,
    /// The number of entries in the batches handed out so far.
    pub handed_out: nat,
    /// The coordinates that host the right end of a resolved pair.
    pub second_ends: Set<Coordinate>,
    /// The indices of the mapped primary records seen.
    pub primary_indices: Set<nat>,
    /// The number of mapped primary records seen.
    pub primary: nat,
    /// The number of resolved pairs.
    pub pairs: nat,
    /// The number of entries of reads that stand alone.
    pub singles: nat,
}

/// What a record gives: the tuple that waits for the mate or goes into a
/// lone entry.
pub open spec fn mate_of(
    groups: Seq<ReadGroup>,
    record: AlignmentRecord,
    index: nat,
) -> PendingMate {
    PendingMate {
        lib_id: library_id(
            groups,
            match record.read_group {
                Some(id) => Some(id@),
                None => None,
            },
        ) as i32,
        ref_id: record.ref_id,
        pos: five_prime_position(record.alignment_start, record.is_reverse(), record.cigar@) as i32,
        rev: record.is_reverse(),
        score: score_of(record.quality_scores@),
        idx: index as u64,
    }
}

/// Why a record is refused in a state, if it is.
pub open spec fn refusal(s: ResolverState, record: AlignmentRecord) -> Option<ResolveError> {
    let p = five_prime_position(record.alignment_start, record.is_reverse(), record.cigar@);
    if s.next_index > u32::MAX {
        Some(ResolveError::TooManyRecords)
    } else if record.is_skipped() {
        None
    } else if !(i32::MIN <= p <= i32::MAX) {
        Some(ResolveError::PositionOutOfRange)
    } else if record.expects_mate() && record.name.is_none() {
        Some(ResolveError::MissingName)
    } else {
        None
    }
}

/// The state after a record that is not refused, before a full batch is
/// handed out.
pub open spec fn observed(
    s: ResolverState,
    groups: Seq<ReadGroup>,
    record: AlignmentRecord,
) -> ResolverState {
    let now = mate_of(groups, record, s.next_index);
    if record.is_skipped() {
        ResolverState { next_index: s.next_index + 1, ..s }
    } else if record.expects_mate() {
        let name = record.name.unwrap()@;
        if s.pending.contains_key(name) {
            let first = s.pending[name];
            ResolverState {
                next_index: s.next_index + 1,
                pending: s.pending.remove(name),
                batch: s.batch.push(pair_entry(first, now)),
                emitted: s.emitted.push(pair_entry(first, now)),
                second_ends: s.second_ends.insert(second_end_of(first, now)),
                primary_indices: s.primary_indices.insert(s.next_index),
                primary: s.primary + 1,
                pairs: s.pairs + 1,
                ..s
            }
        } else {
            ResolverState {
                next_index: s.next_index + 1,
                pending: s.pending.insert(name, now),
                primary_indices: s.primary_indices.insert(s.next_index),
                primary: s.primary + 1,
                ..s
            }
        }
    } else {
        ResolverState {
            next_index: s.next_index + 1,
            batch: s.batch.push(lone_entry(now, 0)),
            emitted: s.emitted.push(lone_entry(now, 0)),
            primary_indices: s.primary_indices.insert(s.next_index),
            primary: s.primary + 1,
            singles: s.singles + 1,
            ..s
        }
    }
}

/// Every entry of a batch stands for records that were seen before record
/// `n`, and a pair entry for two of them.
pub open spec fn entries_in_range(batch: Seq<Metadata>, n: nat) -> bool {
    forall|i: int|
        0 <= i < batch.len() ==> {
            &&& (#[trigger] batch[i]).idx1 < n
            &&& batch[i].idx2 < n
            &&& batch[i].paired_end <= 1
            &&& batch[i].paired_end == 1 ==> batch[i].idx1 != batch[i].idx2
        }
}

/// Whether a batch is handed out after a record: the record takes part in
/// the search, and the batch has reached its size.
pub open spec fn hands_out(s: ResolverState, batch_size: usize, record: AlignmentRecord) -> bool {
    !record.is_skipped() && s.batch.len() >= batch_size
}

/// The state after a batch was handed out.
pub open spec fn after_hand_out(s: ResolverState) -> ResolverState {
    ResolverState { batch: Seq::<Metadata>::empty(), handed_out: s.handed_out + s.batch.len(), ..s }
}

/// How often record `i` stands in an entry made during the scan: as the
/// read of the entry, or as the second end of a pair entry.
pub open spec fn stands_in(e: Metadata, i: nat) -> nat {
    let first: nat = if e.idx1 == i {
        1
    } else {
        0
    };
    let second: nat = if e.paired_end == 1 && e.idx2 == i {
        1
    } else {
        0
    };
    first + second
}

/// How often record `i` stands in the entries made during the scan.
pub open spec fn occurrences(entries: Seq<Metadata>, i: nat) -> nat
    decreases entries.len(),
{
    if entries.len() == 0 {
        0
    } else {
        occurrences(entries.drop_last(), i) + stands_in(entries.last(), i)
    }
}

/// How often record `i` is the read of one of the entries.
pub open spec fn lone_occurrences(entries: Seq<Metadata>, i: nat) -> nat
    decreases entries.len(),
{
    if entries.len() == 0 {
        0
    } else {
        lone_occurrences(entries.drop_last(), i) + if entries.last().idx1 == i {
            1nat
        } else {
            0nat
        }
    }
}

/// Whether record `i` waits for its mate.
pub open spec fn waits(pending: Map<Seq<u8>, PendingMate>, i: nat) -> bool {
    exists|name: Seq<u8>| pending.contains_key(name) && (#[trigger] pending[name]).idx == i
}

/// One if the condition holds, zero if not.
pub open spec fn one_if(b: bool) -> nat {
    if b {
        1
    } else {
        0
    }
}

/// The account of the records: every mapped primary record seen so far
/// either waits for its mate or stands in exactly one entry, and no other
/// record does either.
pub open spec fn accounted(s: ResolverState) -> bool {
    &&& s.handed_out <= s.emitted.len()
    &&& s.batch == s.emitted.skip(s.handed_out as int)
    &&& s.primary_indices.finite()
    &&& s.primary_indices.len() == s.primary
    &&& forall|i: nat| s.primary_indices.contains(i) ==> i < s.next_index
    &&& forall|name: Seq<u8>| #[trigger]
        s.pending.contains_key(name) ==> s.pending[name].idx < s.next_index
    &&& forall|a: Seq<u8>, b: Seq<u8>|
        s.pending.contains_key(a) && s.pending.contains_key(b) && a != b ==> (
        #[trigger] s.pending[a]).idx != (#[trigger] s.pending[b]).idx
    &&& forall|i: nat| #[trigger]
        occurrences(s.emitted, i) + one_if(waits(s.pending, i)) == one_if(
            s.primary_indices.contains(i),
        )
}

/// A record that is not refused keeps the account.
pub proof fn lemma_observed_keeps_account(
    s: ResolverState,
    groups: Seq<ReadGroup>,
    record: AlignmentRecord,
)
    requires
        accounted(s),
        refusal(s, record).is_none(),
    ensures
        accounted(observed(s, groups, record)),
        accounted(after_hand_out(observed(s, groups, record))),
{
    let next = observed(s, groups, record);
    let n = s.next_index;
    let now = mate_of(groups, record, n);
    assert(now.idx == n);
    assert(occurrences(s.emitted, n) + one_if(waits(s.pending, n)) == one_if(
        s.primary_indices.contains(n),
    ));
    assert(!s.primary_indices.contains(n));
    assert(!waits(s.pending, n));
    if record.is_skipped() {
        assert forall|i: nat| #[trigger]
            occurrences(next.emitted, i) + one_if(waits(next.pending, i)) == one_if(
                next.primary_indices.contains(i),
            ) by {
            assert(occurrences(s.emitted, i) + one_if(waits(s.pending, i)) == one_if(
                s.primary_indices.contains(i),
            ));
        }
    } else if record.expects_mate() {
        let name = record.name.unwrap()@;
        if s.pending.contains_key(name) {
            let first = s.pending[name];
            let f = first.idx as nat;
            let e = pair_entry(first, now);
            assert(next.emitted.drop_last() =~= s.emitted);
            assert(next.batch =~= next.emitted.skip(next.handed_out as int));
            assert(f < n);
            assert(waits(s.pending, f));
            assert forall|i: nat| #[trigger]
                occurrences(next.emitted, i) + one_if(waits(next.pending, i)) == one_if(
                    next.primary_indices.contains(i),
                ) by {
                assert(occurrences(s.emitted, i) + one_if(waits(s.pending, i)) == one_if(
                    s.primary_indices.contains(i),
                ));
                assert(stands_in(e, i) == one_if(i == f) + one_if(i == n));
                if waits(next.pending, i) {
                    let w = choose|w: Seq<u8>|
                        next.pending.contains_key(w) && (#[trigger] next.pending[w]).idx == i;
                    assert(s.pending.contains_key(w) && s.pending[w].idx == i);
                    assert(w != name);
                    assert(i != f);
                }
                if waits(s.pending, i) && i != f {
                    let w = choose|w: Seq<u8>|
                        s.pending.contains_key(w) && (#[trigger] s.pending[w]).idx == i;
                    assert(next.pending.contains_key(w) && next.pending[w].idx == i);
                }
            }
        } else {
            assert(next.batch =~= next.emitted.skip(next.handed_out as int));
            assert forall|i: nat| #[trigger]
                occurrences(next.emitted, i) + one_if(waits(next.pending, i)) == one_if(
                    next.primary_indices.contains(i),
                ) by {
                assert(occurrences(s.emitted, i) + one_if(waits(s.pending, i)) == one_if(
                    s.primary_indices.contains(i),
                ));
                if waits(next.pending, i) && i != n {
                    let w = choose|w: Seq<u8>|
                        next.pending.contains_key(w) && (#[trigger] next.pending[w]).idx == i;
                    assert(w != name);
                    assert(s.pending.contains_key(w) && s.pending[w].idx == i);
                }
                if waits(s.pending, i) {
                    let w = choose|w: Seq<u8>|
                        s.pending.contains_key(w) && (#[trigger] s.pending[w]).idx == i;
                    assert(next.pending.contains_key(w) && next.pending[w].idx == i);
                }
                if i == n {
                    assert(next.pending.contains_key(name) && next.pending[name].idx == i);
                }
            }
        }
    } else {
        let e = lone_entry(now, 0);
        assert(next.emitted.drop_last() =~= s.emitted);
        assert(next.batch =~= next.emitted.skip(next.handed_out as int));
        assert forall|i: nat| #[trigger]
            occurrences(next.emitted, i) + one_if(waits(next.pending, i)) == one_if(
                next.primary_indices.contains(i),
            ) by {
            assert(occurrences(s.emitted, i) + one_if(waits(s.pending, i)) == one_if(
                s.primary_indices.contains(i),
            ));
            assert(stands_in(e, i) == one_if(i == n));
        }
    }
    let after = after_hand_out(next);
    assert(after.batch =~= after.emitted.skip(after.handed_out as int));
}

/// Among mates with different indices, record `i` is the read of one residue
/// entry if one of the mates has the index `i`, and of none otherwise.
pub proof fn lemma_residue_occurrences(mates: Seq<PendingMate>, i: nat)
    requires
        forall|a: int, b: int|
            0 <= a < mates.len() && 0 <= b < mates.len() && a != b ==> (#[trigger] mates[a]).idx
                != (#[trigger] mates[b]).idx,
    ensures
        lone_occurrences(residue_entries(mates), i) == one_if(
            exists|k: int| 0 <= k < mates.len() && (#[trigger] mates[k]).idx == i,
        ),
    decreases mates.len(),
{
    if mates.len() > 0 {
        let head = mates.drop_last();
        let last = mates.last();
        lemma_residue_occurrences(head, i);
        assert(residue_entries(mates).drop_last() =~= residue_entries(head));
        assert(residue_entries(mates).last().idx1 == last.idx);
        assert(forall|k: int| 0 <= k < head.len() ==> head[k] == mates[k]);
        if last.idx == i {
            assert(mates[mates.len() - 1].idx == i);
            if exists|k: int| 0 <= k < head.len() && (#[trigger] head[k]).idx == i {
                let k = choose|k: int| 0 <= k < head.len() && (#[trigger] head[k]).idx == i;
                assert(mates[k].idx == mates[mates.len() - 1].idx);
            }
        } else {
            if exists|k: int| 0 <= k < mates.len() && (#[trigger] mates[k]).idx == i {
                let k = choose|k: int| 0 <= k < mates.len() && (#[trigger] mates[k]).idx == i;
                assert(head[k].idx == i);
            }
            if exists|k: int| 0 <= k < head.len() && (#[trigger] head[k]).idx == i {
                let k = choose|k: int| 0 <= k < head.len() && (#[trigger] head[k]).idx == i;
                assert(mates[k].idx == i);
            }
        }
    }
}

/// The DUPLICATE bit of a record plays no part in the first pass: two
/// records that differ in that bit alone are refused alike and lead to the
/// same state.
pub proof fn lemma_duplicate_bit_is_ignored(
    s: ResolverState,
    groups: Seq<ReadGroup>,
    record: AlignmentRecord,
    marked: AlignmentRecord,
)
    requires
        marked == (AlignmentRecord { flags: marked.flags, ..record }),
        marked.flags == record.flags | 0x400 || marked.flags == record.flags & !0x400u16,
    ensures
        refusal(s, marked) == refusal(s, record),
        observed(s, groups, marked) == observed(s, groups, record),
        forall|batch_size: usize|
            hands_out(observed(s, groups, marked), batch_size, marked) == hands_out(
                observed(s, groups, record),
                batch_size,
                record,
            ),
{
    let f = record.flags;
    let g = marked.flags;
    assert(g == f | 0x400 || g == f & !0x400u16 ==> (g & 0x1 != 0) == (f & 0x1 != 0) && (g & 0x4
        != 0) == (f & 0x4 != 0) && (g & 0x8 != 0) == (f & 0x8 != 0) && (g & 0x10 != 0) == (f
        & 0x10 != 0) && (g & 0x100 != 0) == (f & 0x100 != 0) && (g & 0x800 != 0) == (f & 0x800
        != 0)) by (bit_vector);
}

/// What the resolver hands over at the end of the input.
pub struct ResolverOutput {
    /// The last batch, where it holds an entry.
    pub last_batch: Option<Vec<Metadata>>,
    /// The coordinates that host the right end of a resolved pair.
    pub second_ends: SecondEndSet,
    /// The number of resolved pairs.
    pub pairs: u64,
    /// The number of entries of reads that stand alone, unmatched mates
    /// among them.
    pub singles: u64,
    /// The number of mates whose partners never arrived.
    pub unmatched: u64,
}

/// The pair resolver.
pub struct PairResolver {
    libraries: LibraryTable,
    batch_size: usize,
    next_index: u64,
    pending: PendingPairs,
    batch: Vec<Metadata>,
    second_ends: SecondEndSet,
    primary: u64,
    pairs: u64,
    singles: u64,
    handed_out: Ghost<nat>,
    emitted: Ghost<Seq<Metadata>>,
    primary_indices: Ghost<Set<nat>>,
}

impl View for PairResolver {
    type V = ResolverState;

    closed spec fn view(&self) -> ResolverState {
        ResolverState {
            next_index: self.next_index as nat,
            pending: self.pending.map(),
            batch: self.batch@,
            emitted: self.emitted@,
            handed_out: self.handed_out@,
            second_ends: self.second_ends@,
            primary_indices: self.primary_indices@,
            primary: self.primary as nat,
            pairs: self.pairs as nat,
            singles: self.singles as nat,
        }
    }
}

fn strand_byte(rev: bool) -> (b: u8)
    ensures
        b == strand(rev),
{
    if rev {
        1
    } else {
        0
    }
}

fn make_lone_entry(m: &PendingMate, paired_end: u8) -> (e: Metadata)
    ensures
        e == lone_entry(*m, paired_end),
{
    Metadata {
        lib_id: m.lib_id,
        ref_id1: m.ref_id,
        pos1: m.pos,
        rev1: strand_byte(m.rev),
        rev2: 0,
        ref_id2: -1,
        pos2: 0,
        score: m.score,
        idx1: m.idx,
        idx2: 0,
        paired_end,
    }
}

fn make_pair_entry(first: &PendingMate, second: &PendingMate) -> (e: Metadata)
    ensures
        e == pair_entry(*first, *second),
{
    let second_left = second.ref_id < first.ref_id || (second.ref_id == first.ref_id && second.pos
        < first.pos);
    let (left, right) = if second_left {
        (second, first)
    } else {
        (first, second)
    };
    Metadata {
        lib_id: first.lib_id,
        ref_id1: left.ref_id,
        pos1: left.pos,
        rev1: strand_byte(left.rev),
        rev2: strand_byte(right.rev),
        ref_id2: right.ref_id,
        pos2: right.pos,
        score: add_scores(second.score, first.score),
        idx1: left.idx,
        idx2: right.idx,
        paired_end: 1,
    }
}

impl PairResolver {
    /// The read groups of the header that the resolver works with.
    pub closed spec fn groups(&self) -> Seq<ReadGroup> {
        self.libraries.groups()
    }

    /// The number of entries at which a batch is handed out.
    pub closed spec fn batch_size(&self) -> usize {
        self.batch_size
    }

    /// The invariant of the resolver: every mapped primary record seen so
    /// far waits for its mate, or stands in exactly one entry, alone or
    /// joined with its mate.
    pub closed spec fn well_formed(&self) -> bool {
        &&& self.libraries.well_formed()
        &&& self.pending.well_formed()
        &&& self.next_index <= 0x1_0000_0000
        &&& self.primary <= self.next_index
        &&& self.primary == self.singles + 2 * self.pairs + self.pending.names().len()
        &&& self.handed_out@ + self.batch@.len() == self.singles + self.pairs
        &&& entries_in_range(self.batch@, self.next_index as nat)
        &&& forall|name: Seq<u8>| #[trigger]
            self.pending.map().contains_key(name) ==> self.pending.map()[name].idx
                < self.next_index
        &&& accounted(self@)
    }

    /// Every mapped primary record seen so far either waits for its mate or
    /// stands in exactly one of the entries made so far, as the read of a
    /// lone entry or as an end of a pair entry; no other record stands in
    /// an entry; and the batch at hand holds the entries made since the
    /// last batch was handed out.
    pub proof fn lemma_each_record_stands_once(self, i: nat)
        requires
            self.well_formed(),
        ensures
            accounted(self@),
            occurrences(self@.emitted, i) + one_if(waits(self@.pending, i)) == one_if(
                self@.primary_indices.contains(i),
            ),
            self@.primary_indices.contains(i) ==> i < self@.next_index,
            self@.batch == self@.emitted.skip(self@.handed_out as int),
    {
    }

    /// The entries at hand stand for records seen so far, a pair entry for
    /// two of them, and so do the mates that wait. No index is beyond the 32
    /// bits of the duplicate-index set.
    pub proof fn lemma_indices_are_in_range(self)
        requires
            self.well_formed(),
        ensures
            self@.next_index <= 0x1_0000_0000,
            entries_in_range(self@.batch, self@.next_index),
            forall|name: Seq<u8>| #[trigger]
                self@.pending.contains_key(name) ==> self@.pending[name].idx < self@.next_index,
    {
    }

    /// Every mapped primary record waits for its mate or stands in exactly
    /// one entry: the records seen are the lone entries, two for each pair
    /// entry, and those that wait; and the entries gathered, in the batches
    /// handed out and in the one at hand, are one for each lone read and one
    /// for each pair.
    pub proof fn lemma_one_entry_per_record(self)
        requires
            self.well_formed(),
        ensures
            self@.pending.dom().finite(),
            self@.primary == self@.singles + 2 * self@.pairs + self@.pending.dom().len(),
            self@.handed_out + self@.batch.len() == self@.singles + self@.pairs,
            self@.handed_out + self@.batch.len() + self@.pending.dom().len() == self@.primary
                - self@.pairs,
    {
        self.pending.lemma_names();
    }

    /// The mates that wait, in the order in which the sweep at the end of
    /// the input visits them.
    pub closed spec fn residue(&self) -> Seq<PendingMate> {
        self.pending.mates()
    }

    /// The read names under which the mates of the residue wait, in the
    /// same order.
    pub closed spec fn residue_names(&self) -> Seq<Seq<u8>> {
        self.pending.names()
    }

    /// The sweep visits every mate that waits, each once.
    pub proof fn lemma_residue_is_pending(self)
        requires
            self.well_formed(),
        ensures
            self@.pending.dom().finite(),
            self.residue_names().no_duplicates(),
            self.residue_names().to_set() == self@.pending.dom(),
            self.residue().len() == self.residue_names().len(),
            self.residue().len() == self@.pending.dom().len(),
            forall|i: int|
                0 <= i < self.residue().len() ==> #[trigger] self.residue()[i]
                    == self@.pending[self.residue_names()[i]],
    {
        self.pending.lemma_names();
    }

    /// A resolver at the start of the input.
    pub fn new(libraries: LibraryTable, batch_size: usize) -> (r: PairResolver)
        requires
            libraries.well_formed(),
        ensures
            r.well_formed(),
            r.groups() == libraries.groups(),
            r.batch_size() == batch_size,
            r@ == (ResolverState {
                next_index: 0,
                pending: Map::<Seq<u8>, PendingMate>::empty(),
                batch: Seq::<Metadata>::empty(),
                emitted: Seq::<Metadata>::empty(),
                handed_out: 0,
                second_ends: Set::<Coordinate>::empty(),
                primary_indices: Set::<nat>::empty(),
                primary: 0,
                pairs: 0,
                singles: 0,
            }),
    {
        let r = PairResolver {
            libraries,
            batch_size,
            next_index: 0,
            pending: PendingPairs::new(),
            batch: Vec::new(),
            second_ends: SecondEndSet::new(),
            primary: 0,
            pairs: 0,
            singles: 0,
            handed_out: Ghost(0),
            emitted: Ghost(Seq::empty()),
            primary_indices: Ghost(Set::empty()),
        };
        proof {
            assert(r@.batch =~= r@.emitted.skip(0));
            assert forall|i: nat| #[trigger]
                occurrences(r@.emitted, i) + one_if(waits(r@.pending, i)) == one_if(
                    r@.primary_indices.contains(i),
                ) by {}
        }
        r
    }

    /// Takes the next record of the input.
    ///
    /// The record gets the next index. A record that is unmapped, secondary
    /// or supplementary is passed over. A segment whose mate is mapped is
    /// joined with its mate where the mate waits under the same read name,
    /// and waits itself where none does. Any other record gives a fragment
    /// entry. Once the batch at hand has reached the batch size it is
    /// handed out. A record that is refused leaves the resolver as it was.
    pub fn observe(&mut self, record: AlignmentRecord) -> (r: Result<
        Option<Vec<Metadata>>,
        ResolveError,
    >)
        requires
            old(self).well_formed(),
        ensures
            final(self).well_formed(),
            final(self).groups() == old(self).groups(),
            final(self).batch_size() == old(self).batch_size(),
            match refusal(old(self)@, record) {
                Some(e) => r == Err::<Option<Vec<Metadata>>, ResolveError>(e) && final(self)@
                    == old(self)@,
                None => {
                    let next = observed(old(self)@, old(self).groups(), record);
                    if hands_out(next, old(self).batch_size(), record) {
                        &&& r matches Ok(Some(batch))
                        &&& batch@ == next.batch
                        &&& entries_in_range(batch@, next.next_index)
                        &&& final(self)@ == after_hand_out(next)
                    } else {
                        &&& r matches Ok(None)
                        &&& final(self)@ == next
                    }
                },
            },
    {
        if self.next_index > 0xffff_ffff {
            return Err(ResolveError::TooManyRecords);
        }
        let flags = record.flags;
        if is_skipped(flags) {
            self.next_index = self.next_index + 1;
            proof {
                lemma_observed_keeps_account(old(self)@, old(self).groups(), record);
            }
            assert(self@ =~= observed(old(self)@, old(self).groups(), record));
            return Ok(None);
        }
        let pos = match get_5p_pos(&record) {
            Ok(pos) => pos,
            Err(_) => {
                return Err(ResolveError::PositionOutOfRange);
            },
        };
        let now = PendingMate {
            lib_id: self.libraries.lib_id(&record.read_group),
            ref_id: record.ref_id,
            pos,
            rev: flag_set(flags, REVERSE_COMPLEMENTED),
            score: get_score(&record),
            idx: self.next_index,
        };
        assert(now == mate_of(old(self).groups(), record, old(self)@.next_index));
        if expects_mate(flags) {
            let name = match record.name {
                Some(name) => name,
                None => {
                    return Err(ResolveError::MissingName);
                },
            };
            match self.pending.take(&name) {
                Some(first) => {
                    let entry = make_pair_entry(&first, &now);
                    self.second_ends.insert((first.lib_id, entry.ref_id2, entry.pos2, entry.rev2));
                    self.batch.push(entry);
                    self.pairs = self.pairs + 1;
                    self.primary = self.primary + 1;
                    proof {
                        self.emitted@ = self.emitted@.push(entry);
                    }
                },
                None => {
                    proof {
                        assert(self.pending.map() =~= old(self).pending.map());
                    }
                    self.pending.insert(name, now);
                    self.primary = self.primary + 1;
                },
            }
        } else {
            let entry = make_lone_entry(&now, 0);
            self.batch.push(entry);
            self.singles = self.singles + 1;
            self.primary = self.primary + 1;
            proof {
                self.emitted@ = self.emitted@.push(entry);
            }
        }
        proof {
            self.primary_indices@ = self.primary_indices@.insert(self.next_index as nat);
            lemma_observed_keeps_account(old(self)@, old(self).groups(), record);
        }
        self.next_index = self.next_index + 1;
        assert(self@ =~= observed(old(self)@, old(self).groups(), record));
        if self.batch.len() >= self.batch_size {
            let mut full: Vec<Metadata> = Vec::new();
            std::mem::swap(&mut self.batch, &mut full);
            proof {
                self.handed_out@ = self.handed_out@ + full@.len();
            }
            assert(self@ =~= after_hand_out(observed(old(self)@, old(self).groups(), record)));
            return Ok(Some(full));
        }
        Ok(None)
    }

    /// Ends the input: every mate that still waits gives the entry of a
    /// read that stands alone, and the last batch, the set of second ends and
    /// the counts are handed over.
    pub fn finish(self) -> (out: ResolverOutput)
        requires
            self.well_formed(),
        ensures
            match out.last_batch {
                Some(batch) => batch@.len() > 0 && batch@ == self@.batch + residue_entries(
                    self.residue(),
                ),
                None => self@.batch.len() == 0 && self.residue().len() == 0,
            },
            self@.handed_out + self@.batch.len() + self.residue().len() == self@.primary
                - self@.pairs,
            forall|i: nat| #[trigger]
                occurrences(self@.emitted, i) + lone_occurrences(
                    residue_entries(self.residue()),
                    i,
                ) == one_if(self@.primary_indices.contains(i)),
            out.last_batch matches Some(batch) ==> forall|i: int|
                0 <= i < batch@.len() ==> (#[trigger] batch@[i]).idx1 < self@.next_index
                    && batch@[i].idx2 < self@.next_index && batch@[i].paired_end <= 1,
            out.second_ends@ == self@.second_ends,
            out.pairs == self@.pairs,
            out.unmatched == self.residue().len(),
            out.singles == self@.singles + self.residue().len(),
    {
        proof {
            self.pending.lemma_names();
            let mates = self.pending.mates();
            let names = self.pending.names();
            assert forall|a: int, b: int|
                0 <= a < mates.len() && 0 <= b < mates.len() && a != b implies (
            #[trigger] mates[a]).idx != (#[trigger] mates[b]).idx by {
                let map = self@.pending;
                assert(map == self.pending.map());
                assert(names.to_set().contains(names[a]));
                assert(names.to_set().contains(names[b]));
                assert(map.contains_key(names[a]) && map.contains_key(names[b]));
                assert(names[a] != names[b]);
                assert(mates[a] == map[names[a]]);
                assert(mates[b] == map[names[b]]);
                assert(map[names[a]].idx != map[names[b]].idx);
            }
            assert forall|i: nat| #[trigger]
                occurrences(self@.emitted, i) + lone_occurrences(residue_entries(mates), i)
                    == one_if(self@.primary_indices.contains(i)) by {
                lemma_residue_occurrences(mates, i);
                assert(occurrences(self@.emitted, i) + one_if(waits(self@.pending, i)) == one_if(
                    self@.primary_indices.contains(i),
                ));
                if waits(self@.pending, i) {
                    let w = choose|w: Seq<u8>|
                        self@.pending.contains_key(w) && (#[trigger] self@.pending[w]).idx == i;
                    assert(names.to_set().contains(w));
                    let k = choose|k: int| 0 <= k < names.len() && names[k] == w;
                    assert(mates[k].idx == i);
                }
                if exists|k: int| 0 <= k < mates.len() && (#[trigger] mates[k]).idx == i {
                    let k = choose|k: int| 0 <= k < mates.len() && (#[trigger] mates[k]).idx == i;
                    assert(names.to_set().contains(names[k]));
                    assert(self@.pending.contains_key(names[k]) && self@.pending[names[k]].idx
                        == i);
                }
            }
        }
        let PairResolver {
            libraries,
            batch_size,
            next_index,
            pending,
            batch,
            second_ends,
            primary,
            pairs,
            singles,
            handed_out,
            emitted,
            primary_indices,
        } = self;
        let mut batch = batch;
        let mates = pending.drain();
        let mut i: usize = 0;
        proof {
            assert forall|j: int| 0 <= j < mates@.len() implies (#[trigger] mates@[j]).idx
                < next_index by {
                let name = self.pending.names()[j];
                assert(self.pending.names().to_set().contains(name));
                assert(self.pending.map().contains_key(name));
            }
            assert(residue_entries(mates@.take(0)) =~= Seq::<Metadata>::empty());
        }
        while i < mates.len()
            invariant
                0 <= i <= mates@.len(),
                batch@ == self.batch@ + residue_entries(mates@.take(i as int)),
                forall|j: int| 0 <= j < mates@.len() ==> (#[trigger] mates@[j]).idx < next_index,
                forall|j: int|
                    0 <= j < batch@.len() ==> (#[trigger] batch@[j]).idx1 < next_index
                        && batch@[j].idx2 < next_index && batch@[j].paired_end <= 1,
            decreases mates.len() - i,
        {
            batch.push(make_lone_entry(&mates[i], 1));
            proof {
                assert(residue_entries(mates@.take(i + 1)) =~= residue_entries(
                    mates@.take(i as int),
                ).push(lone_entry(mates@[i as int], 1)));
            }
            i = i + 1;
        }
        let unmatched = mates.len() as u64;
        ResolverOutput {
            last_batch: if batch.len() > 0 {
                Some(batch)
            } else {
                None
            },
            second_ends,
            pairs,
            singles: singles + unmatched,
            unmatched,
        }
    }
}

} // verus!
