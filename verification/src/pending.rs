//! The pending-pair map: for each read name whose mate has not arrived yet,
//! what the first-seen mate gave.
//!
//! The map is a hash table with chaining: a read name is kept in the bucket
//! that its hash gives.

use crate::library::bytes_equal;
use vstd::prelude::*;

verus! {

/// What the first-seen mate of a pair gave.
#[derive(Debug, Clone, Copy, PartialEq, Eq, Structural)]
pub struct PendingMate {
    pub lib_id: i32,
    pub ref_id: i32,
    pub pos: i32,
    pub rev: bool,
    pub score: u32,
    pub idx: u64,
}

struct PendingEntry {
    name: Vec<u8>,
    mate: PendingMate,
}

/// The number of buckets of the table.
const BUCKETS: usize = 65536;

/// The mates that wait for their partners, by read name.
pub struct PendingPairs {
    buckets: Vec<Vec<PendingEntry>>,
}

/// The hash of a read name: FNV-1a over its bytes.
spec fn name_hash(name: Seq<u8>) -> u64
    decreases name.len(),
{
    if name.len() == 0 {
        0xcbf2_9ce4_8422_2325
    } else {
        (name_hash(name.drop_last()) ^ (name.last() as u64)).wrapping_mul(0x100_0000_01b3)
    }
}

/// The bucket in which a read name is kept.
spec fn home(name: Seq<u8>) -> int {
    (name_hash(name) % 65536) as int
}

spec fn names_of(entries: Seq<PendingEntry>) -> Seq<Seq<u8>> {
    entries.map_values(|e: PendingEntry| e.name@)
}

spec fn mates_of(entries: Seq<PendingEntry>) -> Seq<PendingMate> {
    entries.map_values(|e: PendingEntry| e.mate)
}

spec fn slot_of(entries: Seq<PendingEntry>, name: Seq<u8>) -> int {
    choose|i: int| 0 <= i < entries.len() && (#[trigger] entries[i]).name@ == name
}

spec fn in_bucket(entries: Seq<PendingEntry>, name: Seq<u8>) -> bool {
    exists|i: int| 0 <= i < entries.len() && (#[trigger] entries[i]).name@ == name
}

/// The entries of the first `n` buckets, bucket after bucket.
spec fn listing(buckets: Seq<Vec<PendingEntry>>, n: int) -> Seq<PendingEntry>
    decreases n,
{
    if n <= 0 {
        Seq::<PendingEntry>::empty()
    } else {
        listing(buckets, n - 1) + buckets[n - 1]@
    }
}

/// The listing of the first `n` buckets depends on those buckets alone.
proof fn lemma_listing_prefix(a: Seq<Vec<PendingEntry>>, b: Seq<Vec<PendingEntry>>, n: int)
    requires
        0 <= n <= a.len(),
        n <= b.len(),
        forall|j: int| 0 <= j < n ==> (#[trigger] a[j])@ == b[j]@,
    ensures
        listing(a, n) == listing(b, n),
    decreases n,
{
    if n > 0 {
        lemma_listing_prefix(a, b, n - 1);
        assert(a[n - 1]@ == b[n - 1]@);
    }
}

/// A change of bucket `b` changes the length of the listing as it changes
/// the length of the bucket.
proof fn lemma_listing_len_change(
    a: Seq<Vec<PendingEntry>>,
    c: Seq<Vec<PendingEntry>>,
    b: int,
    n: int,
)
    requires
        a.len() == c.len(),
        0 <= b < a.len(),
        0 <= n <= a.len(),
        forall|j: int| 0 <= j < a.len() && j != b ==> (#[trigger] a[j])@ == c[j]@,
    ensures
        listing(c, n).len() == listing(a, n).len() + if b < n {
            c[b]@.len() - a[b]@.len()
        } else {
            0
        },
    decreases n,
{
    if n > 0 {
        lemma_listing_len_change(a, c, b, n - 1);
        if n - 1 != b {
            assert(a[n - 1]@ == c[n - 1]@);
        }
    }
}

/// Entry `k` of bucket `b` stands in the listing, after the entries of the
/// buckets before `b`.
proof fn lemma_listing_at(buckets: Seq<Vec<PendingEntry>>, n: int, b: int, k: int)
    requires
        0 <= b < n <= buckets.len(),
        0 <= k < buckets[b]@.len(),
    ensures
        listing(buckets, b).len() + k < listing(buckets, n).len(),
        listing(buckets, n)[listing(buckets, b).len() + k] == buckets[b]@[k],
    decreases n,
{
    if b < n - 1 {
        lemma_listing_at(buckets, n - 1, b, k);
    }
}

/// Every entry of the listing is an entry of one bucket.
proof fn lemma_listing_find(buckets: Seq<Vec<PendingEntry>>, n: int, i: int) -> (r: (int, int))
    requires
        0 <= n <= buckets.len(),
        0 <= i < listing(buckets, n).len(),
    ensures
        0 <= r.0 < n,
        0 <= r.1 < buckets[r.0]@.len(),
        i == listing(buckets, r.0).len() + r.1,
        listing(buckets, n)[i] == buckets[r.0]@[r.1],
    decreases n,
{
    let before = listing(buckets, n - 1);
    if i < before.len() {
        lemma_listing_find(buckets, n - 1, i)
    } else {
        (n - 1, i - before.len())
    }
}

/// Computes the hash of a read name.
fn hash_name(name: &Vec<u8>) -> (h: u64)
    ensures
        h == name_hash(name@),
{
    let mut h: u64 = 0xcbf2_9ce4_8422_2325;
    let mut i: usize = 0;
    proof {
        assert(name@.take(0) =~= Seq::<u8>::empty());
    }
    while i < name.len()
        invariant
            0 <= i <= name.len(),
            h == name_hash(name@.take(i as int)),
        decreases name.len() - i,
    {
        proof {
            assert(name@.take(i + 1).drop_last() =~= name@.take(i as int));
        }
        h = (h ^ (name[i] as u64)).wrapping_mul(0x100_0000_01b3);
        i = i + 1;
    }
    proof {
        assert(name@.take(name.len() as int) =~= name@);
    }
    h
}

/// Finds the bucket of a read name.
fn home_of(name: &Vec<u8>) -> (b: usize)
    ensures
        b == home(name@),
        b < 65536,
{
    (hash_name(name) % 65536) as usize
}

impl PendingPairs {
    /// The read names that wait, each once, in the order in which the
    /// sweep at the end of the input visits them.
    pub closed spec fn names(&self) -> Seq<Seq<u8>> {
        names_of(listing(self.buckets@, self.buckets@.len() as int))
    }

    /// The map itself: the mate that waits under each read name.
    pub closed spec fn map(&self) -> Map<Seq<u8>, PendingMate> {
        Map::new(
            |name: Seq<u8>| in_bucket(self.buckets@[home(name)]@, name),
            |name: Seq<u8>|
                self.buckets@[home(name)]@[slot_of(self.buckets@[home(name)]@, name)].mate,
        )
    }

    /// The mates that wait, in the order of their names.
    pub open spec fn mates(&self) -> Seq<PendingMate> {
        Seq::new(self.names().len(), |i: int| self.map()[self.names()[i]])
    }

    /// The invariant of the map: every read name waits in the bucket of its
    /// hash, and none waits twice.
    pub closed spec fn well_formed(&self) -> bool {
        &&& self.buckets@.len() == 65536
        &&& forall|b: int, k: int|
            0 <= b < 65536 && 0 <= k < self.buckets@[b]@.len() ==> home(
                (#[trigger] self.buckets@[b]@[k]).name@,
            ) == b
        &&& forall|b: int, k: int, l: int|
            0 <= b < 65536 && 0 <= k < self.buckets@[b]@.len() && 0 <= l < self.buckets@[b]@.len()
                && k != l ==> (#[trigger] self.buckets@[b]@[k]).name@ != (
            #[trigger] self.buckets@[b]@[l]).name@
    }

    /// Entry `k` of bucket `b` is in the map under its name.
    proof fn lemma_entry(self, b: int, k: int)
        requires
            self.well_formed(),
            0 <= b < 65536,
            0 <= k < self.buckets@[b]@.len(),
        ensures
            self.map().contains_key(self.buckets@[b]@[k].name@),
            self.map()[self.buckets@[b]@[k].name@] == self.buckets@[b]@[k].mate,
    {
        let bucket = self.buckets@[b]@;
        let name = bucket[k].name@;
        assert(home(name) == b);
        assert(in_bucket(bucket, name));
        let c = slot_of(bucket, name);
        assert(0 <= c < bucket.len() && bucket[c].name@ == name);
        assert(c == k);
    }

    /// The names are those under which a mate waits, each once.
    pub proof fn lemma_names(self)
        requires
            self.well_formed(),
        ensures
            self.names().no_duplicates(),
            self.names().to_set() == self.map().dom(),
            self.map().dom().finite(),
            self.map().dom().len() == self.names().len(),
            forall|i: int|
                0 <= i < self.names().len() ==> #[trigger] self.mates()[i] == self.map()[self.names()[i]],
    {
        let all = listing(self.buckets@, 65536);
        let names = self.names();
        assert forall|i: int, j: int| 0 <= i < names.len() && 0 <= j < names.len() && i
            != j implies names[i] != names[j] by {
            let (bi, ki) = lemma_listing_find(self.buckets@, 65536, i);
            let (bj, kj) = lemma_listing_find(self.buckets@, 65536, j);
            assert(names[i] == self.buckets@[bi]@[ki].name@);
            assert(names[j] == self.buckets@[bj]@[kj].name@);
        }
        assert forall|name: Seq<u8>| names.to_set().contains(name) == self.map().dom().contains(
            name,
        ) by {
            if names.to_set().contains(name) {
                let i = choose|i: int| 0 <= i < names.len() && names[i] == name;
                let (b, k) = lemma_listing_find(self.buckets@, 65536, i);
                self.lemma_entry(b, k);
            }
            if self.map().dom().contains(name) {
                let b = home(name);
                let k = slot_of(self.buckets@[b]@, name);
                lemma_listing_at(self.buckets@, 65536, b, k);
                let i = listing(self.buckets@, b).len() + k;
                assert(names[i] == name);
            }
        }
        assert(names.to_set() =~= self.map().dom());
        names.unique_seq_to_set();
    }

    /// The mate at place `i` of the listing is the one that the map holds
    /// under the name at that place.
    proof fn lemma_mate_at(self, i: int)
        requires
            self.well_formed(),
            0 <= i < listing(self.buckets@, 65536).len(),
        ensures
            self.map()[listing(self.buckets@, 65536)[i].name@] == listing(self.buckets@, 65536)[i].mate,
    {
        let (b, k) = lemma_listing_find(self.buckets@, 65536, i);
        self.lemma_entry(b, k);
    }

    /// A map in which nothing waits.
    pub fn new() -> (p: PendingPairs)
        ensures
            p.well_formed(),
            p.map() == Map::<Seq<u8>, PendingMate>::empty(),
            p.names() == Seq::<Seq<u8>>::empty(),
    {
        let mut buckets: Vec<Vec<PendingEntry>> = Vec::new();
        let mut i: usize = 0;
        while i < BUCKETS
            invariant
                0 <= i <= 65536,
                buckets@.len() == i,
                forall|j: int| 0 <= j < i ==> (#[trigger] buckets@[j])@.len() == 0,
                listing(buckets@, i as int).len() == 0,
            decreases 65536 - i,
        {
            let ghost before = buckets@;
            buckets.push(Vec::new());
            proof {
                lemma_listing_prefix(before, buckets@, i as int);
            }
            i = i + 1;
        }
        let p = PendingPairs { buckets };
        proof {
            assert(listing(p.buckets@, 65536) =~= Seq::<PendingEntry>::empty());
            assert(p.names() =~= Seq::<Seq<u8>>::empty());
            assert(p.map() =~= Map::<Seq<u8>, PendingMate>::empty());
        }
        p
    }

    /// Takes the mate that waits under `name` out of the map, if one waits.
    pub fn take(&mut self, name: &Vec<u8>) -> (r: Option<PendingMate>)
        requires
            old(self).well_formed(),
        ensures
            final(self).well_formed(),
            final(self).map() == old(self).map().remove(name@),
            r == if old(self).map().contains_key(name@) {
                Some(old(self).map()[name@])
            } else {
                None
            },
            final(self).names().len() == old(self).names().len() - if r.is_some() {
                1int
            } else {
                0int
            },
    {
        let h = home_of(name);
        let mut k: usize = 0;
        while k < self.buckets[h].len()
            invariant
                h == home(name@),
                h < 65536,
                0 <= k <= self.buckets@[h as int]@.len(),
                *self == *old(self),
                self.well_formed(),
                forall|j: int| 0 <= j < k ==> (#[trigger] self.buckets@[h as int]@[j]).name@ != name@,
            decreases self.buckets@[h as int]@.len() - k,
        {
            if bytes_equal(&self.buckets[h][k].name, name) {
                let ghost before = *self;
                let ghost old_bucket = self.buckets@[h as int]@;
                let ghost n = old_bucket.len() as int;
                let entry = self.buckets[h].swap_remove(k);
                proof {
                    let new_bucket = self.buckets@[h as int]@;
                    before.lemma_entry(h as int, k as int);
                    assert forall|j: int| 0 <= j < new_bucket.len() implies new_bucket[j]
                        == old_bucket[if j == k {
                        n - 1
                    } else {
                        j
                    }] by {}
                    lemma_listing_len_change(before.buckets@, self.buckets@, h as int, 65536);
                    assert forall|b: int, j: int|
                        0 <= b < 65536 && 0 <= j < self.buckets@[b]@.len() implies home(
                        (#[trigger] self.buckets@[b]@[j]).name@,
                    ) == b by {
                        if b == h {
                            let j0 = if j == k {
                                n - 1
                            } else {
                                j
                            };
                            assert(new_bucket[j] == old_bucket[j0]);
                            assert(home(before.buckets@[b]@[j0].name@) == b);
                        } else {
                            assert(self.buckets@[b]@[j] == before.buckets@[b]@[j]);
                        }
                    }
                    assert forall|b: int, j: int, l: int|
                        0 <= b < 65536 && 0 <= j < self.buckets@[b]@.len() && 0 <= l
                            < self.buckets@[b]@.len() && j != l implies (
                    #[trigger] self.buckets@[b]@[j]).name@ != (
                    #[trigger] self.buckets@[b]@[l]).name@ by {
                        if b == h {
                            let j0 = if j == k {
                                n - 1
                            } else {
                                j
                            };
                            let l0 = if l == k {
                                n - 1
                            } else {
                                l
                            };
                            assert(new_bucket[j] == old_bucket[j0]);
                            assert(new_bucket[l] == old_bucket[l0]);
                            assert(before.buckets@[b]@[j0].name@ != before.buckets@[b]@[l0].name@);
                        } else {
                            assert(self.buckets@[b]@[j] == before.buckets@[b]@[j]);
                            assert(self.buckets@[b]@[l] == before.buckets@[b]@[l]);
                        }
                    }
                    assert forall|other: Seq<u8>|
                        self.map().contains_key(other) == before.map().remove(
                            name@,
                        ).contains_key(other) by {
                        let b = home(other);
                        if b != h {
                            assert(self.buckets@[b]@ == before.buckets@[b]@);
                        } else {
                            if before.map().contains_key(other) && other != name@ {
                                let j0 = slot_of(old_bucket, other);
                                let j = if j0 == n - 1 {
                                    k as int
                                } else {
                                    j0
                                };
                                assert(old_bucket[k as int].name@ == name@);
                                assert(new_bucket[j].name@ == other);
                            }
                            if self.map().contains_key(other) {
                                let j = slot_of(new_bucket, other);
                                let j0 = if j == k {
                                    n - 1
                                } else {
                                    j
                                };
                                assert(old_bucket[j0].name@ == other);
                                assert(before.buckets@[h as int]@[j0].name@
                                    != before.buckets@[h as int]@[k as int].name@);
                            }
                        }
                    }
                    assert forall|other: Seq<u8>| #[trigger]
                        self.map().contains_key(other) implies self.map()[other]
                        == before.map()[other] by {
                        let b = home(other);
                        if b != h {
                            assert(self.buckets@[b]@ == before.buckets@[b]@);
                        } else {
                            let j = slot_of(new_bucket, other);
                            let j0 = if j == k {
                                n - 1
                            } else {
                                j
                            };
                            assert(new_bucket[j] == old_bucket[j0]);
                            before.lemma_entry(h as int, j0);
                            self.lemma_entry(h as int, j);
                        }
                    }
                    assert(self.map() =~= before.map().remove(name@));
                }
                return Some(entry.mate);
            }
            k = k + 1;
        }
        proof {
            if self.map().contains_key(name@) {
                let j = slot_of(self.buckets@[h as int]@, name@);
                assert(self.buckets@[h as int]@[j].name@ == name@);
            }
            assert(self.map() =~= self.map().remove(name@));
        }
        None
    }

    /// Puts a mate into the map under a read name under which none waits.
    pub fn insert(&mut self, name: Vec<u8>, mate: PendingMate)
        requires
            old(self).well_formed(),
            !old(self).map().contains_key(name@),
        ensures
            final(self).well_formed(),
            final(self).map() == old(self).map().insert(name@, mate),
            final(self).names().len() == old(self).names().len() + 1,
    {
        let ghost before = *self;
        let ghost key = name@;
        let h = home_of(&name);
        let ghost old_bucket = self.buckets@[h as int]@;
        self.buckets[h].push(PendingEntry { name, mate });
        proof {
            let new_bucket = self.buckets@[h as int]@;
            let n = old_bucket.len() as int;
            assert(new_bucket[n].name@ == key && new_bucket[n].mate == mate);
            lemma_listing_len_change(before.buckets@, self.buckets@, h as int, 65536);
            assert forall|b: int, j: int|
                0 <= b < 65536 && 0 <= j < self.buckets@[b]@.len() implies home(
                (#[trigger] self.buckets@[b]@[j]).name@,
            ) == b by {
                if b == h {
                    if j < n {
                        assert(new_bucket[j] == old_bucket[j]);
                        assert(home(before.buckets@[b]@[j].name@) == b);
                    }
                } else {
                    assert(self.buckets@[b]@[j] == before.buckets@[b]@[j]);
                }
            }
            assert forall|b: int, j: int, l: int|
                0 <= b < 65536 && 0 <= j < self.buckets@[b]@.len() && 0 <= l
                    < self.buckets@[b]@.len() && j != l implies (
            #[trigger] self.buckets@[b]@[j]).name@ != (#[trigger] self.buckets@[b]@[l]).name@ by {
                if b == h {
                    if j < n && l < n {
                        assert(new_bucket[j] == old_bucket[j]);
                        assert(new_bucket[l] == old_bucket[l]);
                        assert(before.buckets@[b]@[j].name@ != before.buckets@[b]@[l].name@);
                    } else {
                        let m = if j < n {
                            j
                        } else {
                            l
                        };
                        assert(new_bucket[m] == old_bucket[m]);
                        assert(old_bucket[m].name@ != key);
                    }
                } else {
                    assert(self.buckets@[b]@[j] == before.buckets@[b]@[j]);
                    assert(self.buckets@[b]@[l] == before.buckets@[b]@[l]);
                }
            }
            self.lemma_entry(h as int, n);
            assert forall|other: Seq<u8>|
                self.map().contains_key(other) == before.map().insert(key, mate).contains_key(
                    other,
                ) by {
                let b = home(other);
                if b != h {
                    assert(self.buckets@[b]@ == before.buckets@[b]@);
                } else {
                    if before.map().contains_key(other) {
                        let j = slot_of(old_bucket, other);
                        assert(new_bucket[j] == old_bucket[j]);
                    }
                    if self.map().contains_key(other) && other != key {
                        let j = slot_of(new_bucket, other);
                        assert(new_bucket[j] == old_bucket[j]);
                    }
                }
            }
            assert forall|other: Seq<u8>| #[trigger]
                self.map().contains_key(other) implies self.map()[other] == before.map().insert(
                key,
                mate,
            )[other] by {
                let b = home(other);
                if other != key {
                    if b != h {
                        assert(self.buckets@[b]@ == before.buckets@[b]@);
                    } else {
                        let j = slot_of(new_bucket, other);
                        assert(new_bucket[j] == old_bucket[j]);
                        before.lemma_entry(h as int, j);
                        self.lemma_entry(h as int, j);
                    }
                }
            }
            assert(self.map() =~= before.map().insert(key, mate));
        }
    }

    /// Empties the map at the end of the input and hands over the mates that
    /// were left waiting.
    pub fn drain(self) -> (r: Vec<PendingMate>)
        requires
            self.well_formed(),
        ensures
            r@ == self.mates(),
    {
        let mut out: Vec<PendingMate> = Vec::new();
        let mut b: usize = 0;
        while b < self.buckets.len()
            invariant
                0 <= b <= 65536,
                self.buckets@.len() == 65536,
                out@ == mates_of(listing(self.buckets@, b as int)),
            decreases 65536 - b,
        {
            let mut k: usize = 0;
            while k < self.buckets[b].len()
                invariant
                    0 <= b < 65536,
                    self.buckets@.len() == 65536,
                    0 <= k <= self.buckets@[b as int]@.len(),
                    out@ == mates_of(listing(self.buckets@, b as int)) + mates_of(
                        self.buckets@[b as int]@.take(k as int),
                    ),
                decreases self.buckets@[b as int]@.len() - k,
            {
                out.push(self.buckets[b][k].mate);
                proof {
                    let bucket = self.buckets@[b as int]@;
                    assert(mates_of(bucket.take(k + 1)) =~= mates_of(bucket.take(k as int)).push(
                        bucket[k as int].mate,
                    ));
                }
                k = k + 1;
            }
            proof {
                let bucket = self.buckets@[b as int]@;
                assert(bucket.take(bucket.len() as int) =~= bucket);
                assert(mates_of(listing(self.buckets@, b + 1)) =~= mates_of(
                    listing(self.buckets@, b as int),
                ) + mates_of(bucket));
            }
            b = b + 1;
        }
        proof {
            let all = listing(self.buckets@, 65536);
            assert forall|i: int| 0 <= i < all.len() implies out@[i] == self.mates()[i] by {
                self.lemma_mate_at(i);
            }
            assert(out@ =~= self.mates());
        }
        out
    }
}

} // verus!
