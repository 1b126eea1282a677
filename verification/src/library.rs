//! Library ids: a small dense integer for each library name that the read
//! groups of the header carry.

use vstd::prelude::*;

verus! {

/// One read group of the header: its id and its library attribute.
#[derive(Debug)]
pub struct ReadGroup {
    pub id: Vec<u8>,
    pub library: Option<Vec<u8>>,
}

/// Why the read groups give no library table.
#[derive(Debug, Clone, Copy, PartialEq, Eq, Structural)]
pub enum LibraryError {
    /// There are more library names than 32-bit ids.
    TooManyLibraries,
}

/// The library name of a read group that carries none: `unknown`.
pub open spec fn unknown_library() -> Seq<u8> {
    seq![117u8, 110u8, 107u8, 110u8, 111u8, 119u8, 110u8]
}

impl ReadGroup {
    /// The library name of the read group.
    pub open spec fn library_name(self) -> Seq<u8> {
        match self.library {
            Some(name) => name@,
            None => unknown_library(),
        }
    }
}

/// The library names of the read groups, each once, in the order in which
/// they first appear.
pub open spec fn library_names(groups: Seq<ReadGroup>) -> Seq<Seq<u8>>
    decreases groups.len(),
{
    if groups.len() == 0 {
        Seq::<Seq<u8>>::empty()
    } else {
        let before = library_names(groups.drop_last());
        let name = groups.last().library_name();
        if before.contains(name) {
            before
        } else {
            before.push(name)
        }
    }
}

/// `i` is the place of the first read group with the id `id`.
pub open spec fn is_first_with_id(groups: Seq<ReadGroup>, id: Seq<u8>, i: int) -> bool {
    &&& 0 <= i < groups.len()
    &&& groups[i].id@ == id
    &&& forall|j: int| 0 <= j < i ==> (#[trigger] groups[j]).id@ != id
}

/// `k` is the place of `name` among the library names.
pub open spec fn is_library_index(groups: Seq<ReadGroup>, name: Seq<u8>, k: int) -> bool {
    0 <= k < library_names(groups).len() && library_names(groups)[k] == name
}

/// The library id of a record that names the read group `read_group`: the
/// place of the library name of that read group among the library names,
/// and 0 where the record names no read group or one that the header does
/// not have.
pub open spec fn library_id(groups: Seq<ReadGroup>, read_group: Option<Seq<u8>>) -> int {
    match read_group {
        None => 0,
        Some(id) => if exists|i: int| is_first_with_id(groups, id, i) {
            let i = choose|i: int| is_first_with_id(groups, id, i);
            choose|k: int| is_library_index(groups, groups[i].library_name(), k)
        } else {
            0
        },
    }
}

/// The library names are distinct, and every read group has its name among
/// them.
pub proof fn lemma_library_names(groups: Seq<ReadGroup>)
    ensures
        library_names(groups).no_duplicates(),
        library_names(groups).len() <= groups.len(),
        forall|i: int|
            0 <= i < groups.len() ==> library_names(groups).contains(
                (#[trigger] groups[i]).library_name(),
            ),
    decreases groups.len(),
{
    if groups.len() > 0 {
        let head = groups.drop_last();
        lemma_library_names(head);
        let before = library_names(head);
        let name = groups.last().library_name();
        let names = library_names(groups);
        assert forall|i: int| 0 <= i < groups.len() implies names.contains(
            (#[trigger] groups[i]).library_name(),
        ) by {
            if i < head.len() {
                assert(before.contains(head[i].library_name()));
                let k = choose|k: int| 0 <= k < before.len() && before[k] == head[i].library_name();
                assert(names[k] == groups[i].library_name());
            } else if before.contains(name) {
            } else {
                assert(names[before.len() as int] == name);
            }
        }
    }
}

/// Whether two byte strings are equal.
pub fn bytes_equal(a: &Vec<u8>, b: &Vec<u8>) -> (r: bool)
    ensures
        r == (a@ == b@),
{
    if a.len() != b.len() {
        return false;
    }
    let mut i: usize = 0;
    while i < a.len()
        invariant
            0 <= i <= a.len(),
            a.len() == b.len(),
            forall|j: int| 0 <= j < i ==> a@[j] == b@[j],
        decreases a.len() - i,
    {
        if a[i] != b[i] {
            return false;
        }
        i = i + 1;
    }
    assert(a@ =~= b@);
    true
}

/// The library names of a head of the read groups are a head of the library
/// names of all.
pub proof fn lemma_library_names_grow(groups: Seq<ReadGroup>, n: int)
    requires
        0 <= n <= groups.len(),
    ensures
        library_names(groups.take(n)).len() <= library_names(groups).len(),
        forall|k: int|
            0 <= k < library_names(groups.take(n)).len() ==> #[trigger] library_names(
                groups.take(n),
            )[k] == library_names(groups)[k],
    decreases groups.len(),
{
    if n == groups.len() {
        assert(groups.take(n) =~= groups);
    } else {
        let head = groups.drop_last();
        assert(groups.take(n) =~= head.take(n));
        lemma_library_names_grow(head, n);
    }
}

/// The table of library ids of a header.
pub struct LibraryTable {
    groups: Vec<ReadGroup>,
    libs: Vec<i32>,
    unknown: Vec<u8>,
}

fn unknown_name() -> (name: Vec<u8>)
    ensures
        name@ == unknown_library(),
{
    let mut name: Vec<u8> = Vec::new();
    name.push(117);
    name.push(110);
    name.push(107);
    name.push(110);
    name.push(111);
    name.push(119);
    name.push(110);
    assert(name@ =~= unknown_library());
    name
}

fn name_of<'a>(group: &'a ReadGroup, unknown: &'a Vec<u8>) -> (name: &'a Vec<u8>)
    requires
        unknown@ == unknown_library(),
    ensures
        name@ == group.library_name(),
{
    match &group.library {
        Some(name) => name,
        None => unknown,
    }
}

impl LibraryTable {
    /// The read groups that the table was made from.
    pub closed spec fn groups(&self) -> Seq<ReadGroup> {
        self.groups@
    }

    /// The invariant of the table: it holds the library id of each read
    /// group.
    pub closed spec fn well_formed(&self) -> bool {
        &&& self.unknown@ == unknown_library()
        &&& self.libs@.len() == self.groups@.len()
        &&& forall|i: int|
            0 <= i < self.groups@.len() ==> is_library_index(
                self.groups@,
                (#[trigger] self.groups@[i]).library_name(),
                self.libs@[i] as int,
            )
    }

    /// Makes the table of the read groups of a header, given in the
    /// header's order. Read groups with more library names than there are
    /// 32-bit ids are refused.
    pub fn new(groups: Vec<ReadGroup>) -> (r: Result<LibraryTable, LibraryError>)
        ensures
            match r {
                Ok(table) => table.well_formed() && table.groups() == groups@ && library_names(
                    groups@,
                ).len() <= 0x8000_0000,
                Err(e) => e == LibraryError::TooManyLibraries && library_names(groups@).len()
                    > 0x8000_0000,
            },
    {
        let unknown = unknown_name();
        let mut firsts: Vec<usize> = Vec::new();
        let mut libs: Vec<i32> = Vec::new();
        let mut i: usize = 0;
        proof {
            assert(groups@.take(0) =~= Seq::<ReadGroup>::empty());
        }
        while i < groups.len()
            invariant
                0 <= i <= groups.len(),
                unknown@ == unknown_library(),
                libs@.len() == i,
                firsts@.len() == library_names(groups@.take(i as int)).len(),
                firsts@.len() <= 0x8000_0000,
                forall|k: int|
                    0 <= k < firsts@.len() ==> (#[trigger] firsts@[k]) < i && groups@[firsts@[k] as int].library_name()
                        == library_names(groups@.take(i as int))[k],
                forall|j: int|
                    0 <= j < i ==> is_library_index(
                        groups@.take(i as int),
                        (#[trigger] groups@[j]).library_name(),
                        libs@[j] as int,
                    ),
            decreases groups.len() - i,
        {
            let ghost seen = groups@.take(i as int);
            let ghost next = groups@.take(i + 1);
            let ghost names = library_names(seen);
            proof {
                assert(next.drop_last() =~= seen);
                assert(next.last() == groups@[i as int]);
            }
            let name = name_of(&groups[i], &unknown);
            let mut k: usize = 0;
            let mut found = false;
            while k < firsts.len()
                invariant_except_break
                    !found,
                    forall|j: int| 0 <= j < k ==> names[j] != name@,
                invariant
                    0 <= k <= firsts@.len(),
                    i < groups.len(),
                    unknown@ == unknown_library(),
                    name@ == groups@[i as int].library_name(),
                    names == library_names(groups@.take(i as int)),
                    firsts@.len() == names.len(),
                    forall|k: int|
                        0 <= k < firsts@.len() ==> (#[trigger] firsts@[k]) < i
                            && groups@[firsts@[k] as int].library_name() == names[k],
                ensures
                    0 <= k <= firsts@.len(),
                    found ==> k < firsts@.len() && names[k as int] == name@,
                    !found ==> k == firsts@.len() && !names.contains(name@),
                decreases firsts.len() - k,
            {
                let other = name_of(&groups[firsts[k]], &unknown);
                if bytes_equal(other, name) {
                    found = true;
                    break ;
                }
                k = k + 1;
            }
            if !found {
                if firsts.len() >= 0x8000_0000 {
                    proof {
                        lemma_library_names_grow(groups@, i + 1);
                    }
                    return Err(LibraryError::TooManyLibraries);
                }
                firsts.push(i);
            }
            libs.push(k as i32);
            proof {
                let grown = library_names(next);
                if found {
                    assert(names.contains(name@));
                    assert(grown == names);
                } else {
                    assert(grown == names.push(name@));
                }
                assert forall|j: int| 0 <= j <= i implies is_library_index(
                    next,
                    (#[trigger] groups@[j]).library_name(),
                    libs@[j] as int,
                ) by {
                    if j < i {
                        assert(is_library_index(seen, groups@[j].library_name(), libs@[j] as int));
                    } else {
                        assert(grown[k as int] == name@);
                    }
                }
                assert forall|j: int| 0 <= j < firsts@.len() implies (#[trigger] firsts@[j]) < i
                    + 1 && groups@[firsts@[j] as int].library_name() == grown[j] by {
                    if j < names.len() {
                        assert(groups@[firsts@[j] as int].library_name() == names[j]);
                    }
                }
            }
            i = i + 1;
        }
        proof {
            assert(groups@.take(groups.len() as int) =~= groups@);
        }
        Ok(LibraryTable { groups, libs, unknown })
    }

    /// The library id of a record that names the read group `read_group`.
    pub fn lib_id(&self, read_group: &Option<Vec<u8>>) -> (lib: i32)
        requires
            self.well_formed(),
        ensures
            lib == library_id(
                self.groups(),
                match read_group {
                    Some(id) => Some(id@),
                    None => None,
                },
            ),
    {
        match read_group {
            None => 0,
            Some(id) => {
                let mut i: usize = 0;
                while i < self.groups.len()
                    invariant
                        0 <= i <= self.groups@.len(),
                        self.well_formed(),
                        read_group == Some(*id),
                        forall|j: int| 0 <= j < i ==> (#[trigger] self.groups@[j]).id@ != id@,
                    decreases self.groups.len() - i,
                {
                    if bytes_equal(&self.groups[i].id, id) {
                        proof {
                            let groups = self.groups@;
                            assert(is_first_with_id(groups, id@, i as int));
                            let c = choose|c: int| is_first_with_id(groups, id@, c);
                            assert(c == i) by {
                                if c < i {
                                    assert(groups[c].id@ != id@);
                                } else if i < c {
                                    assert(groups[i as int].id@ != id@);
                                }
                            }
                            let name = groups[i as int].library_name();
                            let lib = self.libs@[i as int] as int;
                            assert(is_library_index(groups, name, lib));
                            let d = choose|d: int| is_library_index(groups, name, d);
                            lemma_library_names(groups);
                            let names = library_names(groups);
                            assert(names[d] == names[lib]);
                            assert(d == lib);
                            assert(exists|c: int| is_first_with_id(groups, id@, c));
                            assert(library_id(groups, Some(id@)) == lib);
                        }
                        return self.libs[i];
                    }
                    i = i + 1;
                }
                proof {
                    assert forall|c: int| !is_first_with_id(self.groups@, id@, c) by {
                        if 0 <= c < self.groups@.len() {
                            assert(self.groups@[c].id@ != id@);
                        }
                    }
                }
                0
            },
        }
    }
}

} // verus!
