//! The storage that segments live in, and an in-memory implementation.
use vstd::prelude::*;
use crate::bytes::{copy_range, push_all};
use crate::WalError;

verus! {

/// The bytes of segment `id` in a map of segments; a missing segment is empty.
pub open spec fn contents_in(m: Map<u64, Seq<u8>>, id: u64) -> Seq<u8> {
    if m.dom().contains(id) {
        m[id]
    } else {
        seq![]
    }
}

/// The bytes of `s` from `offset`, at most `len` of them.
pub open spec fn window(s: Seq<u8>, offset: int, len: int) -> Seq<u8> {
    if offset >= s.len() {
        seq![]
    } else if offset + len >= s.len() {
        s.skip(offset)
    } else {
        s.subrange(offset, offset + len)
    }
}

/// Byte-addressable storage of the log's segments, each named by its id,
/// and the clock that rotation by age reads.
pub trait WalStorage {
    /// What the storage holds: the bytes of each segment present. An
    /// implementation states it over its own state; where it does not,
    /// nothing is known of it.
    closed spec fn segments(&self) -> Map<u64, Seq<u8>> {
        arbitrary()
    }

    /// The storage's own consistency; nothing is known of it where an
    /// implementation does not state it.
    closed spec fn inv(&self) -> bool {
        arbitrary()
    }

    /// The ids of the segments present, in no particular order.
    fn segment_ids(&self) -> (r: Vec<u64>)
        requires
            self.inv(),
        ensures
            forall|id: u64| self.segments().dom().contains(id) <==> r@.contains(id),
    ;

    /// The size in bytes of segment `id` (0 where it does not exist).
    fn size(&self, id: u64) -> (r: Result<u64, WalError>)
        requires
            self.inv(),
        ensures
            r matches Ok(n) ==> n == contents_in(self.segments(), id).len(),
    ;

    /// Appends `bytes` durably at the end of segment `id`, creating it if needed.
    fn append(&mut self, id: u64, bytes: &[u8]) -> (r: Result<(), WalError>)
        requires
            old(self).inv(),
        ensures
            final(self).inv(),
            r is Ok ==> final(self).segments() == old(self).segments().insert(
                id,
                contents_in(old(self).segments(), id) + bytes@,
            ),
            r is Err ==> final(self).segments() == old(self).segments(),
    ;

    /// Reads at most `len` bytes of segment `id` from `offset`.
    fn read_at(&self, id: u64, offset: u64, len: usize) -> (r: Result<Vec<u8>, WalError>)
        requires
            self.inv(),
        ensures
            r matches Ok(v) ==> v@ == window(
                contents_in(self.segments(), id),
                offset as int,
                len as int,
            ),
    ;

    /// Removes segment `id`.
    fn remove(&mut self, id: u64) -> (r: Result<(), WalError>)
        requires
            old(self).inv(),
        ensures
            final(self).inv(),
            r is Ok ==> final(self).segments() == old(self).segments().remove(id),
            r is Err ==> final(self).segments() == old(self).segments(),
    ;

    /// The time now, in seconds.
    fn now_secs(&self) -> u64
        requires
            self.inv(),
    ;
}

/// One segment held in memory.
pub struct MemFile {
    pub id: u64,
    pub data: Vec<u8>,
}

/// Storage held in memory, with a clock that the owner sets.
pub struct MemStore {
    files: Vec<MemFile>,
    clock: u64,
}

impl MemStore {
    /// The index of the file with id `id`.
    pub closed spec fn index_of(&self, id: u64) -> int {
        choose|i: int| 0 <= i < self.files@.len() && self.files@[i].id == id
    }

    /// No two files have the same id.
    pub closed spec fn unique_ids(&self) -> bool {
        forall|i: int, j: int|
            0 <= i < self.files@.len() && 0 <= j < self.files@.len() && #[trigger] self.files@[i].id
                == #[trigger] self.files@[j].id ==> i == j
    }

    /// Whether a file with id `id` is held.
    pub closed spec fn holds(&self, id: u64) -> bool {
        exists|i: int| 0 <= i < self.files@.len() && self.files@[i].id == id
    }

    /// An empty store whose clock reads `now`.
    pub fn new(now: u64) -> (r: MemStore)
        ensures
            r.inv(),
            r.segments() == Map::<u64, Seq<u8>>::empty(),
    {
        let r = MemStore { files: Vec::new(), clock: now };
        assert(r.segments() =~= Map::<u64, Seq<u8>>::empty());
        r
    }

    /// Sets the clock.
    pub fn set_clock(&mut self, now: u64)
        requires
            old(self).inv(),
        ensures
            final(self).segments() == old(self).segments(),
            final(self).inv(),
    {
        self.clock = now;
        assert(self.files@ == old(self).files@);
        assert(self.segments() =~= old(self).segments());
    }

    /// Cuts segment `id` to its first `len` bytes, as a crash in the middle
    /// of a write leaves it.
    pub fn cut(&mut self, id: u64, len: usize)
        requires
            old(self).inv(),
        ensures
            final(self).inv(),
            final(self).segments() == (if old(self).segments().dom().contains(id)
                && len < old(self).segments()[id].len() {
                old(self).segments().insert(id, old(self).segments()[id].take(len as int))
            } else {
                old(self).segments()
            }),
    {
        match self.find(id) {
            None => {},
            Some(i) => {
                if len < self.files[i].data.len() {
                    let data = copy_range(self.files[i].data.as_slice(), 0, len);
                    self.replace(i, data);
                }
            },
        }
    }

    /// The position of the file with id `id`.
    fn find(&self, id: u64) -> (r: Option<usize>)
        requires
            self.inv(),
        ensures
            r matches Some(i) ==> i < self.files@.len() && self.files@[i as int].id == id
                && self.index_of(id) == i,
            r is None ==> !self.holds(id),
    {
        let mut i: usize = 0;
        while i < self.files.len()
            invariant
                i <= self.files@.len(),
                self.unique_ids(),
                forall|j: int| 0 <= j < i ==> self.files@[j].id != id,
            decreases self.files@.len() - i,
        {
            if self.files[i].id == id {
                proof {
                    assert(self.holds(id));
                    let j = self.index_of(id);
                    assert(0 <= j < self.files@.len() && self.files@[j].id == id);
                    assert(self.files@[j].id == self.files@[i as int].id);
                    assert(j == i as int);
                }
                return Some(i);
            }
            i = i + 1;
        }
        None
    }

    /// Puts `data` in place of the bytes of the file at position `i`.
    fn replace(&mut self, i: usize, data: Vec<u8>)
        requires
            old(self).inv(),
            i < old(self).files@.len(),
        ensures
            final(self).inv(),
            final(self).segments() == old(self).segments().insert(old(self).files@[i as int].id, data@),
    {
        let id = self.files[i].id;
        let ghost before = self.files@;
        let _ = self.files.remove(i);
        self.files.insert(i, MemFile { id, data });
        assert(self.files@ == before.update(i as int, MemFile { id, data }));
        assert(self.inv());
        assert(self.segments() =~= old(self).segments().insert(id, data@)) by {
            assert forall|k: u64| #[trigger] self.holds(k) == old(self).holds(k) by {
                if old(self).holds(k) {
                    let j = old(self).index_of(k);
                    assert(self.files@[j].id == k);
                }
                if self.holds(k) {
                    let j = self.index_of(k);
                    assert(old(self).files@[j].id == k);
                }
            }
            assert forall|k: u64| self.holds(k) implies #[trigger] self.segments()[k] == old(self).segments().insert(id, data@)[k] by {
                let j = self.index_of(k);
                if k != id {
                    assert(old(self).files@[j].id == k);
                }
            }
        }
    }
}

impl WalStorage for MemStore {
    closed spec fn segments(&self) -> Map<u64, Seq<u8>> {
        Map::new(|id: u64| self.holds(id), |id: u64| self.files@[self.index_of(id)].data@)
    }

    closed spec fn inv(&self) -> bool {
        self.unique_ids()
    }

    fn segment_ids(&self) -> (r: Vec<u64>) {
        let mut r: Vec<u64> = Vec::new();
        let mut i: usize = 0;
        while i < self.files.len()
            invariant
                i <= self.files@.len(),
                r@.len() == i,
                forall|j: int| 0 <= j < i ==> r@[j] == self.files@[j].id,
            decreases self.files@.len() - i,
        {
            r.push(self.files[i].id);
            i = i + 1;
        }
        assert forall|id: u64| self.segments().dom().contains(id) <==> r@.contains(id) by {
            if r@.contains(id) {
                let j = choose|j: int| 0 <= j < r@.len() && r@[j] == id;
                assert(self.files@[j].id == id);
            }
            if self.holds(id) {
                let j = self.index_of(id);
                assert(r@[j] == id);
            }
        }
        r
    }

    fn size(&self, id: u64) -> (r: Result<u64, WalError>) {
        match self.find(id) {
            None => Ok(0),
            Some(i) => Ok(self.files[i].data.len() as u64),
        }
    }

    fn append(&mut self, id: u64, bytes: &[u8]) -> (r: Result<(), WalError>) {
        match self.find(id) {
            None => {
                let ghost before = self.files@;
                let data = copy_range(bytes, 0, bytes.len());
                self.files.push(MemFile { id, data });
                assert(self.segments() =~= old(self).segments().insert(id, bytes@)) by {
                    assert forall|k: u64| #[trigger] self.holds(k) == (old(self).holds(k) || k == id) by {
                        if old(self).holds(k) {
                            let j = old(self).index_of(k);
                            assert(self.files@[j].id == k);
                        }
                        if k == id {
                            assert(self.files@[before.len() as int].id == k);
                        }
                        if self.holds(k) && k != id {
                            let j = self.index_of(k);
                            assert(before[j].id == k);
                        }
                    }
                    assert forall|k: u64| self.holds(k) implies #[trigger] self.segments()[k] == old(self).segments().insert(id, bytes@)[k] by {
                        let j = self.index_of(k);
                        if k != id {
                            assert(before[j].id == k);
                            assert(old(self).holds(k));
                        } else {
                            assert(self.files@[before.len() as int].id == k);
                        }
                    }
                }
                assert(contents_in(old(self).segments(), id) + bytes@ == bytes@);
                Ok(())
            },
            Some(i) => {
                let mut data = copy_range(self.files[i].data.as_slice(), 0, self.files[i].data.len());
                push_all(&mut data, bytes);
                assert(self.files@[i as int].data@.subrange(0, self.files@[i as int].data@.len() as int) == self.files@[i as int].data@);
                self.replace(i, data);
                Ok(())
            },
        }
    }

    fn read_at(&self, id: u64, offset: u64, len: usize) -> (r: Result<Vec<u8>, WalError>) {
        match self.find(id) {
            None => Ok(Vec::new()),
            Some(i) => {
                let d = self.files[i].data.as_slice();
                if offset >= d.len() as u64 {
                    Ok(Vec::new())
                } else {
                    let start = offset as usize;
                    if len >= d.len() - start {
                        Ok(copy_range(d, start, d.len()))
                    } else {
                        Ok(copy_range(d, start, start + len))
                    }
                }
            },
        }
    }

    fn remove(&mut self, id: u64) -> (r: Result<(), WalError>) {
        match self.find(id) {
            None => {
                assert(self.segments() =~= old(self).segments().remove(id));
                Ok(())
            },
            Some(i) => {
                let ghost before = self.files@;
                let _ = self.files.remove(i);
                assert(self.files@ == before.remove(i as int));
                assert(self.segments() =~= old(self).segments().remove(id)) by {
                    assert forall|k: u64| #[trigger] self.holds(k) == (old(self).holds(k) && k != id) by {
                        if old(self).holds(k) && k != id {
                            let j = old(self).index_of(k);
                            if j < i {
                                assert(self.files@[j].id == k);
                            } else {
                                assert(self.files@[j - 1].id == k);
                            }
                        }
                        if self.holds(k) {
                            let j = self.index_of(k);
                            if j < i {
                                assert(before[j].id == k);
                            } else {
                                assert(before[j + 1].id == k);
                            }
                        }
                    }
                    assert forall|k: u64| self.holds(k) implies #[trigger] self.segments()[k] == old(self).segments()[k] by {
                        let j = self.index_of(k);
                        if j < i {
                            assert(before[j].id == k);
                        } else {
                            assert(before[j + 1].id == k);
                        }
                    }
                }
                Ok(())
            },
        }
    }

    fn now_secs(&self) -> u64 {
        self.clock
    }
}

} // verus!
