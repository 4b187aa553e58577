//! One segment of the log: the frames of its records, in one storage object.
use vstd::prelude::*;
use crate::bytes::{le64_value, push_all, read_le64};
use crate::codec::PAGE_SIZE;
use crate::layout::{fragment, plan, plan_bytes};
use crate::recovery::{records_view, scan_records, segment_records, Record, VERSION_LEN};
use crate::storage::{contents_in, WalStorage};
use crate::WalError;

verus! {

/// Largest size a segment may reach.
pub const MAX_SEGMENT_SIZE: u64 = 0xffff_ffff;

/// The bytes of segment `id` in storage `s`.
pub open spec fn contents<S: WalStorage>(s: &S, id: u64) -> Seq<u8> {
    contents_in(s.segments(), id)
}

/// A segment: its id, the size it has reached, and whether it was closed.
/// A closed segment takes no more appends.
pub struct Wlog {
    pub version: u64,
    pub file_size: u64,
    pub closed: bool,
}

impl Wlog {
    /// The segment's size is what the storage holds for it.
    pub open spec fn tracks<S: WalStorage>(&self, s: &S) -> bool {
        self.file_size == contents(s, self.version).len()
    }

    /// Opens segment `seq`, reading the size it has reached.
    pub fn new<S: WalStorage>(store: &S, seq: u64) -> (r: Result<Wlog, WalError>)
        requires
            store.inv(),
        ensures
            r matches Ok(w) ==> w.version == seq && w.tracks(store) && !w.closed,
            r matches Err(e) ==> e == WalError::Storage,
    {
        match store.size(seq) {
            Ok(size) => Ok(Wlog { version: seq, file_size: size, closed: false }),
            Err(_) => Err(WalError::Storage),
        }
    }

    /// Closes the segment: it takes no more appends. Appends are durable
    /// when they return, so nothing is left to flush.
    pub fn close(&mut self)
        ensures
            final(self).closed,
            final(self).version == old(self).version,
            final(self).file_size == old(self).file_size,
    {
        self.closed = true;
    }

    /// Appends one record's bytes, split into page-aligned frames, in one write.
    /// Nothing is tracked as written unless the write succeeds.
    pub fn append<S: WalStorage>(&mut self, store: &mut S, buf: &[u8]) -> (r: Result<(), WalError>)
        requires
            old(store).inv(),
            old(self).tracks(old(store)),
            !old(self).closed,
        ensures
            final(store).inv(),
            final(self).version == old(self).version,
            !final(self).closed,
            final(self).tracks(final(store)),
            r is Ok ==> final(store).segments() == old(store).segments().insert(
                old(self).version,
                contents(old(store), old(self).version) + plan_bytes(
                    plan(buf@, old(self).file_size as nat, true),
                ),
            ),
            r == Err::<(), WalError>(WalError::SegmentFull) <==> (old(self).file_size
                > MAX_SEGMENT_SIZE || buf@.len() > MAX_SEGMENT_SIZE),
            r matches Err(e) ==> (e == WalError::SegmentFull || e == WalError::AppendFailed)
                && final(store).segments() == old(store).segments() && *final(self) == *old(self),
    {
        if self.file_size > MAX_SEGMENT_SIZE || buf.len() as u64 > MAX_SEGMENT_SIZE {
            return Err(WalError::SegmentFull);
        }
        let frames = fragment(buf, self.file_size);
        match store.append(self.version, frames.as_slice()) {
            Ok(()) => {
                self.file_size = self.file_size + frames.len() as u64;
                Ok(())
            },
            Err(_) => Err(WalError::AppendFailed),
        }
    }

    /// Reads the whole segment page by page and returns the records it holds.
    pub fn read_all<S: WalStorage>(&self, store: &S) -> (r: Result<Vec<Record>, WalError>)
        requires
            store.inv(),
        ensures
            r matches Ok(v) ==> records_view(v@) == segment_records(contents(store, self.version)),
            r matches Err(e) ==> e == WalError::Storage,
    {
        let ghost all = contents(store, self.version);
        let mut bytes: Vec<u8> = Vec::new();
        let mut pos: u64 = 0;
        loop
            invariant_except_break
                bytes@ == all.take(pos as int),
            invariant
                store.inv(),
                all == contents(store, self.version),
                pos <= all.len(),
            ensures
                bytes@ == all,
            decreases all.len() - pos,
        {
            let page = match store.read_at(self.version, pos, PAGE_SIZE as usize) {
                Ok(p) => p,
                Err(_) => {
                    return Err(WalError::Storage);
                },
            };
            push_all(&mut bytes, page.as_slice());
            if (page.len() as u64) < PAGE_SIZE {
                assert(bytes@ == all);
                break;
            }
            assert(bytes@ == all.take(pos + PAGE_SIZE));
            if pos > u64::MAX - PAGE_SIZE {
                return Err(WalError::Storage);
            }
            pos = pos + PAGE_SIZE;
        }
        Ok(scan_records(bytes.as_slice()))
    }

    /// The sequence number stored in the last eight bytes of the segment.
    pub fn get_latest_version<S: WalStorage>(&self, store: &S) -> (r: Result<u64, WalError>)
        requires
            store.inv(),
        ensures
            r matches Ok(v) ==> contents(store, self.version).len() >= VERSION_LEN && v
                == le64_value(
                contents(store, self.version).skip(
                    contents(store, self.version).len() - VERSION_LEN,
                ),
            ),
            r matches Err(e) ==> e == WalError::Storage || (e == WalError::CorruptSegmentTail
                && contents(store, self.version).len() < VERSION_LEN),
    {
        let size = match store.size(self.version) {
            Ok(n) => n,
            Err(_) => {
                return Err(WalError::Storage);
            },
        };
        if size < VERSION_LEN as u64 {
            return Err(WalError::CorruptSegmentTail);
        }
        let tail = match store.read_at(self.version, size - VERSION_LEN as u64, VERSION_LEN) {
            Ok(t) => t,
            Err(_) => {
                return Err(WalError::Storage);
            },
        };
        let ghost all = contents(store, self.version);
        assert(tail@ == all.skip(all.len() - VERSION_LEN));
        assert(tail@.subrange(0, 8) == tail@);
        Ok(read_le64(tail.as_slice(), 0))
    }

    /// Removes the segment from storage.
    pub fn delete<S: WalStorage>(&self, store: &mut S) -> (r: Result<(), WalError>)
        requires
            old(store).inv(),
        ensures
            final(store).inv(),
            r is Ok ==> final(store).segments() == old(store).segments().remove(self.version),
            r is Err ==> r == Err::<(), WalError>(WalError::Storage) && final(store).segments()
                == old(store).segments(),
    {
        match store.remove(self.version) {
            Ok(()) => Ok(()),
            Err(_) => Err(WalError::Storage),
        }
    }
}

} // verus!
