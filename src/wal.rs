//! The log: the sequence counter, the ordered segments, rotation, startup
//! recovery, appends and range reads.
use vstd::prelude::*;
use crate::bytes::{le64, le64_bytes, le64_value, lemma_le64_round_trip, push_all};
use crate::codec::{header_bytes, header_for};
use crate::layout::{lemma_fragments_reassemble, lemma_plan_bytes_snoc, placed_bytes, plan, plan_bytes, zeros};
use crate::recovery::{appended, lemma_consecutive_versions, numbered, records_view, segment_records, Record, VERSION_LEN};
use crate::segment::{contents, Wlog, MAX_SEGMENT_SIZE};
use crate::storage::{contents_in, WalStorage};
use crate::WalError;

verus! {

/// Default size past which the active segment is rotated.
pub const DEFAULT_FILE_MAX_SIZE: u64 = 4294967295;

/// Default age in seconds past which the active segment is rotated.
pub const DEFAULT_ROTATION_LIVE_TIME: u64 = 1800;

/// `s` is in strictly increasing order.
pub open spec fn strictly_sorted(s: Seq<u64>) -> bool {
    forall|i: int, j: int| 0 <= i < j < s.len() ==> s[i] < s[j]
}

/// The ids of the segments found, in increasing order, each once; `[0]`
/// where none was found.
pub fn log_versions(found: &[u64]) -> (r: Vec<u64>)
    ensures
        strictly_sorted(r@),
        r@.len() > 0,
        found@.len() == 0 ==> r@ == seq![0u64],
        found@.len() > 0 ==> forall|x: u64| r@.contains(x) <==> found@.contains(x),
{
    let mut r: Vec<u64> = Vec::new();
    let mut k: usize = 0;
    while k < found.len()
        invariant
            k <= found@.len(),
            strictly_sorted(r@),
            forall|x: u64| r@.contains(x) <==> found@.take(k as int).contains(x),
        decreases found@.len() - k,
    {
        let x = found[k];
        let mut p: usize = 0;
        while p < r.len() && r[p] < x
            invariant
                p <= r@.len(),
                forall|i: int| 0 <= i < p ==> r@[i] < x,
            decreases r@.len() - p,
        {
            p = p + 1;
        }
        let ghost old_r = r@;
        assert(forall|y: u64| old_r.contains(y) <==> found@.take(k as int).contains(y));
        if p == r.len() || r[p] != x {
            r.insert(p, x);
            assert(r@ == old_r.insert(p as int, x));
            assert forall|i: int, j: int| 0 <= i < j < r@.len() implies r@[i] < r@[j] by {
                if j < p {
                } else if j == p {
                } else if i < p {
                    assert(r@[j] == old_r[j - 1]);
                    if p < old_r.len() {
                        assert(old_r[p as int] > x);
                    }
                } else if i == p {
                    assert(r@[j] == old_r[j - 1]);
                    assert(old_r[p as int] > x);
                    assert(old_r[p as int] <= old_r[j - 1]);
                } else {
                    assert(r@[i] == old_r[i - 1]);
                    assert(r@[j] == old_r[j - 1]);
                }
            }
            assert forall|y: u64| r@.contains(y) <==> (old_r.contains(y) || y == x) by {
                if r@.contains(y) {
                    let i = choose|i: int| 0 <= i < r@.len() && r@[i] == y;
                    if i < p {
                        assert(old_r[i] == y);
                    } else if i > p {
                        assert(old_r[i - 1] == y);
                    }
                }
                if old_r.contains(y) {
                    let i = choose|i: int| 0 <= i < old_r.len() && old_r[i] == y;
                    if i < p {
                        assert(r@[i] == y);
                    } else {
                        assert(r@[i + 1] == y);
                    }
                }
                if y == x {
                    assert(r@[p as int] == x);
                }
            }
        } else {
            assert(r@[p as int] == x);
            assert(r@.contains(x));
            assert(forall|y: u64| r@.contains(y) <==> (old_r.contains(y) || y == x));
        }
        proof {
            let t = found@.take(k + 1);
            let t0 = found@.take(k as int);
            assert(t == t0.push(x));
            assert forall|y: u64| t.contains(y) <==> (t0.contains(y) || y == x) by {
                if t.contains(y) {
                    let i = choose|i: int| 0 <= i < t.len() && t[i] == y;
                    if i < k {
                        assert(t0[i] == y);
                    }
                }
                if t0.contains(y) {
                    let i = choose|i: int| 0 <= i < t0.len() && t0[i] == y;
                    assert(t[i] == y);
                }
                if y == x {
                    assert(t[k as int] == y);
                }
            }
            assert forall|y: u64| r@.contains(y) <==> t.contains(y) by {
                assert(r@.contains(y) <==> (old_r.contains(y) || y == x));
                assert(old_r.contains(y) <==> t0.contains(y));
            }
        }
        k = k + 1;
    }
    assert(found@.take(found@.len() as int) == found@);
    proof {
        if found@.len() == 0 && r@.len() > 0 {
            assert(r@.contains(r@[0]));
        }
        if found@.len() > 0 {
            assert(found@.contains(found@[0]));
            assert(r@.contains(found@[0]));
        }
    }
    if r.len() == 0 {
        r.push(0);
        assert(r@ == seq![0u64]);
    }
    r
}

/// `ids` is what opening finds in storage `m`: the stored segment ids in
/// increasing order, or `[0]` where none is stored.
pub open spec fn found_ids(m: Map<u64, Seq<u8>>, ids: Seq<u64>) -> bool {
    &&& strictly_sorted(ids)
    &&& (forall|x: u64| !m.dom().contains(x)) ==> ids == seq![0u64]
    &&& (exists|x: u64| m.dom().contains(x)) ==> forall|x: u64|
        ids.contains(x) <==> m.dom().contains(x)
}

/// Seconds from `since` to `now`; none where the clock went back.
pub open spec fn elapsed(now: u64, since: u64) -> u64 {
    if now >= since {
        (now - since) as u64
    } else {
        0
    }
}

/// Whether the active segment must be rotated before `buf_len` more bytes
/// go to it: it would pass `file_max_size`, or age-based rotation is on and
/// the segment has been active longer than `rotation_live_time` seconds.
pub fn should_rotate(buf_len: u64, file_size: u64, file_max_size: u64, rotation_live_time: u64, elapsed: u64) -> (r: bool)
    ensures
        r == (buf_len + file_size > file_max_size || (rotation_live_time > 0 && elapsed
            > rotation_live_time)),
{
    (file_size > file_max_size || buf_len > file_max_size - file_size) || (rotation_live_time > 0
        && elapsed > rotation_live_time)
}

/// The sequence number stored at the end of segment bytes `s`.
pub open spec fn tail_version(s: Seq<u8>) -> u64 {
    le64_value(s.skip(s.len() - VERSION_LEN))
}

/// The segment whose tail holds the last committed sequence number: the
/// second newest where there are several and the newest is empty, else the
/// newest; `None` where there is one segment and it is empty.
pub open spec fn tail_segment(m: Map<u64, Seq<u8>>, ids: Seq<u64>) -> Option<u64> {
    if ids.len() > 1 && contents_in(m, ids.last()).len() == 0 {
        Some(ids[ids.len() - 2])
    } else if ids.len() == 1 && contents_in(m, ids.last()).len() == 0 {
        None
    } else {
        Some(ids.last())
    }
}

/// The segment that `tail_segment` picks is too short to hold a sequence number.
pub open spec fn tail_too_short(m: Map<u64, Seq<u8>>, ids: Seq<u64>) -> bool {
    match tail_segment(m, ids) {
        Some(id) => contents_in(m, id).len() < VERSION_LEN,
        None => false,
    }
}

/// The records of the segments in `ids` whose id is at least `min`, in order.
pub open spec fn range_records(m: Map<u64, Seq<u8>>, ids: Seq<u64>, min: u64) -> Seq<(Seq<u8>, u64)>
    decreases ids.len(),
{
    if ids.len() == 0 {
        seq![]
    } else {
        range_records(m, ids.drop_last(), min) + if ids.last() >= min {
            segment_records(contents_in(m, ids.last()))
        } else {
            seq![]
        }
    }
}

/// After a record numbered `v` is appended to a segment, the tail of the
/// segment holds `v`, so a log opened afresh on it resumes at `v` and gives
/// the next record `v + 1`. This holds where the last frame of the record
/// carries at least the eight bytes of the number; a shorter last fragment
/// leaves part of its header in the segment's last eight bytes.
pub proof fn lemma_restart_sequence(before: Seq<u8>, buf: Seq<u8>, v: u64)
    requires
        plan(buf + le64(v), before.len(), true).last().2.len() >= VERSION_LEN,
    ensures
        tail_version(before + plan_bytes(plan(buf + le64(v), before.len(), true))) == v,
{
    let data = buf + le64(v);
    let ps = plan(data, before.len(), true);
    let last = ps.last();
    let k = last.2.len();
    lemma_plan_bytes_snoc(ps);
    lemma_fragments_reassemble(data, before.len(), true);
    let seg = before + plan_bytes(ps);
    assert(placed_bytes(last) == zeros(last.0) + header_bytes(header_for(last.1, last.2)) + last.2);
    assert(seg.skip(seg.len() - VERSION_LEN) =~= last.2.skip(k - VERSION_LEN));
    assert(data.skip(data.len() - VERSION_LEN) =~= last.2.skip(k - VERSION_LEN));
    assert(data.skip(data.len() - VERSION_LEN) =~= le64(v));
    lemma_le64_round_trip(v);
}

/// The records of segments holding `parts[k]` numbered from `firsts[k]`, in order.
pub open spec fn numbered_records(parts: Seq<Seq<Seq<u8>>>, firsts: Seq<u64>) -> Seq<(Seq<u8>, u64)>
    decreases parts.len(),
{
    if parts.len() == 0 || firsts.len() != parts.len() {
        seq![]
    } else {
        numbered_records(parts.drop_last(), firsts.drop_last()) + Seq::new(
            parts.last().len(),
            |i: int| (parts.last()[i], (firsts.last() + i) as u64),
        )
    }
}

/// How many records the segments hold together.
pub open spec fn total_len(parts: Seq<Seq<Seq<u8>>>) -> nat
    decreases parts.len(),
{
    if parts.len() == 0 {
        0
    } else {
        total_len(parts.drop_last()) + parts.last().len()
    }
}

/// Reading from 0 scans every known segment oldest first: where segment
/// `ids[k]` holds the records `parts[k]` numbered consecutively from
/// `firsts[k]`, the records come back in that order with those numbers.
pub proof fn lemma_read_segments_in_order(
    m: Map<u64, Seq<u8>>,
    ids: Seq<u64>,
    parts: Seq<Seq<Seq<u8>>>,
    firsts: Seq<u64>,
)
    requires
        ids.len() == parts.len(),
        firsts.len() == parts.len(),
        forall|k: int| 0 <= k < parts.len() ==> #[trigger] firsts[k] + parts[k].len() <= u64::MAX + 1,
        forall|k: int| 0 <= k < parts.len() ==> contents_in(m, #[trigger] ids[k]) == appended(
            numbered(parts[k], firsts[k]),
        ),
    ensures
        range_records(m, ids, 0) == numbered_records(parts, firsts),
    decreases parts.len(),
{
    if parts.len() > 0 {
        let n = parts.len() - 1;
        assert(firsts[n] + parts[n].len() <= u64::MAX + 1);
        assert(contents_in(m, ids[n]) == appended(numbered(parts[n], firsts[n])));
        lemma_consecutive_versions(parts[n], firsts[n]);
        assert forall|k: int| 0 <= k < n implies #[trigger] firsts.drop_last()[k] + parts.drop_last()[k].len() <= u64::MAX + 1 by {
            assert(firsts[k] + parts[k].len() <= u64::MAX + 1);
        }
        assert forall|k: int| 0 <= k < n implies contents_in(m, #[trigger] ids.drop_last()[k]) == appended(
            numbered(parts.drop_last()[k], firsts.drop_last()[k]),
        ) by {
            assert(contents_in(m, ids[k]) == appended(numbered(parts[k], firsts[k])));
        }
        lemma_read_segments_in_order(m, ids.drop_last(), parts.drop_last(), firsts.drop_last());
    }
}

/// Where each segment's numbering starts right after the records of the
/// segments before it, from 1 on, the versions read are exactly 1, 2, ..., N,
/// each once.
pub proof fn lemma_versions_one_to_n(parts: Seq<Seq<Seq<u8>>>, firsts: Seq<u64>)
    requires
        firsts.len() == parts.len(),
        forall|k: int| 0 <= k < parts.len() ==> #[trigger] firsts[k] == 1 + total_len(parts.take(k)),
        1 + total_len(parts) <= u64::MAX + 1,
    ensures
        numbered_records(parts, firsts).len() == total_len(parts),
        forall|i: int| 0 <= i < total_len(parts) ==> #[trigger] numbered_records(parts, firsts)[i].1 == i + 1,
    decreases parts.len(),
{
    if parts.len() > 0 {
        let n = parts.len() - 1;
        let init = parts.drop_last();
        assert(parts.take(n) == init);
        assert forall|k: int| 0 <= k < init.len() implies #[trigger] firsts.drop_last()[k] == 1 + total_len(init.take(k)) by {
            assert(init.take(k) == parts.take(k));
            assert(firsts[k] == 1 + total_len(parts.take(k)));
        }
        assert(total_len(init) <= total_len(parts));
        lemma_versions_one_to_n(init, firsts.drop_last());
        assert(firsts[n] == 1 + total_len(init));
    } else {
        assert(numbered_records(parts, firsts) == Seq::<(Seq<u8>, u64)>::empty());
    }
}

/// The log over storage `S`.
pub struct Wal<S: WalStorage> {
    pub seq: u64,
    pub file_max_size: u64,
    pub rotation_live_time: u64,
    pub rotation_time: u64,
    pub wlog: Wlog,
    pub log_version_list: Vec<u64>,
    pub store: S,
}

impl<S: WalStorage> Wal<S> {
    /// The log's state agrees with its storage: the active segment is the
    /// newest known one and its tracked size is what the storage holds.
    pub open spec fn wf(&self) -> bool {
        &&& self.store.inv()
        &&& self.wlog.tracks(&self.store)
        &&& self.log_version_list@.len() > 0
        &&& self.log_version_list@.last() == self.wlog.version
        &&& !self.wlog.closed
        &&& forall|id: u64| #[trigger] self.store.segments().dom().contains(id)
            ==> self.log_version_list@.contains(id)
    }

    /// The sequence number to resume from, read from the tail of the
    /// segment that `tail_segment` picks.
    pub fn init_version(ids: &[u64], active_wlog: &Wlog, store: &S) -> (r: Result<u64, WalError>)
        requires
            store.inv(),
            ids@.len() > 0,
            active_wlog.version == ids@.last(),
            active_wlog.tracks(store),
        ensures
            tail_segment(store.segments(), ids@) is None ==> r == Ok::<u64, WalError>(0),
            tail_segment(store.segments(), ids@) matches Some(id) ==> {
                let s = contents_in(store.segments(), id);
                &&& r matches Ok(v) ==> s.len() >= VERSION_LEN && v == tail_version(s)
                &&& r matches Err(e) ==> e == WalError::Storage || e == WalError::CorruptSegmentTail
                    && s.len() < VERSION_LEN
            },
    {
        let length = ids.len();
        if length > 1 {
            if active_wlog.file_size == 0 {
                let latest = Wlog::new(store, ids[length - 2])?;
                return latest.get_latest_version(store);
            }
        } else if length == 1 {
            if active_wlog.file_size == 0 {
                return Ok(0);
            }
        }
        active_wlog.get_latest_version(store)
    }

    /// Opens the log over `store`: finds its segments, makes the newest one
    /// active and resumes the sequence number from the last committed record.
    pub fn new(store: S) -> (r: Result<Wal<S>, WalError>)
        requires
            store.inv(),
        ensures
            r matches Ok(w) ==> {
                &&& w.wf()
                &&& w.store.segments() == store.segments()
                &&& found_ids(store.segments(), w.log_version_list@)
                &&& match tail_segment(store.segments(), w.log_version_list@) {
                    None => w.seq == 0,
                    Some(id) => w.seq == tail_version(contents_in(store.segments(), id)),
                }
                &&& w.file_max_size == DEFAULT_FILE_MAX_SIZE
                &&& w.rotation_live_time == DEFAULT_ROTATION_LIVE_TIME
            },
            r matches Err(e) ==> e == WalError::Storage || (e == WalError::CorruptSegmentTail
                && exists|ids: Seq<u64>|
                found_ids(store.segments(), ids) && #[trigger] tail_too_short(store.segments(), ids)),
    {
        let found = store.segment_ids();
        let log_version_list = log_versions(found.as_slice());
        proof {
            if found@.len() > 0 {
                assert(found@.contains(found@[0]));
                assert(store.segments().dom().contains(found@[0]));
            }
            if exists|x: u64| store.segments().dom().contains(x) {
                let x = choose|x: u64| store.segments().dom().contains(x);
                assert(found@.contains(x));
            }
        }
        assert(found_ids(store.segments(), log_version_list@));
        let wlog = Wlog::new(&store, log_version_list[log_version_list.len() - 1])?;
        let version = match Self::init_version(log_version_list.as_slice(), &wlog, &store) {
            Ok(v) => v,
            Err(e) => {
                assert(e == WalError::Storage || tail_too_short(store.segments(), log_version_list@));
                return Err(e);
            },
        };
        proof {
            assert forall|id: u64| #[trigger] store.segments().dom().contains(id) implies log_version_list@.contains(id) by {
                assert(exists|x: u64| store.segments().dom().contains(x));
            }
        }
        let now = store.now_secs();
        Ok(Wal {
            seq: version,
            file_max_size: DEFAULT_FILE_MAX_SIZE,
            rotation_live_time: DEFAULT_ROTATION_LIVE_TIME,
            rotation_time: now,
            wlog,
            log_version_list,
            store,
        })
    }

    /// Rotates the active segment when `should_rotate` says so at clock
    /// time `now`: the active segment is closed, the new one's id is the
    /// current sequence number, and the age clock restarts at `now`.
    fn rotation_log(&mut self, buf_len: usize, now: u64) -> (r: Result<(), WalError>)
        requires
            old(self).wf(),
        ensures
            final(self).wf(),
            final(self).seq == old(self).seq,
            final(self).file_max_size == old(self).file_max_size,
            final(self).rotation_live_time == old(self).rotation_live_time,
            final(self).store.segments() == old(self).store.segments(),
            ({
                let rot = buf_len + old(self).wlog.file_size > old(self).file_max_size || (old(self).rotation_live_time > 0 && elapsed(now, old(self).rotation_time) > old(self).rotation_live_time);
                &&& !rot ==> r is Ok && final(self).wlog == old(self).wlog
                    && final(self).log_version_list@ == old(self).log_version_list@
                    && final(self).rotation_time == old(self).rotation_time
                &&& rot && r is Ok ==> final(self).wlog.version == old(self).seq
                    && final(self).log_version_list@ == old(self).log_version_list@.push(old(self).seq)
                    && final(self).rotation_time == now
                    && (!old(self).log_version_list@.contains(old(self).seq)
                    ==> final(self).wlog.file_size == 0)
                &&& r is Err ==> rot && r == Err::<(), WalError>(WalError::Storage) && final(self).wlog == old(self).wlog && final(self).log_version_list@ == old(self).log_version_list@ && final(self).rotation_time == old(self).rotation_time
            }),
    {
        let since: u64 = if now >= self.rotation_time {
            now - self.rotation_time
        } else {
            0
        };
        if should_rotate(
            buf_len as u64,
            self.wlog.file_size,
            self.file_max_size,
            self.rotation_live_time,
            since,
        ) {
            let next = Wlog::new(&self.store, self.seq)?;
            proof {
                if !self.log_version_list@.contains(self.seq) {
                    assert(!self.store.segments().dom().contains(self.seq));
                }
            }
            self.wlog.close();
            self.log_version_list.push(self.seq);
            self.wlog = next;
            self.rotation_time = now;
            proof {
                assert forall|id: u64| #[trigger] self.store.segments().dom().contains(id) implies self.log_version_list@.contains(id) by {
                    assert(old(self).log_version_list@.contains(id));
                    let j = choose|j: int| 0 <= j < old(self).log_version_list@.len() && old(self).log_version_list@[j] == id;
                    assert(self.log_version_list@[j] == id);
                }
            }
        }
        Ok(())
    }

    /// Appends a logical record: assigns it the next sequence number, which
    /// follows its bytes as eight little-endian bytes, rotates the active
    /// segment if needed, and writes the frames. A failed write keeps the
    /// sequence number it consumed.
    pub fn append(&mut self, buf: &[u8]) -> (r: Result<(), WalError>)
        requires
            old(self).wf(),
        ensures
            final(self).wf(),
            final(self).file_max_size == old(self).file_max_size,
            final(self).rotation_live_time == old(self).rotation_live_time,
            old(self).seq == u64::MAX ==> r == Err::<(), WalError>(WalError::SequenceExhausted)
                && final(self).seq == old(self).seq && final(self).store.segments() == old(self).store.segments(),
            old(self).seq < u64::MAX ==> final(self).seq == old(self).seq + 1,
            old(self).seq < u64::MAX ==> r != Err::<(), WalError>(WalError::SequenceExhausted),
            r matches Err(e) ==> e == WalError::SequenceExhausted || e == WalError::Storage || e
                == WalError::AppendFailed || e == WalError::SegmentFull,
            old(self).seq < u64::MAX && buf@.len() + VERSION_LEN > MAX_SEGMENT_SIZE ==> r is Err,
            r == Err::<(), WalError>(WalError::AppendFailed) ==> final(self).store.segments() == old(self).store.segments(),
            r is Ok ==> final(self).store.segments() == old(self).store.segments().insert(
                final(self).wlog.version,
                contents(&old(self).store, final(self).wlog.version) + plan_bytes(
                    plan(
                        buf@ + le64(final(self).seq),
                        contents(&old(self).store, final(self).wlog.version).len(),
                        true,
                    ),
                ),
            ),
            r is Ok ==> (final(self).wlog.version == old(self).wlog.version
                && final(self).log_version_list@ == old(self).log_version_list@) || (
            final(self).wlog.version == final(self).seq && final(self).log_version_list@ == old(self).log_version_list@.push(final(self).seq)),
            r is Ok && buf@.len() + VERSION_LEN + old(self).wlog.file_size > old(self).file_max_size
                ==> final(self).wlog.version == final(self).seq && final(self).log_version_list@
                == old(self).log_version_list@.push(final(self).seq),
            r is Ok && final(self).wlog.version != old(self).wlog.version ==> contents(
                &final(self).store,
                old(self).wlog.version,
            ) == contents(&old(self).store, old(self).wlog.version),
            r is Err && old(self).seq < u64::MAX ==> final(self).store.segments() == old(self).store.segments(),
    {
        if self.seq == u64::MAX {
            return Err(WalError::SequenceExhausted);
        }
        self.seq = self.seq + 1;
        let mut flate_buf: Vec<u8> = Vec::new();
        push_all(&mut flate_buf, buf);
        let suffix = le64_bytes(self.seq);
        push_all(&mut flate_buf, suffix.as_slice());
        let now = self.store.now_secs();
        self.rotation_log(flate_buf.len(), now)?;
        self.wlog.append(&mut self.store, flate_buf.as_slice())
    }

    /// The records of the log from segment `min_version` on, oldest first:
    /// only the active segment where its id is `min_version`, else every
    /// known segment whose id is at least `min_version`.
    pub fn read_range(&self, min_version: u64) -> (r: Result<Vec<Record>, WalError>)
        requires
            self.wf(),
        ensures
            self.wlog.version != min_version && (forall|i: int|
                0 <= i < self.log_version_list@.len() ==> self.log_version_list@[i] < min_version)
                ==> r is Ok,
            r matches Ok(v) ==> records_view(v@) == if self.wlog.version == min_version {
                segment_records(contents(&self.store, self.wlog.version))
            } else {
                range_records(self.store.segments(), self.log_version_list@, min_version)
            },
            r matches Err(e) ==> e == WalError::Storage,
    {
        if self.wlog.version == min_version {
            return self.wlog.read_all(&self.store);
        }
        let mut out: Vec<Record> = Vec::new();
        let mut i: usize = 0;
        while i < self.log_version_list.len()
            invariant
                self.wf(),
                i <= self.log_version_list@.len(),
                records_view(out@) == range_records(
                    self.store.segments(),
                    self.log_version_list@.take(i as int),
                    min_version,
                ),
            decreases self.log_version_list@.len() - i,
        {
            let id = self.log_version_list[i];
            let ghost ids = self.log_version_list@.take(i + 1);
            assert(ids.drop_last() == self.log_version_list@.take(i as int));
            if id >= min_version {
                let w = Wlog { version: id, file_size: 0, closed: false };
                let mut more = w.read_all(&self.store)?;
                let ghost a = out@;
                let ghost b = more@;
                out.append(&mut more);
                assert(records_view(out@) =~= records_view(a) + records_view(b));
            } else {
                assert(range_records(self.store.segments(), ids, min_version) =~= range_records(
                    self.store.segments(),
                    ids.drop_last(),
                    min_version,
                ));
            }
            i = i + 1;
        }
        assert(self.log_version_list@.take(self.log_version_list@.len() as int)
            == self.log_version_list@);
        Ok(out)
    }

    /// Deletes every known segment, then resets the log as if opened afresh
    /// on empty storage: sequence number 0 and one active segment, id 0.
    pub fn truncate_all(&mut self) -> (r: Result<(), WalError>)
        requires
            old(self).wf(),
        ensures
            final(self).store.inv(),
            final(self).file_max_size == old(self).file_max_size,
            final(self).rotation_live_time == old(self).rotation_live_time,
            r is Ok ==> {
                &&& final(self).wf()
                &&& final(self).store.segments() == old(self).store.segments().remove_keys(
                    old(self).log_version_list@.to_set(),
                )
                &&& final(self).seq == 0
                &&& final(self).log_version_list@ == seq![0u64]
                &&& final(self).wlog.version == 0
                &&& final(self).wlog.file_size == 0
                &&& final(self).store.segments().dom() == Set::<u64>::empty()
            },
            r matches Err(e) ==> e == WalError::Storage,
    {
        let mut i: usize = 0;
        let ghost ids = self.log_version_list@;
        let ghost start = self.store.segments();
        assert(forall|x: u64| #[trigger] start.dom().contains(x) ==> ids.contains(x));
        while i < self.log_version_list.len()
            invariant
                self.store.inv(),
                self.log_version_list@ == ids,
                i <= ids.len(),
                self.store.segments() == start.remove_keys(ids.take(i as int).to_set()),
                self.file_max_size == old(self).file_max_size,
                self.rotation_live_time == old(self).rotation_live_time,
            decreases ids.len() - i,
        {
            let id = self.log_version_list[i];
            let w = Wlog { version: id, file_size: 0, closed: false };
            w.delete(&mut self.store)?;
            assert(ids.take(i + 1).to_set() =~= ids.take(i as int).to_set().insert(id)) by {
                assert(ids.take(i + 1) == ids.take(i as int).push(id));
                ids.take(i as int).lemma_push_to_set_commute(id);
            }
            assert(self.store.segments() =~= start.remove_keys(ids.take(i + 1).to_set()));
            i = i + 1;
        }
        assert(ids.take(ids.len() as int) == ids);
        assert(self.store.segments().dom() =~= Set::<u64>::empty()) by {
            assert forall|x: u64| !self.store.segments().dom().contains(x) by {
                if start.dom().contains(x) {
                    assert(ids.contains(x));
                    assert(ids.to_set().contains(x));
                }
            }
        }
        let wlog = Wlog::new(&self.store, 0)?;
        self.seq = 0;
        self.log_version_list = vec![0u64];
        self.wlog = wlog;
        self.rotation_time = self.store.now_secs();
        Ok(())
    }
}

} // verus!
