//! Recovery: the records that a segment's bytes hold, up to the first frame
//! that is torn or fails its checksum.
use vstd::prelude::*;
use crate::bytes::{copy_range, le64, le64_value, lemma_le64_round_trip, push_all, read_le64};
use crate::codec::{frame_ok, header_of, payload_of, Entry, HEADER_LEN, KIND_FULL, KIND_LAST, PAGE_SIZE};
use crate::codec::{frame_bytes, lemma_frame_round_trip, KIND_FIRST, KIND_MIDDLE};
use crate::layout::{lemma_pad, lemma_plan_step, pad_at, page_rem, plan, plan_bytes, zeros};

verus! {

/// Length of the sequence number that ends each logical record.
pub const VERSION_LEN: usize = 8;

/// A recovered record: its bytes and the sequence number it was written with.
#[derive(Debug)]
pub struct Record {
    pub data: Vec<u8>,
    pub version: u64,
}

/// What a record is: its bytes and its sequence number.
pub open spec fn record_view(r: Record) -> (Seq<u8>, u64) {
    (r.data@, r.version)
}

/// What a sequence of records is.
pub open spec fn records_view(v: Seq<Record>) -> Seq<(Seq<u8>, u64)> {
    v.map_values(|r: Record| record_view(r))
}

/// The record that a reassembled byte stream stands for: the last eight
/// bytes are the sequence number, little-endian, the rest is the record.
pub open spec fn split_version(acc: Seq<u8>) -> (Seq<u8>, u64) {
    (acc.take(acc.len() - VERSION_LEN), le64_value(acc.skip(acc.len() - VERSION_LEN)))
}

/// The records delivered by scanning `b` from offset `pos`, with `acc` the
/// fragments of a record already gathered. A page tail with no room for a
/// header is skipped. The scan stops quietly at a frame that is cut
/// short or whose checksum does not match, and at a completed record too
/// short to hold its sequence number.
pub open spec fn scan(b: Seq<u8>, pos: nat, acc: Seq<u8>) -> Seq<(Seq<u8>, u64)>
    decreases b.len() - pos,
{
    if pos >= b.len() {
        seq![]
    } else if page_rem(pos) < HEADER_LEN {
        if pos + page_rem(pos) >= b.len() {
            seq![]
        } else {
            scan(b, pos + page_rem(pos), acc)
        }
    } else {
        let rest = b.skip(pos as int);
        if !frame_ok(rest) {
            seq![]
        } else {
            let h = header_of(rest);
            let next = (pos + HEADER_LEN + h.dlen) as nat;
            let acc2 = acc + payload_of(rest);
            if h.stype == KIND_FULL || h.stype == KIND_LAST {
                if acc2.len() < VERSION_LEN {
                    seq![]
                } else {
                    seq![split_version(acc2)] + scan(b, next, seq![])
                }
            } else {
                scan(b, next, acc2)
            }
        }
    }
}

/// The records of a whole segment.
pub open spec fn segment_records(b: Seq<u8>) -> Seq<(Seq<u8>, u64)> {
    scan(b, 0, seq![])
}

/// Scans the bytes of a segment and returns the records they hold, in order.
pub fn scan_records(b: &[u8]) -> (r: Vec<Record>)
    ensures
        records_view(r@) == segment_records(b@),
{
    let mut out: Vec<Record> = Vec::new();
    let mut acc: Vec<u8> = Vec::new();
    let mut pos: usize = 0;
    loop
        invariant
            pos <= b@.len(),
            records_view(out@) + scan(b@, pos as nat, acc@) == segment_records(b@),
        decreases b@.len() - pos,
    {
        if pos >= b.len() {
            assert(records_view(out@) + Seq::<(Seq<u8>, u64)>::empty() == records_view(out@));
            return out;
        }
        let in_page = PAGE_SIZE - (pos as u64) % PAGE_SIZE;
        if in_page < HEADER_LEN as u64 {
            if in_page as usize >= b.len() - pos {
                assert(records_view(out@) + Seq::<(Seq<u8>, u64)>::empty() == records_view(out@));
                return out;
            }
            pos = pos + in_page as usize;
        } else {
            let ghost rest = b@.skip(pos as int);
            assert(b@.subrange(pos as int, b@.len() as int) == rest);
            match Entry::decode(&b[pos..b.len()]) {
                Err(_) => {
                    assert(records_view(out@) + Seq::<(Seq<u8>, u64)>::empty() == records_view(out@));
                    return out;
                },
                Ok(entry) => {
                    let ghost acc0 = acc@;
                    push_all(&mut acc, entry.payload.as_slice());
                    let next = pos + HEADER_LEN + entry.header.dlen as usize;
                    if entry.header.stype == KIND_FULL || entry.header.stype == KIND_LAST {
                        if acc.len() < VERSION_LEN {
                            assert(records_view(out@) + Seq::<(Seq<u8>, u64)>::empty() == records_view(out@));
                            return out;
                        }
                        let cut = acc.len() - VERSION_LEN;
                        let rec = Record { data: copy_range(acc.as_slice(), 0, cut), version: read_le64(acc.as_slice(), cut) };
                        let ghost before = out@;
                        out.push(rec);
                        proof {
                            assert(acc@.subrange(0, cut as int) == acc@.take(cut as int));
                            assert(acc@.subrange(cut as int, cut + 8) == acc@.skip(cut as int));
                            assert(record_view(rec) == split_version(acc@));
                            assert(records_view(out@) == records_view(before) + seq![split_version(acc@)]);
                            assert(scan(b@, pos as nat, acc0) == seq![split_version(acc@)] + scan(b@, next as nat, seq![]));
                        }
                        acc = Vec::new();
                    } else {
                        assert(scan(b@, pos as nat, acc0) == scan(b@, next as nat, acc@));
                    }
                    pos = next;
                },
            }
        }
    }
}

/// A frame that is whole in a prefix of the bytes is the same frame in the bytes.
proof fn lemma_frame_in_prefix(b: Seq<u8>, k: int, pos: int)
    requires
        0 <= pos <= k <= b.len(),
        frame_ok(b.take(k).skip(pos)),
    ensures
        frame_ok(b.skip(pos)),
        header_of(b.take(k).skip(pos)) == header_of(b.skip(pos)),
        payload_of(b.take(k).skip(pos)) == payload_of(b.skip(pos)),
{
    let p = b.take(k).skip(pos);
    let f = b.skip(pos);
    assert(p.subrange(0, 4) == f.subrange(0, 4));
    assert(p.subrange(4, 6) == f.subrange(4, 6));
    assert(p[6] == f[6]);
    let h = header_of(p);
    assert(p.subrange(HEADER_LEN as int, HEADER_LEN + h.dlen) == f.subrange(
        HEADER_LEN as int,
        HEADER_LEN + h.dlen,
    ));
}

/// Scanning a segment cut short at any byte (a write torn by a crash)
/// raises nothing and delivers no partial record: what it delivers is a
/// prefix of what the whole segment delivers.
pub proof fn lemma_torn_tail(b: Seq<u8>, k: int, pos: nat, acc: Seq<u8>)
    requires
        0 <= k <= b.len(),
    ensures
        scan(b.take(k), pos, acc).len() <= scan(b, pos, acc).len(),
        scan(b.take(k), pos, acc) == scan(b, pos, acc).take(scan(b.take(k), pos, acc).len() as int),
    decreases b.len() - pos,
{
    let t = b.take(k);
    if pos >= k {
    } else if page_rem(pos) < HEADER_LEN {
        if pos + page_rem(pos) < k {
            lemma_torn_tail(b, k, pos + page_rem(pos), acc);
        }
    } else if frame_ok(t.skip(pos as int)) {
        lemma_frame_in_prefix(b, k, pos as int);
        let rest = b.skip(pos as int);
        let h = header_of(rest);
        let next = (pos + HEADER_LEN + h.dlen) as nat;
        let acc2 = acc + payload_of(rest);
        if h.stype == KIND_FULL || h.stype == KIND_LAST {
            if acc2.len() >= VERSION_LEN {
                lemma_torn_tail(b, k, next, seq![]);
                let x = scan(t, next, seq![]);
                let y = scan(b, next, seq![]);
                assert((seq![split_version(acc2)] + x) =~= (seq![split_version(acc2)] + y).take(
                    x.len() + 1 as int,
                ));
            }
        } else {
            lemma_torn_tail(b, k, next, acc2);
        }
    }
}

/// One frame, placed whole at `start` with room for it in its page, is read
/// back by the scan: a `Full` or `Last` frame completes a record, a `First`
/// or `Middle` frame adds to the fragments gathered.
proof fn lemma_scan_frame(b: Seq<u8>, start: nat, kind: u8, payload: Seq<u8>, acc: Seq<u8>)
    requires
        page_rem(start) >= HEADER_LEN,
        payload.len() <= u16::MAX,
        start + frame_bytes(kind, payload).len() <= b.len(),
        b.skip(start as int) == frame_bytes(kind, payload) + b.skip(
            (start + frame_bytes(kind, payload).len()) as int,
        ),
    ensures
        (kind == KIND_FULL || kind == KIND_LAST) && acc.len() + payload.len() >= VERSION_LEN
            ==> scan(b, start, acc) == seq![split_version(acc + payload)] + scan(
            b,
            start + frame_bytes(kind, payload).len(),
            seq![],
        ),
        (kind == KIND_FIRST || kind == KIND_MIDDLE) ==> scan(b, start, acc) == scan(
            b,
            start + frame_bytes(kind, payload).len(),
            acc + payload,
        ),
{
    let fl = frame_bytes(kind, payload).len();
    lemma_frame_round_trip(kind, payload, b.skip((start + fl) as int));
}

/// A page tail too short for a frame is skipped by the scan.
proof fn lemma_scan_pad(b: Seq<u8>, pos: nat, acc: Seq<u8>)
    requires
        page_rem(pos) < HEADER_LEN,
        pos + page_rem(pos) < b.len(),
    ensures
        scan(b, pos, acc) == scan(b, pos + page_rem(pos), acc),
{
}

/// Scanning from where the frames of one record were placed delivers that
/// record, completing the fragments `acc` already gathered, and goes on
/// right after its last frame.
pub proof fn lemma_scan_placed(b: Seq<u8>, pos: nat, data: Seq<u8>, first: bool, acc: Seq<u8>)
    requires
        pos + plan_bytes(plan(data, pos, first)).len() <= b.len(),
        b.subrange(pos as int, pos + plan_bytes(plan(data, pos, first)).len() as int)
            == plan_bytes(plan(data, pos, first)),
        acc.len() + data.len() >= VERSION_LEN,
    ensures
        scan(b, pos, acc) == seq![split_version(acc + data)] + scan(
            b,
            pos + plan_bytes(plan(data, pos, first)).len(),
            seq![],
        ),
    decreases data.len(), (if pos % (PAGE_SIZE as nat) == 0 { 0nat } else { 1nat }),
{
    lemma_pad(pos);
    lemma_plan_step(data, pos, first);
    let pad = pad_at(pos);
    let start: nat = pos + pad;
    let rem = page_rem(start);
    let n = (rem - HEADER_LEN) as nat;
    let bytes = plan_bytes(plan(data, pos, first));
    let end: int = (pos + bytes.len()) as int;
    let fits = rem > HEADER_LEN + data.len();
    let kind: u8 = if fits {
        if first { KIND_FULL } else { KIND_LAST }
    } else {
        if first { KIND_FIRST } else { KIND_MIDDLE }
    };
    let payload = if fits { data } else { data.take(n as int) };
    let tail = if fits { Seq::<u8>::empty() } else { plan_bytes(plan(data.skip(n as int), start + rem, false)) };
    assert(bytes == zeros(pad) + frame_bytes(kind, payload) + tail);
    let fl: int = frame_bytes(kind, payload).len() as int;
    let frame_start: int = start as int;
    let pad_at_start: int = pad as int;
    assert(b.skip(frame_start) == frame_bytes(kind, payload) + b.skip(frame_start + fl)) by {
        assert(b.subrange(frame_start, frame_start + fl) =~= bytes.subrange(pad_at_start, pad_at_start + fl));
        assert(bytes.subrange(pad_at_start, pad_at_start + fl) =~= frame_bytes(kind, payload));
        assert(b.skip(frame_start) =~= b.subrange(frame_start, frame_start + fl) + b.skip(frame_start + fl));
    }
    if pad > 0 {
        lemma_scan_pad(b, pos, acc);
    }
    lemma_scan_frame(b, start, kind, payload, acc);
    let next: nat = (start + HEADER_LEN + payload.len()) as nat;
    if fits {
        assert(end == next);
    } else {
        assert(next == start + rem);
        let rest_data = data.skip(n as int);
        assert(b.subrange(next as int, end) == tail) by {
            assert(b.subrange(next as int, end) =~= bytes.subrange(pad_at_start + fl, bytes.len() as int));
        }
        assert(acc + payload + rest_data == acc + data) by {
            assert(payload + rest_data =~= data);
        }
        lemma_scan_placed(b, next, rest_data, false, acc + payload);
    }
}

/// Bytes cut anywhere inside the frames of one record deliver nothing
/// from where those frames start: the record is never completed.
#[verifier::rlimit(100)]
proof fn lemma_scan_placed_cut(b: Seq<u8>, pos: nat, data: Seq<u8>, first: bool, acc: Seq<u8>, k: int)
    requires
        pos + plan_bytes(plan(data, pos, first)).len() <= b.len(),
        b.subrange(pos as int, pos + plan_bytes(plan(data, pos, first)).len() as int)
            == plan_bytes(plan(data, pos, first)),
        pos <= k < pos + plan_bytes(plan(data, pos, first)).len(),
    ensures
        scan(b.take(k), pos, acc) == Seq::<(Seq<u8>, u64)>::empty(),
    decreases data.len(), (if pos % (PAGE_SIZE as nat) == 0 { 0nat } else { 1nat }),
{
    let t = b.take(k);
    lemma_pad(pos);
    lemma_plan_step(data, pos, first);
    let pad = pad_at(pos);
    let start: nat = pos + pad;
    let rem = page_rem(start);
    let n = (rem - HEADER_LEN) as nat;
    let bytes = plan_bytes(plan(data, pos, first));
    let fits = rem > HEADER_LEN + data.len();
    let kind: u8 = if fits {
        if first { KIND_FULL } else { KIND_LAST }
    } else {
        if first { KIND_FIRST } else { KIND_MIDDLE }
    };
    let payload = if fits { data } else { data.take(n as int) };
    let tail = if fits { Seq::<u8>::empty() } else { plan_bytes(plan(data.skip(n as int), start + rem, false)) };
    assert(bytes == zeros(pad) + frame_bytes(kind, payload) + tail);
    let fl: int = frame_bytes(kind, payload).len() as int;
    let frame_start: int = start as int;
    let pad_at_start: int = pad as int;
    if pos >= k {
        return;
    }
    if pad > 0 && pos + pad >= k {
        return;
    }
    if pad > 0 {
        lemma_scan_pad(t, pos, acc);
    }
    assert(b.skip(frame_start) == frame_bytes(kind, payload) + b.skip(frame_start + fl)) by {
        assert(b.subrange(frame_start, frame_start + fl) =~= bytes.subrange(pad_at_start, pad_at_start + fl));
        assert(bytes.subrange(pad_at_start, pad_at_start + fl) =~= frame_bytes(kind, payload));
        assert(b.skip(frame_start) =~= b.subrange(frame_start, frame_start + fl) + b.skip(frame_start + fl));
    }
    if frame_start + fl > k {
        lemma_scan_frame_cut(b, k, start, kind, payload, acc);
    } else {
        assert(!fits);
        assert(t.skip(frame_start) == frame_bytes(kind, payload) + t.skip(frame_start + fl)) by {
            assert(t.skip(frame_start) =~= b.subrange(frame_start, frame_start + fl) + t.skip(frame_start + fl));
            assert(b.subrange(frame_start, frame_start + fl) =~= b.skip(frame_start).subrange(0, fl));
            assert(b.skip(frame_start).subrange(0, fl) =~= frame_bytes(kind, payload));
        }
        lemma_frame_round_trip(kind, payload, Seq::<u8>::empty());
        lemma_scan_frame(t, start, kind, payload, acc);
        let next: nat = (start + HEADER_LEN + payload.len()) as nat;
        assert(next == start + rem);
        let end: int = (pos + bytes.len()) as int;
        assert(b.subrange(next as int, end) == tail) by {
            assert(b.subrange(next as int, end) =~= bytes.subrange(pad_at_start + fl, bytes.len() as int));
        }
        lemma_scan_placed_cut(b, next, data.skip(n as int), false, acc + payload, k);
    }
}

/// A frame cut short by the end of the bytes stops the scan.
proof fn lemma_scan_frame_cut(b: Seq<u8>, k: int, start: nat, kind: u8, payload: Seq<u8>, acc: Seq<u8>)
    requires
        page_rem(start) >= HEADER_LEN,
        payload.len() <= u16::MAX,
        start < k <= b.len(),
        k < start + frame_bytes(kind, payload).len() <= b.len(),
        b.skip(start as int) == frame_bytes(kind, payload) + b.skip(
            (start + frame_bytes(kind, payload).len()) as int,
        ),
    ensures
        scan(b.take(k), start, acc) == Seq::<(Seq<u8>, u64)>::empty(),
{
    let fl = frame_bytes(kind, payload).len();
    lemma_frame_round_trip(kind, payload, b.skip((start + fl) as int));
    let f = b.skip(start as int);
    let ts = b.take(k).skip(start as int);
    if ts.len() >= HEADER_LEN {
        assert(ts.subrange(0, 4) == f.subrange(0, 4));
        assert(ts.subrange(4, 6) == f.subrange(4, 6));
        assert(ts[6] == f[6]);
        assert(header_of(ts) == header_of(f));
    }
    assert(!frame_ok(ts));
}

/// A segment whose last append was torn by a crash, cut anywhere inside
/// the frames of its last record, delivers every earlier record, complete
/// and in order, and nothing of the torn one.
pub proof fn lemma_torn_append(recs: Seq<Seq<u8>>, last: Seq<u8>, k: int)
    requires
        forall|i: int| 0 <= i < recs.len() ==> #[trigger] recs[i].len() >= VERSION_LEN,
        appended(recs).len() <= k < appended(recs.push(last)).len(),
    ensures
        segment_records(appended(recs.push(last)).take(k)) == recs.map_values(
            |r: Seq<u8>| split_version(r),
        ),
{
    let all = recs.push(last);
    let full = appended(all);
    let before = appended(recs);
    let added = plan_bytes(plan(last, before.len(), true));
    assert(all.drop_last() == recs);
    assert(full == before + added);
    let t = full.take(k);
    assert(t.take(before.len() as int) == before) by {
        assert(t.take(before.len() as int) =~= full.take(before.len() as int));
    }
    lemma_scan_appended(t, recs);
    let lo = before.len() as int;
    let hi = lo + added.len();
    assert(full.subrange(lo, hi) == added) by {
        assert(full.subrange(lo, hi) =~= added);
    }
    lemma_scan_placed_cut(full, before.len(), last, true, seq![], k);
    assert(recs.map_values(|r: Seq<u8>| split_version(r)) + Seq::<(Seq<u8>, u64)>::empty() == recs.map_values(|r: Seq<u8>| split_version(r)));
}

/// The bytes of a segment into which the records `recs` were appended in turn.
pub open spec fn appended(recs: Seq<Seq<u8>>) -> Seq<u8>
    decreases recs.len(),
{
    if recs.len() == 0 {
        seq![]
    } else {
        let before = appended(recs.drop_last());
        before + plan_bytes(plan(recs.last(), before.len(), true))
    }
}

/// Appending one more record to a segment that holds `appended(recs)`, as
/// `Wlog::append` and `Wal::append` state it, leaves it holding
/// `appended(recs.push(rec))`.
pub proof fn lemma_append_one(recs: Seq<Seq<u8>>, rec: Seq<u8>)
    ensures
        appended(recs.push(rec)) == appended(recs) + plan_bytes(plan(rec, appended(recs).len(), true)),
{
    assert(recs.push(rec).drop_last() == recs);
}

/// Scanning bytes that start with appended records delivers those records
/// first, each split into its bytes and sequence number.
#[verifier::rlimit(60)]
pub proof fn lemma_scan_appended(b: Seq<u8>, recs: Seq<Seq<u8>>)
    requires
        appended(recs).len() <= b.len(),
        b.take(appended(recs).len() as int) == appended(recs),
        forall|i: int| 0 <= i < recs.len() ==> #[trigger] recs[i].len() >= VERSION_LEN,
    ensures
        scan(b, 0, seq![]) == recs.map_values(|r: Seq<u8>| split_version(r)) + scan(
            b,
            appended(recs).len(),
            seq![],
        ),
    decreases recs.len(),
{
    if recs.len() == 0 {
        assert(recs.map_values(|r: Seq<u8>| split_version(r)) =~= Seq::<(Seq<u8>, u64)>::empty());
    } else {
        let init = recs.drop_last();
        let before = appended(init);
        let added = plan_bytes(plan(recs.last(), before.len(), true));
        assert(appended(recs) == before + added);
        assert(b.take(before.len() as int) == before) by {
            assert(b.take(before.len() as int) =~= appended(recs).take(before.len() as int));
        }
        assert(forall|i: int| 0 <= i < init.len() ==> #[trigger] init[i].len() >= VERSION_LEN) by {
            assert forall|i: int| 0 <= i < init.len() implies #[trigger] init[i].len() >= VERSION_LEN by {
                assert(init[i] == recs[i]);
            }
        }
        lemma_scan_appended(b, init);
        assert(recs[recs.len() - 1].len() >= VERSION_LEN);
        let lo = before.len() as int;
        let hi = lo + added.len();
        assert(b.subrange(lo, hi) == added) by {
            assert(b.subrange(lo, hi) =~= appended(recs).subrange(lo, hi));
        }
        lemma_scan_placed(b, before.len(), recs.last(), true, seq![]);
        assert(Seq::<u8>::empty() + recs.last() == recs.last());
        assert(recs.map_values(|r: Seq<u8>| split_version(r)) =~= init.map_values(
            |r: Seq<u8>| split_version(r),
        ) + seq![split_version(recs.last())]);
    }
}

/// The records appended in turn to a segment are exactly what scanning it
/// delivers, in order.
pub proof fn lemma_appended_records(recs: Seq<Seq<u8>>)
    requires
        forall|i: int| 0 <= i < recs.len() ==> #[trigger] recs[i].len() >= VERSION_LEN,
    ensures
        segment_records(appended(recs)) == recs.map_values(|r: Seq<u8>| split_version(r)),
{
    let b = appended(recs);
    assert(b.take(b.len() as int) == b);
    lemma_scan_appended(b, recs);
    assert(recs.map_values(|r: Seq<u8>| split_version(r)) + Seq::<(Seq<u8>, u64)>::empty() == recs.map_values(|r: Seq<u8>| split_version(r)));
}

/// A record's bytes followed by its sequence number split back into the two.
pub proof fn lemma_split_version(data: Seq<u8>, v: u64)
    ensures
        split_version(data + le64(v)) == (data, v),
{
    let r = data + le64(v);
    assert(r.take(data.len() as int) =~= data);
    assert(r.skip(data.len() as int) =~= le64(v));
    lemma_le64_round_trip(v);
}

/// The record bytes that the log writes for `bufs` numbered consecutively from `first`.
pub open spec fn numbered(bufs: Seq<Seq<u8>>, first: u64) -> Seq<Seq<u8>> {
    Seq::new(bufs.len(), |i: int| bufs[i] + le64((first + i) as u64))
}

/// Records appended to a segment with consecutive sequence numbers from
/// `first` on are read back in order, each once, with exactly those numbers
/// and their own bytes.
pub proof fn lemma_consecutive_versions(bufs: Seq<Seq<u8>>, first: u64)
    requires
        first + bufs.len() <= u64::MAX + 1,
    ensures
        segment_records(appended(numbered(bufs, first))) == Seq::new(
            bufs.len(),
            |i: int| (bufs[i], (first + i) as u64),
        ),
{
    let recs = numbered(bufs, first);
    assert forall|i: int| 0 <= i < recs.len() implies #[trigger] recs[i].len() >= VERSION_LEN by {
        assert(recs[i] == bufs[i] + le64((first + i) as u64));
    }
    lemma_appended_records(recs);
    assert forall|i: int| 0 <= i < bufs.len() implies recs.map_values(|r: Seq<u8>| split_version(r))[i]
        == (bufs[i], (first + i) as u64) by {
        lemma_split_version(bufs[i], (first + i) as u64);
    }
    assert(recs.map_values(|r: Seq<u8>| split_version(r)) =~= Seq::new(
        bufs.len(),
        |i: int| (bufs[i], (first + i) as u64),
    ));
}

} // verus!
