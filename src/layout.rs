//! How a record's bytes are laid out as frames in a segment, page by page.
use vstd::prelude::*;
use crate::bytes::push_all;
use crate::codec::{
    encode_frame, frame_bytes, HEADER_LEN, KIND_FIRST, KIND_FULL, KIND_LAST, KIND_MIDDLE,
    PAGE_SIZE,
};

verus! {

/// Bytes left in the page that holds offset `size`.
pub open spec fn page_rem(size: nat) -> nat {
    (PAGE_SIZE - size % (PAGE_SIZE as nat)) as nat
}

/// Zero bytes for `n` bytes of page tail too short to hold a frame header.
pub open spec fn zeros(n: nat) -> Seq<u8> {
    Seq::new(n, |i: int| 0u8)
}

/// One placed frame: the padding written before it, its kind and its payload.
pub type Placed = (nat, u8, Seq<u8>);

/// The bytes of one placed frame, padding included.
pub open spec fn placed_bytes(p: Placed) -> Seq<u8> {
    zeros(p.0) + frame_bytes(p.1, p.2)
}

/// The bytes of a sequence of placed frames.
pub open spec fn plan_bytes(ps: Seq<Placed>) -> Seq<u8>
    decreases ps.len(),
{
    if ps.len() == 0 {
        seq![]
    } else {
        placed_bytes(ps[0]) + plan_bytes(ps.drop_first())
    }
}

/// The payloads of a sequence of placed frames, concatenated.
pub open spec fn plan_payloads(ps: Seq<Placed>) -> Seq<u8>
    decreases ps.len(),
{
    if ps.len() == 0 {
        seq![]
    } else {
        ps[0].2 + plan_payloads(ps.drop_first())
    }
}

/// Padding needed at offset `size` before a frame can start.
pub open spec fn pad_at(size: nat) -> nat {
    if page_rem(size) < HEADER_LEN {
        page_rem(size)
    } else {
        0
    }
}

/// The frames that carry `data` when the segment already holds `size` bytes.
/// `first` is true while no fragment of the record has been placed yet.
/// A tail of a page with no room for a header is padded with zeros;
/// a frame that does not fit in what is left of the page fills it exactly and
/// the rest of the data follows in the next page.
pub open spec fn plan(data: Seq<u8>, size: nat, first: bool) -> Seq<Placed>
    decreases data.len(), (if size % (PAGE_SIZE as nat) == 0 { 0nat } else { 1nat }),
{
    let pad = pad_at(size);
    let start = size + pad;
    let rem = page_rem(start);
    if rem < HEADER_LEN {
        seq![]
    } else if rem > HEADER_LEN + data.len() {
        seq![(pad, if first { KIND_FULL } else { KIND_LAST }, data)]
    } else {
        let n = (rem - HEADER_LEN) as nat;
        seq![(pad, if first { KIND_FIRST } else { KIND_MIDDLE }, data.take(n as int))] + plan(
            data.skip(n as int),
            start + rem,
            false,
        )
    }
}

/// After padding, a frame always starts with at least a header's room left in its page.
pub proof fn lemma_pad(size: nat)
    ensures
        page_rem(size + pad_at(size)) >= HEADER_LEN,
        pad_at(size) < HEADER_LEN,
        page_rem(size) < HEADER_LEN ==> (size + pad_at(size)) % (PAGE_SIZE as nat) == 0,
{
}

/// Filling the rest of the page lands on a page boundary.
pub proof fn lemma_fill(start: nat)
    ensures
        (start + page_rem(start)) % (PAGE_SIZE as nat) == 0,
{
}

/// `plan_bytes` of a sequence with a first frame put in front.
pub proof fn lemma_plan_bytes_cons(p: Placed, ps: Seq<Placed>)
    ensures
        plan_bytes(seq![p] + ps) == placed_bytes(p) + plan_bytes(ps),
{
    assert((seq![p] + ps).drop_first() == ps);
}

/// One step of `plan`: the first frame placed and what is left to place.
pub proof fn lemma_plan_step(data: Seq<u8>, size: nat, first: bool)
    ensures
        ({
            let pad = pad_at(size);
            let start = size + pad;
            let rem = page_rem(start);
            let n = (rem - HEADER_LEN) as nat;
            &&& rem >= HEADER_LEN
            &&& rem > HEADER_LEN + data.len() ==> plan_bytes(plan(data, size, first)) == placed_bytes(
                (pad, if first { KIND_FULL } else { KIND_LAST }, data),
            )
            &&& rem <= HEADER_LEN + data.len() ==> plan_bytes(plan(data, size, first))
                == placed_bytes((pad, if first { KIND_FIRST } else { KIND_MIDDLE }, data.take(n as int)))
                + plan_bytes(plan(data.skip(n as int), start + rem, false))
        }),
{
    lemma_pad(size);
    let pad = pad_at(size);
    let start = size + pad;
    let rem = page_rem(start);
    let n = (rem - HEADER_LEN) as nat;
    if rem > HEADER_LEN + data.len() {
        let p: Placed = (pad, if first { KIND_FULL } else { KIND_LAST }, data);
        lemma_plan_bytes_cons(p, seq![]);
        assert(seq![p] + Seq::<Placed>::empty() == seq![p]);
    } else {
        let p: Placed = (pad, if first { KIND_FIRST } else { KIND_MIDDLE }, data.take(n as int));
        lemma_plan_bytes_cons(p, plan(data.skip(n as int), start + rem, false));
    }
}

/// The frames, padding included, that carry `data` when the segment already
/// holds `size` bytes, in the order they are written.
#[verifier::rlimit(50)]
pub fn fragment(data: &[u8], size: u64) -> (r: Vec<u8>)
    requires
        size <= u32::MAX,
        data@.len() <= u32::MAX,
    ensures
        r@ == plan_bytes(plan(data@, size as nat, true)),
        r@.len() <= 15 * data@.len() + 21,
{
    let mut out: Vec<u8> = Vec::new();
    let mut cur: u64 = size;
    let mut off: usize = 0;
    let mut first = true;
    assert(data@.skip(0) == data@);
    loop
        invariant
            off <= data@.len(),
            cur <= size + 15 * off + (if cur % PAGE_SIZE == 0 { 7int } else { 0int }),
            out@.len() == cur - size,
            out@ + plan_bytes(plan(data@.skip(off as int), cur as nat, first)) == plan_bytes(
                plan(data@, size as nat, true),
            ),
            data@.len() <= u32::MAX,
            size <= u32::MAX,
        decreases data@.len() - off, (if cur % PAGE_SIZE == 0 { 0int } else { 1int }),
    {
        proof {
            lemma_pad(cur as nat);
        }
        let in_page = PAGE_SIZE - cur % PAGE_SIZE;
        let pad: u64 = if in_page < HEADER_LEN as u64 {
            in_page
        } else {
            0
        };
        let ghost before = out@;
        let mut k: u64 = 0;
        while k < pad
            invariant
                k <= pad,
                out@ == before + zeros(k as nat),
            decreases pad - k,
        {
            out.push(0u8);
            k = k + 1;
            assert(out@ == before + zeros(k as nat));
        }
        let start = cur + pad;
        let rem = PAGE_SIZE - start % PAGE_SIZE;
        let left = data.len() - off;
        let ghost rest = data@.skip(off as int);
        if rem > HEADER_LEN as u64 + left as u64 {
            let kind = if first {
                KIND_FULL
            } else {
                KIND_LAST
            };
            let frame = encode_frame(kind, &data[off..data.len()]);
            push_all(&mut out, frame.as_slice());
            assert(out@.len() == cur - size + pad + frame@.len());
            proof {
                assert(data@.subrange(off as int, data@.len() as int) == rest);
                lemma_plan_step(rest, cur as nat, first);
                assert(out@ == before + placed_bytes((pad as nat, kind, rest)));
            }
            return out;
        } else {
            let n = (rem - HEADER_LEN as u64) as usize;
            let kind = if first {
                KIND_FIRST
            } else {
                KIND_MIDDLE
            };
            let frame = encode_frame(kind, &data[off..off + n]);
            push_all(&mut out, frame.as_slice());
            proof {
                assert(data@.subrange(off as int, off + n) == rest.take(n as int));
                assert(rest.skip(n as int) == data@.skip(off + n));
                lemma_plan_step(rest, cur as nat, first);
                assert(out@ == before + placed_bytes((pad as nat, kind, rest.take(n as int))));
            }
            off = off + n;
            cur = start + rem;
            first = false;
        }
    }
}

/// Concatenating the payloads of the frames that carry a record, in the order
/// they are written, gives back the record's bytes.
pub proof fn lemma_fragments_reassemble(data: Seq<u8>, size: nat, first: bool)
    ensures
        plan_payloads(plan(data, size, first)) == data,
    decreases data.len(), (if size % (PAGE_SIZE as nat) == 0 { 0nat } else { 1nat }),
{
    lemma_pad(size);
    let pad = pad_at(size);
    let start = size + pad;
    let rem = page_rem(start);
    let ps = plan(data, size, first);
    if rem > HEADER_LEN + data.len() {
        assert(ps.drop_first() =~= Seq::<Placed>::empty());
        assert(plan_payloads(ps.drop_first()) == Seq::<u8>::empty());
        assert(ps[0].2 == data);
        assert(data + Seq::<u8>::empty() == data);
    } else {
        let n = (rem - HEADER_LEN) as nat;
        lemma_fragments_reassemble(data.skip(n as int), start + rem, false);
        assert(ps.drop_first() == plan(data.skip(n as int), start + rem, false));
        assert(data.take(n as int) + data.skip(n as int) == data);
    }
}

/// Counting from the start of the segment, the bytes written up to and
/// including each `First` or `Middle` frame end exactly on a page boundary.
pub proof fn lemma_fragments_fill_pages(data: Seq<u8>, size: nat, first: bool, i: int)
    requires
        0 <= i < plan(data, size, first).len(),
        plan(data, size, first)[i].1 == KIND_FIRST || plan(data, size, first)[i].1 == KIND_MIDDLE,
    ensures
        (size + plan_bytes(plan(data, size, first).take(i + 1)).len()) % (PAGE_SIZE as nat) == 0,
    decreases data.len(), (if size % (PAGE_SIZE as nat) == 0 { 0nat } else { 1nat }),
{
    lemma_pad(size);
    let pad = pad_at(size);
    let start = size + pad;
    let rem = page_rem(start);
    let ps = plan(data, size, first);
    lemma_fill(start);
    if rem > HEADER_LEN + data.len() {
        assert(ps.len() == 1);
    } else {
        let n = (rem - HEADER_LEN) as nat;
        let tail = plan(data.skip(n as int), start + rem, false);
        assert(ps == seq![ps[0]] + tail);
        assert(placed_bytes(ps[0]).len() == pad + rem);
        if i == 0 {
            assert(ps.take(1) == seq![ps[0]] + Seq::<Placed>::empty());
            lemma_plan_bytes_cons(ps[0], Seq::<Placed>::empty());
        } else {
            lemma_fragments_fill_pages(data.skip(n as int), start + rem, false, i - 1);
            assert(ps.take(i + 1) == seq![ps[0]] + tail.take(i));
            lemma_plan_bytes_cons(ps[0], tail.take(i));
        }
    }
}

/// The bytes of placed frames end with the bytes of the last one.
pub proof fn lemma_plan_bytes_snoc(ps: Seq<Placed>)
    requires
        ps.len() > 0,
    ensures
        plan_bytes(ps) == plan_bytes(ps.drop_last()) + placed_bytes(ps.last()),
        plan_payloads(ps) == plan_payloads(ps.drop_last()) + ps.last().2,
    decreases ps.len(),
{
    if ps.len() == 1 {
        assert(ps.drop_first() =~= Seq::<Placed>::empty());
        assert(ps.drop_last() =~= Seq::<Placed>::empty());
        assert(plan_bytes(ps.drop_first()) == Seq::<u8>::empty());
        assert(plan_payloads(ps.drop_first()) == Seq::<u8>::empty());
        assert(plan_bytes(ps.drop_last()) == Seq::<u8>::empty());
        assert(plan_payloads(ps.drop_last()) == Seq::<u8>::empty());
        assert(placed_bytes(ps[0]) + Seq::<u8>::empty() == placed_bytes(ps[0]));
        assert(ps[0].2 + Seq::<u8>::empty() == ps[0].2);
        assert(Seq::<u8>::empty() + placed_bytes(ps[0]) == placed_bytes(ps[0]));
        assert(Seq::<u8>::empty() + ps[0].2 == ps[0].2);
    } else {
        let t = ps.drop_first();
        lemma_plan_bytes_snoc(t);
        assert(t.drop_last() == ps.drop_last().drop_first());
        assert(ps.drop_last()[0] == ps[0]);
        assert(t.last() == ps.last());
        assert(plan_bytes(ps) == placed_bytes(ps[0]) + (plan_bytes(t.drop_last()) + placed_bytes(
            ps.last(),
        )));
        assert(plan_payloads(ps) == ps[0].2 + (plan_payloads(t.drop_last()) + ps.last().2));
    }
}

} // verus!
