//! Segment names: `@wal-<id>`, the id in decimal.
use vstd::prelude::*;

verus! {

/// The part of `s` after its last `-`, or all of `s` where it has none.
pub open spec fn after_last_dash(s: Seq<u8>) -> Seq<u8>
    decreases s.len(),
{
    if s.len() == 0 {
        s
    } else if s.last() == 45u8 {
        seq![]
    } else {
        after_last_dash(s.drop_last()).push(s.last())
    }
}

/// Every byte of `s` is an ASCII digit.
pub open spec fn all_digits(s: Seq<u8>) -> bool {
    forall|i: int| 0 <= i < s.len() ==> 48 <= #[trigger] s[i] <= 57
}

/// The number that the ASCII digits `s` write in decimal.
pub open spec fn decimal_value(s: Seq<u8>) -> nat
    decreases s.len(),
{
    if s.len() == 0 {
        0
    } else {
        decimal_value(s.drop_last()) * 10 + (s.last() - 48) as nat
    }
}

/// The segment id that a file name ends with: the decimal number after its
/// last `-`, where that part is non-empty, all digits, and fits in a `u64`.
pub open spec fn segment_id_of(name: Seq<u8>) -> Option<u64> {
    let t = after_last_dash(name);
    if t.len() > 0 && all_digits(t) && decimal_value(t) <= u64::MAX {
        Some(decimal_value(t) as u64)
    } else {
        None
    }
}

/// The value of a digit string is at least that of any of its prefixes.
proof fn lemma_decimal_prefix(s: Seq<u8>, k: int)
    requires
        0 <= k <= s.len(),
    ensures
        decimal_value(s.take(k)) <= decimal_value(s),
    decreases s.len(),
{
    if k < s.len() {
        lemma_decimal_prefix(s.drop_last(), k);
        assert(s.drop_last().take(k) == s.take(k));
    } else {
        assert(s.take(k) == s);
    }
}

/// The segment id that the file name `name` ends with, if any.
pub fn segment_id_of_name(name: &[u8]) -> (r: Option<u64>)
    ensures
        r == segment_id_of(name@),
{
    let mut j: usize = name.len();
    assert(name@.take(j as int) == name@);
    assert(name@.skip(j as int) =~= Seq::<u8>::empty());
    while j > 0 && name[j - 1] != 45u8
        invariant
            j <= name@.len(),
            after_last_dash(name@) == after_last_dash(name@.take(j as int)) + name@.skip(j as int),
        decreases j,
    {
        let ghost x = name@[j - 1];
        assert(name@.take(j as int).drop_last() == name@.take(j - 1));
        assert(name@.take(j - 1).push(x) + name@.skip(j as int) =~= name@.take(j - 1) + name@.skip(
            j - 1,
        ));
        assert(after_last_dash(name@.take(j - 1)).push(x) + name@.skip(j as int)
            =~= after_last_dash(name@.take(j - 1)) + name@.skip(j - 1));
        j = j - 1;
    }
    let ghost t = name@.skip(j as int);
    proof {
        if j > 0 {
            assert(name@.take(j as int).last() == 45u8);
        }
        assert(after_last_dash(name@.take(j as int)) =~= Seq::<u8>::empty());
        assert(after_last_dash(name@) =~= t);
    }
    if j == name.len() {
        return None;
    }
    let mut v: u64 = 0;
    let mut i: usize = j;
    while i < name.len()
        invariant
            j <= i <= name@.len(),
            j < name@.len(),
            t == name@.skip(j as int),
            after_last_dash(name@) == t,
            all_digits(name@.subrange(j as int, i as int)),
            v == decimal_value(name@.subrange(j as int, i as int)),
        decreases name@.len() - i,
    {
        let c = name[i];
        assert(t[i - j] == c);
        if c < 48u8 || c > 57u8 {
            return None;
        }
        let ghost next = name@.subrange(j as int, i + 1);
        assert(next.drop_last() == name@.subrange(j as int, i as int));
        assert(next.last() == c);
        assert(decimal_value(next) == v * 10 + (c - 48) as nat);
        let w: u128 = v as u128 * 10 + (c - 48u8) as u128;
        if w > u64::MAX as u128 {
            proof {
                assert(next == t.take(i + 1 - j));
                lemma_decimal_prefix(t, i + 1 - j);
            }
            return None;
        }
        v = w as u64;
        i = i + 1;
    }
    assert(name@.subrange(j as int, i as int) == t);
    Some(v)
}

} // verus!
