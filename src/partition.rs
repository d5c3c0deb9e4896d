//! Deterministic, content-hash based partitioning of a data set.
use vstd::prelude::*;

verus! {

/// The CRC-32 (IEEE polynomial) of a byte sequence, as the `crc` crate computes it.
pub uninterp spec fn crc32_ieee(bytes: Seq<u8>) -> u32;

/// Relies on `crc::crc32::checksum_ieee`: the CRC-32 (IEEE polynomial) of `bytes`.
#[verifier::external_body]
fn checksum_ieee(bytes: &[u8]) -> (r: u32)
    ensures
        r == crc32_ieee(bytes@),
{
    crc::crc32::checksum_ieee(bytes)
}

/// A percentage, clamped to `[0, 100]`.
pub open spec fn clamped_ratio(ratio: u8) -> nat {
    if ratio > 100 {
        100
    } else {
        ratio as nat
    }
}

/// `round(ratio / 100 * 0xFFFF_FFFF)`, halves rounded up, on the clamped ratio.
pub open spec fn threshold_of(ratio: u8) -> nat {
    (clamped_ratio(ratio) * 0xFFFF_FFFF + 50) / 100
}

/// A checksum below the threshold is retained; the others are not.
pub open spec fn is_retained(checksum: u32, ratio: u8) -> bool {
    (checksum as int) < threshold_of(ratio)
}

/// The checksum threshold for a ratio given as a percentage.
pub fn threshold(ratio: u8) -> (r: u32)
    ensures
        r as int == threshold_of(ratio),
{
    let clamped: u64 = if ratio > 100 {
        100
    } else {
        ratio as u64
    };
    assert(clamped * 0xFFFF_FFFF + 50 <= 100 * 0xFFFF_FFFF + 50) by (nonlinear_arith)
        requires
            clamped <= 100,
    ;
    let t: u64 = (clamped * 0xFFFF_FFFF + 50) / 100;
    assert(t <= 0xFFFF_FFFF) by (nonlinear_arith)
        requires
            t == (clamped * 0xFFFF_FFFF + 50) / 100,
            clamped <= 100,
    ;
    t as u32
}

/// Decides retention from an already computed checksum.
pub fn retained_by_checksum(checksum: u32, ratio: u8) -> (r: bool)
    ensures
        r == is_retained(checksum, ratio),
{
    checksum < threshold(ratio)
}

/// Whether content is retained at the given percentage: its CRC-32 lies below
/// the threshold. A pure function of the bytes and the ratio.
pub fn retain(bytes: &[u8], ratio: u8) -> (r: bool)
    ensures
        r == is_retained(crc32_ieee(bytes@), ratio),
{
    let checksum = checksum_ieee(bytes);
    retained_by_checksum(checksum, ratio)
}

/// Splits `items` in order into the items whose flag is false (first) and
/// those whose flag is true (second).
pub open spec fn partition_by<T>(items: Seq<T>, to_right: Seq<bool>) -> (Seq<T>, Seq<T>)
    decreases items.len(),
{
    if items.len() == 0 {
        (Seq::empty(), Seq::empty())
    } else {
        let rest = partition_by(items.drop_last(), to_right);
        if to_right[items.len() - 1] {
            (rest.0, rest.1.push(items.last()))
        } else {
            (rest.0.push(items.last()), rest.1)
        }
    }
}

/// An item goes to the right side when its checksum is at or above the threshold.
pub open spec fn goes_right(bytes: Seq<u8>, right_ratio: u8) -> bool {
    !is_retained(crc32_ieee(bytes), right_ratio)
}

/// The side of each item of `items`: true for the right side.
pub open spec fn sides(items: Seq<Vec<u8>>, right_ratio: u8) -> Seq<bool> {
    Seq::new(items.len(), |i: int| goes_right(items[i]@, right_ratio))
}

/// Moves the items of `items` into two vectors as the flags say, keeping their order.
pub fn partition_with<T>(items: Vec<T>, to_right: &Vec<bool>) -> (r: (Vec<T>, Vec<T>))
    requires
        items@.len() == to_right@.len(),
    ensures
        (r.0@, r.1@) == partition_by(items@, to_right@),
{
    let ghost all = items@;
    let n: usize = items.len();
    let mut rest = items;
    let mut left: Vec<T> = Vec::new();
    let mut right: Vec<T> = Vec::new();
    let mut i: usize = 0;
    while rest.len() > 0
        invariant
            all.len() == to_right@.len(),
            all.len() == n,
            i + rest@.len() == all.len(),
            rest@ == all.subrange(i as int, all.len() as int),
            (left@, right@) == partition_by(all.take(i as int), to_right@),
        decreases rest@.len(),
    {
        let item = rest.remove(0);
        proof {
            assert(all.take(i as int + 1).drop_last() =~= all.take(i as int));
        }
        if to_right[i] {
            right.push(item);
        } else {
            left.push(item);
        }
        i = i + 1;
        proof {
            assert(rest@ =~= all.subrange(i as int, all.len() as int));
        }
    }
    proof {
        assert(all.take(i as int) =~= all);
    }
    (left, right)
}

/// Splits `input` in two, deterministically and by content: an item whose
/// CRC-32 is at or above the threshold of `right_ratio` goes to the right
/// (second) vector, every other item to the left (first). Order is kept on
/// each side.
pub fn split(input: Vec<Vec<u8>>, right_ratio: u8) -> (r: (Vec<Vec<u8>>, Vec<Vec<u8>>))
    ensures
        (r.0@, r.1@) == partition_by(input@, sides(input@, right_ratio)),
{
    let mut flags: Vec<bool> = Vec::new();
    let mut i: usize = 0;
    while i < input.len()
        invariant
            i <= input@.len(),
            flags@ == sides(input@, right_ratio).take(i as int),
        decreases input@.len() - i,
    {
        let right = !retain(input[i].as_slice(), right_ratio);
        flags.push(right);
        i = i + 1;
        proof {
            assert(flags@ =~= sides(input@, right_ratio).take(i as int));
        }
    }
    proof {
        assert(flags@ =~= sides(input@, right_ratio));
    }
    partition_with(input, &flags)
}

/// Each side of `split` is its input filtered by the checksum of each item:
/// the left side keeps the items below the threshold, the right side those at
/// or above it, each in input order.
pub proof fn lemma_split_filters(input: Seq<Vec<u8>>, right_ratio: u8)
    ensures
        partition_by(input, sides(input, right_ratio)).0 == input.filter(
            |x: Vec<u8>| !goes_right(x@, right_ratio),
        ),
        partition_by(input, sides(input, right_ratio)).1 == input.filter(
            |x: Vec<u8>| goes_right(x@, right_ratio),
        ),
    decreases input.len(),
{
    reveal(Seq::filter);
    if input.len() > 0 {
        let init = input.drop_last();
        lemma_split_filters(init, right_ratio);
        lemma_partition_flags_prefix(init, sides(input, right_ratio));
        assert(sides(input, right_ratio).take(init.len() as int) =~= sides(init, right_ratio));
    }
}

/// Retention is a function of the content and the ratio alone: the same bytes
/// at the same ratio are always retained alike. At ratio 0 nothing is
/// retained; at ratio 100 (or above, clamped) everything is retained but
/// content whose checksum is the largest 32-bit value.
pub proof fn lemma_retain_determined(a: Seq<u8>, b: Seq<u8>, ratio: u8)
    ensures
        a == b ==> is_retained(crc32_ieee(a), ratio) == is_retained(crc32_ieee(b), ratio),
        !is_retained(crc32_ieee(a), 0),
        ratio >= 100 && crc32_ieee(a) != 0xFFFF_FFFF ==> is_retained(crc32_ieee(a), ratio),
{
}

/// Partitioning places every item on exactly one side, the side its flag
/// names, and loses or adds nothing.
pub proof fn lemma_partition_complete<T>(items: Seq<T>, to_right: Seq<bool>)
    requires
        items.len() == to_right.len(),
    ensures
        partition_by(items, to_right).0.len() + partition_by(items, to_right).1.len()
            == items.len(),
        partition_by(items, to_right).0.to_multiset().add(
            partition_by(items, to_right).1.to_multiset(),
        ) == items.to_multiset(),
        forall|i: int|
            0 <= i < items.len() ==> if to_right[i] {
                partition_by(items, to_right).1.contains(items[i])
            } else {
                partition_by(items, to_right).0.contains(items[i])
            },
    decreases items.len(),
{
    broadcast use vstd::seq_lib::group_to_multiset_ensures;

    if items.len() > 0 {
        let init = items.drop_last();
        let flags = to_right.take(to_right.len() - 1);
        lemma_partition_flags_prefix(init, to_right);
        lemma_partition_complete(init, flags);
        assert(items =~= init.push(items.last()));
        let p = partition_by(init, flags);
        assert forall|i: int| 0 <= i < items.len() implies if to_right[i] {
            partition_by(items, to_right).1.contains(items[i])
        } else {
            partition_by(items, to_right).0.contains(items[i])
        } by {
            if i < items.len() - 1 {
                assert(init[i] == items[i]);
                assert(flags[i] == to_right[i]);
                if to_right[i] {
                    let k = choose|k: int| 0 <= k < p.1.len() && p.1[k] == init[i];
                    assert(partition_by(items, to_right).1[k] == items[i]);
                } else {
                    let k = choose|k: int| 0 <= k < p.0.len() && p.0[k] == init[i];
                    assert(partition_by(items, to_right).0[k] == items[i]);
                }
            } else {
                if to_right[i] {
                    let q = partition_by(items, to_right).1;
                    assert(q[q.len() - 1] == items[i]);
                } else {
                    let q = partition_by(items, to_right).0;
                    assert(q[q.len() - 1] == items[i]);
                }
            }
        }
    }
}

/// Only the flags of the items themselves matter.
pub proof fn lemma_partition_flags_prefix<T>(items: Seq<T>, to_right: Seq<bool>)
    requires
        items.len() < to_right.len(),
    ensures
        partition_by(items, to_right) == partition_by(items, to_right.take(items.len() as int)),
    decreases items.len(),
{
    if items.len() > 0 {
        lemma_partition_flags_prefix(items.drop_last(), to_right);
        lemma_partition_flags_prefix(items.drop_last(), to_right.take(items.len() as int));
        assert(to_right.take(items.len() as int).take(items.len() - 1) =~= to_right.take(
            items.len() - 1,
        ));
    }
}

/// Partitioning keeps order: partitioning two runs of items one after the
/// other gives, on each side, the first run's items followed by the second's.
pub proof fn lemma_partition_append<T>(a: Seq<T>, fa: Seq<bool>, b: Seq<T>, fb: Seq<bool>)
    requires
        a.len() == fa.len(),
        b.len() == fb.len(),
    ensures
        partition_by(a + b, fa + fb) == (partition_by(a, fa).0 + partition_by(b, fb).0,
        partition_by(a, fa).1 + partition_by(b, fb).1),
    decreases b.len(),
{
    if b.len() == 0 {
        assert(a + b =~= a);
        assert(partition_by(a, fa + fb) == partition_by(a, fa)) by {
            assert(fa + fb =~= fa);
        }
        assert(partition_by(a, fa).0 + Seq::<T>::empty() =~= partition_by(a, fa).0);
        assert(partition_by(a, fa).1 + Seq::<T>::empty() =~= partition_by(a, fa).1);
    } else {
        let b0 = b.drop_last();
        let fb0 = fb.take(fb.len() - 1);
        lemma_partition_append(a, fa, b0, fb0);
        assert((a + b).drop_last() =~= a + b0);
        lemma_partition_flags_prefix(a + b0, fa + fb);
        assert((fa + fb).take((a + b0).len() as int) =~= fa + fb0);
        lemma_partition_flags_prefix(b0, fb);
        let pa = partition_by(a, fa);
        let pb0 = partition_by(b0, fb0);
        assert(pa.0 + pb0.0.push(b.last()) =~= (pa.0 + pb0.0).push(b.last()));
        assert(pa.1 + pb0.1.push(b.last()) =~= (pa.1 + pb0.1).push(b.last()));
    }
}

} // verus!
