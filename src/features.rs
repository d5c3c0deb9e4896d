//! The feature record of one example and its protocol-buffer encoding as an
//! `Example` message: a `Features` message whose map holds one `Feature` per
//! attribute name.
use vstd::prelude::*;
use vstd::utf8::encode_utf8;
use crate::wire::{delimited, le32, push_delimited, push_le32, push_varint, varint};

verus! {

/// One attribute's value: exactly one of three kinds of list. A scalar is a
/// one-element list. Floats are held as their IEEE-754 single-precision bit
/// patterns.
#[derive(Debug, Clone)]
pub enum Feature {
    BytesList(Vec<Vec<u8>>),
    FloatList(Vec<u32>),
    Int64List(Vec<i64>),
}

/// The varints of a list of 64-bit integers, one after the other.
pub open spec fn varints(v: Seq<i64>) -> Seq<u8>
    decreases v.len(),
{
    if v.len() == 0 {
        Seq::empty()
    } else {
        varints(v.drop_last()) + varint((v.last() as u64) as nat)
    }
}

/// The little-endian words of a list of float bit patterns, one after the other.
pub open spec fn words(v: Seq<u32>) -> Seq<u8>
    decreases v.len(),
{
    if v.len() == 0 {
        Seq::empty()
    } else {
        words(v.drop_last()) + le32(v.last())
    }
}

/// A repeated `bytes` field numbered 1: one length-delimited field per item.
pub open spec fn repeated_bytes(v: Seq<Seq<u8>>) -> Seq<u8>
    decreases v.len(),
{
    if v.len() == 0 {
        Seq::empty()
    } else {
        repeated_bytes(v.drop_last()) + delimited(1, v.last())
    }
}

/// A packed repeated field numbered 1: nothing when empty, else one
/// length-delimited field holding the packed values.
pub open spec fn packed(count: nat, body: Seq<u8>) -> Seq<u8> {
    if count == 0 {
        Seq::empty()
    } else {
        delimited(1, body)
    }
}

/// A `Feature` holding an `Int64List` (field 3).
pub open spec fn int64_feature(v: Seq<i64>) -> Seq<u8> {
    delimited(3, packed(v.len(), varints(v)))
}

/// A `Feature` holding a `FloatList` (field 2).
pub open spec fn float_feature(v: Seq<u32>) -> Seq<u8> {
    delimited(2, packed(v.len(), words(v)))
}

/// A `Feature` holding a `BytesList` (field 1).
pub open spec fn bytes_feature(v: Seq<Seq<u8>>) -> Seq<u8> {
    delimited(1, repeated_bytes(v))
}

/// The byte views of a list of byte vectors.
pub open spec fn byte_views(v: Seq<Vec<u8>>) -> Seq<Seq<u8>> {
    v.map_values(|b: Vec<u8>| b@)
}

/// The UTF-8 encodings of a list of strings.
pub open spec fn utf8_views(v: Seq<String>) -> Seq<Seq<u8>> {
    v.map_values(|s: String| encode_utf8(s@))
}

/// The encoding of a `Feature` message.
pub open spec fn feature_bytes(f: Feature) -> Seq<u8> {
    match f {
        Feature::BytesList(v) => bytes_feature(byte_views(v@)),
        Feature::FloatList(v) => float_feature(v@),
        Feature::Int64List(v) => int64_feature(v@),
    }
}

/// One entry of the feature map: the attribute name (field 1) and the
/// encoded `Feature` (field 2), as a length-delimited field numbered 1.
pub open spec fn entry(name: Seq<char>, feature: Seq<u8>) -> Seq<u8> {
    delimited(1, delimited(1, encode_utf8(name)) + delimited(2, feature))
}

fn push_varints(out: &mut Vec<u8>, v: &[i64])
    ensures
        final(out)@ == old(out)@ + varints(v@),
{
    let mut i: usize = 0;
    while i < v.len()
        invariant
            i <= v@.len(),
            out@ == old(out)@ + varints(v@.take(i as int)),
        decreases v@.len() - i,
    {
        push_varint(out, v[i] as u64);
        proof {
            assert(v@.take(i + 1).drop_last() =~= v@.take(i as int));
        }
        i = i + 1;
        proof {
            assert(out@ =~= old(out)@ + varints(v@.take(i as int)));
        }
    }
    proof {
        assert(v@.take(i as int) =~= v@);
    }
}

fn push_words(out: &mut Vec<u8>, v: &[u32])
    ensures
        final(out)@ == old(out)@ + words(v@),
{
    let mut i: usize = 0;
    while i < v.len()
        invariant
            i <= v@.len(),
            out@ == old(out)@ + words(v@.take(i as int)),
        decreases v@.len() - i,
    {
        push_le32(out, v[i]);
        proof {
            assert(v@.take(i + 1).drop_last() =~= v@.take(i as int));
        }
        i = i + 1;
        proof {
            assert(out@ =~= old(out)@ + words(v@.take(i as int)));
        }
    }
    proof {
        assert(v@.take(i as int) =~= v@);
    }
}

fn push_repeated_bytes(out: &mut Vec<u8>, v: &Vec<Vec<u8>>)
    ensures
        final(out)@ == old(out)@ + repeated_bytes(byte_views(v@)),
{
    let mut i: usize = 0;
    while i < v.len()
        invariant
            i <= v@.len(),
            out@ == old(out)@ + repeated_bytes(byte_views(v@).take(i as int)),
        decreases v@.len() - i,
    {
        push_delimited(out, 1, v[i].as_slice());
        proof {
            assert(byte_views(v@).take(i + 1).drop_last() =~= byte_views(v@).take(i as int));
        }
        i = i + 1;
        proof {
            assert(out@ =~= old(out)@ + repeated_bytes(byte_views(v@).take(i as int)));
        }
    }
    proof {
        assert(byte_views(v@).take(i as int) =~= byte_views(v@));
    }
}

/// Encodes a `Feature` message.
pub fn encode_feature(f: &Feature) -> (r: Vec<u8>)
    ensures
        r@ == feature_bytes(*f),
{
    let mut body: Vec<u8> = Vec::new();
    let mut out: Vec<u8> = Vec::new();
    match f {
        Feature::BytesList(v) => {
            push_repeated_bytes(&mut body, v);
            push_delimited(&mut out, 1, body.as_slice());
        },
        Feature::FloatList(v) => {
            let mut list: Vec<u8> = Vec::new();
            if v.len() > 0 {
                push_words(&mut body, v.as_slice());
                push_delimited(&mut list, 1, body.as_slice());
            }
            push_delimited(&mut out, 2, list.as_slice());
        },
        Feature::Int64List(v) => {
            let mut list: Vec<u8> = Vec::new();
            if v.len() > 0 {
                push_varints(&mut body, v.as_slice());
                push_delimited(&mut list, 1, body.as_slice());
            }
            push_delimited(&mut out, 3, list.as_slice());
        },
    }
    proof {
        match f {
            Feature::BytesList(v) => {},
            Feature::FloatList(v) => {
                assert(body@ =~= Seq::<u8>::empty() + words(v@));
            },
            Feature::Int64List(v) => {
                assert(body@ =~= Seq::<u8>::empty() + varints(v@));
            },
        }
    }
    out
}

/// Appends to a feature map under construction the entry of attribute `attr`
/// with value `values`.
pub fn insert_feature(map: &mut Vec<u8>, attr: &str, values: Feature)
    ensures
        final(map)@ == old(map)@ + entry(attr@, feature_bytes(values)),
{
    let mut body: Vec<u8> = Vec::new();
    push_delimited(&mut body, 1, attr.as_bytes());
    let encoded = encode_feature(&values);
    push_delimited(&mut body, 2, encoded.as_slice());
    push_delimited(map, 1, body.as_slice());
    proof {
        assert(body@ =~= delimited(1, encode_utf8(attr@)) + delimited(2, feature_bytes(values)));
    }
}

} // verus!
