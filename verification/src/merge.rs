//! The length counter's merge function.
//!
//! The store never overwrites the length: every mutation submits a signed
//! delta, and this function reduces any number of pending deltas with the
//! stored value.  Addition here wraps, so it is total on arbitrary operands
//! and stays associative and commutative; the laws at the end of this module
//! say that the deltas may be grouped into batches and reordered freely
//! without changing the resulting counter.

use vstd::prelude::*;

use crate::bytes::{be32, i32_repr, i32_to_u32, lemma_be32_roundtrip, u32_from_be_bytes, u32_of_be,
    u32_repr, u32_to_be_bytes, u32_to_i32};

verus! {

/// Wrapping 32-bit signed addition.
pub open spec fn wrap_add(a: i32, b: i32) -> i32 {
    vstd::wrapping::i32_specs::wrapping_add(a, b)
}

/// The counter a stored byte string denotes: four big-endian bytes read as a
/// signed 32-bit value; any other width counts as zero.
pub open spec fn counter_of(v: Seq<u8>) -> i32 {
    if v.len() == 4 {
        i32_repr(u32_of_be(v))
    } else {
        0
    }
}

/// The counter under an optional stored value: an absent key counts as zero.
pub open spec fn opt_counter_of(v: Option<Seq<u8>>) -> i32 {
    match v {
        Some(b) => counter_of(b),
        None => 0,
    }
}

/// The wrapping sum of a sequence of delta operands, left to right.
pub open spec fn sum_deltas(ops: Seq<Seq<u8>>) -> i32
    decreases ops.len(),
{
    if ops.len() == 0 {
        0
    } else {
        wrap_add(sum_deltas(ops.drop_last()), counter_of(ops.last()))
    }
}

/// The value the merge leaves under the key: the stored value plus every
/// pending delta.
pub open spec fn merged_counter(existing: Option<Seq<u8>>, ops: Seq<Seq<u8>>) -> i32 {
    wrap_add(opt_counter_of(existing), sum_deltas(ops))
}

/// The four bytes that store a counter value.
pub open spec fn counter_bytes(n: i32) -> Seq<u8> {
    be32(u32_repr(n))
}

/// Storing a counter and reading it back is the identity.
pub proof fn lemma_counter_roundtrip(n: i32)
    ensures
        counter_of(counter_bytes(n)) == n,
{
    lemma_be32_roundtrip(u32_repr(n));
}

pub proof fn lemma_wrap_add_commutative(a: i32, b: i32)
    ensures
        wrap_add(a, b) == wrap_add(b, a),
{
}

pub proof fn lemma_wrap_add_associative(a: i32, b: i32, c: i32)
    ensures
        wrap_add(wrap_add(a, b), c) == wrap_add(a, wrap_add(b, c)),
{
}

/// Exec decoding of a stored counter value.
pub fn decode_counter(v: &Vec<u8>) -> (r: i32)
    ensures
        r == counter_of(v@),
{
    if v.len() == 4 {
        let u = u32_from_be_bytes(v, 0);
        proof {
            assert(v@.subrange(0, 4) =~= v@);
        }
        u32_to_i32(u)
    } else {
        0
    }
}

/// Exec encoding of a counter value.
pub fn encode_counter(n: i32) -> (r: Vec<u8>)
    ensures
        r@ == counter_bytes(n),
{
    u32_to_be_bytes(i32_to_u32(n))
}

/// The merge function itself: reduces the stored value (absent counts as
/// zero) and every pending delta operand by wrapping summation.
pub fn merge_counter(existing: Option<&Vec<u8>>, operands: &Vec<Vec<u8>>) -> (r: Vec<u8>)
    ensures
        r@ == counter_bytes(
            merged_counter(
                match existing {
                    Some(v) => Some(v@),
                    None => None,
                },
                operands.deep_view(),
            ),
        ),
{
    let mut n: i32 = match existing {
        Some(v) => decode_counter(v),
        None => 0,
    };
    let ghost base: i32 = n;
    let mut i: usize = 0;
    while i < operands.len()
        invariant
            0 <= i <= operands@.len(),
            n == wrap_add(base, sum_deltas(operands.deep_view().take(i as int))),
        decreases operands@.len() - i,
    {
        let d = decode_counter(&operands[i]);
        proof {
            let ops = operands.deep_view();
            assert(ops.take(i + 1).drop_last() =~= ops.take(i as int));
            assert(ops.take(i + 1).last() == ops[i as int]);
            assert(ops[i as int] == operands[i as int]@);
            lemma_wrap_add_associative(base, sum_deltas(ops.take(i as int)), counter_of(ops[i as int]));
        }
        n = n.wrapping_add(d);
        i = i + 1;
    }
    proof {
        assert(operands.deep_view().take(operands@.len() as int) =~= operands.deep_view());
    }
    encode_counter(n)
}

/// Splitting the deltas into two batches and merging the second batch onto
/// the first batch's result gives the same counter as merging them all at
/// once.
pub proof fn lemma_sum_deltas_concat(s1: Seq<Seq<u8>>, s2: Seq<Seq<u8>>)
    ensures
        sum_deltas(s1 + s2) == wrap_add(sum_deltas(s1), sum_deltas(s2)),
    decreases s2.len(),
{
    if s2.len() == 0 {
        assert(s1 + s2 =~= s1);
    } else {
        assert((s1 + s2).drop_last() =~= s1 + s2.drop_last());
        assert((s1 + s2).last() == s2.last());
        lemma_sum_deltas_concat(s1, s2.drop_last());
        lemma_wrap_add_associative(
            sum_deltas(s1),
            sum_deltas(s2.drop_last()),
            counter_of(s2.last()),
        );
    }
}

/// Removing one delta from the sequence takes exactly its contribution out of
/// the sum.
pub proof fn lemma_sum_deltas_remove(s: Seq<Seq<u8>>, j: int)
    requires
        0 <= j < s.len(),
    ensures
        sum_deltas(s) == wrap_add(sum_deltas(s.remove(j)), counter_of(s[j])),
    decreases s.len(),
{
    if j == s.len() - 1 {
        assert(s.remove(j) =~= s.drop_last());
    } else {
        assert(s.remove(j).drop_last() =~= s.drop_last().remove(j));
        assert(s.remove(j).last() == s.last());
        lemma_sum_deltas_remove(s.drop_last(), j);
        let x = sum_deltas(s.drop_last().remove(j));
        let dj = counter_of(s[j]);
        let dl = counter_of(s.last());
        lemma_wrap_add_associative(x, dj, dl);
        lemma_wrap_add_commutative(dj, dl);
        lemma_wrap_add_associative(x, dl, dj);
    }
}

/// Length/merge order independence: two delta sequences holding the same
/// deltas (as a multiset, so in any order) sum to the same counter.
pub proof fn lemma_sum_deltas_order_independent(s1: Seq<Seq<u8>>, s2: Seq<Seq<u8>>)
    requires
        s1.to_multiset() == s2.to_multiset(),
    ensures
        sum_deltas(s1) == sum_deltas(s2),
    decreases s1.len(),
{
    broadcast use vstd::seq_lib::group_to_multiset_ensures;

    if s1.len() == 0 {
        assert(s2.to_multiset().len() == 0);
    } else {
        let x = s1.last();
        let li = s1.len() - 1;
        assert(s1.remove(li) =~= s1.drop_last());
        assert(s1.to_multiset().count(x) > 0);
        assert(s2.to_multiset().count(x) > 0);
        assert(s2.contains(x));
        let j = choose|j: int| 0 <= j < s2.len() && s2[j] == x;
        assert(s1.drop_last().to_multiset() =~= s1.to_multiset().remove(x));
        assert(s2.remove(j).to_multiset() =~= s2.to_multiset().remove(x));
        lemma_sum_deltas_order_independent(s1.drop_last(), s2.remove(j));
        lemma_sum_deltas_remove(s2, j);
    }
}

/// Length/merge batching: applying a set of deltas in one merge pass or in
/// any two-way grouping of passes, with each intermediate result stored and
/// re-read, yields the same final counter.
pub proof fn lemma_counter_merge_batched(
    existing: Option<Seq<u8>>,
    s1: Seq<Seq<u8>>,
    s2: Seq<Seq<u8>>,
)
    ensures
        merged_counter(existing, s1 + s2) == merged_counter(
            Some(counter_bytes(merged_counter(existing, s1))),
            s2,
        ),
{
    lemma_counter_roundtrip(merged_counter(existing, s1));
    lemma_sum_deltas_concat(s1, s2);
    let e = opt_counter_of(existing);
    lemma_wrap_add_associative(e, sum_deltas(s1), sum_deltas(s2));
}

} // verus!
