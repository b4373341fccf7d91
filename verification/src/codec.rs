//! Key codec: four disjoint key namespaces share one ordered store.
//!
//! Element keys are `val` followed by a four-byte big-endian index, so that
//! lexicographic key order equals numeric index order and one forward range
//! scan enumerates a contiguous index range.  The length counter lives under
//! the singleton key `len`, a reducer's script under `red` plus its name, and
//! its aggregate state under `agg` plus its name.

use vstd::prelude::*;
use vstd::utf8::{decode_utf8, encode_utf8, encode_utf8_decode_utf8, valid_utf8};

use crate::bytes::{
    be32, lemma_be32_injective, lemma_be32_order, lemma_lex_common_prefix, lemma_lex_lt_asymmetric,
    lemma_lex_lt_extension, lex_le, lex_lt, u32_to_be_bytes,
};

verus! {

/// Prefix of every element key (`val`).
pub open spec fn elem_prefix() -> Seq<u8> {
    seq![118u8, 97u8, 108u8]
}

/// The singleton key of the length counter (`len`).
pub open spec fn len_key_spec() -> Seq<u8> {
    seq![108u8, 101u8, 110u8]
}

/// Prefix of every reducer-script key (`red`).
pub open spec fn reducer_prefix() -> Seq<u8> {
    seq![114u8, 101u8, 100u8]
}

/// Prefix of every reducer-state key (`agg`).
pub open spec fn state_prefix() -> Seq<u8> {
    seq![97u8, 103u8, 103u8]
}

/// A key just past every element key (`vam`), the exclusive end of the
/// element namespace.
pub open spec fn elem_end_spec() -> Seq<u8> {
    seq![118u8, 97u8, 109u8]
}

/// The key of the element at index `i`.
pub open spec fn elem_key_spec(i: u32) -> Seq<u8> {
    elem_prefix() + be32(i)
}

/// The key of the script of the reducer called `name`.
pub open spec fn reducer_key_spec(name: Seq<char>) -> Seq<u8> {
    reducer_prefix() + encode_utf8(name)
}

/// The key of the aggregate state of the reducer called `name`.
pub open spec fn state_key_spec(name: Seq<char>) -> Seq<u8> {
    state_prefix() + encode_utf8(name)
}

pub fn elem_key(i: u32) -> (r: Vec<u8>)
    ensures
        r@ == elem_key_spec(i),
{
    let mut v: Vec<u8> = Vec::new();
    v.push(118);
    v.push(97);
    v.push(108);
    let mut be = u32_to_be_bytes(i);
    v.append(&mut be);
    proof {
        assert(v@ =~= elem_key_spec(i));
    }
    v
}

pub fn len_key() -> (r: Vec<u8>)
    ensures
        r@ == len_key_spec(),
{
    let mut v: Vec<u8> = Vec::new();
    v.push(108);
    v.push(101);
    v.push(110);
    proof {
        assert(v@ =~= len_key_spec());
    }
    v
}

pub fn reducer_key(name: &str) -> (r: Vec<u8>)
    ensures
        r@ == reducer_key_spec(name@),
{
    let mut v: Vec<u8> = Vec::new();
    v.push(114);
    v.push(101);
    v.push(100);
    v.extend_from_slice(name.as_bytes());
    proof {
        assert(v@ =~= reducer_key_spec(name@));
    }
    v
}

pub fn state_key(name: &str) -> (r: Vec<u8>)
    ensures
        r@ == state_key_spec(name@),
{
    let mut v: Vec<u8> = Vec::new();
    v.push(97);
    v.push(103);
    v.push(103);
    v.extend_from_slice(name.as_bytes());
    proof {
        assert(v@ =~= state_key_spec(name@));
    }
    v
}

/// The inclusive start of the reducer-script namespace.
pub fn reducer_scan_start() -> (r: Vec<u8>)
    ensures
        r@ == reducer_prefix(),
{
    let mut v: Vec<u8> = Vec::new();
    v.push(114);
    v.push(101);
    v.push(100);
    proof {
        assert(v@ =~= reducer_prefix());
    }
    v
}

/// The exclusive end of the reducer-script namespace: the element prefix is
/// the next namespace in key order.
pub fn reducer_scan_end() -> (r: Vec<u8>)
    ensures
        r@ == elem_prefix(),
{
    let mut v: Vec<u8> = Vec::new();
    v.push(118);
    v.push(97);
    v.push(108);
    proof {
        assert(v@ =~= elem_prefix());
    }
    v
}

/// The inclusive start of the element namespace.
pub fn elem_scan_start() -> (r: Vec<u8>)
    ensures
        r@ == elem_prefix(),
{
    let mut v: Vec<u8> = Vec::new();
    v.push(118);
    v.push(97);
    v.push(108);
    proof {
        assert(v@ =~= elem_prefix());
    }
    v
}

/// The exclusive end of the element namespace.
pub fn elem_scan_end() -> (r: Vec<u8>)
    ensures
        r@ == elem_end_spec(),
{
    let mut v: Vec<u8> = Vec::new();
    v.push(118);
    v.push(97);
    v.push(109);
    proof {
        assert(v@ =~= elem_end_spec());
    }
    v
}

/// The bytes of a string, as verified code sees them.
pub fn str_bytes(s: &str) -> (r: Vec<u8>)
    ensures
        r@ == encode_utf8(s@),
{
    let mut v: Vec<u8> = Vec::new();
    v.extend_from_slice(s.as_bytes());
    proof {
        assert(v@ =~= encode_utf8(s@));
    }
    v
}

/// Relies on `String::from_utf8`: it accepts exactly the valid UTF-8 byte
/// strings, and the accepted string's bytes are the input, unchanged.
#[verifier::external_body]
pub fn bytes_to_string(v: Vec<u8>) -> (r: Option<String>)
    ensures
        r matches Some(s) ==> encode_utf8(s@) == v@,
        r is Some <==> valid_utf8(v@),
{
    String::from_utf8(v).ok()
}

/// UTF-8 encoding never maps two texts to the same bytes.
pub proof fn lemma_encode_utf8_injective(a: Seq<char>, b: Seq<char>)
    requires
        encode_utf8(a) == encode_utf8(b),
    ensures
        a == b,
{
    broadcast use encode_utf8_decode_utf8;

    assert(decode_utf8(encode_utf8(a)) == a);
    assert(decode_utf8(encode_utf8(b)) == b);
}

/// A byte string whose first byte is smaller sorts first.
pub proof fn lemma_lex_lt_head(a: Seq<u8>, b: Seq<u8>)
    requires
        a.len() > 0,
        b.len() > 0,
        a[0] < b[0],
    ensures
        lex_lt(a, b),
{
}

/// Element keys order exactly as their indices.
pub proof fn lemma_elem_key_order(i: u32, j: u32)
    requires
        i < j,
    ensures
        lex_lt(elem_key_spec(i), elem_key_spec(j)),
{
    lemma_be32_order(i, j);
    crate::bytes::lemma_lex_lt_prepend(elem_prefix(), be32(i), be32(j));
}

/// Element keys of equal indices are equal keys, and conversely.
pub proof fn lemma_elem_key_injective(i: u32, j: u32)
    requires
        elem_key_spec(i) == elem_key_spec(j),
    ensures
        i == j,
{
    assert(be32(i) =~= be32(j)) by {
        assert(forall|k: int|
            0 <= k < 4 ==> #[trigger] be32(i)[k] == elem_key_spec(i)[k + 3]
                && #[trigger] be32(j)[k] == elem_key_spec(j)[k + 3]);
    }
    lemma_be32_injective(i, j);
}

/// Every element key lies in the element namespace `[val, vam)`.
pub proof fn lemma_elem_key_in_range(i: u32)
    ensures
        lex_lt(elem_prefix(), elem_key_spec(i)),
        lex_lt(elem_key_spec(i), elem_end_spec()),
{
    lemma_lex_lt_extension(elem_prefix(), be32(i));
    let k = elem_key_spec(i);
    assert(k.subrange(0, 2) =~= elem_end_spec().subrange(0, 2));
    lemma_lex_common_prefix(k, elem_end_spec(), 2);
    assert(k.skip(2)[0] == 108u8);
    assert(elem_end_spec().skip(2)[0] == 109u8);
}

/// Reducer-script keys lie in the namespace `[red, val)`; reducer-state keys,
/// the length key and element keys lie outside it.
pub proof fn lemma_reducer_scan_shapes(name: Seq<char>, i: u32)
    ensures
        lex_le(reducer_prefix(), reducer_key_spec(name)),
        lex_lt(reducer_key_spec(name), elem_prefix()),
        !lex_le(reducer_prefix(), state_key_spec(name)),
        !lex_le(reducer_prefix(), len_key_spec()),
        !lex_lt(elem_key_spec(i), elem_prefix()),
{
    if encode_utf8(name).len() > 0 {
        lemma_lex_lt_extension(reducer_prefix(), encode_utf8(name));
    } else {
        assert(reducer_key_spec(name) =~= reducer_prefix());
    }
    lemma_lex_lt_head(reducer_key_spec(name), elem_prefix());
    lemma_lex_lt_head(state_key_spec(name), reducer_prefix());
    lemma_lex_lt_asymmetric(state_key_spec(name), reducer_prefix());
    lemma_lex_lt_head(len_key_spec(), reducer_prefix());
    lemma_lex_lt_asymmetric(len_key_spec(), reducer_prefix());
    lemma_lex_lt_extension(elem_prefix(), be32(i));
    lemma_lex_lt_asymmetric(elem_prefix(), elem_key_spec(i));
}

/// The four namespaces never produce one key twice.
pub proof fn lemma_namespaces_disjoint(i: u32, a: Seq<char>, b: Seq<char>)
    ensures
        elem_key_spec(i) != len_key_spec(),
        elem_key_spec(i) != reducer_key_spec(a),
        elem_key_spec(i) != state_key_spec(a),
        len_key_spec() != reducer_key_spec(a),
        len_key_spec() != state_key_spec(a),
        reducer_key_spec(a) != state_key_spec(b),
        reducer_key_spec(a) == reducer_key_spec(b) ==> a == b,
        state_key_spec(a) == state_key_spec(b) ==> a == b,
{
    assert(elem_key_spec(i)[0] == 118u8);
    assert(len_key_spec()[0] == 108u8);
    assert(reducer_key_spec(a)[0] == 114u8);
    assert(state_key_spec(a)[0] == 97u8);
    assert(reducer_key_spec(b)[0] == 114u8);
    assert(state_key_spec(b)[0] == 97u8);
    if reducer_key_spec(a) == reducer_key_spec(b) {
        assert(reducer_key_spec(a).len() == 3 + encode_utf8(a).len());
        assert(reducer_key_spec(b).len() == 3 + encode_utf8(b).len());
        assert(encode_utf8(a).len() == encode_utf8(b).len());
        assert forall|k: int| 0 <= k < encode_utf8(a).len() implies encode_utf8(a)[k]
            == encode_utf8(b)[k] by {
            assert(encode_utf8(a)[k] == reducer_key_spec(a)[k + 3]);
            assert(encode_utf8(b)[k] == reducer_key_spec(b)[k + 3]);
        }
        assert(encode_utf8(a) =~= encode_utf8(b));
        lemma_encode_utf8_injective(a, b);
    }
    if state_key_spec(a) == state_key_spec(b) {
        assert(state_key_spec(a).len() == 3 + encode_utf8(a).len());
        assert(state_key_spec(b).len() == 3 + encode_utf8(b).len());
        assert(encode_utf8(a).len() == encode_utf8(b).len());
        assert forall|k: int| 0 <= k < encode_utf8(a).len() implies encode_utf8(a)[k]
            == encode_utf8(b)[k] by {
            assert(encode_utf8(a)[k] == state_key_spec(a)[k + 3]);
            assert(encode_utf8(b)[k] == state_key_spec(b)[k + 3]);
        }
        assert(encode_utf8(a) =~= encode_utf8(b));
        lemma_encode_utf8_injective(a, b);
    }
}

} // verus!
