//! The array engine: push, pop, slice, get and clear over the element
//! keyspace, plus the length counter that owns the contiguity invariant.
//!
//! The array is addressed entirely through key namespaces of one store: the
//! element at index `i` lives under `elem_key_spec(i)`, the authoritative
//! count under the length key, and every mutation commits as one batch.

use vstd::prelude::*;
use vstd::utf8::{encode_utf8, encode_utf8_valid_utf8, valid_utf8};

use crate::bytes::{i32_repr, lex_lt, u32_from_be_bytes, u32_of_be, u32_to_i32};
use crate::codec::{
    bytes_to_string, elem_end_spec, elem_key, elem_key_spec, elem_prefix, elem_scan_end,
    len_key, len_key_spec, lemma_elem_key_in_range, lemma_elem_key_injective,
    lemma_elem_key_order, lemma_namespaces_disjoint, lemma_reducer_scan_shapes,
    reducer_key_spec, state_key_spec, str_bytes,
};
use crate::merge::{counter_bytes, encode_counter, lemma_counter_roundtrip, counter_of,
    sum_deltas, wrap_add};
use crate::store::{apply_batch, apply_deletes, apply_merges, apply_puts, apply_range_deletes,
    merged_value, range_delete_map, Batch, Store};
use crate::Error;

verus! {

/// The length the stored counter value denotes: `None` when the stored bytes
/// are not a well-formed, non-negative count.  An absent key means an empty
/// array.
pub open spec fn length_state(m: Map<Seq<u8>, Seq<u8>>) -> Option<int> {
    if !m.dom().contains(len_key_spec()) {
        Some(0)
    } else {
        let v = m[len_key_spec()];
        if v.len() == 4 && i32_repr(u32_of_be(v)) >= 0 {
            Some(i32_repr(u32_of_be(v)) as int)
        } else {
            None
        }
    }
}

/// The array's length; meaningful under `wf_array`.
pub open spec fn array_len(m: Map<Seq<u8>, Seq<u8>>) -> int {
    match length_state(m) {
        Some(n) => n,
        None => 0,
    }
}

/// Every key the engine ever writes: the length key, an element key below the
/// current length, or a reducer's script or state key.
pub open spec fn key_shape(m: Map<Seq<u8>, Seq<u8>>, k: Seq<u8>) -> bool {
    ||| k == len_key_spec()
    ||| (exists|i: u32| (i as int) < array_len(m) && k == #[trigger] elem_key_spec(i))
    ||| (exists|name: Seq<char>| k == #[trigger] reducer_key_spec(name))
    ||| (exists|name: Seq<char>| k == #[trigger] state_key_spec(name))
}

/// Well-formedness of the store as an array with reducers:
/// the length decodes; the occupied element indices are exactly `[0, length)`
/// and hold UTF-8 text; every key has one of the engine's shapes; a reducer's
/// script and state keys exist together and hold UTF-8 text.
pub open spec fn wf_array(m: Map<Seq<u8>, Seq<u8>>) -> bool {
    &&& length_state(m) is Some
    &&& array_len(m) <= i32::MAX
    &&& (forall|i: u32|
        (i as int) < array_len(m) ==> m.dom().contains(#[trigger] elem_key_spec(i)) && valid_utf8(
            m[elem_key_spec(i)],
        ))
    &&& (forall|k: Seq<u8>| #[trigger] m.dom().contains(k) ==> key_shape(m, k))
    &&& (forall|name: Seq<char>|
        m.dom().contains(#[trigger] reducer_key_spec(name)) <==> m.dom().contains(
            #[trigger] state_key_spec(name),
        ))
    &&& (forall|name: Seq<char>|
        m.dom().contains(#[trigger] reducer_key_spec(name)) ==> valid_utf8(
            m[reducer_key_spec(name)],
        ) && valid_utf8(m[state_key_spec(name)]))
}

/// Index contiguity: under `wf_array`, an element key is present exactly for
/// the indices in `[0, length)`, whatever the history of pushes, pops and
/// clears that produced the store.
pub proof fn lemma_index_contiguity(m: Map<Seq<u8>, Seq<u8>>, i: u32)
    requires
        wf_array(m),
    ensures
        m.dom().contains(elem_key_spec(i)) <==> (i as int) < array_len(m),
{
    if m.dom().contains(elem_key_spec(i)) {
        assert(key_shape(m, elem_key_spec(i)));
        if !(elem_key_spec(i) == len_key_spec()) {
            if exists|j: u32| (j as int) < array_len(m) && elem_key_spec(i) == #[trigger] elem_key_spec(j) {
                let j = choose|j: u32|
                    (j as int) < array_len(m) && elem_key_spec(i) == #[trigger] elem_key_spec(j);
                lemma_elem_key_injective(i, j);
            } else if exists|name: Seq<char>| elem_key_spec(i) == #[trigger] reducer_key_spec(name) {
                let name = choose|name: Seq<char>|
                    elem_key_spec(i) == #[trigger] reducer_key_spec(name);
                lemma_namespaces_disjoint(i, name, name);
            } else {
                let name = choose|name: Seq<char>|
                    elem_key_spec(i) == #[trigger] state_key_spec(name);
                lemma_namespaces_disjoint(i, name, name);
            }
        } else {
            lemma_namespaces_disjoint(i, Seq::empty(), Seq::empty());
        }
    }
}

/// Read the array's length: zero when the counter key is absent, its decoded
/// value otherwise, and `Corrupt` exactly when the stored bytes do not decode
/// to a non-negative count.
pub fn length(store: &Store) -> (r: Result<i32, Error>)
    requires
        store.wf(),
    ensures
        (match r {
            Ok(n) => length_state(store@) == Some(n as int) && n >= 0,
            Err(e) => e == Error::Corrupt && length_state(store@) is None,
        }),
{
    let lk = len_key();
    match store.get(&lk) {
        None => Ok(0),
        Some(v) => {
            if v.len() == 4 {
                let u = u32_from_be_bytes(v, 0);
                proof {
                    assert(v@.subrange(0, 4) =~= v@);
                }
                let n = u32_to_i32(u);
                if n >= 0 {
                    Ok(n)
                } else {
                    Err(Error::Corrupt)
                }
            } else {
                Err(Error::Corrupt)
            }
        },
    }
}

/// Point lookup of the element at `index`.  An absent index is a "not found"
/// (`None`), distinct from any stored value.
pub fn get(store: &Store, index: i32) -> (r: Option<String>)
    requires
        store.wf(),
        wf_array(store@),
    ensures
        (match r {
            Some(s) => 0 <= index < array_len(store@) && encode_utf8(s@) == store@[elem_key_spec(
                index as u32,
            )],
            None => !(0 <= index < array_len(store@)),
        }),
{
    if index < 0 {
        return None;
    }
    let k = elem_key(index as u32);
    match store.get(&k) {
        None => {
            proof {
                lemma_index_contiguity(store@, index as u32);
            }
            None
        },
        Some(v) => {
            proof {
                lemma_index_contiguity(store@, index as u32);
            }
            let s = bytes_to_string(crate::bytes::copy_bytes(v));
            match s {
                Some(text) => Some(text),
                None => None,
            }
        },
    }
}


/// Read the length under `wf_array`, where the counter always decodes.
pub fn length_wf(store: &Store) -> (n: i32)
    requires
        store.wf(),
        wf_array(store@),
    ensures
        n as int == array_len(store@),
        0 <= n,
{
    match length(store) {
        Ok(n) => n,
        Err(_) => 0,
    }
}

/// The exclusive upper index a slice reads to: `stop` when given and below
/// the length, else the length.
pub open spec fn slice_upper(m: Map<Seq<u8>, Seq<u8>>, stop: Option<i32>) -> int {
    match stop {
        Some(s) => if (s as int) < array_len(m) {
            s as int
        } else {
            array_len(m)
        },
        None => array_len(m),
    }
}

/// In a well-formed store, the entries a scan of the element namespace from
/// index `start` returns are exactly the elements at `start`, `start + 1`,
/// ..., `length - 1`, in index order.
proof fn lemma_scan_positions(
    m: Map<Seq<u8>, Seq<u8>>,
    entries: Seq<(Vec<u8>, Vec<u8>)>,
    start: u32,
)
    requires
        wf_array(m),
        (start as int) <= array_len(m),
        crate::store::sorted_entries(entries),
        forall|a: int|
            #![trigger entries[a]]
            0 <= a < entries.len() ==> m.dom().contains(entries[a].0@) && entries[a].1@
                == m[entries[a].0@] && crate::store::in_range(
                elem_key_spec(start),
                entries[a].0@,
                elem_end_spec(),
            ),
        forall|k: Seq<u8>|
            m.dom().contains(k) && crate::store::in_range(elem_key_spec(start), k, elem_end_spec())
                ==> crate::store::has_key(entries, k),
    ensures
        entries.len() == array_len(m) - start,
        forall|a: int|
            #![trigger entries[a]]
            0 <= a < entries.len() ==> entries[a].0@ == elem_key_spec((start + a) as u32)
                && entries[a].1@ == m[elem_key_spec((start + a) as u32)],
{
    let n = array_len(m);
    assert forall|a: int| #![trigger entries[a]] 0 <= a < entries.len() implies exists|i: u32|
        start <= i < array_len(m) && entries[a].0@ == elem_key_spec(i) by {
        lemma_entry_is_element(m, entries[a].0@, start);
    }
    assert forall|i: u32| start <= i < array_len(m) implies crate::store::has_key(
        entries,
        #[trigger] elem_key_spec(i),
    ) by {
        lemma_index_contiguity(m, i);
        lemma_element_in_scan_range(start, i);
    }
    assert forall|a: int| #![trigger entries[a]] 0 <= a < entries.len() implies start + a
        < array_len(m) && entries[a].0@ == elem_key_spec((start + a) as u32) by {
        lemma_position_exact(m, entries, start, a);
    }
    if n - start == 0 {
        if entries.len() > 0 {
            assert(entries[0] == entries[0]);
            assert(start + 0 < array_len(m));
        }
    } else {
        lemma_index_contiguity(m, (n - 1) as u32);
        lemma_element_in_scan_range(start, (n - 1) as u32);
        assert(crate::store::has_key(entries, elem_key_spec((n - 1) as u32)));
        let b = choose|b: int|
            0 <= b < entries.len() && entries[b].0@ == elem_key_spec((n - 1) as u32);
        assert(entries[b] == entries[b]);
        lemma_elem_key_injective((n - 1) as u32, (start + b) as u32);
        assert(entries.len() > n - 1 - start);
        if entries.len() > n - start {
            let a = n - start;
            assert(entries[a] == entries[a]);
            assert(start + a < array_len(m));
            assert(false);
        }
    }
    assert forall|a: int| #![trigger entries[a]] 0 <= a < entries.len() implies entries[a].1@
        == m[elem_key_spec((start + a) as u32)] by {
        assert(entries[a].1@ == m[entries[a].0@]);
    }
}

/// A key of a well-formed store lying in the element namespace at or past
/// index `start` is an element key with index in `[start, length)`.
proof fn lemma_entry_is_element(m: Map<Seq<u8>, Seq<u8>>, k: Seq<u8>, start: u32)
    requires
        wf_array(m),
        m.dom().contains(k),
        crate::store::in_range(elem_key_spec(start), k, elem_end_spec()),
    ensures
        exists|i: u32| start <= i < array_len(m) && k == elem_key_spec(i),
{
    assert(key_shape(m, k));
    if k == len_key_spec() {
        crate::codec::lemma_lex_lt_head(len_key_spec(), elem_key_spec(start));
        crate::bytes::lemma_lex_lt_asymmetric(len_key_spec(), elem_key_spec(start));
        crate::bytes::lemma_lex_lt_irreflexive(len_key_spec());
        assert(false);
    } else if exists|i: u32| (i as int) < array_len(m) && k == #[trigger] elem_key_spec(i) {
        let i = choose|i: u32| (i as int) < array_len(m) && k == #[trigger] elem_key_spec(i);
        if i < start {
            lemma_elem_key_order(i, start);
            crate::bytes::lemma_lex_lt_asymmetric(elem_key_spec(i), elem_key_spec(start));
            if elem_key_spec(start) == elem_key_spec(i) {
                lemma_elem_key_injective(start, i);
            }
            assert(false);
        }
        assert(start <= i < array_len(m) && k == elem_key_spec(i));
    } else if exists|name: Seq<char>| k == #[trigger] reducer_key_spec(name) {
        let name = choose|name: Seq<char>| k == #[trigger] reducer_key_spec(name);
        crate::codec::lemma_lex_lt_head(reducer_key_spec(name), elem_key_spec(start));
        crate::bytes::lemma_lex_lt_asymmetric(reducer_key_spec(name), elem_key_spec(start));
        crate::bytes::lemma_lex_lt_irreflexive(k);
        assert(false);
    } else {
        let name = choose|name: Seq<char>| k == #[trigger] state_key_spec(name);
        crate::codec::lemma_lex_lt_head(state_key_spec(name), elem_key_spec(start));
        crate::bytes::lemma_lex_lt_asymmetric(state_key_spec(name), elem_key_spec(start));
        crate::bytes::lemma_lex_lt_irreflexive(k);
        assert(false);
    }
}

/// Element keys at or past `start` lie in the scan range of `start`.
proof fn lemma_element_in_scan_range(start: u32, i: u32)
    requires
        start <= i,
    ensures
        crate::store::in_range(elem_key_spec(start), elem_key_spec(i), elem_end_spec()),
{
    if start < i {
        lemma_elem_key_order(start, i);
    }
    lemma_elem_key_in_range(i);
}

/// In a sorted, gap-free scan, position `a` holds exactly index `start + a`.
proof fn lemma_position_exact(
    m: Map<Seq<u8>, Seq<u8>>,
    entries: Seq<(Vec<u8>, Vec<u8>)>,
    start: u32,
    a: int,
)
    requires
        wf_array(m),
        (start as int) <= array_len(m),
        crate::store::sorted_entries(entries),
        0 <= a < entries.len(),
        forall|b: int|
            #![trigger entries[b]]
            0 <= b < entries.len() ==> m.dom().contains(entries[b].0@) && entries[b].1@
                == m[entries[b].0@] && crate::store::in_range(
                elem_key_spec(start),
                entries[b].0@,
                elem_end_spec(),
            ),
        forall|k: Seq<u8>|
            m.dom().contains(k) && crate::store::in_range(elem_key_spec(start), k, elem_end_spec())
                ==> crate::store::has_key(entries, k),
    ensures
        start + a < array_len(m),
        entries[a].0@ == elem_key_spec((start + a) as u32),
    decreases a,
{
    let n = array_len(m);
    assert(entries[a] == entries[a]);
    lemma_entry_is_element(m, entries[a].0@, start);
    let ia = choose|i: u32| start <= i < array_len(m) && entries[a].0@ == elem_key_spec(i);
    assert(entries[a].0@ == elem_key_spec(ia));
    if a == 0 {
        if ia != start {
            lemma_index_contiguity(m, start);
            lemma_element_in_scan_range(start, start);
            assert(crate::store::has_key(entries, elem_key_spec(start)));
            let b = choose|b: int| 0 <= b < entries.len() && entries[b].0@ == elem_key_spec(start);
            if b == 0 {
                lemma_elem_key_injective(ia, start);
            } else {
                assert(lex_lt(entries[0].0@, entries[b].0@));
                assert(ia > start);
                lemma_elem_key_order(start, ia);
                crate::bytes::lemma_lex_lt_asymmetric(elem_key_spec(start), elem_key_spec(ia));
                assert(false);
            }
        }
    } else {
        lemma_position_exact(m, entries, start, a - 1);
        let prev = (start + a - 1) as u32;
        assert(entries[a - 1].0@ == elem_key_spec(prev));
        assert(lex_lt(entries[a - 1].0@, entries[a].0@));
        if ia < prev {
            lemma_elem_key_order(ia, prev);
            crate::bytes::lemma_lex_lt_asymmetric(elem_key_spec(ia), elem_key_spec(prev));
            assert(false);
        }
        if ia == prev {
            crate::bytes::lemma_lex_lt_irreflexive(entries[a].0@);
            assert(false);
        }
        assert(ia > prev);
        assert(start + a <= ia);
        assert(start + a < n);
        if ia != (start + a) as u32 {
            lemma_index_contiguity(m, (start + a) as u32);
            lemma_element_in_scan_range(start, (start + a) as u32);
            assert(crate::store::has_key(entries, elem_key_spec((start + a) as u32)));
            let b = choose|b: int|
                0 <= b < entries.len() && entries[b].0@ == elem_key_spec((start + a) as u32);
            if b < a {
                if b < a - 1 {
                    assert(lex_lt(entries[b].0@, entries[a - 1].0@));
                    assert(entries[b] == entries[b]);
                    lemma_elem_key_order(prev, (start + a) as u32);
                    crate::bytes::lemma_lex_lt_transitive(
                        elem_key_spec(prev),
                        elem_key_spec((start + a) as u32),
                        elem_key_spec(prev),
                    );
                    crate::bytes::lemma_lex_lt_irreflexive(elem_key_spec(prev));
                    assert(false);
                } else {
                    lemma_elem_key_injective(prev, (start + a) as u32);
                    assert(false);
                }
            } else if b == a {
                lemma_elem_key_injective(ia, (start + a) as u32);
                assert(false);
            } else {
                assert(lex_lt(entries[a].0@, entries[b].0@));
                lemma_elem_key_order((start + a) as u32, ia);
                crate::bytes::lemma_lex_lt_asymmetric(
                    elem_key_spec((start + a) as u32),
                    elem_key_spec(ia),
                );
                assert(false);
            }
        }
    }
}

/// The slice of the array from `start` up to `stop`: the elements with
/// indices in `[start, min(stop, length))`, in index order; all of them when
/// `stop` is absent.  A `start` at or beyond the length yields nothing.
pub fn slice(store: &Store, start: i32, stop: Option<i32>) -> (r: Vec<String>)
    requires
        store.wf(),
        wf_array(store@),
        0 <= start,
    ensures
        r@.len() == (if slice_upper(store@, stop) >= start as int {
            slice_upper(store@, stop) - start
        } else {
            0
        }),
        forall|j: int|
            0 <= j < r@.len() ==> encode_utf8(#[trigger] r@[j]@) == store@[elem_key_spec(
                (start + j) as u32,
            )],
{
    let n = length_wf(store);
    let upper = match stop {
        Some(s) => if s < n {
            s
        } else {
            n
        },
        None => n,
    };
    if start >= upper {
        return Vec::new();
    }
    let from = elem_key(start as u32);
    let to = elem_scan_end();
    let entries = store.scan(&from, &to);
    proof {
        lemma_scan_positions(store@, entries@, start as u32);
    }
    let mut r: Vec<String> = Vec::new();
    let mut a: usize = 0;
    let count = (upper - start) as usize;
    while a < count
        invariant
            store.wf(),
            wf_array(store@),
            0 <= start,
            start as int + count <= array_len(store@),
            count <= entries@.len(),
            entries@.len() == array_len(store@) - start,
            0 <= a <= count,
            forall|b: int|
                #![trigger entries@[b]]
                0 <= b < entries@.len() ==> entries@[b].0@ == elem_key_spec((start + b) as u32)
                    && entries@[b].1@ == store@[elem_key_spec((start + b) as u32)],
            r@.len() == a,
            forall|j: int|
                0 <= j < a ==> encode_utf8(#[trigger] r@[j]@) == store@[elem_key_spec(
                    (start + j) as u32,
                )],
        decreases count - a,
    {
        let v = crate::bytes::copy_bytes(&entries[a].1);
        proof {
            lemma_index_contiguity(store@, (start + a as i32) as u32);
            assert(valid_utf8(store@[elem_key_spec((start + a as int) as u32)]));
        }
        match bytes_to_string(v) {
            Some(text) => {
                r.push(text);
            },
            None => {
                proof {
                    assert(false);
                }
            },
        }
        a = a + 1;
    }
    r
}

/// Remove and return the element at the tail, decrementing the length, as
/// one atomic batch; on an empty array, do nothing and return nothing.
pub fn pop(store: &mut Store) -> (r: Option<String>)
    requires
        old(store).wf(),
        wf_array(old(store)@),
    ensures
        final(store).wf(),
        wf_array(final(store)@),
        r is None <==> array_len(old(store)@) == 0,
        r is None ==> final(store)@ == old(store)@,
        (r matches Some(s) ==> encode_utf8(s@) == old(store)@[elem_key_spec(
            (array_len(old(store)@) - 1) as u32,
        )] && final(store)@ == old(store)@.remove(
            elem_key_spec((array_len(old(store)@) - 1) as u32),
        ).insert(len_key_spec(), counter_bytes((array_len(old(store)@) - 1) as i32))),
{
    let n = length_wf(store);
    if n == 0 {
        return None;
    }
    let ghost m0 = store@;
    let k = elem_key((n - 1) as u32);
    proof {
        lemma_index_contiguity(store@, (n - 1) as u32);
    }
    let text = match store.get(&k) {
        Some(v) => match bytes_to_string(crate::bytes::copy_bytes(v)) {
            Some(t) => t,
            None => {
                proof {
                    assert(false);
                }
                String::new()
            },
        },
        None => {
            proof {
                assert(false);
            }
            String::new()
        },
    };
    let mut b = Batch::new();
    b.deletes.push(k);
    b.merges.push((len_key(), encode_counter(-1)));
    store.commit(&b);
    proof {
        lemma_pop_effect(m0, b, n);
    }
    Some(text)
}

/// What pop's batch does to a well-formed store.
proof fn lemma_pop_effect(m0: Map<Seq<u8>, Seq<u8>>, b: Batch, n: i32)
    requires
        wf_array(m0),
        1 <= n,
        array_len(m0) == n,
        b.puts@.len() == 0,
        b.range_deletes@.len() == 0,
        b.deletes@.len() == 1,
        b.deletes@[0]@ == elem_key_spec((n - 1) as u32),
        b.merges@.len() == 1,
        b.merges@[0].0@ == len_key_spec(),
        b.merges@[0].1@ == counter_bytes(-1i32),
    ensures
        apply_batch(m0, b) == m0.remove(elem_key_spec((n - 1) as u32)).insert(
            len_key_spec(),
            counter_bytes((n - 1) as i32),
        ),
        wf_array(apply_batch(m0, b)),
{
    let ek = elem_key_spec((n - 1) as u32);
    let m1 = m0.remove(ek);
    assert(apply_puts(m0, b.puts@) == m0);
    assert(b.deletes@.drop_last() =~= Seq::<Vec<u8>>::empty());
    assert(apply_deletes(m0, Seq::<Vec<u8>>::empty()) == m0);
    assert(apply_deletes(m0, b.deletes@) == m1);
    assert(b.merges@.drop_last() =~= Seq::<(Vec<u8>, Vec<u8>)>::empty());
    assert(apply_merges(m1, Seq::<(Vec<u8>, Vec<u8>)>::empty()) == m1);
    let mv = merged_value(m1, len_key_spec(), counter_bytes(-1i32));
    let m2 = m1.insert(len_key_spec(), mv);
    assert(apply_merges(m1, b.merges@) == m2);
    assert(apply_range_deletes(m2, b.range_deletes@) == m2);
    lemma_namespaces_disjoint((n - 1) as u32, Seq::empty(), Seq::empty());
    assert(m0.dom().contains(len_key_spec()));
    assert(m1.contains_key(len_key_spec()));
    assert(counter_of(m1[len_key_spec()]) == n);
    lemma_counter_roundtrip(-1i32);
    assert(seq![counter_bytes(-1i32)].drop_last() =~= Seq::<Seq<u8>>::empty());
    assert(sum_deltas(Seq::<Seq<u8>>::empty()) == 0i32);
    assert(seq![counter_bytes(-1i32)].last() == counter_bytes(-1i32));
    assert(sum_deltas(seq![counter_bytes(-1i32)]) == wrap_add(0i32, -1i32));
    assert(mv == counter_bytes((n - 1) as i32));
    lemma_counter_roundtrip((n - 1) as i32);
    let mf = apply_batch(m0, b);
    assert(mf == m2);
    // well-formedness of the result
    assert(length_state(m2) == Some(n - 1 as int)) by {
        assert(m2[len_key_spec()] == counter_bytes((n - 1) as i32));
    }
    assert forall|i: u32| (i as int) < array_len(m2) implies m2.dom().contains(
        #[trigger] elem_key_spec(i),
    ) && valid_utf8(m2[elem_key_spec(i)]) by {
        lemma_namespaces_disjoint(i, Seq::empty(), Seq::empty());
        lemma_elem_key_injective_bridge(i, (n - 1) as u32);
    }
    assert forall|k: Seq<u8>| #[trigger] m2.dom().contains(k) implies key_shape(m2, k) by {
        if k != len_key_spec() {
            assert(m0.dom().contains(k));
            assert(key_shape(m0, k));
            if exists|i: u32| (i as int) < array_len(m0) && k == #[trigger] elem_key_spec(i) {
                let i = choose|i: u32|
                    (i as int) < array_len(m0) && k == #[trigger] elem_key_spec(i);
                if i == (n - 1) as u32 {
                    assert(!m2.dom().contains(k));
                } else {
                    assert((i as int) < array_len(m2));
                }
            }
        }
    }
    assert forall|name: Seq<char>|
        m2.dom().contains(#[trigger] reducer_key_spec(name)) <==> m2.dom().contains(
        #[trigger] state_key_spec(name),
    ) by {
        lemma_namespaces_disjoint((n - 1) as u32, name, name);
    }
    assert forall|name: Seq<char>|
        m2.dom().contains(#[trigger] reducer_key_spec(name)) implies valid_utf8(
        m2[reducer_key_spec(name)],
    ) && valid_utf8(m2[state_key_spec(name)]) by {
        lemma_namespaces_disjoint((n - 1) as u32, name, name);
    }
}

/// Distinct indices give distinct element keys.
proof fn lemma_elem_key_injective_bridge(i: u32, j: u32)
    requires
        i != j,
    ensures
        elem_key_spec(i) != elem_key_spec(j),
{
    if elem_key_spec(i) == elem_key_spec(j) {
        lemma_elem_key_injective(i, j);
    }
}

/// Delete the whole element keyspace and reset the length to zero, as one
/// atomic batch; attached reducers and their states are untouched.
pub fn clear(store: &mut Store)
    requires
        old(store).wf(),
        wf_array(old(store)@),
    ensures
        final(store).wf(),
        wf_array(final(store)@),
        final(store)@ == range_delete_map(
            old(store)@.remove(len_key_spec()),
            elem_prefix(),
            elem_end_spec(),
        ),
        array_len(final(store)@) == 0,
        forall|name: Seq<char>|
            final(store)@.dom().contains(#[trigger] reducer_key_spec(name))
                <==> old(store)@.dom().contains(reducer_key_spec(name)),
        forall|name: Seq<char>|
            final(store)@.dom().contains(#[trigger] reducer_key_spec(name))
                ==> final(store)@[reducer_key_spec(name)] == old(store)@[reducer_key_spec(name)]
                && final(store)@[state_key_spec(name)] == old(store)@[state_key_spec(name)],
{
    let ghost m0 = store@;
    let mut b = Batch::new();
    b.deletes.push(len_key());
    b.range_deletes.push((crate::codec::elem_scan_start(), elem_scan_end()));
    store.commit(&b);
    proof {
        lemma_clear_effect(m0, b);
    }
}

/// What clear's batch does to a well-formed store.
proof fn lemma_clear_effect(m0: Map<Seq<u8>, Seq<u8>>, b: Batch)
    requires
        wf_array(m0),
        b.puts@.len() == 0,
        b.merges@.len() == 0,
        b.deletes@.len() == 1,
        b.deletes@[0]@ == len_key_spec(),
        b.range_deletes@.len() == 1,
        b.range_deletes@[0].0@ == elem_prefix(),
        b.range_deletes@[0].1@ == elem_end_spec(),
    ensures
        apply_batch(m0, b) == range_delete_map(
            m0.remove(len_key_spec()),
            elem_prefix(),
            elem_end_spec(),
        ),
        wf_array(apply_batch(m0, b)),
        array_len(apply_batch(m0, b)) == 0,
        forall|name: Seq<char>|
            apply_batch(m0, b).dom().contains(#[trigger] reducer_key_spec(name)) <==> m0.dom()
                .contains(reducer_key_spec(name)),
        forall|name: Seq<char>|
            apply_batch(m0, b).dom().contains(#[trigger] reducer_key_spec(name)) ==> apply_batch(
                m0,
                b,
            )[reducer_key_spec(name)] == m0[reducer_key_spec(name)] && apply_batch(m0, b)[
                state_key_spec(name)] == m0[state_key_spec(name)],
{
    let m1 = m0.remove(len_key_spec());
    assert(apply_puts(m0, b.puts@) == m0);
    assert(b.deletes@.drop_last() =~= Seq::<Vec<u8>>::empty());
    assert(apply_deletes(m0, Seq::<Vec<u8>>::empty()) == m0);
    assert(apply_deletes(m0, b.deletes@) == m1);
    assert(apply_merges(m1, b.merges@) == m1);
    assert(b.range_deletes@.drop_last() =~= Seq::<(Vec<u8>, Vec<u8>)>::empty());
    assert(apply_range_deletes(m1, Seq::<(Vec<u8>, Vec<u8>)>::empty()) == m1);
    let m2 = range_delete_map(m1, elem_prefix(), elem_end_spec());
    assert(apply_range_deletes(m1, b.range_deletes@) == m2);
    let mf = apply_batch(m0, b);
    assert(mf == m2);
    assert(!m2.dom().contains(len_key_spec()));
    assert(length_state(m2) == Some(0int));
    assert forall|name: Seq<char>|
        m2.dom().contains(#[trigger] reducer_key_spec(name)) <==> m0.dom().contains(
        reducer_key_spec(name),
    ) by {
        lemma_namespaces_disjoint(0, name, name);
        lemma_reducer_scan_shapes(name, 0);
        crate::codec::lemma_lex_lt_head(reducer_key_spec(name), elem_prefix());
        crate::bytes::lemma_lex_lt_asymmetric(reducer_key_spec(name), elem_prefix());
        crate::bytes::lemma_lex_lt_irreflexive(reducer_key_spec(name));
    }
    assert forall|name: Seq<char>|
        m2.dom().contains(#[trigger] reducer_key_spec(name)) implies m2[reducer_key_spec(name)]
        == m0[reducer_key_spec(name)] && m2.dom().contains(state_key_spec(name)) && m2[
        state_key_spec(name)] == m0[state_key_spec(name)] by {
        lemma_namespaces_disjoint(0, name, name);
        crate::codec::lemma_lex_lt_head(reducer_key_spec(name), elem_prefix());
        crate::bytes::lemma_lex_lt_asymmetric(reducer_key_spec(name), elem_prefix());
        crate::bytes::lemma_lex_lt_irreflexive(reducer_key_spec(name));
        crate::codec::lemma_lex_lt_head(state_key_spec(name), elem_prefix());
        crate::bytes::lemma_lex_lt_asymmetric(state_key_spec(name), elem_prefix());
        crate::bytes::lemma_lex_lt_irreflexive(state_key_spec(name));
    }
    assert forall|k: Seq<u8>| #[trigger] m2.dom().contains(k) implies key_shape(m2, k) by {
        assert(m0.dom().contains(k));
        assert(key_shape(m0, k));
        if exists|i: u32| (i as int) < array_len(m0) && k == #[trigger] elem_key_spec(i) {
            let i = choose|i: u32| (i as int) < array_len(m0) && k == #[trigger] elem_key_spec(i);
            lemma_elem_key_in_range(i);
            crate::bytes::lemma_lex_lt_asymmetric(elem_prefix(), elem_key_spec(i));
            assert(crate::store::in_range(elem_prefix(), k, elem_end_spec()));
            assert(false);
        }
    }
    assert forall|name: Seq<char>|
        m2.dom().contains(#[trigger] reducer_key_spec(name)) <==> m2.dom().contains(
        #[trigger] state_key_spec(name),
    ) by {
        lemma_namespaces_disjoint(0, name, name);
        crate::codec::lemma_lex_lt_head(state_key_spec(name), elem_prefix());
        crate::bytes::lemma_lex_lt_asymmetric(state_key_spec(name), elem_prefix());
        crate::bytes::lemma_lex_lt_irreflexive(state_key_spec(name));
    }
}


/// Is this text syntactically valid JSON?  Whether a parse succeeds is a
/// function of the text alone; nothing more is assumed about it.
pub uninterp spec fn is_json(s: Seq<char>) -> bool;

/// Relies on `serde_json::from_str::<serde_json::Value>`: its parse verdict
/// (which includes the parser's own nesting limit) is a function of the text
/// alone, and it returns an error rather than panicking on any input.
#[verifier::external_body]
fn parses_as_json(s: &str) -> (r: bool)
    ensures
        r == is_json(s@),
{
    serde_json::from_str::<serde_json::Value>(s).is_ok()
}

/// The elements of a push batch that are kept: those that parse as JSON, in
/// their given order.
pub open spec fn accepted_view(elems: Seq<Seq<char>>) -> Seq<Seq<char>>
    decreases elems.len(),
{
    if elems.len() == 0 {
        Seq::empty()
    } else {
        let rest = accepted_view(elems.drop_last());
        if is_json(elems.last()) {
            rest.push(elems.last())
        } else {
            rest
        }
    }
}

/// Keep the elements that parse as JSON, in order; the rest are skipped.
pub fn accepted_elements(elements: &Vec<String>) -> (r: Vec<String>)
    ensures
        r.deep_view() == accepted_view(elements.deep_view()),
{
    let mut r: Vec<String> = Vec::new();
    let mut i: usize = 0;
    while i < elements.len()
        invariant
            0 <= i <= elements@.len(),
            r.deep_view() == accepted_view(elements.deep_view().take(i as int)),
        decreases elements@.len() - i,
    {
        let e = &elements[i];
        let keep = parses_as_json(e.as_str());
        let ghost pre = r.deep_view();
        if keep {
            r.push(e.clone());
        }
        proof {
            let ev = elements.deep_view();
            assert(ev.take(i + 1).drop_last() =~= ev.take(i as int));
            assert(ev.take(i + 1).last() == ev[i as int]);
            assert(ev[i as int] == elements@[i as int]@);
            if keep {
                assert(r.deep_view() =~= pre.push(elements@[i as int]@));
            }
        }
        i = i + 1;
    }
    proof {
        assert(elements.deep_view().take(elements@.len() as int) =~= elements.deep_view());
    }
    r
}

/// The state a sequence of reducer updates leaves for `name`: the value of
/// the last update carrying that name, if any.
pub open spec fn update_for(updates: Seq<(Seq<char>, Seq<char>)>, name: Seq<char>) -> Option<
    Seq<char>,
>
    decreases updates.len(),
{
    if updates.len() == 0 {
        None
    } else if updates.last().0 == name {
        Some(updates.last().1)
    } else {
        update_for(updates.drop_last(), name)
    }
}

/// The map after the first `j` accepted elements are written at indices
/// `n`, `n + 1`, ...
pub open spec fn insert_elems(
    m: Map<Seq<u8>, Seq<u8>>,
    n: int,
    acc: Seq<Seq<char>>,
    j: int,
) -> Map<Seq<u8>, Seq<u8>>
    decreases j,
{
    if j <= 0 {
        m
    } else {
        insert_elems(m, n, acc, j - 1).insert(
            elem_key_spec((n + j - 1) as u32),
            encode_utf8(acc[j - 1]),
        )
    }
}

/// The map after the first `u` reducer updates are written, each only when
/// its name is attached in the base map.
pub open spec fn apply_updates(
    base: Map<Seq<u8>, Seq<u8>>,
    m: Map<Seq<u8>, Seq<u8>>,
    updates: Seq<(Seq<char>, Seq<char>)>,
    u: int,
) -> Map<Seq<u8>, Seq<u8>>
    decreases u,
{
    if u <= 0 {
        m
    } else {
        let m1 = apply_updates(base, m, updates, u - 1);
        if base.dom().contains(reducer_key_spec(updates[u - 1].0)) {
            m1.insert(state_key_spec(updates[u - 1].0), encode_utf8(updates[u - 1].1))
        } else {
            m1
        }
    }
}

/// What writing the accepted elements does to the map, clause by clause.
proof fn lemma_insert_elems(m: Map<Seq<u8>, Seq<u8>>, n: int, acc: Seq<Seq<char>>, j: int)
    requires
        0 <= n,
        0 <= j <= acc.len(),
        n + acc.len() <= u32::MAX,
    ensures
        forall|t: int|
            0 <= t < j ==> insert_elems(m, n, acc, j).dom().contains(
                #[trigger] elem_key_spec((n + t) as u32),
            ) && insert_elems(m, n, acc, j)[elem_key_spec((n + t) as u32)] == encode_utf8(acc[t]),
        forall|key: Seq<u8>|
            #![trigger insert_elems(m, n, acc, j).dom().contains(key)]
            insert_elems(m, n, acc, j).dom().contains(key) ==> (m.dom().contains(key)
                || exists|t: int| 0 <= t < j && key == #[trigger] elem_key_spec((n + t) as u32)),
        forall|key: Seq<u8>|
            #![trigger insert_elems(m, n, acc, j).dom().contains(key)]
            m.dom().contains(key) ==> insert_elems(m, n, acc, j).dom().contains(key),
        forall|key: Seq<u8>|
            #![trigger insert_elems(m, n, acc, j)[key]]
            m.dom().contains(key) && (forall|t: int|
                0 <= t < j ==> key != #[trigger] elem_key_spec((n + t) as u32)) ==> insert_elems(
                m,
                n,
                acc,
                j,
            )[key] == m[key],
    decreases j,
{
    if j > 0 {
        lemma_insert_elems(m, n, acc, j - 1);
        let prev = insert_elems(m, n, acc, j - 1);
        let cur = insert_elems(m, n, acc, j);
        let nk = elem_key_spec((n + j - 1) as u32);
        assert forall|t: int| 0 <= t < j implies cur.dom().contains(
            #[trigger] elem_key_spec((n + t) as u32),
        ) && cur[elem_key_spec((n + t) as u32)] == encode_utf8(acc[t]) by {
            if t < j - 1 {
                lemma_elem_key_injective_bridge((n + t) as u32, (n + j - 1) as u32);
            }
        }
    }
}

/// What writing the reducer updates does to the map, clause by clause.
proof fn lemma_apply_updates(
    base: Map<Seq<u8>, Seq<u8>>,
    m: Map<Seq<u8>, Seq<u8>>,
    updates: Seq<(Seq<char>, Seq<char>)>,
    u: int,
)
    requires
        0 <= u <= updates.len(),
        forall|name: Seq<char>|
            base.dom().contains(#[trigger] reducer_key_spec(name)) ==> m.dom().contains(
                state_key_spec(name),
            ),
    ensures
        apply_updates(base, m, updates, u).dom() =~= m.dom(),
        forall|name: Seq<char>|
            #![trigger state_key_spec(name)]
            m.dom().contains(state_key_spec(name)) ==> apply_updates(base, m, updates, u)[
                state_key_spec(name)] == (match update_for(updates.take(u), name) {
                Some(st) => if base.dom().contains(reducer_key_spec(name)) {
                    encode_utf8(st)
                } else {
                    m[state_key_spec(name)]
                },
                None => m[state_key_spec(name)],
            }),
        forall|key: Seq<u8>|
            #![trigger apply_updates(base, m, updates, u)[key]]
            m.dom().contains(key) && (forall|name: Seq<char>|
                key != #[trigger] state_key_spec(name)) ==> apply_updates(base, m, updates, u)[key]
                == m[key],
    decreases u,
{
    if u > 0 {
        lemma_apply_updates(base, m, updates, u - 1);
        let prev = apply_updates(base, m, updates, u - 1);
        let cur = apply_updates(base, m, updates, u);
        let uname = updates[u - 1].0;
        assert forall|name: Seq<char>|
            #![trigger state_key_spec(name)]
            m.dom().contains(state_key_spec(name)) implies cur[state_key_spec(name)] == (
        match update_for(updates.take(u), name) {
            Some(st) => if base.dom().contains(reducer_key_spec(name)) {
                encode_utf8(st)
            } else {
                m[state_key_spec(name)]
            },
            None => m[state_key_spec(name)],
        }) by {
            assert(updates.take(u).drop_last() =~= updates.take(u - 1));
            assert(updates.take(u).last() == updates[u - 1]);
            crate::codec::lemma_namespaces_disjoint(0, name, uname);
            if name != uname {
                assert(state_key_spec(name) != state_key_spec(uname));
            }
        }
        assert forall|key: Seq<u8>|
            #![trigger cur[key]]
            m.dom().contains(key) && (forall|name: Seq<char>|
                key != #[trigger] state_key_spec(name)) implies cur[key] == m[key] by {
            assert(key != state_key_spec(uname));
        }
    } else {
        assert(updates.take(0) =~= Seq::<(Seq<char>, Seq<char>)>::empty());
    }
}

/// Append elements to the array's tail and update every attached reducer's
/// state, as one atomic batch.
///
/// Each element that parses as JSON is written at the next index; elements
/// that do not parse are skipped and consume no index.  The length counter
/// grows by the count of accepted elements, through a merge delta.  Each
/// update `(name, state)` whose name is currently attached overwrites that
/// reducer's stored state in the same batch (the caller computes the folded
/// states; see `crate::reducer`); updates naming no attached reducer are
/// ignored.  Returns the new length, or `Overflow` (and no change) when the
/// new length would not fit a signed 32-bit count.
pub fn push(store: &mut Store, elements: Vec<String>, updates: Vec<(String, String)>) -> (r:
    Result<i32, Error>)
    requires
        old(store).wf(),
        wf_array(old(store)@),
    ensures
        final(store).wf(),
        wf_array(final(store)@),
        (match r {
            Ok(newlen) => {
                &&& newlen as int == array_len(old(store)@) + accepted_view(
                    elements.deep_view(),
                ).len()
                &&& array_len(final(store)@) == newlen as int
                &&& (forall|i: u32|
                    (i as int) < array_len(old(store)@) ==> final(store)@[
                        #[trigger] elem_key_spec(i)] == old(store)@[elem_key_spec(i)])
                &&& (forall|j: int|
                    0 <= j < accepted_view(elements.deep_view()).len() ==> final(store)@[
                        #[trigger] elem_key_spec(
                            (array_len(old(store)@) + j) as u32,
                        )] == encode_utf8(accepted_view(elements.deep_view())[j]))
                &&& (forall|name: Seq<char>|
                    final(store)@.dom().contains(#[trigger] reducer_key_spec(name))
                        <==> old(store)@.dom().contains(reducer_key_spec(name)))
                &&& (forall|name: Seq<char>|
                    old(store)@.dom().contains(#[trigger] reducer_key_spec(name))
                        ==> final(store)@[reducer_key_spec(name)] == old(store)@[reducer_key_spec(
                        name,
                    )] && final(store)@[state_key_spec(name)] == (match update_for(
                        updates.deep_view(),
                        name,
                    ) {
                        Some(st) => encode_utf8(st),
                        None => old(store)@[state_key_spec(name)],
                    }))
            },
            Err(e) => {
                &&& e == Error::Overflow
                &&& array_len(old(store)@) + accepted_view(elements.deep_view()).len()
                    > i32::MAX
                &&& final(store)@ == old(store)@
            },
        }),
{
    let n = length_wf(store);
    let acc = accepted_elements(&elements);
    if acc.len() > (i32::MAX as usize) || (n as i64) + (acc.len() as i64) > (i32::MAX as i64) {
        return Err(Error::Overflow);
    }
    let k = acc.len() as i32;
    let ghost m0 = store@;
    let ghost accv = accepted_view(elements.deep_view());
    let mut b = Batch::new();
    let mut j: usize = 0;
    while j < acc.len()
        invariant
            store.wf(),
            wf_array(store@),
            store@ == m0,
            accv == accepted_view(elements.deep_view()),
            acc.deep_view() == accv,
            0 <= n,
            n as int == array_len(m0),
            n + accv.len() <= i32::MAX,
            0 <= j <= accv.len(),
            b.deletes@.len() == 0,
            b.merges@.len() == 0,
            b.range_deletes@.len() == 0,
            apply_puts(m0, b.puts@) == insert_elems(m0, n as int, accv, j as int),
        decreases acc@.len() - j,
    {
        let key = elem_key((n + j as i32) as u32);
        let val = str_bytes(acc[j].as_str());
        let ghost puts0 = b.puts@;
        b.puts.push((key, val));
        proof {
            assert(b.puts@.drop_last() =~= puts0);
            assert(acc[j as int]@ == acc.deep_view()[j as int]);
        }
        j = j + 1;
    }
    let ghost ie = insert_elems(m0, n as int, accv, accv.len() as int);
    proof {
        lemma_insert_elems(m0, n as int, accv, accv.len() as int);
        assert forall|name: Seq<char>|
            m0.dom().contains(#[trigger] reducer_key_spec(name)) implies ie.dom().contains(
            state_key_spec(name),
        ) by {
            assert(m0.dom().contains(state_key_spec(name)));
        }
    }
    let ghost updv = updates.deep_view();
    let mut u: usize = 0;
    while u < updates.len()
        invariant
            store.wf(),
            wf_array(store@),
            store@ == m0,
            updv == updates.deep_view(),
            0 <= u <= updv.len(),
            b.deletes@.len() == 0,
            b.merges@.len() == 0,
            b.range_deletes@.len() == 0,
            ie == insert_elems(m0, n as int, accv, accv.len() as int),
            apply_puts(m0, b.puts@) == apply_updates(m0, ie, updv, u as int),
        decreases updates@.len() - u,
    {
        let name_ref = &updates[u].0;
        let rk = crate::codec::reducer_key(name_ref.as_str());
        let attached = match store.get(&rk) {
            Some(_) => true,
            None => false,
        };
        let ghost puts0 = b.puts@;
        if attached {
            let sk = crate::codec::state_key(name_ref.as_str());
            let sv = str_bytes(updates[u].1.as_str());
            b.puts.push((sk, sv));
            proof {
                assert(b.puts@.drop_last() =~= puts0);
            }
        }
        proof {
            assert(updv[u as int].0 == updates@[u as int].0@);
            assert(updv[u as int].1 == updates@[u as int].1@);
        }
        u = u + 1;
    }
    b.merges.push((len_key(), encode_counter(k)));
    store.commit(&b);
    proof {
        lemma_push_effect(m0, b, n, accv, updv, ie);
    }
    Ok(n + k)
}


/// What push's batch does to a well-formed store.
#[verifier::rlimit(100)]
#[verifier::spinoff_prover]
proof fn lemma_push_effect(
    m0: Map<Seq<u8>, Seq<u8>>,
    b: Batch,
    n: i32,
    accv: Seq<Seq<char>>,
    updv: Seq<(Seq<char>, Seq<char>)>,
    ie: Map<Seq<u8>, Seq<u8>>,
)
    requires
        wf_array(m0),
        0 <= n,
        n as int == array_len(m0),
        n + accv.len() <= i32::MAX,
        ie == insert_elems(m0, n as int, accv, accv.len() as int),
        apply_puts(m0, b.puts@) == apply_updates(m0, ie, updv, updv.len() as int),
        b.deletes@.len() == 0,
        b.range_deletes@.len() == 0,
        b.merges@.len() == 1,
        b.merges@[0].0@ == len_key_spec(),
        b.merges@[0].1@ == counter_bytes(accv.len() as i32),
    ensures
        wf_array(apply_batch(m0, b)),
        array_len(apply_batch(m0, b)) == n + accv.len(),
        forall|i: u32|
            (i as int) < n ==> apply_batch(m0, b)[#[trigger] elem_key_spec(i)] == m0[elem_key_spec(
                i,
            )],
        forall|j: int|
            0 <= j < accv.len() ==> apply_batch(m0, b)[#[trigger] elem_key_spec((n + j) as u32)]
                == encode_utf8(accv[j]),
        forall|name: Seq<char>|
            apply_batch(m0, b).dom().contains(#[trigger] reducer_key_spec(name)) <==> m0.dom()
                .contains(reducer_key_spec(name)),
        forall|name: Seq<char>|
            m0.dom().contains(#[trigger] reducer_key_spec(name)) ==> apply_batch(m0, b)[
                reducer_key_spec(name)] == m0[reducer_key_spec(name)] && apply_batch(m0, b)[
                state_key_spec(name)] == (match update_for(updv, name) {
                Some(st) => encode_utf8(st),
                None => m0[state_key_spec(name)],
            }),
{
    let kcount = accv.len() as int;
    let newlen = n + kcount;
    lemma_insert_elems(m0, n as int, accv, kcount);
    assert forall|name: Seq<char>|
        m0.dom().contains(#[trigger] reducer_key_spec(name)) implies ie.dom().contains(
        state_key_spec(name),
    ) by {
        assert(m0.dom().contains(state_key_spec(name)));
    }
    lemma_apply_updates(m0, ie, updv, updv.len() as int);
    assert(updv.take(updv.len() as int) =~= updv);
    let au = apply_updates(m0, ie, updv, updv.len() as int);
    assert(apply_puts(m0, b.puts@) == au);
    assert(apply_deletes(au, b.deletes@) == au);
    assert(b.merges@.drop_last() =~= Seq::<(Vec<u8>, Vec<u8>)>::empty());
    assert(apply_merges(au, Seq::<(Vec<u8>, Vec<u8>)>::empty()) == au);
    let delta = counter_bytes(accv.len() as i32);
    let mv = merged_value(au, len_key_spec(), delta);
    let am = au.insert(len_key_spec(), mv);
    assert(apply_merges(au, b.merges@) == am);
    assert(apply_range_deletes(am, b.range_deletes@) == am);
    let mf = apply_batch(m0, b);
    assert(mf == am);
    // every element key differs from the length key and from state keys
    assert forall|t: int| 0 <= t < kcount implies len_key_spec() != #[trigger] elem_key_spec(
        (n + t) as u32,
    ) by {
        lemma_namespaces_disjoint((n + t) as u32, Seq::empty(), Seq::empty());
    }
    assert forall|name: Seq<char>| len_key_spec() != #[trigger] state_key_spec(name) by {
        lemma_namespaces_disjoint(0, name, name);
    }
    // the merged counter is the old length plus the accepted count
    lemma_counter_roundtrip(accv.len() as i32);
    assert(seq![delta].drop_last() =~= Seq::<Seq<u8>>::empty());
    assert(sum_deltas(Seq::<Seq<u8>>::empty()) == 0i32);
    assert(seq![delta].last() == delta);
    assert(sum_deltas(seq![delta]) == wrap_add(0i32, accv.len() as i32));
    if m0.dom().contains(len_key_spec()) {
        assert(ie.dom().contains(len_key_spec()));
        assert(ie[len_key_spec()] == m0[len_key_spec()]);
        assert(au[len_key_spec()] == ie[len_key_spec()]);
        assert(au.dom().contains(len_key_spec()));
        assert(counter_of(au[len_key_spec()]) == n);
    } else {
        assert(n == 0);
        if au.dom().contains(len_key_spec()) {
            assert(ie.dom().contains(len_key_spec()));
            if !m0.dom().contains(len_key_spec()) {
                let t = choose|t: int|
                    0 <= t < kcount && len_key_spec() == #[trigger] elem_key_spec((n + t) as u32);
                assert(false);
            }
        }
    }
    assert(mv == counter_bytes((n + kcount) as i32));
    lemma_counter_roundtrip((n + kcount) as i32);
    assert(length_state(am) == Some(newlen));
    // old elements keep their values
    assert forall|i: u32| (i as int) < n implies mf[#[trigger] elem_key_spec(i)] == m0[
        elem_key_spec(i)] by {
        lemma_index_contiguity(m0, i);
        lemma_namespaces_disjoint(i, Seq::empty(), Seq::empty());
        assert forall|t: int| 0 <= t < kcount implies elem_key_spec(i)
            != #[trigger] elem_key_spec((n + t) as u32) by {
            lemma_elem_key_injective_bridge(i, (n + t) as u32);
        }
        assert(ie[elem_key_spec(i)] == m0[elem_key_spec(i)]);
        assert(ie.dom().contains(elem_key_spec(i)));
        assert forall|name: Seq<char>| elem_key_spec(i) != #[trigger] state_key_spec(name) by {
            lemma_namespaces_disjoint(i, name, name);
        }
        assert(au[elem_key_spec(i)] == ie[elem_key_spec(i)]);
    }
    // new elements hold the accepted values
    assert forall|j: int| 0 <= j < kcount implies mf[#[trigger] elem_key_spec((n + j) as u32)]
        == encode_utf8(accv[j]) by {
        assert(ie[elem_key_spec((n + j) as u32)] == encode_utf8(accv[j]));
        assert(ie.dom().contains(elem_key_spec((n + j) as u32)));
        assert forall|name: Seq<char>|
            elem_key_spec((n + j) as u32) != #[trigger] state_key_spec(name) by {
            lemma_namespaces_disjoint((n + j) as u32, name, name);
        }
        assert(au[elem_key_spec((n + j) as u32)] == ie[elem_key_spec((n + j) as u32)]);
    }
    // reducer scripts are untouched
    assert forall|name: Seq<char>|
        mf.dom().contains(#[trigger] reducer_key_spec(name)) <==> m0.dom().contains(
        reducer_key_spec(name),
    ) by {
        lemma_namespaces_disjoint(0, name, name);
        if mf.dom().contains(reducer_key_spec(name)) && !m0.dom().contains(
            reducer_key_spec(name),
        ) {
            assert(ie.dom().contains(reducer_key_spec(name)));
            let t = choose|t: int|
                0 <= t < kcount && reducer_key_spec(name) == #[trigger] elem_key_spec(
                    (n + t) as u32,
                );
            lemma_namespaces_disjoint((n + t) as u32, name, name);
            assert(false);
        }
        if m0.dom().contains(reducer_key_spec(name)) {
            assert(ie.dom().contains(reducer_key_spec(name)));
            assert(au.dom().contains(reducer_key_spec(name)));
        }
    }
    assert forall|name: Seq<char>|
        m0.dom().contains(#[trigger] reducer_key_spec(name)) implies mf[reducer_key_spec(name)]
        == m0[reducer_key_spec(name)] && mf[state_key_spec(name)] == (match update_for(
        updv,
        name,
    ) {
        Some(st) => encode_utf8(st),
        None => m0[state_key_spec(name)],
    }) by {
        lemma_namespaces_disjoint(0, name, name);
        assert forall|t: int| 0 <= t < kcount implies reducer_key_spec(name)
            != #[trigger] elem_key_spec((n + t) as u32) && state_key_spec(name)
            != #[trigger] elem_key_spec((n + t) as u32) by {
            lemma_namespaces_disjoint((n + t) as u32, name, name);
        }
        assert(ie[reducer_key_spec(name)] == m0[reducer_key_spec(name)]);
        assert(ie.dom().contains(reducer_key_spec(name)));
        assert forall|other: Seq<char>|
            reducer_key_spec(name) != #[trigger] state_key_spec(other) by {
            lemma_namespaces_disjoint(0, name, other);
        }
        assert(au[reducer_key_spec(name)] == ie[reducer_key_spec(name)]);
        assert(m0.dom().contains(state_key_spec(name)));
        assert(ie[state_key_spec(name)] == m0[state_key_spec(name)]);
        assert(ie.dom().contains(state_key_spec(name)));
        assert(mf[state_key_spec(name)] == au[state_key_spec(name)]);
    }
    // well-formedness of the result
    assert(array_len(am) == newlen);
    assert forall|i: u32| (i as int) < array_len(am) implies am.dom().contains(
        #[trigger] elem_key_spec(i),
    ) && valid_utf8(am[elem_key_spec(i)]) by {
        lemma_namespaces_disjoint(i, Seq::empty(), Seq::empty());
        if (i as int) < n {
            lemma_index_contiguity(m0, i);
            assert(ie.dom().contains(elem_key_spec(i)));
            assert(am[elem_key_spec(i)] == m0[elem_key_spec(i)]);
        } else {
            let j: int = i - n;
            assert(elem_key_spec((n + j) as u32) == elem_key_spec(i));
            assert(ie.dom().contains(elem_key_spec((n + j) as u32)));
            assert(am[elem_key_spec(i)] == encode_utf8(accv[j]));
            vstd::utf8::encode_utf8_valid_utf8(accv[j]);
        }
        assert(au.dom().contains(elem_key_spec(i)));
    }
    assert forall|k: Seq<u8>| #[trigger] am.dom().contains(k) implies key_shape(am, k) by {
        if k != len_key_spec() {
            assert(au.dom().contains(k));
            assert(ie.dom().contains(k));
            if m0.dom().contains(k) {
                assert(key_shape(m0, k));
                if exists|i: u32| (i as int) < array_len(m0) && k == #[trigger] elem_key_spec(i) {
                    let i = choose|i: u32|
                        (i as int) < array_len(m0) && k == #[trigger] elem_key_spec(i);
                    assert((i as int) < array_len(am));
                }
            } else {
                let t = choose|t: int|
                    0 <= t < kcount && k == #[trigger] elem_key_spec((n + t) as u32);
                assert((n + t) < array_len(am));
                assert(k == elem_key_spec((n + t) as u32));
            }
        }
    }
    assert forall|name: Seq<char>|
        am.dom().contains(#[trigger] reducer_key_spec(name)) <==> am.dom().contains(
        #[trigger] state_key_spec(name),
    ) by {
        lemma_namespaces_disjoint(0, name, name);
        if am.dom().contains(state_key_spec(name)) && !m0.dom().contains(state_key_spec(name)) {
            assert(ie.dom().contains(state_key_spec(name)));
            let t = choose|t: int|
                0 <= t < kcount && state_key_spec(name) == #[trigger] elem_key_spec(
                    (n + t) as u32,
                );
            lemma_namespaces_disjoint((n + t) as u32, name, name);
            assert(false);
        }
        if m0.dom().contains(state_key_spec(name)) {
            assert(ie.dom().contains(state_key_spec(name)));
            assert(au.dom().contains(state_key_spec(name)));
            assert(am.dom().contains(state_key_spec(name)));
        }
        assert(am.dom().contains(state_key_spec(name)) <==> m0.dom().contains(
            state_key_spec(name),
        ));
    }
    assert forall|name: Seq<char>|
        am.dom().contains(#[trigger] reducer_key_spec(name)) implies valid_utf8(
        am[reducer_key_spec(name)],
    ) && valid_utf8(am[state_key_spec(name)]) by {
        assert(m0.dom().contains(reducer_key_spec(name)));
        match update_for(updv, name) {
            Some(st) => {
                vstd::utf8::encode_utf8_valid_utf8(st);
                assert(am[state_key_spec(name)] == encode_utf8(st));
            },
            None => {
                assert(am[state_key_spec(name)] == m0[state_key_spec(name)]);
            },
        }
    }
}

} // verus!
