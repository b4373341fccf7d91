//! The reducer engine: named persistent aggregations attached to the array.
//!
//! A reducer is a fold function (its script, compiled and run by the caller's
//! script sandbox) plus a running aggregate state.  The engine stores both
//! under the reducer's name and updates the state atomically with every push:
//! the caller folds the script over the newly accepted elements — passing
//! each element's position *within that push batch*, not its global index,
//! as the third argument — and hands the folded states to
//! [`crate::array::push`], which writes them in the same batch as the
//! elements.  The fold laws at the end of this module say that this
//! incremental maintenance agrees with a from-scratch fold over the whole
//! history of batches.

use vstd::prelude::*;
use vstd::utf8::{encode_utf8, encode_utf8_valid_utf8, valid_utf8};

use crate::array::{array_len, key_shape, length_state, wf_array};
use crate::bytes::{bytes_eq, copy_bytes};
use crate::codec::{
    bytes_to_string, elem_key_spec, elem_prefix, len_key_spec, lemma_encode_utf8_injective,
    lemma_lex_lt_head, lemma_namespaces_disjoint, lemma_reducer_scan_shapes, reducer_key,
    reducer_key_spec, reducer_prefix, reducer_scan_end, reducer_scan_start, state_key,
    state_key_spec, str_bytes,
};
use crate::store::{
    apply_batch, apply_deletes, apply_merges, apply_puts, apply_range_deletes, Batch, Store,
};
use crate::Error;

verus! {

/// The one name no reducer may take.
pub open spec fn reserved_name() -> Seq<char> {
    seq!['l', 'e', 'n', 'g', 't', 'h']
}

/// Exec check of the reserved name, by its UTF-8 bytes.
fn is_reserved(name: &str) -> (r: bool)
    ensures
        r == (name@ == reserved_name()),
{
    let nb = str_bytes(name);
    let mut lit: Vec<u8> = Vec::new();
    lit.push(108);
    lit.push(101);
    lit.push(110);
    lit.push(103);
    lit.push(116);
    lit.push(104);
    let r = bytes_eq(&nb, &lit);
    proof {
        broadcast use vstd::utf8::is_ascii_chars_encode_utf8;

        assert(vstd::utf8::is_ascii_chars(reserved_name())) by {
            assert forall|i: int| 0 <= i < reserved_name().len() implies '\0'
                <= #[trigger] reserved_name()[i] <= '\u{7f}' by {
                assert(reserved_name()[i] == 'l' || reserved_name()[i] == 'e' || reserved_name()[i]
                    == 'n' || reserved_name()[i] == 'g' || reserved_name()[i] == 't'
                    || reserved_name()[i] == 'h');
            }
        }
        assert(encode_utf8(reserved_name()) =~= lit@);
        if nb@ == lit@ {
            lemma_encode_utf8_injective(name@, reserved_name());
        }
    }
    r
}

/// Attach a reducer: store its script and its starting aggregate state, as
/// one atomic batch.  The state handed in is the script already folded over
/// every current element (using global indices); the engine stores it
/// verbatim.  The reserved name `length` is rejected with no key written;
/// any other name is accepted, overwriting a reducer of the same name.
pub fn attach(store: &mut Store, name: String, script: String, state: String) -> (r: Result<
    (),
    Error,
>)
    requires
        old(store).wf(),
        wf_array(old(store)@),
    ensures
        final(store).wf(),
        wf_array(final(store)@),
        r is Err <==> name@ == reserved_name(),
        r is Err ==> r == Result::<(), Error>::Err(Error::ReservedName) && final(store)@ == old(
            store,
        )@,
        r is Ok ==> final(store)@ == old(store)@.insert(
            reducer_key_spec(name@),
            encode_utf8(script@),
        ).insert(state_key_spec(name@), encode_utf8(state@)),
{
    if is_reserved(name.as_str()) {
        return Err(Error::ReservedName);
    }
    let ghost m0 = store@;
    let mut b = Batch::new();
    b.puts.push((reducer_key(name.as_str()), str_bytes(script.as_str())));
    b.puts.push((state_key(name.as_str()), str_bytes(state.as_str())));
    store.commit(&b);
    proof {
        lemma_attach_effect(m0, b, name@, script@, state@);
    }
    Ok(())
}

/// What attach's batch does to a well-formed store.
proof fn lemma_attach_effect(
    m0: Map<Seq<u8>, Seq<u8>>,
    b: Batch,
    name: Seq<char>,
    script: Seq<char>,
    state: Seq<char>,
)
    requires
        wf_array(m0),
        b.deletes@.len() == 0,
        b.merges@.len() == 0,
        b.range_deletes@.len() == 0,
        b.puts@.len() == 2,
        b.puts@[0].0@ == reducer_key_spec(name),
        b.puts@[0].1@ == encode_utf8(script),
        b.puts@[1].0@ == state_key_spec(name),
        b.puts@[1].1@ == encode_utf8(state),
    ensures
        apply_batch(m0, b) == m0.insert(reducer_key_spec(name), encode_utf8(script)).insert(
            state_key_spec(name),
            encode_utf8(state),
        ),
        wf_array(apply_batch(m0, b)),
{
    let m1 = m0.insert(reducer_key_spec(name), encode_utf8(script));
    let m2 = m1.insert(state_key_spec(name), encode_utf8(state));
    assert(b.puts@.drop_last() =~= seq![b.puts@[0]]);
    assert(seq![b.puts@[0]].drop_last() =~= Seq::<(Vec<u8>, Vec<u8>)>::empty());
    assert(apply_puts(m0, Seq::<(Vec<u8>, Vec<u8>)>::empty()) == m0);
    assert(apply_puts(m0, seq![b.puts@[0]]) == m1);
    assert(apply_puts(m0, b.puts@) == m2);
    assert(apply_deletes(m2, b.deletes@) == m2);
    assert(apply_merges(m2, b.merges@) == m2);
    assert(apply_range_deletes(m2, b.range_deletes@) == m2);
    let mf = apply_batch(m0, b);
    assert(mf == m2);
    lemma_namespaces_disjoint(0, name, name);
    assert(length_state(m2) == length_state(m0));
    assert forall|i: u32| (i as int) < array_len(m2) implies m2.dom().contains(
        #[trigger] elem_key_spec(i),
    ) && valid_utf8(m2[elem_key_spec(i)]) by {
        lemma_namespaces_disjoint(i, name, name);
    }
    assert forall|k: Seq<u8>| #[trigger] m2.dom().contains(k) implies key_shape(m2, k) by {
        if k == reducer_key_spec(name) || k == state_key_spec(name) {
        } else {
            assert(m0.dom().contains(k));
            assert(key_shape(m0, k));
            assert(array_len(m2) == array_len(m0));
        }
    }
    assert forall|other: Seq<char>|
        m2.dom().contains(#[trigger] reducer_key_spec(other)) <==> m2.dom().contains(
        #[trigger] state_key_spec(other),
    ) by {
        lemma_namespaces_disjoint(0, other, name);
        lemma_namespaces_disjoint(0, name, other);
        if other != name {
            assert(reducer_key_spec(other) != reducer_key_spec(name));
            assert(state_key_spec(other) != state_key_spec(name));
        }
    }
    assert forall|other: Seq<char>|
        m2.dom().contains(#[trigger] reducer_key_spec(other)) implies valid_utf8(
        m2[reducer_key_spec(other)],
    ) && valid_utf8(m2[state_key_spec(other)]) by {
        lemma_namespaces_disjoint(0, other, name);
        lemma_namespaces_disjoint(0, name, other);
        encode_utf8_valid_utf8(script);
        encode_utf8_valid_utf8(state);
        if other != name {
            assert(reducer_key_spec(other) != reducer_key_spec(name));
            assert(state_key_spec(other) != state_key_spec(name));
        }
    }
}

/// Detach the reducer called `name`: remove its script and state entries in
/// one batch.  The array's elements and length are untouched; a later push
/// simply no longer updates this reducer.  Removing an unattached name does
/// nothing.
pub fn delete(store: &mut Store, name: &str)
    requires
        old(store).wf(),
        wf_array(old(store)@),
    ensures
        final(store).wf(),
        wf_array(final(store)@),
        final(store)@ == old(store)@.remove(reducer_key_spec(name@)).remove(
            state_key_spec(name@),
        ),
{
    let ghost m0 = store@;
    let mut b = Batch::new();
    b.deletes.push(reducer_key(name));
    b.deletes.push(state_key(name));
    store.commit(&b);
    proof {
        let m1 = m0.remove(reducer_key_spec(name@));
        let m2 = m1.remove(state_key_spec(name@));
        assert(b.deletes@.drop_last() =~= seq![b.deletes@[0]]);
        assert(seq![b.deletes@[0]].drop_last() =~= Seq::<Vec<u8>>::empty());
        assert(apply_deletes(m0, Seq::<Vec<u8>>::empty()) == m0);
        assert(apply_deletes(m0, seq![b.deletes@[0]]) == m1);
        assert(apply_deletes(m0, b.deletes@) == m2);
        assert(apply_puts(m0, b.puts@) == m0);
        assert(apply_merges(m2, b.merges@) == m2);
        assert(apply_range_deletes(m2, b.range_deletes@) == m2);
        lemma_namespaces_disjoint(0, name@, name@);
        assert(length_state(m2) == length_state(m0));
        assert forall|i: u32| (i as int) < array_len(m2) implies m2.dom().contains(
            #[trigger] elem_key_spec(i),
        ) && valid_utf8(m2[elem_key_spec(i)]) by {
            lemma_namespaces_disjoint(i, name@, name@);
        }
        assert forall|k: Seq<u8>| #[trigger] m2.dom().contains(k) implies key_shape(m2, k) by {
            assert(m0.dom().contains(k));
            assert(key_shape(m0, k));
            assert(array_len(m2) == array_len(m0));
        }
        assert forall|other: Seq<char>|
            m2.dom().contains(#[trigger] reducer_key_spec(other)) <==> m2.dom().contains(
            #[trigger] state_key_spec(other),
        ) by {
            lemma_namespaces_disjoint(0, other, name@);
            lemma_namespaces_disjoint(0, name@, other);
            if other != name@ {
                assert(reducer_key_spec(other) != reducer_key_spec(name@));
                assert(state_key_spec(other) != state_key_spec(name@));
            }
        }
        assert forall|other: Seq<char>|
            m2.dom().contains(#[trigger] reducer_key_spec(other)) implies valid_utf8(
            m2[reducer_key_spec(other)],
        ) && valid_utf8(m2[state_key_spec(other)]) by {
            lemma_namespaces_disjoint(0, other, name@);
            lemma_namespaces_disjoint(0, name@, other);
            if other != name@ {
                assert(reducer_key_spec(other) != reducer_key_spec(name@));
                assert(state_key_spec(other) != state_key_spec(name@));
            }
        }
    }
}

/// Read the reducer's current aggregate state, or nothing when no reducer of
/// that name is attached.
pub fn state(store: &Store, name: &str) -> (r: Option<String>)
    requires
        store.wf(),
        wf_array(store@),
    ensures
        (match r {
            Some(s) => store@.dom().contains(state_key_spec(name@)) && encode_utf8(s@) == store@[
                state_key_spec(name@)],
            None => !store@.dom().contains(state_key_spec(name@)),
        }),
{
    let sk = state_key(name);
    match store.get(&sk) {
        None => None,
        Some(v) => {
            proof {
                assert(store@.dom().contains(state_key_spec(name@)));
                assert(key_shape(store@, state_key_spec(name@)));
                lemma_state_value_utf8(store@, name@);
            }
            match bytes_to_string(copy_bytes(v)) {
                Some(s) => Some(s),
                None => None,
            }
        },
    }
}

/// In a well-formed store, a present state key holds UTF-8 text.
proof fn lemma_state_value_utf8(m: Map<Seq<u8>, Seq<u8>>, name: Seq<char>)
    requires
        wf_array(m),
        m.dom().contains(state_key_spec(name)),
    ensures
        valid_utf8(m[state_key_spec(name)]),
{
    assert(key_shape(m, state_key_spec(name)));
    if state_key_spec(name) == len_key_spec() {
        lemma_namespaces_disjoint(0, name, name);
    } else if exists|i: u32| (i as int) < array_len(m) && state_key_spec(name)
        == #[trigger] elem_key_spec(i) {
        let i = choose|i: u32|
            (i as int) < array_len(m) && state_key_spec(name) == #[trigger] elem_key_spec(i);
        lemma_namespaces_disjoint(i, name, name);
    } else if exists|other: Seq<char>| state_key_spec(name) == #[trigger] reducer_key_spec(other) {
        let other = choose|other: Seq<char>|
            state_key_spec(name) == #[trigger] reducer_key_spec(other);
        lemma_namespaces_disjoint(0, other, name);
    } else {
        let other = choose|other: Seq<char>|
            state_key_spec(name) == #[trigger] state_key_spec(other);
        lemma_namespaces_disjoint(0, name, other);
        assert(other == name);
        assert(m.dom().contains(reducer_key_spec(name)));
    }
}


/// A key of a well-formed store lying in `[red, val)` is a reducer-script
/// key.
proof fn lemma_entry_is_reducer(m: Map<Seq<u8>, Seq<u8>>, k: Seq<u8>)
    requires
        wf_array(m),
        m.dom().contains(k),
        crate::store::in_range(reducer_prefix(), k, elem_prefix()),
    ensures
        exists|name: Seq<char>| k == #[trigger] reducer_key_spec(name),
{
    assert(key_shape(m, k));
    if k == len_key_spec() {
        lemma_lex_lt_head(len_key_spec(), reducer_prefix());
        crate::bytes::lemma_lex_lt_asymmetric(len_key_spec(), reducer_prefix());
        crate::bytes::lemma_lex_lt_irreflexive(len_key_spec());
        assert(false);
    } else if exists|i: u32| (i as int) < array_len(m) && k == #[trigger] elem_key_spec(i) {
        let i = choose|i: u32| (i as int) < array_len(m) && k == #[trigger] elem_key_spec(i);
        lemma_reducer_scan_shapes(Seq::empty(), i);
        crate::bytes::lemma_lex_lt_asymmetric(k, elem_prefix());
        assert(false);
    } else if exists|name: Seq<char>| k == #[trigger] reducer_key_spec(name) {
    } else {
        let name = choose|name: Seq<char>| k == #[trigger] state_key_spec(name);
        lemma_reducer_scan_shapes(name, 0);
        assert(false);
    }
}

/// The bytes of `v` from `start` on.
fn bytes_from(v: &Vec<u8>, start: usize) -> (r: Vec<u8>)
    requires
        start <= v@.len(),
    ensures
        r@ == v@.skip(start as int),
{
    let mut r: Vec<u8> = Vec::new();
    let mut i: usize = start;
    while i < v.len()
        invariant
            start <= i <= v@.len(),
            r@ == v@.subrange(start as int, i as int),
        decreases v@.len() - i,
    {
        r.push(v[i]);
        proof {
            assert(v@.subrange(start as int, i + 1) =~= v@.subrange(start as int, i as int).push(
                v@[i as int],
            ));
        }
        i = i + 1;
    }
    proof {
        assert(v@.subrange(start as int, v@.len() as int) =~= v@.skip(start as int));
    }
    r
}

/// The full mapping of reducer name to script text currently attached: one
/// entry per attached reducer, in ascending key order, nothing else.
pub fn reducers(store: &Store) -> (r: Vec<(String, String)>)
    requires
        store.wf(),
        wf_array(store@),
    ensures
        forall|a: int|
            #![trigger r@[a]]
            0 <= a < r@.len() ==> store@.dom().contains(reducer_key_spec(r@[a].0@)) && store@[
                reducer_key_spec(r@[a].0@)] == encode_utf8(r@[a].1@),
        forall|name: Seq<char>|
            store@.dom().contains(#[trigger] reducer_key_spec(name)) ==> exists|a: int|
                0 <= a < r@.len() && #[trigger] r@[a].0@ == name,
        forall|a: int, b: int|
            0 <= a < b < r@.len() ==> crate::bytes::lex_lt(
                reducer_key_spec(#[trigger] r@[a].0@),
                reducer_key_spec(#[trigger] r@[b].0@),
            ),
        forall|a: int, b: int|
            0 <= a < b < r@.len() ==> #[trigger] r@[a].0@ != #[trigger] r@[b].0@,
{
    let from = reducer_scan_start();
    let to = reducer_scan_end();
    let entries = store.scan(&from, &to);
    let mut r: Vec<(String, String)> = Vec::new();
    let mut e: usize = 0;
    while e < entries.len()
        invariant
            store.wf(),
            wf_array(store@),
            0 <= e <= entries@.len(),
            forall|a: int|
                #![trigger entries@[a]]
                0 <= a < entries@.len() ==> store@.dom().contains(entries@[a].0@) && entries@[a].1@
                    == store@[entries@[a].0@] && crate::store::in_range(
                    reducer_prefix(),
                    entries@[a].0@,
                    elem_prefix(),
                ),
            r@.len() == e,
            forall|a: int|
                #![trigger r@[a]]
                0 <= a < e ==> reducer_key_spec(r@[a].0@) == entries@[a].0@ && store@.dom()
                    .contains(reducer_key_spec(r@[a].0@)) && store@[reducer_key_spec(r@[a].0@)]
                    == encode_utf8(r@[a].1@),
        decreases entries@.len() - e,
    {
        proof {
            assert(entries@[e as int] == entries@[e as int]);
            lemma_entry_is_reducer(store@, entries@[e as int].0@);
        }
        let ghost nm = choose|name: Seq<char>|
            entries@[e as int].0@ == #[trigger] reducer_key_spec(name);
        proof {
            assert(entries@[e as int].0@.len() == 3 + encode_utf8(nm).len());
            assert(entries@[e as int].0@.skip(3) =~= encode_utf8(nm));
            encode_utf8_valid_utf8(nm);
            assert(store@.dom().contains(reducer_key_spec(nm)));
        }
        let suffix = bytes_from(&entries[e].0, 3);
        let name = match bytes_to_string(suffix) {
            Some(s) => s,
            None => {
                proof {
                    assert(false);
                }
                String::new()
            },
        };
        proof {
            lemma_encode_utf8_injective(name@, nm);
        }
        let script = match bytes_to_string(copy_bytes(&entries[e].1)) {
            Some(s) => s,
            None => {
                proof {
                    assert(false);
                }
                String::new()
            },
        };
        r.push((name, script));
        e = e + 1;
    }
    proof {
        assert forall|name: Seq<char>|
            store@.dom().contains(#[trigger] reducer_key_spec(name)) implies exists|a: int|
            0 <= a < r@.len() && #[trigger] r@[a].0@ == name by {
            lemma_reducer_scan_shapes(name, 0);
            assert(crate::store::has_key(entries@, reducer_key_spec(name)));
            let a = choose|a: int|
                0 <= a < entries@.len() && entries@[a].0@ == reducer_key_spec(name);
            assert(r@[a] == r@[a]);
            assert(reducer_key_spec(r@[a].0@) == reducer_key_spec(name));
            crate::codec::lemma_namespaces_disjoint(0, r@[a].0@, name);
        }
        assert forall|a: int, b: int| 0 <= a < b < r@.len() implies crate::bytes::lex_lt(
            reducer_key_spec(#[trigger] r@[a].0@),
            reducer_key_spec(#[trigger] r@[b].0@),
        ) && r@[a].0@ != r@[b].0@ by {
            assert(reducer_key_spec(r@[a].0@) == entries@[a].0@);
            assert(reducer_key_spec(r@[b].0@) == entries@[b].0@);
            assert(crate::bytes::lex_lt(entries@[a].0@, entries@[b].0@));
            if r@[a].0@ == r@[b].0@ {
                crate::bytes::lemma_lex_lt_irreflexive(entries@[a].0@);
            }
        }
    }
    r
}

/// One incremental fold step: folding `acc` over the elements of one batch,
/// handing each element its position within the batch (not its global
/// index) as the third argument.
pub open spec fn fold_batch(
    f: spec_fn(Seq<char>, Seq<char>, int) -> Seq<char>,
    acc: Seq<char>,
    elems: Seq<Seq<char>>,
) -> Seq<char>
    decreases elems.len(),
{
    if elems.len() == 0 {
        acc
    } else {
        f(fold_batch(f, acc, elems.drop_last()), elems.last(), elems.len() - 1)
    }
}

/// The from-scratch fold over a whole history of push batches: each batch is
/// folded in order, with batch-relative positions.
pub open spec fn fold_history(
    f: spec_fn(Seq<char>, Seq<char>, int) -> Seq<char>,
    init: Seq<char>,
    batches: Seq<Seq<Seq<char>>>,
) -> Seq<char>
    decreases batches.len(),
{
    if batches.len() == 0 {
        init
    } else {
        fold_batch(f, fold_history(f, init, batches.drop_last()), batches.last())
    }
}

/// Incremental equals full fold: folding one new batch onto the running
/// state gives the same value as the from-scratch fold over the whole
/// history, batch by batch, with the batch-relative positions the engine
/// hands to every script.
pub proof fn lemma_incremental_fold(
    f: spec_fn(Seq<char>, Seq<char>, int) -> Seq<char>,
    init: Seq<char>,
    batches: Seq<Seq<Seq<char>>>,
    b: Seq<Seq<char>>,
)
    ensures
        fold_history(f, init, batches.push(b)) == fold_batch(f, fold_history(f, init, batches), b),
{
    assert(batches.push(b).drop_last() =~= batches);
    assert(batches.push(b).last() == b);
}

/// The state attach stores is the fold of a one-batch history: for the
/// elements present at attach time, batch-relative positions coincide with
/// global indices.
pub proof fn lemma_attach_starts_fold(
    f: spec_fn(Seq<char>, Seq<char>, int) -> Seq<char>,
    init: Seq<char>,
    elems: Seq<Seq<char>>,
)
    ensures
        fold_history(f, init, seq![elems]) == fold_batch(f, init, elems),
{
    assert(seq![elems].drop_last() =~= Seq::<Seq<Seq<char>>>::empty());
    assert(fold_history(f, init, Seq::<Seq<Seq<char>>>::empty()) == init);
    assert(seq![elems].last() == elems);
}

/// Incremental maintenance through the engine: when a reducer's stored state
/// is the fold of its history and a push hands it exactly one incremental
/// fold step over that push's accepted elements, the stored state after the
/// push is the from-scratch fold over the extended history.  The hypotheses
/// about `m0` and `mf` are what `crate::array::push` ensures of the store
/// before and after.
pub proof fn lemma_push_maintains_fold(
    m0: Map<Seq<u8>, Seq<u8>>,
    mf: Map<Seq<u8>, Seq<u8>>,
    name: Seq<char>,
    updates: Seq<(Seq<char>, Seq<char>)>,
    f: spec_fn(Seq<char>, Seq<char>, int) -> Seq<char>,
    init: Seq<char>,
    batches: Seq<Seq<Seq<char>>>,
    new_batch: Seq<Seq<char>>,
)
    requires
        m0.dom().contains(reducer_key_spec(name)),
        m0[state_key_spec(name)] == encode_utf8(fold_history(f, init, batches)),
        crate::array::update_for(updates, name) == Some(
            fold_batch(f, fold_history(f, init, batches), new_batch),
        ),
        mf[state_key_spec(name)] == (match crate::array::update_for(updates, name) {
            Some(st) => encode_utf8(st),
            None => m0[state_key_spec(name)],
        }),
    ensures
        mf[state_key_spec(name)] == encode_utf8(fold_history(f, init, batches.push(new_batch))),
{
    lemma_incremental_fold(f, init, batches, new_batch);
}

} // verus!
