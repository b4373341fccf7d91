use bigarray::array::{clear, get, length, pop, push, slice};
use bigarray::reducer::{attach, delete, reducers, state};
use bigarray::store::Store;
use bigarray::Error;

fn s(text: &str) -> String {
    text.to_string()
}

#[test]
fn push_three_then_slice() {
    let mut store = Store::new();
    let n = push(&mut store, vec![s("1"), s("2"), s("3")], Vec::new()).unwrap();
    assert_eq!(n, 3);
    assert_eq!(length(&store).unwrap(), 3);
    assert_eq!(slice(&store, 0, None), vec![s("1"), s("2"), s("3")]);
}

#[test]
fn attach_sum_records_folded_state() {
    let mut store = Store::new();
    push(&mut store, vec![s("1"), s("2"), s("3")], Vec::new()).unwrap();
    // the shell folds the script over the current elements; 1 + 2 + 3 = 6
    attach(&mut store, s("sum"), s("(a, v, i) => a + v"), s("6")).unwrap();
    assert_eq!(state(&store, "sum"), Some(s("6")));
    let listed = reducers(&store);
    assert_eq!(listed.len(), 1);
    assert_eq!(listed[0].0, s("sum"));
    assert_eq!(listed[0].1, s("(a, v, i) => a + v"));
}

#[test]
fn push_updates_only_attached_reducers() {
    let mut store = Store::new();
    push(&mut store, vec![s("1"), s("2"), s("3")], Vec::new()).unwrap();
    attach(&mut store, s("sum"), s("(a, v, i) => a + v"), s("6")).unwrap();
    // one incremental fold step over the new element: 6 + 4 = 10
    let n = push(
        &mut store,
        vec![s("4")],
        vec![(s("sum"), s("10")), (s("ghostly"), s("99"))],
    )
    .unwrap();
    assert_eq!(n, 4);
    assert_eq!(state(&store, "sum"), Some(s("10")));
    // an update naming no attached reducer writes nothing
    assert_eq!(state(&store, "ghostly"), None);
    assert_eq!(reducers(&store).len(), 1);
}

#[test]
fn push_skips_elements_that_are_not_json() {
    let mut store = Store::new();
    let n = push(&mut store, vec![s("not json"), s("5")], Vec::new()).unwrap();
    // the rejected element consumes no index and does not count
    assert_eq!(n, 1);
    assert_eq!(slice(&store, 0, None), vec![s("5")]);
    assert_eq!(get(&store, 0), Some(s("5")));
    assert_eq!(get(&store, 1), None);
}

#[test]
fn pop_returns_tail_and_decrements() {
    let mut store = Store::new();
    push(&mut store, vec![s("1"), s("2"), s("3"), s("4")], Vec::new()).unwrap();
    assert_eq!(pop(&mut store), Some(s("4")));
    assert_eq!(length(&store).unwrap(), 3);
    assert_eq!(slice(&store, 0, None), vec![s("1"), s("2"), s("3")]);
}

#[test]
fn pop_on_empty_array_is_a_no_op() {
    let mut store = Store::new();
    assert_eq!(pop(&mut store), None);
    assert_eq!(length(&store).unwrap(), 0);
}

#[test]
fn attach_rejects_the_reserved_name() {
    let mut store = Store::new();
    push(&mut store, vec![s("1")], Vec::new()).unwrap();
    let r = attach(&mut store, s("length"), s("(a, v, i) => a"), s("0"));
    assert_eq!(r, Err(Error::ReservedName));
    assert_eq!(reducers(&store).len(), 0);
    assert_eq!(state(&store, "length"), None);
    // the array itself is untouched
    assert_eq!(length(&store).unwrap(), 1);
}

#[test]
fn delete_detaches_and_later_pushes_ignore_it() {
    let mut store = Store::new();
    attach(&mut store, s("sum"), s("(a, v, i) => a + v"), s("0")).unwrap();
    delete(&mut store, "sum");
    assert_eq!(state(&store, "sum"), None);
    assert_eq!(reducers(&store).len(), 0);
    push(&mut store, vec![s("7")], vec![(s("sum"), s("7"))]).unwrap();
    assert_eq!(state(&store, "sum"), None);
    assert_eq!(get(&store, 0), Some(s("7")));
}

#[test]
fn clear_resets_length_and_keeps_reducers() {
    let mut store = Store::new();
    push(&mut store, vec![s("1"), s("2")], Vec::new()).unwrap();
    attach(&mut store, s("sum"), s("(a, v, i) => a + v"), s("3")).unwrap();
    clear(&mut store);
    assert_eq!(length(&store).unwrap(), 0);
    assert!(slice(&store, 0, None).is_empty());
    assert_eq!(get(&store, 0), None);
    assert_eq!(state(&store, "sum"), Some(s("3")));
    assert_eq!(reducers(&store).len(), 1);
}

#[test]
fn slice_ranges_clamp_to_length() {
    let mut store = Store::new();
    push(
        &mut store,
        vec![s("10"), s("11"), s("12"), s("13")],
        Vec::new(),
    )
    .unwrap();
    assert_eq!(slice(&store, 1, Some(3)), vec![s("11"), s("12")]);
    assert_eq!(slice(&store, 1, None), vec![s("11"), s("12"), s("13")]);
    assert_eq!(slice(&store, 0, Some(99)), vec![s("10"), s("11"), s("12"), s("13")]);
    assert!(slice(&store, 4, None).is_empty());
    assert!(slice(&store, 2, Some(2)).is_empty());
    assert!(slice(&store, 3, Some(1)).is_empty());
}

#[test]
fn later_update_of_one_name_wins() {
    let mut store = Store::new();
    attach(&mut store, s("sum"), s("(a, v, i) => a + v"), s("0")).unwrap();
    push(
        &mut store,
        vec![s("1")],
        vec![(s("sum"), s("1")), (s("sum"), s("2"))],
    )
    .unwrap();
    assert_eq!(state(&store, "sum"), Some(s("2")));
}

#[test]
fn attach_overwrites_a_reducer_of_the_same_name() {
    let mut store = Store::new();
    attach(&mut store, s("sum"), s("(a, v, i) => a + v"), s("0")).unwrap();
    attach(&mut store, s("sum"), s("(a, v, i) => a * v"), s("1")).unwrap();
    let listed = reducers(&store);
    assert_eq!(listed.len(), 1);
    assert_eq!(listed[0].1, s("(a, v, i) => a * v"));
    assert_eq!(state(&store, "sum"), Some(s("1")));
}

#[test]
fn elements_round_trip_through_the_store() {
    let mut store = Store::new();
    let text = s("{\"k\": [1, 2, {\"x\": \"caf\\u00e9\"}]}");
    push(&mut store, vec![text.clone()], Vec::new()).unwrap();
    assert_eq!(get(&store, 0), Some(text));
}

#[test]
fn corrupt_length_is_reported() {
    let mut store = Store::new();
    store.put(bigarray::codec::len_key(), vec![1, 2]);
    assert_eq!(length(&store), Err(Error::Corrupt));
    store.put(
        bigarray::codec::len_key(),
        bigarray::merge::encode_counter(-7),
    );
    assert_eq!(length(&store), Err(Error::Corrupt));
}

#[test]
fn push_reports_overflow_at_the_length_limit() {
    let mut store = Store::new();
    store.put(
        bigarray::codec::len_key(),
        bigarray::merge::encode_counter(i32::MAX),
    );
    let r = push(&mut store, vec![s("1")], Vec::new());
    assert_eq!(r, Err(Error::Overflow));
}

#[test]
fn indices_stay_contiguous_through_mixed_operations() {
    let mut store = Store::new();
    push(&mut store, vec![s("1"), s("2")], Vec::new()).unwrap();
    pop(&mut store);
    push(&mut store, vec![s("3"), s("bad json"), s("4")], Vec::new()).unwrap();
    pop(&mut store);
    let n = length(&store).unwrap();
    assert_eq!(n, 2);
    for i in 0..n {
        assert!(get(&store, i).is_some());
    }
    assert!(get(&store, n).is_none());
    clear(&mut store);
    assert_eq!(length(&store).unwrap(), 0);
    assert!(get(&store, 0).is_none());
}

#[test]
fn reducers_lists_each_name_once_in_key_order() {
    let mut store = Store::new();
    attach(&mut store, s("zeta"), s("(a, v, i) => a"), s("0")).unwrap();
    attach(&mut store, s("alpha"), s("(a, v, i) => v"), s("1")).unwrap();
    attach(&mut store, s("zeta"), s("(a, v, i) => i"), s("2")).unwrap();
    let listed = reducers(&store);
    assert_eq!(listed.len(), 2);
    assert_eq!(listed[0].0, s("alpha"));
    assert_eq!(listed[1].0, s("zeta"));
    assert_eq!(listed[1].1, s("(a, v, i) => i"));
}
