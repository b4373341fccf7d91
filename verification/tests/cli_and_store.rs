use bigarray::cli::{cmd_from_args, parse_i32, Cmd};
use bigarray::codec::{elem_key, len_key};
use bigarray::store::{Batch, Store};

fn s(text: &str) -> String {
    text.to_string()
}

#[test]
fn parse_i32_accepts_decimal_integers() {
    assert_eq!(parse_i32("0"), Some(0));
    assert_eq!(parse_i32("123"), Some(123));
    assert_eq!(parse_i32("007"), Some(7));
    assert_eq!(parse_i32("-5"), Some(-5));
    assert_eq!(parse_i32("+7"), Some(7));
    assert_eq!(parse_i32("+2147483647"), Some(i32::MAX));
    assert_eq!(parse_i32("2147483647"), Some(i32::MAX));
    assert_eq!(parse_i32("-2147483648"), Some(i32::MIN));
}

#[test]
fn parse_i32_rejects_everything_else() {
    assert_eq!(parse_i32(""), None);
    assert_eq!(parse_i32("-"), None);
    assert_eq!(parse_i32("+"), None);
    assert_eq!(parse_i32("+-1"), None);
    assert_eq!(parse_i32("12a"), None);
    assert_eq!(parse_i32(" 1"), None);
    assert_eq!(parse_i32("2147483648"), None);
    assert_eq!(parse_i32("-2147483649"), None);
    assert_eq!(parse_i32("99999999999999999999"), None);
}

#[test]
fn commands_parse_as_documented() {
    let argv = |items: &[&str]| items.iter().map(|x| s(x)).collect::<Vec<String>>();
    assert!(matches!(
        cmd_from_args(argv(&["prog", "push", "1", "2"])),
        Some(Cmd::Push(v)) if v == vec![s("1"), s("2")]
    ));
    assert!(matches!(cmd_from_args(argv(&["prog", "pop"])), Some(Cmd::Pop)));
    assert!(matches!(cmd_from_args(argv(&["prog", "length"])), Some(Cmd::Length)));
    assert!(matches!(cmd_from_args(argv(&["prog", "clear"])), Some(Cmd::Clear)));
    assert!(matches!(cmd_from_args(argv(&["prog", "reducers"])), Some(Cmd::Reducers)));
    assert!(matches!(
        cmd_from_args(argv(&["prog", "slice"])),
        Some(Cmd::Slice(0, None))
    ));
    assert!(matches!(
        cmd_from_args(argv(&["prog", "slice", "2"])),
        Some(Cmd::Slice(2, None))
    ));
    assert!(matches!(
        cmd_from_args(argv(&["prog", "slice", "1", "3"])),
        Some(Cmd::Slice(1, Some(3)))
    ));
    assert!(cmd_from_args(argv(&["prog", "slice", "x"])).is_none());
    assert!(matches!(
        cmd_from_args(argv(&["prog", "reduce", "f", "0"])),
        Some(Cmd::Reduce(sc, Some(init))) if sc == s("f") && init == s("0")
    ));
    assert!(cmd_from_args(argv(&["prog", "reduce", "f"])).is_none());
    assert!(matches!(
        cmd_from_args(argv(&["prog", "attach", "sum", "f", "0"])),
        Some(Cmd::Attach(nm, sc, Some(init))) if nm == s("sum") && sc == s("f") && init == s("0")
    ));
    assert!(matches!(
        cmd_from_args(argv(&["prog", "attach", "sum", "f"])),
        Some(Cmd::Attach(nm, sc, None)) if nm == s("sum") && sc == s("f")
    ));
    assert!(cmd_from_args(argv(&["prog", "attach", "sum"])).is_none());
    assert!(matches!(
        cmd_from_args(argv(&["prog", "get", "sum"])),
        Some(Cmd::Get(nm)) if nm == s("sum")
    ));
    assert!(matches!(
        cmd_from_args(argv(&["prog", "del", "sum"])),
        Some(Cmd::Del(nm)) if nm == s("sum")
    ));
    assert!(cmd_from_args(argv(&["prog"])).is_none());
    assert!(cmd_from_args(argv(&["prog", "frobnicate"])).is_none());
}

#[test]
fn store_point_operations() {
    let mut store = Store::new();
    store.put(vec![1, 2], vec![10]);
    store.put(vec![1, 1], vec![11]);
    store.put(vec![1, 2], vec![12]);
    assert_eq!(store.get(&vec![1, 2]), Some(&vec![12u8]));
    assert_eq!(store.get(&vec![1, 1]), Some(&vec![11u8]));
    assert_eq!(store.get(&vec![9]), None);
    store.delete(&vec![1, 1]);
    assert_eq!(store.get(&vec![1, 1]), None);
}

#[test]
fn store_scans_in_key_order() {
    let mut store = Store::new();
    store.put(vec![3], vec![30]);
    store.put(vec![1], vec![10]);
    store.put(vec![2], vec![20]);
    store.put(vec![4], vec![40]);
    let scanned = store.scan(&vec![2], &vec![4]);
    assert_eq!(scanned, vec![(vec![2u8], vec![20u8]), (vec![3u8], vec![30u8])]);
}

#[test]
fn store_commits_a_batch_as_a_whole() {
    let mut store = Store::new();
    store.put(vec![0], vec![0]);
    let mut b = Batch::new();
    b.puts.push((elem_key(0), vec![49]));
    b.puts.push((elem_key(1), vec![50]));
    b.deletes.push(vec![0]);
    b.merges.push((len_key(), bigarray::merge::encode_counter(2)));
    b.range_deletes.push((vec![200], vec![201]));
    store.commit(&b);
    assert_eq!(store.get(&elem_key(0)), Some(&vec![49u8]));
    assert_eq!(store.get(&elem_key(1)), Some(&vec![50u8]));
    assert_eq!(store.get(&vec![0]), None);
    assert_eq!(
        bigarray::merge::decode_counter(store.get(&len_key()).unwrap()),
        2
    );
}

#[test]
fn store_range_delete_removes_half_open_ranges() {
    let mut store = Store::new();
    for k in 0u8..6 {
        store.put(vec![k], vec![k + 100]);
    }
    store.delete_range(&vec![1], &vec![4]);
    assert_eq!(store.get(&vec![0]), Some(&vec![100u8]));
    assert_eq!(store.get(&vec![1]), None);
    assert_eq!(store.get(&vec![3]), None);
    assert_eq!(store.get(&vec![4]), Some(&vec![104u8]));
    assert_eq!(store.get(&vec![5]), Some(&vec![105u8]));
}
