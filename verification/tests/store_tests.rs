use multimap::MultiMap;
use price_store::Container;
use price_store::Meta;
use price_store::Price;
use price_store::Size;

fn entry(size: u64, payload: &str) -> (u64, String) {
    (size, payload.to_owned())
}

#[test]
fn test_process() {
    let mut expected: MultiMap<u64, (u64, String)> = MultiMap::new();
    expected.insert(0, entry(0, ""));
    expected.insert(0, entry(3, ""));
    expected.insert(1, entry(4, ""));

    let mut c = Container::new();
    c.add(Price(0), Size(0), Meta("".to_owned()));
    c.add(Price(0), Size(3), Meta("".to_owned()));
    c.add(Price(1), Size(4), Meta("".to_owned()));
    c.add(Price(1), Size(8), Meta("".to_owned()));
    c.add(Price(3), Size(3), Meta("".to_owned()));
    c.add(Price(4), Size(2), Meta("".to_owned()));

    let filtered = c.process(Price(3), Size(7));

    assert_eq!(c.data.len(), 4);
    assert_eq!(filtered.data.len(), 2);

    // Check that filtered contains all the data that should be there.
    assert_eq!(expected.len(), filtered.data.len());

    for (price, items) in expected.iter_all() {
        let f_vec = filtered.data.get_vec(price);
        assert!(f_vec.is_some());
        let f_vec = f_vec.unwrap();
        assert_eq!(f_vec.len(), items.len());

        for item in items {
            assert!(f_vec.contains(item));
        }

        // Check that not filtered data does not have anything from expected.
        if let Some(vec) = c.data.get_vec(price) {
            for item in items {
                assert!(!vec.contains(item));
            }
        }
    }
}

#[test]
fn test_process_exact_scenario() {
    let mut c = Container::new();
    c.add(Price(0), Size(0), Meta("".to_owned()));
    c.add(Price(0), Size(3), Meta("".to_owned()));
    c.add(Price(1), Size(4), Meta("".to_owned()));
    c.add(Price(1), Size(8), Meta("".to_owned()));
    c.add(Price(3), Size(3), Meta("".to_owned()));
    c.add(Price(4), Size(2), Meta("".to_owned()));

    let filtered = c.process(Price(3), Size(7));

    // The returned store holds exactly the consumed entries, in order.
    assert_eq!(filtered.data.len(), 2);
    assert_eq!(
        filtered.data.get_vec(&0),
        Some(&vec![entry(0, ""), entry(3, "")])
    );
    assert_eq!(filtered.data.get_vec(&1), Some(&vec![entry(4, "")]));
    let total: u64 = filtered
        .data
        .iter_all()
        .flat_map(|(_, items)| items.iter().map(|e| e.0))
        .sum();
    assert_eq!(total, 7);

    // The source store keeps all four keys; price 0 is emptied but kept,
    // price 1 keeps the never-consumed size-8 entry, prices 3 and 4 are
    // untouched.
    assert_eq!(c.data.len(), 4);
    assert_eq!(c.data.get_vec(&0), Some(&Vec::new()));
    assert_eq!(c.data.get_vec(&1), Some(&vec![entry(8, "")]));
    assert_eq!(c.data.get_vec(&3), Some(&vec![entry(3, "")]));
    assert_eq!(c.data.get_vec(&4), Some(&vec![entry(2, "")]));
}

#[test]
fn test_non_short_circuit() {
    // A later smaller entry is consumed even though an earlier entry in
    // the same level was skipped for exceeding the budget.
    let mut c = Container::new();
    c.add(Price(0), Size(5), Meta("big".to_owned()));
    c.add(Price(0), Size(2), Meta("small".to_owned()));

    let filtered = c.process(Price(1), Size(3));

    assert_eq!(filtered.data.get_vec(&0), Some(&vec![entry(2, "small")]));
    assert_eq!(c.data.get_vec(&0), Some(&vec![entry(5, "big")]));
}

#[test]
fn test_non_short_circuit_across_levels() {
    // A skipped entry at a cheap level does not stop consumption at a
    // dearer level.
    let mut c = Container::new();
    c.add(Price(1), Size(9), Meta("".to_owned()));
    c.add(Price(2), Size(4), Meta("".to_owned()));

    let filtered = c.process(Price(5), Size(4));

    assert!(filtered.data.get_vec(&1).is_none());
    assert_eq!(filtered.data.get_vec(&2), Some(&vec![entry(4, "")]));
    assert_eq!(c.data.get_vec(&1), Some(&vec![entry(9, "")]));
    assert_eq!(c.data.get_vec(&2), Some(&Vec::new()));
}

#[test]
fn test_process_empty_store() {
    let mut c = Container::new();
    let filtered = c.process(Price(10), Size(10));
    assert!(filtered.data.is_empty());
    assert!(c.data.is_empty());
}

#[test]
fn test_process_zero_ceiling() {
    let mut c = Container::new();
    c.add(Price(0), Size(1), Meta("".to_owned()));
    let filtered = c.process(Price(0), Size(10));
    assert!(filtered.data.is_empty());
    assert_eq!(c.data.get_vec(&0), Some(&vec![entry(1, "")]));
}

#[test]
fn test_process_zero_budget() {
    let mut c = Container::new();
    c.add(Price(0), Size(1), Meta("".to_owned()));
    c.add(Price(1), Size(2), Meta("".to_owned()));
    let filtered = c.process(Price(5), Size(0));
    assert!(filtered.data.is_empty());
    assert_eq!(c.data.get_vec(&0), Some(&vec![entry(1, "")]));
    assert_eq!(c.data.get_vec(&1), Some(&vec![entry(2, "")]));
}

#[test]
fn test_process_zero_budget_zero_size_entry() {
    // A zero-sized entry always fits, so it is consumed even under a
    // zero budget.
    let mut c = Container::new();
    c.add(Price(0), Size(0), Meta("free".to_owned()));
    let filtered = c.process(Price(1), Size(0));
    assert_eq!(filtered.data.get_vec(&0), Some(&vec![entry(0, "free")]));
    assert_eq!(c.data.get_vec(&0), Some(&Vec::new()));
}

#[test]
fn test_process_ascending_order_spans_levels() {
    // The running budget is spent on cheaper levels first.
    let mut c = Container::new();
    c.add(Price(7), Size(3), Meta("dear".to_owned()));
    c.add(Price(2), Size(3), Meta("cheap".to_owned()));

    let filtered = c.process(Price(10), Size(3));

    assert_eq!(filtered.data.get_vec(&2), Some(&vec![entry(3, "cheap")]));
    assert!(filtered.data.get_vec(&7).is_none());
    assert_eq!(c.data.get_vec(&7), Some(&vec![entry(3, "dear")]));
}

#[test]
fn test_without_removes_earliest_of_equal_sizes() {
    let mut c = Container::new();
    c.add(Price(2), Size(5), Meta("first".to_owned()));
    c.add(Price(2), Size(5), Meta("second".to_owned()));

    let c = c.without(Price(2), Size(5));

    assert_eq!(c.data.get_vec(&2), Some(&vec![entry(5, "second")]));
}

#[test]
fn test_without_misses_are_no_ops() {
    let mut c = Container::new();
    c.add(Price(2), Size(5), Meta("".to_owned()));

    let c = c.without(Price(3), Size(5));
    assert_eq!(c.data.get_vec(&2), Some(&vec![entry(5, "")]));

    let c = c.without(Price(2), Size(4));
    assert_eq!(c.data.get_vec(&2), Some(&vec![entry(5, "")]));
}

#[test]
fn test_add_appends_in_order() {
    let mut c = Container::new();
    c.add(Price(1), Size(3), Meta("a".to_owned()));
    c.add(Price(1), Size(1), Meta("b".to_owned()));
    c.add(Price(1), Size(3), Meta("c".to_owned()));
    assert_eq!(
        c.data.get_vec(&1),
        Some(&vec![entry(3, "a"), entry(1, "b"), entry(3, "c")])
    );
}

#[test]
fn test_new_with_data() {
    let mut data: MultiMap<u64, (u64, String)> = MultiMap::new();
    data.insert(4, entry(2, "x"));
    data.insert(1, entry(6, "y"));
    let mut c = Container::new_with_data(data);

    let filtered = c.process(Price(5), Size(6));

    assert_eq!(filtered.data.get_vec(&1), Some(&vec![entry(6, "y")]));
    assert!(filtered.data.get_vec(&4).is_none());
    assert_eq!(c.data.get_vec(&4), Some(&vec![entry(2, "x")]));
}

#[test]
fn test_clone_is_independent() {
    let mut c = Container::new();
    c.add(Price(1), Size(2), Meta("keep".to_owned()));
    let snapshot = c.clone();

    let _ = c.process(Price(5), Size(10));
    assert_eq!(c.data.get_vec(&1), Some(&Vec::new()));

    // The snapshot shares nothing with the processed store.
    assert_eq!(snapshot.data.get_vec(&1), Some(&vec![entry(2, "keep")]));
}

#[test]
fn test_largest_sizes() {
    // A budget of u64::MAX admits an entry of u64::MAX; the next entry
    // no longer fits, however small.
    let mut c = Container::new();
    c.add(Price(0), Size(u64::MAX), Meta("all".to_owned()));
    c.add(Price(0), Size(1), Meta("one".to_owned()));

    let filtered = c.process(Price(1), Size(u64::MAX));

    assert_eq!(
        filtered.data.get_vec(&0),
        Some(&vec![entry(u64::MAX, "all")])
    );
    assert_eq!(c.data.get_vec(&0), Some(&vec![entry(1, "one")]));
}

#[test]
fn test_process_twice() {
    // Each pass starts its budget afresh over what is left.
    let mut c = Container::new();
    c.add(Price(1), Size(2), Meta("a".to_owned()));
    c.add(Price(1), Size(2), Meta("b".to_owned()));
    c.add(Price(1), Size(2), Meta("c".to_owned()));

    let first = c.process(Price(2), Size(4));
    assert_eq!(
        first.data.get_vec(&1),
        Some(&vec![entry(2, "a"), entry(2, "b")])
    );

    let second = c.process(Price(2), Size(4));
    assert_eq!(second.data.get_vec(&1), Some(&vec![entry(2, "c")]));
    assert_eq!(c.data.get_vec(&1), Some(&Vec::new()));
}

#[test]
fn test_conversions() {
    assert_eq!(Price::from(7).0, 7);
    assert_eq!(Size::from(9).0, 9);
    assert_eq!(Meta::from("hello".to_owned()).0, "hello");
}
