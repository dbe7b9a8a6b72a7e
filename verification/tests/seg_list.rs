use mem_stream::seg_list::{ListError, SegList, HEADER_SIZE, SEGMENT_SIZE};

#[test]
fn seg_list_test_full_cycle() {
    let mut list = SegList::new();
    let key = "mykey".to_string();

    // push 5 items
    let items: Vec<Vec<u8>> = (0..5u8).map(|i| vec![i; 10]).collect();
    list.push_range(key.clone(), items.clone()).unwrap();

    assert_eq!(list.len(key.clone()).unwrap(), 5);

    // pop first item
    let first = list.pop(key.clone()).unwrap();
    assert_eq!(first, vec![0u8; 10]);
    assert_eq!(list.len(key.clone()).unwrap(), 4);

    // pop range index 0..2 (relative to remaining)
    let range = list.pop_range(key.clone(), 0, 2).unwrap();
    assert_eq!(range.len(), 2);
    assert_eq!(range[0], vec![1u8; 10]);
    assert_eq!(range[1], vec![2u8; 10]);
    assert_eq!(list.len(key.clone()).unwrap(), 2);

    // flush remaining
    list.flush(key.clone()).unwrap();
    assert_eq!(list.len(key.clone()).unwrap(), 0);

    // push again to verify segments are reusable
    list.push(key.clone(), b"hello".to_vec()).unwrap();
    let val = list.pop(key.clone()).unwrap();
    assert_eq!(val, b"hello");
}

#[test]
fn pop_count_takes_exactly_that_many() {
    let mut list = SegList::new();
    list.push_range("k".to_string(), vec![vec![1], vec![2], vec![3]]).unwrap();
    assert_eq!(list.pop_count("k".to_string(), 2).unwrap(), vec![vec![1u8], vec![2]]);
    assert_eq!(list.length("k"), Some(1));
    assert_eq!(list.pop_count("k".to_string(), 0).unwrap(), Vec::<Vec<u8>>::new());
    assert_eq!(list.pop_count("k".to_string(), 1).unwrap(), vec![vec![3u8]]);
    assert!(matches!(
        list.pop_count("none".to_string(), 1),
        Err(ListError::KeyNotFound)
    ));
}

#[test]
fn pop_range_takes_from_the_middle() {
    let mut list = SegList::new();
    list.push_range("k".to_string(), vec![vec![1], vec![2], vec![3], vec![4]]).unwrap();
    assert_eq!(list.pop_range("k".to_string(), 1, 3).unwrap(), vec![vec![2u8], vec![3]]);
    assert_eq!(list.pop_range("k".to_string(), 0, 2).unwrap(), vec![vec![1u8], vec![4]]);
    assert!(matches!(
        list.pop_range("k".to_string(), 0, 1),
        Err(ListError::OutOfRange)
    ));
}

#[test]
fn oversized_item_is_refused_after_those_before_it() {
    let mut list = SegList::new();
    let big = vec![0u8; SEGMENT_SIZE - HEADER_SIZE + 1];
    let largest = vec![9u8; SEGMENT_SIZE - HEADER_SIZE];
    assert!(matches!(
        list.push("k".to_string(), big.clone()),
        Err(ListError::EntryTooLarge)
    ));
    assert_eq!(list.length("k"), None);
    assert!(matches!(
        list.push_range("k".to_string(), vec![vec![1], largest.clone(), big, vec![2]]),
        Err(ListError::EntryTooLarge)
    ));
    assert_eq!(list.pop("k".to_string()).unwrap(), vec![1u8]);
    assert_eq!(list.pop("k".to_string()).unwrap(), largest);
    assert_eq!(list.length("k"), Some(0));
}

#[test]
fn missing_lists_are_told() {
    let mut list = SegList::new();
    assert!(matches!(list.pop("k".to_string()), Err(ListError::KeyNotFound)));
    assert!(matches!(list.flush("k".to_string()), Err(ListError::KeyNotFound)));
    list.push_range("k".to_string(), Vec::new()).unwrap();
    assert!(matches!(list.flush("k".to_string()), Err(ListError::KeyNotFound)));
    assert_eq!(list.len("k".to_string()).unwrap(), 0);
    assert!(list.flush("k".to_string()).is_ok());
}

#[test]
fn lists_do_not_mix() {
    let mut list = SegList::new();
    list.push("a".to_string(), b"x".to_vec()).unwrap();
    list.push("b".to_string(), b"y".to_vec()).unwrap();
    list.flush("a".to_string()).unwrap();
    assert_eq!(list.pop("b".to_string()).unwrap(), b"y");
}

#[test]
fn list_errors_say_what_they_are() {
    assert_eq!(ListError::EntryTooLarge.message(), "entry exceeds segment capacity");
    assert_eq!(ListError::AllocFailed.message(), "failed to grow the list");
    assert_eq!(ListError::KeyNotFound.message(), "key not found");
    assert_eq!(ListError::OutOfRange.message(), "given range is invalid\u{df}");
}
