use harper::list::{List, Slice};

#[test]
fn push_and_sort_keeps_items() {
    let mut l = List::new();
    for x in [5u32, 3, 9, 1, 3] {
        l.push(x);
    }
    assert_eq!(l.len(), 5);
    assert!(!l.is_empty());
    l.sort_by(|a, b| a.cmp(b));
    let got: Vec<u32> = (0..l.len()).map(|i| *l.get(i).unwrap()).collect();
    assert_eq!(got, vec![1, 3, 3, 5, 9]);
    assert_eq!(l.get(5), None);
    l.push(0);
    assert_eq!(l.get(5), Some(&0));
    assert_eq!(l.len(), 6);
}

#[test]
fn empty_list() {
    let mut l: List<u8> = List::new();
    assert!(l.is_empty());
    l.sort_by(|a, b| b.cmp(a));
    assert_eq!(l.get(0), None);
}

#[test]
fn slices_split_without_copying() {
    let mut l = List::new();
    for x in [4u8, 2, 8, 6] {
        l.push(x);
    }
    l.sort_by(|a, b| a.cmp(b));
    let whole = Slice::new(&l, 0, l.len());
    assert_eq!(whole.len(), 4);
    let (left, right) = whole.split_at(1);
    assert_eq!(left.len(), 1);
    assert_eq!(left.get(0), Some(&2));
    assert_eq!(left.get(1), None);
    assert_eq!(right.get(0), Some(&4));
    let mut it = right.into_iter();
    assert_eq!(it.size_hint(), (3, Some(3)));
    assert_eq!(it.next_back(), Some(&8));
    assert_eq!(it.next(), Some(&4));
    assert_eq!(it.next(), Some(&6));
    assert_eq!(it.next(), None);
    assert_eq!(it.next_back(), None);
    let mut all = l.iter();
    let mut seen = vec![];
    while let Some(x) = all.next() {
        seen.push(*x);
    }
    assert_eq!(seen, vec![2, 4, 6, 8]);
}
