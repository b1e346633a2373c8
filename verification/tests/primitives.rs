//! Tests of the id-keyed lookup primitives and the float total-order
//! adapter used by callers to build score keys.
use latus::filter::Filter;
use latus::inverted_index::InvertedIndex;
use latus::posting_list::PostingList;
use ordered_float::OrderedFloat;
use std::f32::NAN;

#[test]
fn ordered_float() {
    let mut v = [OrderedFloat(NAN), OrderedFloat(2.0), OrderedFloat(1.0)];
    v.sort();
    assert_eq!(v, [OrderedFloat(1.0), OrderedFloat(2.0), OrderedFloat(NAN)]);
    v.sort();
    v.reverse();
    assert_eq!(v, [OrderedFloat(NAN), OrderedFloat(2.0), OrderedFloat(1.0)]);
}

#[test]
fn vector_ordered_float() {
    let mut v = [OrderedFloat(NAN), OrderedFloat(2.0), OrderedFloat(1.0)];
    v.sort();
    assert_eq!(v, [OrderedFloat(1.0), OrderedFloat(2.0), OrderedFloat(NAN)]);
    v.sort();
    v.reverse();
    assert_eq!(v, [OrderedFloat(NAN), OrderedFloat(2.0), OrderedFloat(1.0)]);
}

#[test]
fn posting_list_insert_many() {
    let ids: [u32; 3] = [1, 2, 3];
    let mut postings: PostingList = PostingList::new();
    postings.insert_many(&ids);

    let mut expected: PostingList = PostingList::new();
    expected.insert(1);
    expected.insert(2);
    expected.insert(3);

    assert_eq!(postings, expected)
}

#[test]
fn inverted_index_insert_many() {
    let key: u32 = 12;
    let ids: [u32; 3] = [1, 2, 3];

    let mut index: InvertedIndex = InvertedIndex::new();

    index.insert_many(key, &ids);

    let posting = index.get(key).unwrap();

    assert_eq!(posting.ids, ids)
}

#[test]
fn inverted_index_appends_per_key() {
    let mut index = InvertedIndex::new();
    index.insert(7, 10);
    index.insert(7, 11);
    index.insert(8, 20);
    index.insert_many(7, &[12, 13]);

    assert_eq!(index.get(7).unwrap().ids, vec![10, 11, 12, 13]);
    assert_eq!(index.get(8).unwrap().ids, vec![20]);
    assert!(index.get(9).is_none());
}

#[test]
fn filter_insert_many() {
    let ids: [u32; 3] = [1, 2, 3];
    let mut filter: Filter = Filter::new();
    filter.insert_many(&ids);

    let mut expected: Filter = Filter::new();
    expected.insert(1);
    expected.insert(2);
    expected.insert(3);

    assert_eq!(filter, expected)
}

#[test]
fn union() {
    let mut filter1 = Filter::new();
    let mut filter2 = Filter::new();

    filter1.insert_many(&[1, 12]);
    filter2.insert_many(&[5, 12]);

    filter1 = filter1.and(&filter2);

    let mut expected = Filter::new();
    expected.insert(12);

    assert_eq!(filter1, expected)
}

#[test]
fn filter_set_operations() {
    let mut a = Filter::new();
    let mut b = Filter::new();
    a.insert_many(&[1, 2, 3]);
    b.insert_many(&[3, 4]);

    let both = a.and(&b);
    assert!(both.contains(3));
    assert!(!both.contains(1));
    assert!(!both.contains(4));

    let either = a.or(&b);
    for id in [1, 2, 3, 4] {
        assert!(either.contains(id));
    }
    assert!(!either.contains(5));

    let mut expected_union = Filter::new();
    expected_union.insert_many(&[1, 2, 3, 4]);
    assert_eq!(either, expected_union);
    assert_ne!(both, expected_union);
}
