use hash_table_datastruct::table::iter::directions::{Column, ElementsReverse, Row};
use hash_table_datastruct::table::iter::owned::TableOwnedIterWrapper;
use hash_table_datastruct::table::iter::wrapper::TableIterWrapper;
use hash_table_datastruct::HashTable;

fn sample() -> HashTable<&'static str, i32> {
    HashTable::from_column_keys_and_rows(
        vec!["hour", "minute", "second"],
        vec![vec![7, 15, 13], vec![8, 30, 32], vec![9, 45, 16]],
    )
}

#[test]
fn borrowed_rows_come_in_row_order() {
    let table = sample();
    let mut iter = table.iter();
    assert_eq!(iter.size_hint(), (3, Some(3)));
    let first = iter.next().unwrap();
    assert_eq!(first.get(&"minute"), Some(&15));
    assert_eq!(first.columns_len(), 3);
    assert_eq!(iter.size_hint(), (2, Some(2)));
    assert_eq!(iter.next().unwrap().values(), &[8, 30, 32]);
    assert_eq!(iter.next().unwrap().values(), &[9, 45, 16]);
    assert!(iter.next().is_none());
    assert!(iter.next().is_none());
    assert_eq!(iter.size_hint(), (0, Some(0)));
}

#[test]
fn consuming_rows_yields_every_row_with_every_key() {
    let rows = sample().into_iter().into_rows();
    assert_eq!(rows.len(), 3);
    assert_eq!(rows[0], vec![("hour", 9), ("minute", 45), ("second", 16)]);
    assert_eq!(rows[1], vec![("hour", 8), ("minute", 30), ("second", 32)]);
    assert_eq!(rows[2], vec![("hour", 7), ("minute", 15), ("second", 13)]);
}

#[test]
fn consuming_rows_step_by_step_takes_the_last_row_first() {
    let mut iter = sample().into_iter();
    assert_eq!(iter.size_hint(), (3, Some(3)));
    assert_eq!(iter.next(), Some(vec![("hour", 9), ("minute", 45), ("second", 16)]));
    assert_eq!(iter.size_hint(), (2, Some(2)));
    assert!(iter.next().is_some());
    assert!(iter.next().is_some());
    assert_eq!(iter.next(), None);
    let mut empty = HashTable::<&str, i32>::default().into_iter();
    assert_eq!(empty.next(), None);
}

#[test]
fn consuming_columns_yields_every_column_with_every_row() {
    let columns = sample().into_iter_columns().into_columns();
    assert_eq!(columns.len(), 3);
    let mut pairs: Vec<(&str, Vec<i32>)> = columns.into_iter().map(|c| c.into_pair()).collect();
    pairs.sort();
    assert_eq!(
        pairs,
        vec![("hour", vec![7, 8, 9]), ("minute", vec![15, 30, 45]), ("second", vec![13, 32, 16])]
    );
}

#[test]
fn consuming_columns_step_by_step() {
    let mut iter = sample().into_iter_columns();
    assert_eq!(iter.len(), 3);
    assert_eq!(iter.size_hint(), (3, Some(3)));
    let mut keys = Vec::new();
    while let Some(column) = iter.next() {
        assert_eq!(column.len(), 3);
        keys.push(*column.key());
    }
    assert_eq!(iter.len(), 0);
    assert!(iter.next().is_none());
    keys.sort();
    assert_eq!(keys, vec!["hour", "minute", "second"]);
}

#[test]
fn borrowed_columns_yield_every_column_once() {
    let table = sample();
    let mut iter = table.iter_columns();
    assert_eq!(iter.len(), 3);
    let copy = iter.clone();
    assert_eq!(copy.size_hint(), (3, Some(3)));
    let mut seen = Vec::new();
    while let Some(column) = iter.next() {
        let values: Vec<i32> = column.iter().map(|v| **v).collect();
        seen.push((*column.column_key(), values));
    }
    seen.sort();
    assert_eq!(
        seen,
        vec![("hour", vec![7, 8, 9]), ("minute", vec![15, 30, 45]), ("second", vec![13, 32, 16])]
    );
    assert_eq!(iter.len(), 0);
    assert_eq!(table.rows_len(), 3);
}

#[test]
fn owned_wrapper_rows_take_the_first_row_first() {
    let mut iter = TableOwnedIterWrapper::<&str, i32, Row>::new(sample()).into_iter();
    assert_eq!(iter.next(), Some(vec![("hour", 7), ("minute", 15), ("second", 13)]));
    assert_eq!(iter.next(), Some(vec![("hour", 8), ("minute", 30), ("second", 32)]));
    assert_eq!(iter.next(), Some(vec![("hour", 9), ("minute", 45), ("second", 16)]));
    assert_eq!(iter.next(), None);
}

#[test]
fn owned_wrapper_columns_take_every_column() {
    let mut iter = TableOwnedIterWrapper::<&str, i32, Column>::new(sample()).into_iter();
    let mut seen = Vec::new();
    while let Some(column) = iter.next() {
        seen.push(column.into_pair());
    }
    seen.sort();
    assert_eq!(
        seen,
        vec![("hour", vec![7, 8, 9]), ("minute", vec![15, 30, 45]), ("second", vec![13, 32, 16])]
    );
    assert!(iter.next().is_none());
}

#[test]
fn owned_wrapper_elements_come_from_the_end() {
    let table: HashTable<&str, i32> =
        HashTable::from_column_keys_and_rows(vec!["a", "b"], vec![vec![1, 2], vec![3, 4]]);
    let mut iter = TableOwnedIterWrapper::<&str, i32, ElementsReverse>::new(table).into_iter();
    assert_eq!(iter.next(), Some((("b", 1), 4)));
    assert_eq!(iter.next(), Some((("a", 1), 3)));
    assert_eq!(iter.next(), Some((("b", 0), 2)));
    assert_eq!(iter.next(), Some((("a", 0), 1)));
    assert_eq!(iter.next(), None);
    assert_eq!(iter.next(), None);
}

#[test]
fn iter_wrapper_goes_the_same_ways() {
    let table: HashTable<&str, i32> =
        HashTable::from_column_keys_and_rows(vec!["a", "b"], vec![vec![1, 2], vec![3, 4]]);
    let mut rows = TableIterWrapper::<&str, i32, Row>::new(table.clone()).into_iter();
    assert_eq!(rows.next(), Some(vec![("a", 1), ("b", 2)]));
    let mut columns = TableIterWrapper::<&str, i32, Column>::new(table.clone()).into_iter();
    let first = columns.next().unwrap();
    assert_eq!(first.len(), 2);
    let second = columns.next().unwrap();
    assert_ne!(first.key(), second.key());
    assert!(columns.next().is_none());
    let mut elements = TableIterWrapper::<&str, i32, ElementsReverse>::new(table).into_iter();
    assert_eq!(elements.next(), Some((("b", 1), 4)));
}
