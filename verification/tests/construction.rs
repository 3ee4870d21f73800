use hash_table_datastruct::column::owned::HashTableColumnOwned;
use hash_table_datastruct::table::{FromRowsError, HashTableFromColumns};
use hash_table_datastruct::HashTable;

#[test]
fn from_column_keys_and_rows_drops_the_remainder() {
    let table: HashTable<&str, i32> =
        HashTable::from_column_keys_and_rows(vec!["a", "b"], vec![vec![1, 2, 3], vec![4, 5]]);
    assert_eq!(table.rows_len(), 2);
    assert_eq!(table.columns_len(), 2);
    assert_eq!(table.get(&"a", 0), Some(&1));
    assert_eq!(table.get(&"b", 0), Some(&2));
    assert_eq!(table.get(&"a", 1), Some(&3));
    assert_eq!(table.get(&"b", 1), Some(&4));
    assert_eq!(table.get(&"a", 2), None);
    assert_eq!(table.get(&"b", 2), None);
}

#[test]
fn from_column_keys_and_rows_with_whole_rows() {
    let table: HashTable<&str, i32> = HashTable::from_column_keys_and_rows(
        vec!["hour", "minute", "second"],
        vec![vec![7, 15, 13], vec![8, 30, 32], vec![9, 45, 16]],
    );
    assert_eq!(table.rows_len(), 3);
    assert_eq!(table.get(&"hour", 0), Some(&7));
    assert_eq!(table.get(&"minute", 1), Some(&30));
    assert_eq!(table.get(&"second", 2), Some(&16));
}

#[test]
fn from_column_keys_and_rows_without_columns_or_values() {
    let no_columns: HashTable<&str, i32> = HashTable::from_column_keys_and_rows(vec![], vec![vec![1, 2], vec![3]]);
    assert_eq!(no_columns.columns_len(), 0);
    assert_eq!(no_columns.rows_len(), 0);
    let no_values: HashTable<&str, i32> = HashTable::from_column_keys_and_rows(vec!["a", "b"], vec![]);
    assert_eq!(no_values.columns_len(), 2);
    assert_eq!(no_values.rows_len(), 0);
    let too_few: HashTable<&str, i32> = HashTable::from_column_keys_and_rows(vec!["a", "b"], vec![vec![1]]);
    assert_eq!(too_few.rows_len(), 0);
}

#[test]
fn from_column_iter_interleaves_the_columns() {
    let table: HashTable<&str, i32> = HashTable::from_column_iter(vec![
        HashTableColumnOwned::new("a", vec![1, 2, 3]),
        HashTableColumnOwned::new("b", vec![4, 5, 6]),
        HashTableColumnOwned::new("c", vec![7, 8, 9]),
    ]);
    assert_eq!(table.columns_len(), 3);
    assert_eq!(table.rows_len(), 3);
    assert_eq!(table.column_index(&"a"), Some(0));
    assert_eq!(table.column_index(&"b"), Some(1));
    assert_eq!(table.column_index(&"c"), Some(2));
    assert_eq!(table.get_row(0).unwrap().values(), &[1, 4, 7]);
    assert_eq!(table.get_row(1).unwrap().values(), &[2, 5, 8]);
    assert_eq!(table.get_row(2).unwrap().values(), &[3, 6, 9]);
}

#[test]
fn from_column_iter_without_columns_or_rows() {
    let empty: HashTable<&str, i32> = HashTable::from_column_iter(vec![]);
    assert_eq!(empty.columns_len(), 0);
    assert_eq!(empty.rows_len(), 0);
    let no_rows: HashTable<&str, i32> =
        HashTable::from_column_iter(vec![HashTableColumnOwned::new("a", vec![]), HashTableColumnOwned::new("b", vec![])]);
    assert_eq!(no_rows.columns_len(), 2);
    assert_eq!(no_rows.rows_len(), 0);
}

#[test]
fn table_from_columns_wrapper() {
    let made: HashTableFromColumns<&str, i32> = HashTableFromColumns::from_iter(vec![
        HashTableColumnOwned::new("a", vec![1, 2]),
        HashTableColumnOwned::new("b", vec![3, 4]),
    ]);
    assert_eq!(made.rows_len(), 2);
    assert_eq!(made.table().get(&"b", 1), Some(&4));
    let table = made.into_table();
    assert_eq!(table.get(&"a", 0), Some(&1));
}

#[test]
fn from_iter_orders_rows_by_the_first_row() {
    let table: HashTable<&str, i32> = HashTable::from_iter(vec![
        vec![("a", 1), ("b", 2), ("c", 3)],
        vec![("c", 6), ("a", 4), ("b", 5)],
        vec![("b", 8), ("c", 9), ("a", 7)],
    ]);
    assert_eq!(table.columns_len(), 3);
    assert_eq!(table.rows_len(), 3);
    assert_eq!(table.column_index(&"a"), Some(0));
    assert_eq!(table.column_index(&"b"), Some(1));
    assert_eq!(table.column_index(&"c"), Some(2));
    assert_eq!(table.get_row(0).unwrap().values(), &[1, 2, 3]);
    assert_eq!(table.get_row(1).unwrap().values(), &[4, 5, 6]);
    assert_eq!(table.get_row(2).unwrap().values(), &[7, 8, 9]);
}

#[test]
fn from_iter_takes_the_first_of_repeated_keys() {
    let table: HashTable<&str, i32> = HashTable::from_iter(vec![
        vec![("a", 1), ("b", 2)],
        vec![("b", 5), ("a", 4), ("b", 50), ("a", 40)],
    ]);
    assert_eq!(table.rows_len(), 2);
    assert_eq!(table.get(&"a", 1), Some(&4));
    assert_eq!(table.get(&"b", 1), Some(&5));
}

#[test]
fn from_iter_without_rows_or_columns() {
    let empty: HashTable<&str, i32> = HashTable::from_iter(vec![]);
    assert_eq!(empty.columns_len(), 0);
    assert_eq!(empty.rows_len(), 0);
    let no_columns: HashTable<&str, i32> = HashTable::from_iter(vec![vec![], vec![]]);
    assert_eq!(no_columns.columns_len(), 0);
    assert_eq!(no_columns.rows_len(), 0);
}

#[test]
fn with_columns_gives_slots_by_position() {
    let table: HashTable<String, u8> =
        HashTable::with_columns(vec!["x".to_string(), "y".to_string(), "z".to_string()]);
    assert_eq!(table.columns_len(), 3);
    assert_eq!(table.rows_len(), 0);
    assert_eq!(table.column_index(&"x".to_string()), Some(0));
    assert_eq!(table.column_index(&"y".to_string()), Some(1));
    assert_eq!(table.column_index(&"z".to_string()), Some(2));
}

#[test]
fn try_from_iter_makes_the_table_of_fitting_rows() {
    let table: HashTable<&str, i32> =
        HashTable::try_from_iter(vec![vec![("a", 1), ("b", 2)], vec![("b", 4), ("a", 3)]]).unwrap();
    assert_eq!(table.get_row(0).unwrap().values(), &[1, 2]);
    assert_eq!(table.get_row(1).unwrap().values(), &[3, 4]);
    let empty: HashTable<&str, i32> = HashTable::try_from_iter(vec![]).unwrap();
    assert_eq!(empty.columns_len(), 0);
}

#[test]
fn try_from_iter_reports_the_first_row_at_fault() {
    let repeated = HashTable::<&str, i32>::try_from_iter(vec![vec![("a", 1), ("a", 2)]]);
    assert_eq!(repeated.err(), Some(FromRowsError::RepeatedKey));
    let unknown = HashTable::<&str, i32>::try_from_iter(vec![
        vec![("a", 1), ("b", 2)],
        vec![("a", 3), ("b", 4)],
        vec![("a", 5), ("c", 6), ("b", 7)],
        vec![("a", 8)],
    ]);
    assert_eq!(unknown.err(), Some(FromRowsError::UnknownKey { row: 2 }));
    let missing = HashTable::<&str, i32>::try_from_iter(vec![vec![("a", 1), ("b", 2)], vec![("a", 3), ("a", 4)]]);
    assert_eq!(missing.err(), Some(FromRowsError::MissingKey { row: 1 }));
    let empty_row = HashTable::<&str, i32>::try_from_iter(vec![vec![("a", 1)], vec![]]);
    assert_eq!(empty_row.err(), Some(FromRowsError::MissingKey { row: 1 }));
}

#[test]
fn try_constructors_refuse_repeated_keys() {
    assert!(HashTable::<&str, i32>::try_with_columns(vec!["a", "b", "a"]).is_none());
    let table = HashTable::<&str, i32>::try_with_columns(vec!["a", "b"]).unwrap();
    assert_eq!(table.column_index(&"b"), Some(1));
    assert!(HashTable::<&str, i32>::try_from_column_keys_and_rows(vec!["a", "a"], vec![vec![1, 2]]).is_none());
    let filled = HashTable::<&str, i32>::try_from_column_keys_and_rows(vec!["a", "b"], vec![vec![1, 2, 3]]).unwrap();
    assert_eq!(filled.rows_len(), 1);
    assert_eq!(filled.get(&"b", 0), Some(&2));
}
