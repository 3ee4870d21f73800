use hash_table_datastruct::column::HashTableColumn;
use hash_table_datastruct::row::owned::HashTableRowOwned;
use hash_table_datastruct::HashTable;

fn sample() -> HashTable<&'static str, i32> {
    HashTable::from_column_keys_and_rows(
        vec!["hour", "minute", "second"],
        vec![vec![7, 15, 13], vec![8, 30, 32], vec![9, 45, 16]],
    )
}

#[test]
fn borrowed_row_gives_values_by_key() {
    let table = sample();
    let row = table.get_row(1).unwrap();
    assert_eq!(row.get(&"hour"), Some(&8));
    assert_eq!(row.get(&"minute"), Some(&30));
    assert_eq!(row.get(&"second"), Some(&32));
    assert_eq!(row.get(&"day"), None);
    assert_eq!(row.columns_len(), 3);
    let copy = row;
    assert_eq!(copy.values(), row.values());
    let mut keys: Vec<&str> = row.columns_keys().copied().collect();
    keys.sort();
    assert_eq!(keys, vec!["hour", "minute", "second"]);
    assert!(table.get_row(3).is_none());
}

#[test]
fn borrowed_row_iterator_yields_every_column_once() {
    let table = sample();
    let mut iter = table.get_row(2).unwrap().into_iter();
    assert_eq!(iter.len(), 3);
    assert_eq!(iter.size_hint(), (3, Some(3)));
    let copy = iter.clone();
    let mut pairs = Vec::new();
    while let Some((key, value)) = iter.next() {
        pairs.push((*key, *value));
    }
    pairs.sort();
    assert_eq!(pairs, vec![("hour", 9), ("minute", 45), ("second", 16)]);
    assert_eq!(iter.len(), 0);
    assert!(iter.next().is_none());
    assert_eq!(copy.len(), 3);
}

#[test]
fn mutable_row_writes_into_the_table() {
    let mut table = sample();
    {
        let mut row = table.get_row_mut(1).unwrap();
        *row.get(&"minute").unwrap() = 31;
        assert!(row.get(&"day").is_none());
        *row.get(&"second").unwrap() += 1;
    }
    assert_eq!(table.get(&"minute", 1), Some(&31));
    assert_eq!(table.get(&"second", 1), Some(&33));
    assert_eq!(table.get(&"hour", 1), Some(&8));
    assert_eq!(table.get(&"minute", 0), Some(&15));
    assert_eq!(table.get(&"minute", 2), Some(&45));
    assert!(table.get_row_mut(3).is_none());
}

#[test]
fn mutable_row_iterator_visits_every_value_once() {
    let mut table = sample();
    {
        let mut iter = table.get_row_mut(0).unwrap().into_iter();
        let mut visited = 0;
        while let Some((key, value)) = iter.next() {
            *value += key.len() as i32;
            visited += 1;
        }
        assert_eq!(visited, 3);
    }
    assert_eq!(table.get_row(0).unwrap().values(), &[11, 21, 19]);
    assert_eq!(table.get_row(1).unwrap().values(), &[8, 30, 32]);
}

#[test]
fn value_owned_row_iterator_hands_out_every_value() {
    let mut table = sample();
    let row = table.remove_row(0).unwrap();
    let mut iter = row.into_iter();
    assert_eq!(iter.len(), 3);
    assert_eq!(iter.size_hint(), (3, Some(3)));
    let mut pairs = Vec::new();
    while let Some((key, value)) = iter.next() {
        pairs.push((*key, value));
    }
    pairs.sort();
    assert_eq!(pairs, vec![("hour", 7), ("minute", 15), ("second", 13)]);
    assert!(iter.next().is_none());
}

#[test]
fn value_owned_row_with_cloned_keys() {
    let mut table = sample();
    let pairs = table.remove_row(2).unwrap().into_cloned_pairs();
    assert_eq!(pairs, vec![("hour", 9), ("minute", 45), ("second", 16)]);
}

#[test]
fn borrowed_column_holds_one_reference_for_each_row() {
    let table = sample();
    let column = table.get_column(&"minute").unwrap();
    assert_eq!(column.column_key(), &"minute");
    assert_eq!(column.len(), 3);
    assert_eq!(column.get(0), Some(&15));
    assert_eq!(column.get(2), Some(&45));
    assert_eq!(column.get(3), None);
    let copy = column.clone();
    assert_eq!(copy.into_values(), vec![&15, &30, &45]);
    assert_eq!(column.iter().map(|v| **v).sum::<i32>(), 90);
    assert!(table.get_column(&"day").is_none());
}

#[test]
fn column_seen_through_the_table() {
    let table = sample();
    let key = "second";
    let column = HashTableColumn::new(&table, &key);
    assert_eq!(column.column_key(), &"second");
    assert_eq!(column.get(1), Some(&32));
    assert_eq!(column.get(3), None);
    let mut iter = column.into_iter();
    assert_eq!(iter.next(), Some(&13));
    assert_eq!(iter.next(), Some(&32));
    assert_eq!(iter.next(), Some(&16));
    assert_eq!(iter.next(), None);
    assert_eq!(iter.next(), None);
    let absent = "day";
    let mut none = HashTableColumn::new(&table, &absent).into_iter();
    assert_eq!(none.next(), None);
}

#[test]
fn owned_row_wraps_the_map() {
    let mut table = sample();
    let map = table.remove_row_hashmap(0).unwrap();
    let row = HashTableRowOwned::new(map);
    assert_eq!(row.inner().get(&"hour"), Some(&7));
    let inner = row.into_inner();
    assert_eq!(inner.len(), 3);
    assert_eq!(inner.get(&"second"), Some(&13));
}
