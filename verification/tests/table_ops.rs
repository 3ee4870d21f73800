use hash_table_datastruct::column::owned::HashTableColumnOwned;
use hash_table_datastruct::HashTable;

fn sample() -> HashTable<&'static str, i32> {
    HashTable::from_column_keys_and_rows(
        vec!["hour", "minute", "second"],
        vec![vec![7, 15, 13], vec![8, 30, 32], vec![9, 45, 16]],
    )
}

#[test]
fn push_row_orders_values_by_slot() {
    let mut table: HashTable<&str, i32> = HashTable::with_columns(vec!["a", "b"]);
    table.push_row(vec![("b", 20), ("a", 10)]);
    assert_eq!(table.rows_len(), 1);
    assert_eq!(table.get(&"a", 0), Some(&10));
    assert_eq!(table.get(&"b", 0), Some(&20));
}

#[test]
fn accepts_row_tells_matching_rows() {
    let table: HashTable<&str, i32> = HashTable::with_columns(vec!["a", "b"]);
    assert!(table.accepts_row(&vec![("a", 1), ("b", 2)]));
    assert!(table.accepts_row(&vec![("b", 2), ("a", 1)]));
    assert!(!table.accepts_row(&vec![("a", 1)]));
    assert!(!table.accepts_row(&vec![("a", 1), ("c", 2)]));
    assert!(!table.accepts_row(&vec![("a", 1), ("a", 2)]));
    assert!(!table.accepts_row(&vec![("a", 1), ("b", 2), ("a", 3)]));
}

#[test]
fn lengths_of_sample() {
    let table = sample();
    assert_eq!(table.columns_len(), 3);
    assert_eq!(table.rows_len(), 3);
    assert_eq!(table.column_index(&"hour"), Some(0));
    assert_eq!(table.column_index(&"minute"), Some(1));
    assert_eq!(table.column_index(&"second"), Some(2));
    assert_eq!(table.column_index(&"day"), None);
    assert_eq!(table.row_start(2), 6);
    assert_eq!(table.elem_index(&"second", 1), Some(5));
    assert_eq!(table.elem_index(&"second", 3), None);
}

#[test]
fn get_is_none_for_absent_key_or_row() {
    let table = sample();
    assert_eq!(table.get(&"minute", 1), Some(&30));
    assert_eq!(table.get(&"day", 1), None);
    assert_eq!(table.get(&"minute", 3), None);
    assert_eq!(table.get(&"minute", usize::MAX), None);
}

#[test]
fn written_element_is_read_back() {
    let mut table = sample();
    *table.get_mut(&"minute", 1).unwrap() = 99;
    assert_eq!(table.get(&"minute", 1), Some(&99));
    assert_eq!(table.get(&"hour", 1), Some(&8));
    assert_eq!(table.get(&"second", 1), Some(&32));
    assert_eq!(table.get(&"minute", 0), Some(&15));
    assert_eq!(table.get(&"minute", 2), Some(&45));
    assert!(table.get_mut(&"day", 0).is_none());
    assert!(table.get_mut(&"hour", 3).is_none());
}

#[test]
fn index_reads_and_writes_existing_elements() {
    let mut table = sample();
    assert_eq!(*table.index(&"second", 2), 16);
    *table.index_mut(&"second", 2) = 17;
    assert_eq!(*table.index(&"second", 2), 17);
}

#[test]
fn empty_table_has_no_rows() {
    let table: HashTable<&str, i32> = HashTable::default();
    assert_eq!(table.columns_len(), 0);
    assert_eq!(table.rows_len(), 0);
    assert_eq!(table.get(&"a", 0), None);
    let reserved: HashTable<&str, i32> = HashTable::with_capacity(4, 8);
    assert_eq!(reserved.columns_len(), 0);
    assert_eq!(reserved.rows_len(), 0);
    let wide: HashTable<&str, i32> = HashTable::with_capacity(2, usize::MAX);
    assert_eq!(wide.rows_len(), 0);
    let with_columns: HashTable<&str, i32> = HashTable::with_columns_and_capacity(vec!["a", "b"], 10);
    assert_eq!(with_columns.columns_len(), 2);
    assert_eq!(with_columns.rows_len(), 0);
}

#[test]
fn remove_row_shifts_later_rows_down() {
    let mut table = sample();
    {
        let row = table.remove_row(1).unwrap();
        assert_eq!(row.get(&"hour"), Some(&8));
        assert_eq!(row.get(&"minute"), Some(&30));
        assert_eq!(row.get(&"second"), Some(&32));
        assert_eq!(row.get(&"day"), None);
        assert_eq!(row.into_values(), vec![8, 30, 32]);
    }
    assert_eq!(table.rows_len(), 2);
    assert_eq!(table.get(&"hour", 0), Some(&7));
    assert_eq!(table.get(&"hour", 1), Some(&9));
    assert_eq!(table.get(&"second", 1), Some(&16));
    assert!(table.remove_row(2).is_none());
    assert_eq!(table.rows_len(), 2);
}

#[test]
fn removing_the_only_row_keeps_the_columns() {
    let mut table: HashTable<&str, i32> = HashTable::with_columns(vec!["a", "b"]);
    table.push_row(vec![("a", 1), ("b", 2)]);
    assert_eq!(table.rows_len(), 1);
    assert!(table.remove_row(0).is_some());
    assert_eq!(table.rows_len(), 0);
    assert_eq!(table.columns_len(), 2);
    assert_eq!(table.get_column(&"a").unwrap().len(), 0);
    assert_eq!(table.get_column(&"b").unwrap().len(), 0);
}

#[test]
fn remove_row_pairs_come_in_slot_order() {
    let mut table = sample();
    {
        let pairs = table.remove_row_pairs(0).unwrap();
        assert_eq!(pairs, vec![(&"hour", 7), (&"minute", 15), (&"second", 13)]);
    }
    assert_eq!(table.rows_len(), 2);
    assert!(table.remove_row_pairs(5).is_none());
}

#[test]
fn remove_row_hashmap_holds_every_column() {
    let mut table = sample();
    {
        let map = table.remove_row_hashmap(2).unwrap();
        assert_eq!(map.len(), 3);
        assert_eq!(map.get(&"hour"), Some(&9));
        assert_eq!(map.get(&"minute"), Some(&45));
        assert_eq!(map.get(&"second"), Some(&16));
    }
    assert_eq!(table.rows_len(), 2);
    assert!(table.remove_row_hashmap(2).is_none());
}

#[test]
fn insert_column_takes_the_highest_slot() {
    let mut table = sample();
    table.insert_column("day", vec![1, 2, 3]);
    assert_eq!(table.columns_len(), 4);
    assert_eq!(table.rows_len(), 3);
    assert_eq!(table.column_index(&"day"), Some(3));
    assert_eq!(table.get(&"day", 0), Some(&1));
    assert_eq!(table.get(&"day", 1), Some(&2));
    assert_eq!(table.get(&"day", 2), Some(&3));
    assert_eq!(table.get(&"hour", 1), Some(&8));
    assert_eq!(table.get(&"minute", 2), Some(&45));
    assert_eq!(table.get(&"second", 0), Some(&13));
    assert_eq!(table.get_row(1).unwrap().values(), &[8, 30, 32, 2]);
}

#[test]
fn insert_column_drops_values_beyond_the_rows() {
    let mut table = sample();
    table.insert_column("day", vec![1, 2, 3, 4, 5]);
    assert_eq!(table.rows_len(), 3);
    assert_eq!(table.get(&"day", 2), Some(&3));
    assert_eq!(table.get(&"day", 3), None);
}

#[test]
fn insert_column_into_table_without_rows() {
    let mut table: HashTable<&str, i32> = HashTable::default();
    table.insert_column("a", vec![]);
    table.insert_column("b", vec![]);
    assert_eq!(table.columns_len(), 2);
    assert_eq!(table.rows_len(), 0);
    table.push_row(vec![("b", 2), ("a", 1)]);
    assert_eq!(table.get(&"a", 0), Some(&1));
    assert_eq!(table.get(&"b", 0), Some(&2));
}

#[test]
fn remove_column_closes_the_slot_gap() {
    let mut table = sample();
    let taken = table.remove_column(&"minute").unwrap();
    assert_eq!(taken.key(), &"minute");
    assert_eq!(taken.values(), &vec![15, 30, 45]);
    assert_eq!(table.columns_len(), 2);
    assert_eq!(table.rows_len(), 3);
    assert_eq!(table.column_index(&"hour"), Some(0));
    assert_eq!(table.column_index(&"second"), Some(1));
    assert_eq!(table.column_index(&"minute"), None);
    assert_eq!(table.get(&"hour", 2), Some(&9));
    assert_eq!(table.get(&"second", 2), Some(&16));
    assert_eq!(table.get(&"minute", 2), None);
    assert!(table.remove_column(&"minute").is_none());
    assert_eq!(table.columns_len(), 2);
}

#[test]
fn remove_column_at_names_the_slot() {
    let mut table = sample();
    let taken = table.remove_column_at(0);
    assert_eq!(taken.into_pair(), ("hour", vec![7, 8, 9]));
    assert_eq!(table.column_index(&"minute"), Some(0));
    assert_eq!(table.column_index(&"second"), Some(1));
    assert_eq!(table.get_row(0).unwrap().values(), &[15, 13]);
}

#[test]
fn removed_column_inserted_again_gives_the_elements_back() {
    let mut table = sample();
    let taken = table.remove_column(&"hour").unwrap();
    let (key, values) = taken.into_pair();
    table.insert_column(key, values);
    let untouched = sample();
    for key in ["hour", "minute", "second"] {
        for row in 0..3 {
            assert_eq!(table.get(&key, row), untouched.get(&key, row));
        }
    }
    assert_eq!(table.column_index(&"hour"), Some(2));
    assert_eq!(table.column_index(&"minute"), Some(0));
}

#[test]
fn removing_the_last_column_leaves_no_rows() {
    let mut table: HashTable<&str, i32> = HashTable::from_column_keys_and_rows(vec!["a"], vec![vec![1, 2, 3]]);
    assert_eq!(table.rows_len(), 3);
    let taken = table.remove_column(&"a").unwrap();
    assert_eq!(taken.into_values(), vec![1, 2, 3]);
    assert_eq!(table.columns_len(), 0);
    assert_eq!(table.rows_len(), 0);
}

#[test]
fn slots_stay_gapless_under_insertions_and_removals() {
    let mut table: HashTable<u32, u32> = HashTable::with_columns(vec![0, 1, 2, 3, 4]);
    table.push_row(vec![(0, 10), (1, 11), (2, 12), (3, 13), (4, 14)]);
    let mut keys: Vec<u32> = vec![0, 1, 2, 3, 4];
    let mut seed: u32 = 12345;
    let mut next_key: u32 = 5;
    for _ in 0..200 {
        seed = seed.wrapping_mul(1103515245).wrapping_add(12345);
        let choice = (seed >> 16) as usize;
        if keys.len() > 1 && choice % 2 == 0 {
            let key = keys.remove(choice % keys.len());
            let taken = table.remove_column(&key).unwrap();
            assert_eq!(taken.into_values(), vec![key + 10]);
        } else {
            table.insert_column(next_key, vec![next_key + 10]);
            keys.push(next_key);
            next_key += 1;
        }
        assert_eq!(table.columns_len(), keys.len());
        let mut seen = vec![false; keys.len()];
        for key in &keys {
            let slot = table.column_index(key).unwrap();
            assert!(slot < keys.len());
            assert!(!seen[slot]);
            seen[slot] = true;
            assert_eq!(table.get(key, 0), Some(&(key + 10)));
        }
        assert!(seen.iter().all(|s| *s));
    }
}

#[test]
fn push_row_with_calls_the_generator_in_slot_order() {
    let mut table: HashTable<&str, usize> = HashTable::with_columns(vec!["one", "three", "seven"]);
    table.push_row_with(|key: &&str| key.len());
    assert_eq!(table.rows_len(), 1);
    assert_eq!(table.get(&"one", 0), Some(&3));
    assert_eq!(table.get(&"three", 0), Some(&5));
    assert_eq!(table.get(&"seven", 0), Some(&5));
    assert_eq!(table.get_row(0).unwrap().values(), &[3, 5, 5]);
    let mut empty: HashTable<&str, usize> = HashTable::default();
    empty.push_row_with(|key: &&str| key.len());
    assert_eq!(empty.rows_len(), 0);
}

#[test]
fn insert_column_with_sees_every_row() {
    let mut table = sample();
    table.insert_column_with("total", |row| {
        *row.get(&"hour").unwrap() * 3600 + *row.get(&"minute").unwrap() * 60 + *row.get(&"second").unwrap()
    });
    assert_eq!(table.get(&"total", 0), Some(&26113));
    assert_eq!(table.get(&"total", 1), Some(&30632));
    assert_eq!(table.get(&"total", 2), Some(&35116));
    assert_eq!(table.column_index(&"total"), Some(3));
}

#[test]
fn keys_by_slot_lists_the_columns() {
    let mut table = sample();
    assert_eq!(table.keys_by_slot(), vec![&"hour", &"minute", &"second"]);
    table.remove_column(&"hour");
    assert_eq!(table.keys_by_slot(), vec![&"minute", &"second"]);
    table.insert_column("hour", vec![0, 0, 0]);
    assert_eq!(table.keys_by_slot(), vec![&"minute", &"second", &"hour"]);
}

#[test]
fn column_keys_yields_every_key_once() {
    let table = sample();
    let mut keys: Vec<&str> = table.column_keys().copied().collect();
    keys.sort();
    assert_eq!(keys, vec!["hour", "minute", "second"]);
}

#[test]
fn clone_keeps_columns_and_values() {
    let table = sample();
    let copy = table.clone();
    assert_eq!(copy.columns_len(), 3);
    assert_eq!(copy.rows_len(), 3);
    for key in ["hour", "minute", "second"] {
        assert_eq!(copy.column_index(&key), table.column_index(&key));
        for row in 0..3 {
            assert_eq!(copy.get(&key, row), table.get(&key, row));
        }
    }
}

#[test]
fn owned_column_parts() {
    let column = HashTableColumnOwned::new("a", vec![1, 2, 3]);
    assert_eq!(column.key(), &"a");
    assert_eq!(column.len(), 3);
    assert_eq!(column.get(1), Some(&2));
    assert_eq!(column.get(3), None);
    assert_eq!(column.iter().sum::<i32>(), 6);
    let from_pair: HashTableColumnOwned<&str, i32> = HashTableColumnOwned::from(("b", vec![4, 5]));
    assert_eq!(from_pair.into_key(), "b");
    let other = HashTableColumnOwned::new("c", vec![6]);
    assert_eq!(other.into_values(), vec![6]);
}
