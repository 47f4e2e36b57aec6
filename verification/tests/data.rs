use dataflow::data::{
    check_columns_within, check_rows_have_width, clone_records, clone_row, compare_byte_slices,
    project_row, records_equal, rows_equal, same_columns, Comparison, DataType, Record,
};
use dataflow::sharding::{hash_bytes, hash_of, shard_by};
use dataflow::text::{decimal_string, join2, part, rfind_char};

#[test]
fn values_compare_by_kind_then_by_content() {
    let null = DataType::Null;
    let f = DataType::Bool(false);
    let t = DataType::Bool(true);
    let neg = DataType::Int(-3);
    let pos = DataType::Int(4);
    let un = DataType::UnsignedInt(1);
    let ts = DataType::Timestamp(-1);
    let a = DataType::from("a");
    let ab = DataType::from("ab");
    let b = DataType::from("b");
    let bytes = DataType::Bytes(vec![0]);
    let order = [&null, &f, &t, &neg, &pos, &un, &ts, &a, &ab, &b, &bytes];
    for i in 0..order.len() {
        for j in 0..order.len() {
            let expected = if i < j {
                Comparison::Less
            } else if i == j {
                Comparison::Equal
            } else {
                Comparison::Greater
            };
            assert_eq!(order[i].compare(order[j]), expected);
            assert_eq!(order[i].equals(order[j]), i == j);
        }
    }
    assert_eq!(Comparison::Less.reverse(), Comparison::Greater);
    assert_eq!(Comparison::Equal.reverse(), Comparison::Equal);
}

#[test]
fn texts_compare_by_their_bytes() {
    assert_eq!(DataType::from("é").compare(&DataType::from("z")), Comparison::Greater);
    assert_eq!(DataType::from("").compare(&DataType::from("a")), Comparison::Less);
    assert_eq!(compare_byte_slices(&[1, 2], &[1, 2, 0]), Comparison::Less);
    assert_eq!(compare_byte_slices(&[2], &[1, 255]), Comparison::Greater);
    assert_eq!(compare_byte_slices(&[], &[]), Comparison::Equal);
}

#[test]
fn values_come_from_plain_values() {
    assert!(DataType::from(5i32).equals(&DataType::Int(5)));
    assert!(DataType::from(-5i64).equals(&DataType::Int(-5)));
    assert!(DataType::from(5u64).equals(&DataType::UnsignedInt(5)));
    assert!(DataType::from(true).equals(&DataType::Bool(true)));
    assert!(DataType::from("x").equals(&DataType::Text("x".to_string())));
    assert!(DataType::from("x".to_string()).equals(&DataType::from("x")));
    assert!(DataType::Null.is_none());
    assert!(!DataType::Int(0).is_none());
    assert!(DataType::from("deep").deep_clone().equals(&DataType::from("deep")));
    assert!(DataType::Bytes(vec![1, 2]).clone().equals(&DataType::Bytes(vec![1, 2])));
}

#[test]
fn rows_and_records_are_compared_and_copied() {
    let row: Vec<DataType> = vec![1.into(), "a".into(), DataType::Null];
    assert!(rows_equal(&row, &clone_row(&row)));
    assert!(!rows_equal(&row, &vec![1.into(), "a".into()]));
    assert!(!rows_equal(&row, &vec![1.into(), "b".into(), DataType::Null]));
    let plus = Record::Positive(clone_row(&row));
    let minus = Record::Negative(clone_row(&row));
    assert!(plus.is_positive());
    assert!(!minus.is_positive());
    assert!(rows_equal(minus.row(), &row));
    assert!(plus.equals(&plus.deep_clone()));
    assert!(!plus.equals(&minus));
    assert!(Record::signed(false, clone_row(&row)).equals(&minus));
    assert!(Record::from(clone_row(&row)).equals(&plus));
    let batch = vec![plus, minus];
    assert!(records_equal(&batch, &clone_records(&batch)));
    assert!(!records_equal(&batch, &vec![]));
}

#[test]
fn projection_picks_columns_in_order() {
    let row: Vec<DataType> = vec![10.into(), 20.into(), 30.into()];
    assert!(rows_equal(&project_row(&row, &vec![2, 0, 2]), &vec![30.into(), 10.into(), 30.into()]));
    assert!(rows_equal(&project_row(&row, &vec![]), &vec![]));
    assert!(check_columns_within(&vec![0, 2], 3));
    assert!(!check_columns_within(&vec![0, 3], 3));
    assert!(same_columns(&vec![1, 2], &vec![1, 2]));
    assert!(!same_columns(&vec![1, 2], &vec![2, 1]));
    assert!(!same_columns(&vec![1], &vec![1, 1]));
    assert!(check_rows_have_width(&vec![Record::Positive(clone_row(&row))], 3));
    assert!(!check_rows_have_width(&vec![Record::Positive(clone_row(&row))], 2));
}

#[test]
fn numbers_are_written_in_decimal() {
    assert_eq!(decimal_string(0), "0");
    assert_eq!(decimal_string(9), "9");
    assert_eq!(decimal_string(10), "10");
    assert_eq!(decimal_string(1234567890), "1234567890");
    assert_eq!(decimal_string(u64::MAX), "18446744073709551615");
    assert_eq!(join2("ab", "cd"), "abcd");
    assert_eq!(rfind_char("a/b/c", '/'), Some(3));
    assert_eq!(rfind_char("abc", '/'), None);
    assert_eq!(rfind_char("é/é", '/'), Some(1));
    assert_eq!(part("héllo", 1, 3), "él");
}

#[test]
fn values_hash_to_shards() {
    assert_eq!(hash_of(&DataType::Null), 0);
    assert_eq!(hash_of(&DataType::Bool(true)), 1);
    assert_eq!(hash_of(&DataType::Int(7)), 7);
    assert_eq!(hash_of(&DataType::Int(-1)), 0);
    assert_eq!(hash_of(&DataType::Int(-8)), 7);
    assert_eq!(hash_of(&DataType::Int(i64::MIN)), i64::MAX as u64);
    assert_eq!(hash_of(&DataType::UnsignedInt(u64::MAX)), u64::MAX);
    assert_eq!(hash_of(&DataType::Timestamp(12)), 12);
    // the FNV-1a hashes of the empty string and of "a"
    assert_eq!(hash_bytes(&[]), 0xcbf29ce484222325);
    assert_eq!(hash_bytes(b"a"), 0xaf63dc4c8601ec8c);
    assert_eq!(hash_of(&DataType::from("a")), 0xaf63dc4c8601ec8c);
    assert_eq!(hash_of(&DataType::Bytes(b"foobar".to_vec())), 0x85944171f73967e8);
    assert_eq!(shard_by(&DataType::Int(10), 4), 2);
    assert_eq!(shard_by(&DataType::Int(10), 1), 0);
    assert_eq!(shard_by(&DataType::from("a"), 3), (0xaf63dc4c8601ec8cu64 % 3) as usize);
}
