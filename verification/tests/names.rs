use pascal_interp::names::{rank, NameTable, Rank};
use pascal_interp::var_type::VarType;

#[test]
fn names_are_ordered_byte_by_byte() {
    assert_eq!(rank("a", "b"), Rank::Before);
    assert_eq!(rank("b", "a"), Rank::After);
    assert_eq!(rank("abc", "abc"), Rank::Same);
    assert_eq!(rank("ab", "abc"), Rank::Before);
    assert_eq!(rank("abc", "ab"), Rank::After);
    assert_eq!(rank("", ""), Rank::Same);
    assert_eq!(rank("", "a"), Rank::Before);
    assert_eq!(rank("Z", "a"), Rank::Before);
    assert_eq!(rank("a1", "aA"), Rank::Before);
    assert_eq!(rank("z", "é"), Rank::Before);
    for (a, b) in [("x", "y"), ("é", "z"), ("abc", "abd"), ("", "q"), ("same", "same")].iter() {
        let want = match a.as_bytes().cmp(b.as_bytes()) {
            std::cmp::Ordering::Less => Rank::Before,
            std::cmp::Ordering::Equal => Rank::Same,
            std::cmp::Ordering::Greater => Rank::After,
        };
        assert_eq!(rank(a, b), want);
    }
}

#[test]
fn a_table_keeps_its_names_in_order() {
    let mut table: NameTable<i32> = NameTable::new();
    assert_eq!(table.len(), 0);
    assert!(table.get("a").is_none());
    table.insert(String::from("m"), 1);
    table.insert(String::from("a"), 2);
    table.insert(String::from("z"), 3);
    table.insert(String::from("B"), 4);
    table.insert(String::from("m"), 5);
    assert_eq!(table.len(), 4);
    assert_eq!(table.get("m"), Some(&5));
    assert_eq!(table.get("B"), Some(&4));
    assert!(table.contains("z"));
    assert!(!table.contains("y"));
    assert_eq!(table.name_at(0), "B");
    assert_eq!(*table.value_at(3), 3);
    assert_eq!(
        table.into_entries(),
        vec![
            (String::from("B"), 4),
            (String::from("a"), 2),
            (String::from("m"), 5),
            (String::from("z"), 3)
        ]
    );
}

#[test]
fn the_types_have_names() {
    assert_eq!(VarType::INTEGER.name(), "INTEGER");
    assert_eq!(VarType::REAL.name(), "REAL");
}
