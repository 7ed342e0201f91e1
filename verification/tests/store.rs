use coldb::{Column, DataType, Database, Error, Index, ResultDT, Table};

fn people() -> Table {
    Table::new(
        "people",
        vec![
            Column::new("name", DataType::Str, true),
            Column::new("age", DataType::Int, false),
        ],
    )
}

fn empty() -> Database {
    Database::new(Vec::new()).unwrap()
}

#[test]
fn test_insert() {
    let mut db = empty();
    let people = Table::new(
        "people",
        vec![
            Column::new("name", DataType::Str, true),
            Column::new("age", DataType::Int, false),
        ],
    );

    assert_eq!(db.insert_table(people).is_err(), false);

    let table = "people";
    let columns = vec!["name", "age"];
    let data = vec!["Tommy", "16"];

    assert_eq!(db.insert(columns, data, Vec::new(), table).is_err(), false);
}

#[test]
fn test_search_idx() {
    let mut db = empty();
    let people = Table::new(
        "people",
        vec![
            Column::new("name", DataType::Str, true),
            Column::new("age", DataType::Int, false),
        ],
    );

    assert_eq!(db.insert_table(people).is_err(), false);

    let table = "people";
    let columns = vec!["name", "age"];
    let data = vec!["Tommy", "16"];

    assert_eq!(db.insert(columns, data, Vec::new(), table).is_err(), false);

    assert_eq!(
        db.search_idx(vec!["name", "age"], &0, "people").unwrap(),
        vec![ResultDT::Str("Tommy".to_string()), ResultDT::Int(16)]
    );
}

#[test]
fn test_duplicate_tables() {
    let mut db = empty();
    let people1 = Table::new(
        "people",
        vec![
            Column::new("name", DataType::Str, true),
            Column::new("age", DataType::Int, false),
        ],
    );

    let people2 = Table::new(
        "people",
        vec![
            Column::new("name", DataType::Str, true),
            Column::new("age", DataType::Int, false),
        ],
    );

    assert_eq!(db.insert_table(people1).is_err(), false);
    assert_eq!(db.insert_table(people2).is_err(), true);
}

#[test]
fn second_registration_is_refused_and_changes_nothing() {
    let mut db = empty();
    assert!(db.insert_table(people()).is_ok());
    db.insert(vec!["name", "age"], vec!["Tommy", "16"], Vec::new(), "people")
        .unwrap();
    let second = db.insert_table(people());
    assert!(matches!(second, Err(Error::TableAlreadyExists)));
    assert_eq!(db.tables.len(), 1);
    assert_eq!(db.tables[0].name, "people");
    assert_eq!(db.tables[0].rows[0].size(), 1);
    assert_eq!(db.tables[0].rows[1].size(), 1);
}

#[test]
fn tables_keep_the_order_of_registration() {
    let mut db = empty();
    db.insert_table(Table::new("b", Vec::new())).unwrap();
    db.insert_table(Table::new("a", Vec::new())).unwrap();
    db.insert_table(Table::new("c", Vec::new())).unwrap();
    let names: Vec<&str> = db.tables.iter().map(|t| t.name.as_str()).collect();
    assert_eq!(names, vec!["b", "a", "c"]);
}

#[test]
fn insert_into_unknown_table_fails() {
    let mut db = empty();
    db.insert_table(people()).unwrap();
    let r = db.insert(vec!["name"], vec!["Tommy"], Vec::new(), "animals");
    assert!(matches!(r, Err(Error::InvalidTable)));
}

#[test]
fn insert_into_unknown_column_fails() {
    let mut db = empty();
    db.insert_table(people()).unwrap();
    let r = db.insert(vec!["height"], vec!["180"], Vec::new(), "people");
    assert!(matches!(r, Err(Error::InvalidColumn)));
}

#[test]
fn refused_insert_changes_no_column() {
    let mut db = empty();
    db.insert_table(people()).unwrap();
    let r = db.insert(
        vec!["name", "age", "height"],
        vec!["Tommy", "16", "180"],
        Vec::new(),
        "people",
    );
    assert!(matches!(r, Err(Error::InvalidColumn)));
    let table = db.get_table("people").unwrap();
    assert_eq!(table.rows[0].size(), 0);
    assert_eq!(table.rows[1].size(), 0);
    assert_eq!(table.cols[0].get_index().get("Tommy").unwrap(), None);
}

#[test]
fn search_in_unknown_table_fails() {
    let db = empty();
    let r = db.search_idx(vec!["name"], &0, "people");
    assert!(matches!(r, Err(Error::InvalidTable)));
}

#[test]
fn search_skips_what_is_no_column() {
    let mut db = empty();
    db.insert_table(people()).unwrap();
    db.insert(vec!["name", "age"], vec!["Tommy", "16"], Vec::new(), "people")
        .unwrap();
    let found = db
        .search_idx(vec!["height", "age", "weight", "name", "age"], &0, "people")
        .unwrap();
    assert_eq!(
        found,
        vec![
            ResultDT::Int(16),
            ResultDT::Str("Tommy".to_string()),
            ResultDT::Int(16)
        ]
    );
}

#[test]
fn search_gives_the_order_asked_for() {
    let mut db = empty();
    db.insert_table(people()).unwrap();
    db.insert(vec!["name", "age"], vec!["Tommy", "16"], Vec::new(), "people")
        .unwrap();
    db.insert(vec!["age", "name"], vec!["-3", "Ann"], Vec::new(), "people")
        .unwrap();
    assert_eq!(
        db.search_idx(vec!["age", "name"], &1, "people").unwrap(),
        vec![ResultDT::Int(-3), ResultDT::Str("Ann".to_string())]
    );
    assert_eq!(
        db.search_idx(vec!["name"], &0, "people").unwrap(),
        vec![ResultDT::Str("Tommy".to_string())]
    );
}

#[test]
fn whole_rows_keep_the_columns_aligned() {
    let mut db = empty();
    db.insert_table(people()).unwrap();
    for (name, age) in [("a", "1"), ("b", "2"), ("c", "3")] {
        db.insert(vec!["name", "age"], vec![name, age], Vec::new(), "people")
            .unwrap();
        let table = db.get_table("people").unwrap();
        assert_eq!(table.rows[0].size(), table.rows[1].size());
    }
    assert_eq!(db.get_table("people").unwrap().rows[0].size(), 3);
}

#[test]
fn a_partial_row_reaches_only_the_named_column() {
    let mut db = empty();
    db.insert_table(people()).unwrap();
    db.insert(vec!["name"], vec!["Bob"], Vec::new(), "people")
        .unwrap();
    let table = db.get_table("people").unwrap();
    assert_eq!(table.rows[0].size(), 1);
    assert_eq!(table.rows[1].size(), 0);
}

#[test]
fn pairs_beyond_the_shorter_list_are_left_out() {
    let mut db = empty();
    db.insert_table(people()).unwrap();
    db.insert(vec!["name", "age"], vec!["Bob"], Vec::new(), "people")
        .unwrap();
    let table = db.get_table("people").unwrap();
    assert_eq!(table.rows[0].size(), 1);
    assert_eq!(table.rows[1].size(), 0);
    db.insert(vec!["age"], vec!["4", "5"], Vec::new(), "people")
        .unwrap();
    let table = db.get_table("people").unwrap();
    assert_eq!(table.rows[1].size(), 1);
    assert_eq!(table.rows[1].get_from_idx(0), ResultDT::Int(4));
}

#[test]
fn a_column_named_twice_gets_both_values_in_order() {
    let mut db = empty();
    db.insert_table(people()).unwrap();
    db.insert(vec!["age", "age"], vec!["1", "2"], Vec::new(), "people")
        .unwrap();
    let table = db.get_table("people").unwrap();
    assert_eq!(table.rows[1].size(), 2);
    assert_eq!(table.rows[1].get_from_idx(0), ResultDT::Int(1));
    assert_eq!(table.rows[1].get_from_idx(1), ResultDT::Int(2));
}

#[test]
fn a_float_column_takes_the_number_handed_in() {
    let mut db = empty();
    db.insert_table(Table::new(
        "m",
        vec![
            Column::new("label", DataType::Str, false),
            Column::new("weight", DataType::Float, true),
        ],
    ))
    .unwrap();
    let texts = vec!["x", "72.5"];
    let floats: Vec<Option<u64>> = texts
        .iter()
        .map(|t| t.parse::<f64>().ok().map(f64::to_bits))
        .collect();
    assert_eq!(floats[0], None);
    db.insert(vec!["label", "weight"], texts, floats, "m").unwrap();
    let found = db.search_idx(vec!["weight", "label"], &0, "m").unwrap();
    assert_eq!(
        found,
        vec![
            ResultDT::Float(72.5f64.to_bits()),
            ResultDT::Str("x".to_string())
        ]
    );
    match &found[0] {
        ResultDT::Float(bits) => assert_eq!(f64::from_bits(*bits), 72.5),
        _ => panic!("not a float"),
    }
}

#[test]
fn try_insert_gives_none_where_a_value_does_not_convert() {
    let mut db = empty();
    db.insert_table(Table::new(
        "m",
        vec![
            Column::new("n", DataType::Int, true),
            Column::new("w", DataType::Float, false),
        ],
    ))
    .unwrap();
    assert!(!db.can_insert(&vec!["n"], &vec!["sixteen"], &Vec::new(), "m"));
    assert!(db
        .try_insert(vec!["n"], vec!["sixteen"], Vec::new(), "m")
        .is_none());
    assert!(!db.can_insert(&vec!["w"], &vec!["1.5"], &Vec::new(), "m"));
    assert!(db
        .try_insert(vec!["w"], vec!["1.5"], vec![None], "m")
        .is_none());
    assert!(!db.can_insert(&vec!["n", "n"], &vec!["1", "99999999999"], &Vec::new(), "m"));
    assert!(db
        .try_insert(vec!["n", "n"], vec!["1", "99999999999"], Vec::new(), "m")
        .is_none());
    let table = db.get_table("m").unwrap();
    assert_eq!(table.rows[0].size(), 0);
    assert_eq!(table.rows[1].size(), 0);
    assert!(db.can_insert(&vec!["w"], &vec!["1.5"], &vec![Some(1.5f64.to_bits())], "m"));
    let r = db.try_insert(vec!["w"], vec!["1.5"], vec![Some(1.5f64.to_bits())], "m");
    assert!(matches!(r, Some(Ok(()))));
    assert_eq!(db.get_table("m").unwrap().rows[1].size(), 1);
}

#[test]
fn try_insert_reports_names_before_values() {
    let mut db = empty();
    db.insert_table(people()).unwrap();
    assert!(db.can_insert(&vec!["age", "height"], &vec!["old", "1"], &Vec::new(), "people"));
    let r = db.try_insert(vec!["age", "height"], vec!["old", "1"], Vec::new(), "people");
    assert!(matches!(r, Some(Err(Error::InvalidColumn))));
    assert!(db.can_insert(&vec!["age"], &vec!["old"], &Vec::new(), "nobody"));
    let r = db.try_insert(vec!["age"], vec!["old"], Vec::new(), "nobody");
    assert!(matches!(r, Some(Err(Error::InvalidTable))));
}

#[test]
fn try_search_gives_none_beyond_the_last_row() {
    let mut db = empty();
    db.insert_table(people()).unwrap();
    db.insert(vec!["name"], vec!["Bob"], Vec::new(), "people")
        .unwrap();
    assert!(db.has_row(&vec!["name"], 0, "people"));
    assert!(!db.has_row(&vec!["name"], 1, "people"));
    assert!(!db.has_row(&vec!["name", "age"], 0, "people"));
    assert!(db.has_row(&vec!["height"], 7, "people"));
    assert!(db.has_row(&vec!["name"], 7, "nobody"));
    assert!(db.try_search_idx(vec!["name"], &1, "people").is_none());
    assert!(db.try_search_idx(vec!["name", "age"], &0, "people").is_none());
    let found = db.try_search_idx(vec!["name"], &0, "people").unwrap().unwrap();
    assert_eq!(found, vec![ResultDT::Str("Bob".to_string())]);
    let none = db.try_search_idx(vec!["height"], &7, "people").unwrap().unwrap();
    assert_eq!(none, Vec::new());
    let r = db.try_search_idx(vec!["name"], &7, "nobody");
    assert!(matches!(r, Some(Err(Error::InvalidTable))));
}

#[test]
fn get_table_finds_by_name() {
    let mut db = empty();
    assert!(db.get_table("people").is_none());
    db.insert_table(people()).unwrap();
    db.insert_table(Table::new("pets", Vec::new())).unwrap();
    assert_eq!(db.get_table("people").unwrap().cols.len(), 2);
    assert_eq!(db.get_table("pets").unwrap().cols.len(), 0);
    assert!(db.get_table("peopl").is_none());
    assert!(db.get_table("").is_none());
    assert_eq!(db.table_position("pets"), Some(1));
    assert_eq!(db.table_position("cars"), None);
}

#[test]
fn get_table_mut_hands_out_the_table_itself() {
    let mut db = empty();
    db.insert_table(people()).unwrap();
    assert!(db.get_table_mut("pets").is_none());
    {
        let table = db.get_table_mut("people").unwrap();
        table.append(1, ResultDT::Int(7));
    }
    assert_eq!(db.tables[0].rows[1].get_from_idx(0), ResultDT::Int(7));
}

#[test]
fn each_distinct_key_is_found_at_its_row() {
    let mut db = empty();
    db.insert_table(Table::new(
        "t",
        vec![
            Column::new("s", DataType::Str, true),
            Column::new("n", DataType::Int, true),
        ],
    ))
    .unwrap();
    let names = ["delta", "alpha", "charlie", "bravo", "echo"];
    let numbers = ["40", "-10", "30", "20", "0"];
    for i in 0..5 {
        db.insert(vec!["s", "n"], vec![names[i], numbers[i]], Vec::new(), "t")
            .unwrap();
    }
    let table = db.get_table("t").unwrap();
    for i in 0..5 {
        assert_eq!(table.cols[0].get_index().get(names[i]).unwrap(), Some(&i));
        assert_eq!(table.cols[1].get_index().get(numbers[i]).unwrap(), Some(&i));
    }
    assert_eq!(table.cols[0].get_index().get("foxtrot").unwrap(), None);
    assert_eq!(table.cols[1].get_index().get("50").unwrap(), None);
}

#[test]
fn a_key_inserted_again_is_found_at_its_newest_row() {
    let mut db = empty();
    db.insert_table(Table::new(
        "t",
        vec![
            Column::new("s", DataType::Str, true),
            Column::new("n", DataType::Int, true),
        ],
    ))
    .unwrap();
    for (s, n) in [("a", "1"), ("b", "2"), ("a", "3"), ("c", "2"), ("a", "1")] {
        db.insert(vec!["s", "n"], vec![s, n], Vec::new(), "t").unwrap();
    }
    let table = db.get_table("t").unwrap();
    assert_eq!(table.cols[0].get_index().get("a").unwrap(), Some(&4));
    assert_eq!(table.cols[0].get_index().get("b").unwrap(), Some(&1));
    assert_eq!(table.cols[0].get_index().get("c").unwrap(), Some(&3));
    assert_eq!(table.cols[1].get_index().get("1").unwrap(), Some(&4));
    assert_eq!(table.cols[1].get_index().get("2").unwrap(), Some(&3));
    assert_eq!(table.cols[1].get_index().get("3").unwrap(), Some(&2));
    assert_eq!(table.cols[1].get_index().get("+3").unwrap(), Some(&2));
    assert_eq!(table.cols[1].get_index().get("003").unwrap(), Some(&2));
}

#[test]
fn an_integer_index_refuses_what_is_no_number() {
    let column = Column::new("n", DataType::Int, true);
    for key in ["abc", "", "-", "+", "1a", " 1", "1 ", "1_000", "0x10", "1.0", "٣", "--1", "+-1"] {
        let r = column.get_index().get(key);
        assert!(matches!(r, Err(Error::InvalidIndex)), "{:?}", key);
    }
    for key in ["2147483648", "-2147483649", "99999999999999999999"] {
        let r = column.get_index().get(key);
        assert!(matches!(r, Err(Error::InvalidIndex)), "{:?}", key);
    }
    for key in ["0", "-0", "+0", "2147483647", "-2147483648", "0000000000000000000001"] {
        let r = column.get_index().get(key);
        assert!(matches!(r, Ok(None)), "{:?}", key);
    }
}

#[test]
fn other_indices_refuse_nothing() {
    let text = Column::new("s", DataType::Str, true);
    assert!(matches!(text.get_index().get("abc"), Ok(None)));
    assert!(matches!(text.get_index().get(""), Ok(None)));
    let plain = Column::new("n", DataType::Int, false);
    assert!(matches!(plain.get_index().get("abc"), Ok(None)));
    assert!(matches!(plain.get_index().get("1"), Ok(None)));
}

#[test]
fn integers_are_read_as_the_numbers_they_denote() {
    let mut db = empty();
    db.insert_table(Table::new("t", vec![Column::new("n", DataType::Int, true)]))
        .unwrap();
    let texts = ["16", "+7", "-2147483648", "2147483647", "007", "-0"];
    let numbers = [16, 7, i32::MIN, i32::MAX, 7, 0];
    for text in texts {
        db.insert(vec!["n"], vec![text], Vec::new(), "t").unwrap();
    }
    for (i, number) in numbers.iter().enumerate() {
        assert_eq!(
            db.search_idx(vec!["n"], &i, "t").unwrap(),
            vec![ResultDT::Int(*number)]
        );
    }
}

#[test]
fn a_new_column_carries_the_index_its_schema_calls_for() {
    assert!(matches!(Column::new("a", DataType::Int, true).index, Index::Int(_)));
    assert!(matches!(Column::new("a", DataType::Str, true).index, Index::Str(_)));
    assert!(matches!(Column::new("a", DataType::Float, true).index, Index::NoIndex));
    assert!(matches!(Column::new("a", DataType::Int, false).index, Index::NoIndex));
    assert!(matches!(Column::new("a", DataType::Str, false).index, Index::NoIndex));
    assert!(matches!(Column::new("a", DataType::Float, false).index, Index::NoIndex));
    let column = Column::new("weight", DataType::Float, true);
    assert_eq!(column.name, "weight");
    assert_eq!(column.kind, DataType::Float);
    assert!(column.is_indexed);
    assert!(column.check());
}

#[test]
fn get_index_mut_reaches_the_index_of_the_column() {
    let mut column = Column::new("n", DataType::Int, true);
    column.get_index_mut().insert(ResultDT::Int(5), 9);
    assert_eq!(column.get_index().get("5").unwrap(), Some(&9));
    column.get_index_mut().insert(ResultDT::Int(5), 11);
    assert_eq!(column.get_index().get("5").unwrap(), Some(&11));
    column.get_index_mut().insert(ResultDT::Str("5".to_string()), 12);
    assert_eq!(column.get_index().get("5").unwrap(), Some(&11));
    assert_eq!(column.get_index().len(), 1);
    assert_eq!(column.name, "n");
}
