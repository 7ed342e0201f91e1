use coldb::text::{compare, same, Place};
use coldb::value::float_bits_eq;
use coldb::{Column, ColumnData, DataType, Database, Error, Index, ResultDT, Table, TextIndex};
use std::collections::BTreeMap;

#[test]
fn values_of_one_variant_are_equal_where_their_contents_are() {
    assert_eq!(ResultDT::Int(5), ResultDT::Int(5));
    assert_ne!(ResultDT::Int(5), ResultDT::Int(6));
    assert_eq!(ResultDT::Str("a".to_string()), ResultDT::Str("a".to_string()));
    assert_ne!(ResultDT::Str("a".to_string()), ResultDT::Str("b".to_string()));
    assert_eq!(ResultDT::Null, ResultDT::Null);
    assert_eq!(
        ResultDT::Float(1.5f64.to_bits()),
        ResultDT::Float(1.5f64.to_bits())
    );
    assert_ne!(
        ResultDT::Float(1.5f64.to_bits()),
        ResultDT::Float(2.5f64.to_bits())
    );
}

#[test]
fn values_of_different_variants_are_never_equal() {
    let all = [
        ResultDT::Int(0),
        ResultDT::Float(0),
        ResultDT::Str(String::new()),
        ResultDT::Null,
    ];
    for (i, a) in all.iter().enumerate() {
        for (j, b) in all.iter().enumerate() {
            assert_eq!(a == b, i == j);
        }
    }
    assert_ne!(ResultDT::Int(5), ResultDT::Str("5".to_string()));
    assert_ne!(ResultDT::Int(5), ResultDT::Float(5));
}

#[test]
fn floats_are_compared_as_numbers() {
    let samples = [
        0.0f64,
        -0.0,
        1.0,
        -1.0,
        1.5,
        f64::MIN_POSITIVE,
        f64::MAX,
        f64::MIN,
        f64::INFINITY,
        f64::NEG_INFINITY,
        f64::NAN,
        -f64::NAN,
        f64::from_bits(0x7ff0_0000_0000_0001),
        f64::from_bits(0xfff8_0000_0000_0000),
        f64::from_bits(1),
        f64::from_bits(0x8000_0000_0000_0001),
        f64::EPSILON,
    ];
    for a in samples {
        for b in samples {
            assert_eq!(float_bits_eq(a.to_bits(), b.to_bits()), a == b, "{} {}", a, b);
            assert_eq!(
                ResultDT::Float(a.to_bits()) == ResultDT::Float(b.to_bits()),
                a == b
            );
        }
    }
    assert!(float_bits_eq(0, 0x8000_0000_0000_0000));
    assert!(!float_bits_eq(0x7ff8_0000_0000_0000, 0x7ff8_0000_0000_0000));
    assert!(float_bits_eq(0x7ff0_0000_0000_0000, 0x7ff0_0000_0000_0000));
}

#[test]
fn texts_are_ordered_as_strings_are() {
    let samples = [
        "", "a", "A", "ab", "abc", "abd", "b", "ba", "é", "e", "z", "zz", "日本", "日", "~", " ",
        "10", "9", "\u{10ffff}", "\u{7f}", "\u{80}", "\u{7ff}", "\u{800}", "\u{ffff}", "\u{10000}",
    ];
    for a in samples {
        for b in samples {
            let place = compare(a, b);
            if a < b {
                assert_eq!(place, Place::Before, "{:?} {:?}", a, b);
            } else if a == b {
                assert_eq!(place, Place::Same, "{:?} {:?}", a, b);
            } else {
                assert_eq!(place, Place::After, "{:?} {:?}", a, b);
            }
            assert_eq!(same(a, b), a == b);
        }
    }
}

#[test]
fn a_text_index_holds_the_newest_position_of_each_key() {
    let mut index = TextIndex::new();
    assert_eq!(index.len(), 0);
    assert_eq!(index.get("a"), None);
    index.insert("m".to_string(), 0);
    index.insert("c".to_string(), 1);
    index.insert("x".to_string(), 2);
    index.insert("a".to_string(), 3);
    index.insert("".to_string(), 4);
    index.insert("mm".to_string(), 5);
    assert_eq!(index.len(), 6);
    assert_eq!(index.get("m"), Some(&0));
    assert_eq!(index.get("c"), Some(&1));
    assert_eq!(index.get("x"), Some(&2));
    assert_eq!(index.get("a"), Some(&3));
    assert_eq!(index.get(""), Some(&4));
    assert_eq!(index.get("mm"), Some(&5));
    assert_eq!(index.get("b"), None);
    assert_eq!(index.get("y"), None);
    index.insert("c".to_string(), 6);
    assert_eq!(index.len(), 6);
    assert_eq!(index.get("c"), Some(&6));
    assert_eq!(index.get("m"), Some(&0));
    assert!(index.check());
}

#[test]
fn a_text_index_lists_its_entries_in_the_order_of_their_keys() {
    let mut index = TextIndex::new();
    let mut model: BTreeMap<String, usize> = BTreeMap::new();
    let keys = ["pear", "apple", "fig", "apple", "zebra", "", "Fig", "pear", "éclair", "a"];
    for (i, key) in keys.iter().enumerate() {
        index.insert(key.to_string(), i);
        model.insert(key.to_string(), i);
    }
    let listed = index.entries();
    let wanted: Vec<(String, usize)> = model.into_iter().collect();
    assert_eq!(listed, wanted);
}

#[test]
fn an_index_records_only_keys_of_its_type() {
    let mut numbers = Index::Int(BTreeMap::new());
    numbers.insert(ResultDT::Int(3), 0);
    numbers.insert(ResultDT::Str("3".to_string()), 1);
    numbers.insert(ResultDT::Float(3), 2);
    numbers.insert(ResultDT::Null, 3);
    assert_eq!(numbers.len(), 1);
    assert_eq!(numbers.position_of(&ResultDT::Int(3)), Some(0));
    assert_eq!(numbers.position_of(&ResultDT::Str("3".to_string())), None);
    let mut texts = Index::Str(TextIndex::new());
    texts.insert(ResultDT::Int(3), 0);
    texts.insert(ResultDT::Str("3".to_string()), 1);
    assert_eq!(texts.len(), 1);
    assert_eq!(texts.position_of(&ResultDT::Str("3".to_string())), Some(1));
    assert_eq!(texts.position_of(&ResultDT::Int(3)), None);
    let mut none = Index::NoIndex;
    none.insert(ResultDT::Int(3), 0);
    assert_eq!(none.len(), 0);
    assert_eq!(none.position_of(&ResultDT::Int(3)), None);
    assert!(matches!(none.get("3"), Ok(None)));
    assert!(matches!(numbers.fresh(), Index::Int(_)));
    assert_eq!(numbers.fresh().len(), 0);
    assert!(matches!(texts.fresh(), Index::Str(_)));
    assert!(matches!(none.fresh(), Index::NoIndex));
    assert!(numbers.check() && texts.check() && none.check());
}

#[test]
fn column_data_grow_by_what_is_pushed() {
    let mut numbers = ColumnData::new(DataType::Int);
    let mut floats = ColumnData::new(DataType::Float);
    let mut texts = ColumnData::new(DataType::Str);
    assert!(matches!(numbers, ColumnData::Int(_)));
    assert!(matches!(floats, ColumnData::Float(_)));
    assert!(matches!(texts, ColumnData::Str(_)));
    assert_eq!(numbers.data_type(), DataType::Int);
    assert_eq!(floats.data_type(), DataType::Float);
    assert_eq!(texts.data_type(), DataType::Str);
    assert_eq!(numbers.size(), 0);
    numbers.push(ResultDT::Int(4));
    numbers.push(ResultDT::Int(-4));
    floats.push(ResultDT::Float(2.25f64.to_bits()));
    texts.push(ResultDT::Str("one".to_string()));
    texts.push(ResultDT::Str("two".to_string()));
    texts.push(ResultDT::Str("".to_string()));
    assert_eq!(numbers.size(), 2);
    assert_eq!(floats.size(), 1);
    assert_eq!(texts.size(), 3);
    assert_eq!(numbers.get_from_idx(0), ResultDT::Int(4));
    assert_eq!(numbers.get_from_idx(1), ResultDT::Int(-4));
    assert_eq!(floats.get_from_idx(0), ResultDT::Float(2.25f64.to_bits()));
    assert_eq!(texts.get_from_idx(1), ResultDT::Str("two".to_string()));
    assert_eq!(texts.get_from_idx(2), ResultDT::Str(String::new()));
}

#[test]
fn a_new_table_has_empty_data_for_each_column() {
    let table = Table::new(
        "t",
        vec![
            Column::new("a", DataType::Int, true),
            Column::new("b", DataType::Float, false),
            Column::new("c", DataType::Str, true),
        ],
    );
    assert_eq!(table.name, "t");
    assert_eq!(table.cols.len(), 3);
    assert_eq!(table.rows.len(), 3);
    assert!(matches!(table.rows[0], ColumnData::Int(_)));
    assert!(matches!(table.rows[1], ColumnData::Float(_)));
    assert!(matches!(table.rows[2], ColumnData::Str(_)));
    for data in &table.rows {
        assert_eq!(data.size(), 0);
    }
    assert_eq!(table.column_position("a"), Some(0));
    assert_eq!(table.column_position("c"), Some(2));
    assert_eq!(table.column_position("d"), None);
    assert!(table.check());
}

#[test]
fn a_table_with_a_name_twice_is_not_well_formed() {
    let table = Table::new(
        "t",
        vec![
            Column::new("a", DataType::Int, true),
            Column::new("a", DataType::Str, false),
        ],
    );
    assert!(!table.check());
    assert_eq!(table.column_position("a"), Some(0));
}

#[test]
fn append_writes_the_data_and_the_index() {
    let mut table = Table::new(
        "t",
        vec![
            Column::new("a", DataType::Int, true),
            Column::new("c", DataType::Str, true),
        ],
    );
    table.append(0, ResultDT::Int(8));
    table.append(1, ResultDT::Str("x".to_string()));
    table.append(0, ResultDT::Int(8));
    assert_eq!(table.rows[0].size(), 2);
    assert_eq!(table.rows[1].size(), 1);
    assert_eq!(table.cols[0].get_index().get("8").unwrap(), Some(&1));
    assert_eq!(table.cols[1].get_index().get("x").unwrap(), Some(&0));
    assert!(table.check());
}

#[test]
fn cells_are_read_by_the_type_of_their_column() {
    assert_eq!(
        Table::read_cell(DataType::Int, "12", None),
        Some(ResultDT::Int(12))
    );
    assert_eq!(Table::read_cell(DataType::Int, "12.5", Some(7)), None);
    assert_eq!(
        Table::read_cell(DataType::Float, "anything", Some(7)),
        Some(ResultDT::Float(7))
    );
    assert_eq!(Table::read_cell(DataType::Float, "1.5", None), None);
    assert_eq!(
        Table::read_cell(DataType::Str, "12", None),
        Some(ResultDT::Str("12".to_string()))
    );
    assert!(Table::reads_cell(DataType::Int, "-12", None));
    assert!(!Table::reads_cell(DataType::Int, "twelve", None));
    assert!(Table::reads_cell(DataType::Float, "", Some(0)));
    assert!(!Table::reads_cell(DataType::Float, "1", None));
    assert!(Table::reads_cell(DataType::Str, "", None));
}

fn filled() -> Table {
    let mut table = Table::new(
        "t",
        vec![
            Column::new("a", DataType::Int, true),
            Column::new("b", DataType::Float, true),
            Column::new("c", DataType::Str, true),
            Column::new("d", DataType::Str, false),
        ],
    );
    for (a, c) in [(1, "x"), (2, "y"), (1, "z"), (3, "x")] {
        table.append(0, ResultDT::Int(a));
        table.append(1, ResultDT::Float(a as u64));
        table.append(2, ResultDT::Str(c.to_string()));
        table.append(3, ResultDT::Str(c.to_string()));
    }
    table
}

#[test]
fn a_table_built_by_appending_is_well_formed() {
    assert!(filled().check());
    assert!(Database::new(vec![filled()]).is_some());
}

#[test]
fn an_index_that_disagrees_with_the_data_is_found_out() {
    let mut stale = filled();
    stale.cols[0].get_index_mut().insert(ResultDT::Int(1), 0);
    assert!(!stale.check());

    let mut extra = filled();
    extra.cols[0].get_index_mut().insert(ResultDT::Int(9), 0);
    assert!(!extra.check());

    let mut extra_text = filled();
    extra_text.cols[2]
        .get_index_mut()
        .insert(ResultDT::Str("w".to_string()), 1);
    assert!(!extra_text.check());

    let mut missing = filled();
    missing.cols[2].index = Index::Str(TextIndex::new());
    assert!(!missing.check());

    let mut beyond = filled();
    beyond.cols[0].get_index_mut().insert(ResultDT::Int(3), 4);
    assert!(!beyond.check());

    assert!(Database::new(vec![stale]).is_none());
}

#[test]
fn a_schema_that_disagrees_with_itself_is_found_out() {
    let mut wrong_index = filled();
    wrong_index.cols[3].index = Index::Str(TextIndex::new());
    assert!(!wrong_index.check());

    let mut flagged = filled();
    flagged.cols[3].is_indexed = true;
    assert!(!flagged.check());

    let mut unflagged = filled();
    unflagged.cols[0].is_indexed = false;
    assert!(!unflagged.check());

    let mut wrong_kind = filled();
    wrong_kind.cols[3].kind = DataType::Int;
    assert!(!wrong_kind.check());

    let mut wrong_data = filled();
    wrong_data.rows[3] = ColumnData::new(DataType::Float);
    assert!(!wrong_data.check());

    let mut short = filled();
    short.rows.pop();
    assert!(!short.check());

    let mut twice = filled();
    twice.cols[3].name = "a".to_string();
    assert!(!twice.check());

    let mut float_flag = filled();
    float_flag.cols[1].is_indexed = false;
    assert!(float_flag.check());
}

#[test]
fn a_database_takes_well_formed_tables_with_names_of_their_own() {
    let db = Database::new(vec![filled(), Table::new("u", Vec::new())]).unwrap();
    assert_eq!(db.tables.len(), 2);
    assert_eq!(db.tables[0].name, "t");
    assert_eq!(db.tables[1].name, "u");
    assert!(db.check());
    assert_eq!(
        db.search_idx(vec!["c", "a"], &2, "t").unwrap(),
        vec![ResultDT::Str("z".to_string()), ResultDT::Int(1)]
    );
    assert!(Database::new(vec![filled(), filled()]).is_none());
    assert!(Database::new(Vec::new()).is_some());
}

#[test]
fn a_failed_write_is_reported_as_a_file_error() {
    assert!(matches!(Error::from_write(Ok(())), Ok(())));
    let cause = std::io::Error::new(std::io::ErrorKind::Other, "disk full");
    match Error::from_write(Err(cause)) {
        Err(Error::FileError(e)) => {
            assert_eq!(e.kind(), std::io::ErrorKind::Other);
            assert_eq!(e.to_string(), "disk full");
        }
        _ => panic!("not a file error"),
    }
}

fn named(names: &[&str]) -> Vec<(String, ColumnData)> {
    names
        .iter()
        .enumerate()
        .map(|(i, name)| {
            let mut data = ColumnData::new(DataType::Int);
            data.push(ResultDT::Int(i as i32));
            (name.to_string(), data)
        })
        .collect()
}

fn schema(names: &[&str]) -> Vec<Column> {
    names
        .iter()
        .map(|name| Column::new(name, DataType::Int, false))
        .collect()
}

#[test]
fn named_data_go_to_the_columns_of_their_names() {
    let table = Table::from_named("t", schema(&["a", "b", "c"]), named(&["c", "a", "b"])).unwrap();
    assert_eq!(table.name, "t");
    assert_eq!(table.cols.len(), 3);
    assert_eq!(table.rows.len(), 3);
    assert_eq!(table.rows[0].get_from_idx(0), ResultDT::Int(1));
    assert_eq!(table.rows[1].get_from_idx(0), ResultDT::Int(2));
    assert_eq!(table.rows[2].get_from_idx(0), ResultDT::Int(0));
    assert!(table.check());
    assert!(Table::from_named("t", Vec::new(), Vec::new()).is_some());
}

#[test]
fn named_data_that_do_not_fit_the_schema_are_refused() {
    assert!(Table::from_named("t", schema(&["a", "b"]), named(&["a"])).is_none());
    assert!(Table::from_named("t", schema(&["a"]), named(&["a", "b"])).is_none());
    assert!(Table::from_named("t", schema(&["a", "b"]), named(&["a", "c"])).is_none());
    assert!(Table::from_named("t", schema(&["a", "b"]), named(&["a", "a"])).is_none());
    assert!(Table::from_named("t", schema(&["a", "a"]), named(&["a", "a"])).is_none());
    assert!(Table::from_named("t", schema(&["a", "a"]), named(&["a", "b"])).is_none());
    assert!(Table::from_named("t", Vec::new(), named(&["a"])).is_none());
}
