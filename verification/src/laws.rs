//! What holds of the operations taken together, proved over the mathematical
//! content of tables and databases.

use vstd::prelude::*;
use crate::database::DatabaseView;
use crate::table::{is_last, last_positions, lemma_last_position, RowView, TableView};
use crate::text::{first_position, lemma_first_position, lemma_no_position};
use crate::value::Value;

verus! {

impl RowView {
    /// Whether no name occurs twice among the pairs of the row.
    pub open spec fn once(self) -> bool {
        forall|i: int, j: int| 0 <= i < j < self.len() ==> self.names[i] != self.names[j]
    }

    /// The first pair of the row that names `name`, if one does.
    pub open spec fn pair_of(self, name: Seq<char>) -> Option<int> {
        first_position(self.names.take(self.len()), name)
    }
}

impl TableView {
    /// How many of the first `n` pairs of `row` go to column `c`.
    pub open spec fn count(self, row: RowView, n: int, c: int) -> int
        decreases n,
    {
        if n <= 0 {
            0
        } else if self.position(row.names[n - 1]) == Some(c) {
            self.count(row, n - 1, c) + 1
        } else {
            self.count(row, n - 1, c)
        }
    }

    /// Whether `row` brings the same number of values to every column.
    pub open spec fn evenly(self, row: RowView) -> bool {
        forall|c: int, d: int|
            0 <= c < self.cols.len() && 0 <= d < self.cols.len() ==> self.count(row, row.len(), c)
                == self.count(row, row.len(), d)
    }

    /// Whether one of the pairs of `row` names column `c`.
    pub open spec fn named(self, row: RowView, c: int) -> bool {
        exists|i: int| 0 <= i < row.len() && self.position(#[trigger] row.names[i]) == Some(c)
    }

    /// The values that `row` brought to the columns that the first `n` of
    /// `asked` name, in the order of `asked`; a name that is no column's adds
    /// nothing.
    pub open spec fn brought_first(self, row: RowView, asked: Seq<Seq<char>>, n: int) -> Seq<Value>
        decreases n,
    {
        if n <= 0 {
            Seq::empty()
        } else {
            match self.position(asked[n - 1]) {
                Some(c) => self.brought_first(row, asked, n - 1).push(
                    self.cell(row, row.pair_of(asked[n - 1]).unwrap()).unwrap(),
                ),
                None => self.brought_first(row, asked, n - 1),
            }
        }
    }

    /// The values that `row` brought to the columns that `asked` names.
    pub open spec fn brought(self, row: RowView, asked: Seq<Seq<char>>) -> Seq<Value> {
        self.brought_first(row, asked, asked.len() as int)
    }

    /// Whether `row` names each column that `asked` names.
    pub open spec fn brings(self, row: RowView, asked: Seq<Seq<char>>) -> bool {
        forall|k: int|
            0 <= k < asked.len() && (#[trigger] self.position(asked[k])) is Some ==> row.pair_of(
                asked[k],
            ) is Some
    }

    /// Whether each column that `row` names holds exactly `p` rows.
    pub open spec fn full_to(self, row: RowView, p: int) -> bool {
        forall|i: int|
            0 <= i < row.len() ==> (match #[trigger] self.position(row.names[i]) {
                Some(c) => self.rows[c].len() == p,
                None => true,
            })
    }
}

/// Appending the first `n` pairs of a row whose names are known keeps the
/// schema but for the indices: the same columns under the same names and of
/// the same types, and data for each.
pub proof fn lemma_insert_keeps_schema(table: TableView, row: RowView, n: int)
    requires
        table.rows.len() == table.cols.len(),
        table.knows(row),
        0 <= n <= row.len(),
    ensures
        table.insert_first(row, n).name == table.name,
        table.insert_first(row, n).names() == table.names(),
        table.insert_first(row, n).cols.len() == table.cols.len(),
        table.insert_first(row, n).rows.len() == table.rows.len(),
        forall|d: int|
            0 <= d < table.cols.len() ==> (#[trigger] table.insert_first(row, n).cols[d]).kind
                == table.cols[d].kind,
    decreases n,
{
    if n > 0 {
        lemma_insert_keeps_schema(table, row, n - 1);
        let earlier = table.insert_first(row, n - 1);
        let c = table.position(row.names[n - 1]).unwrap();
        lemma_no_position(table.names(), row.names[n - 1]);
        assert(earlier.append(c, table.cell(row, n - 1).unwrap()).names() =~= earlier.names());
    }
}

/// After the first `n` pairs of a row were appended, each column is longer
/// by the number of pairs that went to it.
pub proof fn lemma_insert_lengths(table: TableView, row: RowView, n: int, c: int)
    requires
        table.rows.len() == table.cols.len(),
        table.knows(row),
        0 <= n <= row.len(),
        0 <= c < table.cols.len(),
    ensures
        table.insert_first(row, n).rows[c].len() == table.rows[c].len() + table.count(row, n, c),
    decreases n,
{
    if n > 0 {
        lemma_insert_lengths(table, row, n - 1, c);
        lemma_insert_keeps_schema(table, row, n - 1);
        lemma_no_position(table.names(), row.names[n - 1]);
    }
}

/// Alignment. Inserting a row into a table whose columns all have the same
/// length leaves them with the same length exactly where the row brings the
/// same number of values to every column, as it does where it names each
/// column once. A refused insertion changes nothing, as `Database::insert`
/// states.
pub proof fn law_insert_keeps_alignment(db: DatabaseView, row: RowView, name: Seq<char>)
    requires
        db.wf(),
        db.insert(row, name) is Ok,
        db.tables[db.position(name).unwrap()].aligned(),
    ensures
        ({
            let t = db.position(name).unwrap();
            let after = db.insert(row, name).unwrap();
            &&& after.tables.len() == db.tables.len()
            &&& forall|u: int| 0 <= u < db.tables.len() && u != t ==> after.tables[u] == db.tables[u]
            &&& after.tables[t].aligned() <==> db.tables[t].evenly(row)
        }),
{
    let t = db.position(name).unwrap();
    lemma_no_position(db.names(), name);
    let table = db.tables[t];
    let after = table.insert(row);
    assert(table.wf());
    lemma_insert_keeps_schema(table, row, row.len());
    assert forall|c: int| 0 <= c < table.cols.len() implies after.rows[c].len() == table.rows[c].len()
        + table.count(row, row.len(), c) by {
        lemma_insert_lengths(table, row, row.len(), c);
    }
    if table.evenly(row) {
        assert forall|c: int, d: int|
            0 <= c < after.rows.len() && 0 <= d < after.rows.len() implies (#[trigger] after.rows[c]).len()
                == (#[trigger] after.rows[d]).len() by {
            assert(table.rows[c].len() == table.rows[d].len());
            assert(table.count(row, row.len(), c) == table.count(row, row.len(), d));
        }
    }
    if after.aligned() {
        assert forall|c: int, d: int|
            0 <= c < table.cols.len() && 0 <= d < table.cols.len() implies table.count(
            row,
            row.len(),
            c,
        ) == table.count(row, row.len(), d) by {
            assert(table.rows[c].len() == table.rows[d].len());
            assert(after.rows[c].len() == after.rows[d].len());
        }
    }
}

/// Alignment, for whole rows. Inserting a row that names every column of the
/// table, and none twice, into a table whose columns all have the same
/// length leaves them with the same length.
pub proof fn law_whole_row_keeps_alignment(db: DatabaseView, row: RowView, name: Seq<char>)
    requires
        db.wf(),
        db.insert(row, name) is Ok,
        db.tables[db.position(name).unwrap()].aligned(),
        row.once(),
        forall|c: int|
            0 <= c < db.tables[db.position(name).unwrap()].cols.len() ==> #[trigger] db.tables[db.position(
                name,
            ).unwrap()].named(row, c),
    ensures
        db.insert(row, name).unwrap().tables[db.position(name).unwrap()].aligned(),
{
    let table = db.tables[db.position(name).unwrap()];
    lemma_whole_row_is_even(table, row);
    law_insert_keeps_alignment(db, row, name);
}

/// A row that names every column of a table, and none twice, brings one
/// value to every column.
proof fn lemma_whole_row_is_even(table: TableView, row: RowView)
    requires
        table.knows(row),
        row.once(),
        forall|c: int| 0 <= c < table.cols.len() ==> #[trigger] table.named(row, c),
    ensures
        table.evenly(row),
{
    assert forall|c: int| 0 <= c < table.cols.len() implies table.count(row, row.len(), c) == 1 by {
        assert(table.named(row, c));
        let i = choose|i: int|
            0 <= i < row.len() && table.position(#[trigger] row.names[i]) == Some(c);
        lemma_count_once(table, row, row.len(), i);
    }
}

/// A column that none of the first `n` pairs names gets none of them; one
/// that pair `i` names, and no other pair, gets one.
proof fn lemma_count_once(table: TableView, row: RowView, n: int, i: int)
    requires
        row.once(),
        0 <= i < row.len(),
        0 <= n <= row.len(),
        table.position(row.names[i]) is Some,
    ensures
        table.count(row, n, table.position(row.names[i]).unwrap()) == if i < n {
            1int
        } else {
            0int
        },
    decreases n,
{
    if n > 0 {
        lemma_count_once(table, row, n - 1, i);
        let c = table.position(row.names[i]).unwrap();
        if n - 1 != i && table.position(row.names[n - 1]) == Some(c) {
            lemma_no_position(table.names(), row.names[i]);
            lemma_no_position(table.names(), row.names[n - 1]);
            assert(row.names[i] == table.names()[c]);
            assert(row.names[n - 1] == table.names()[c]);
            if i < n - 1 {
                assert(row.names[i] != row.names[n - 1]);
            } else {
                assert(row.names[n - 1] != row.names[i]);
            }
        }
    }
}

/// After the first `n` pairs of a row that names no column twice were
/// appended to a table with `p` rows in each column that the row names, the
/// value of pair `i` stands at row `p` of its column.
proof fn lemma_inserted_cell(table: TableView, row: RowView, p: int, n: int, i: int)
    requires
        table.rows.len() == table.cols.len(),
        table.knows(row),
        row.once(),
        table.full_to(row, p),
        0 <= i < n <= row.len(),
    ensures
        ({
            let c = table.position(row.names[i]).unwrap();
            let after = table.insert_first(row, n);
            &&& 0 <= c < after.rows.len()
            &&& after.rows[c].len() == p + 1
            &&& after.rows[c][p] == table.cell(row, i).unwrap()
        }),
    decreases n,
{
    let c = table.position(row.names[i]).unwrap();
    lemma_no_position(table.names(), row.names[i]);
    let d = table.position(row.names[n - 1]).unwrap();
    lemma_no_position(table.names(), row.names[n - 1]);
    lemma_insert_keeps_schema(table, row, n - 1);
    lemma_insert_lengths(table, row, n - 1, d);
    lemma_insert_lengths(table, row, n - 1, c);
    lemma_count_once(table, row, n - 1, n - 1);
    lemma_count_once(table, row, n - 1, i);
    assert(table.rows[d].len() == p);
    assert(table.rows[c].len() == p);
    if i < n - 1 {
        lemma_inserted_cell(table, row, p, n - 1, i);
        if d == c {
            lemma_count_once(table, row, n, i);
            lemma_count_once(table, row, n, n - 1);
            lemma_insert_lengths(table, row, n, c);
        }
    }
}

/// Reading back. A row that names no column twice, inserted into a table
/// that holds `p` rows in each column that the row names, is row `p`
/// afterwards: reading row `p` by any list of names of columns that the row
/// named gives, for each name, the value that the row brought for it,
/// converted to the type of its column, in the order of the list.
pub proof fn law_insert_then_search(
    db: DatabaseView,
    row: RowView,
    name: Seq<char>,
    p: int,
    asked: Seq<Seq<char>>,
)
    requires
        db.wf(),
        db.insert(row, name) is Ok,
        db.converts(row, name),
        row.once(),
        db.tables[db.position(name).unwrap()].full_to(row, p),
        db.tables[db.position(name).unwrap()].brings(row, asked),
    ensures
        ({
            let t = db.position(name).unwrap();
            let after = db.insert(row, name).unwrap();
            &&& after.holds(asked, p, name)
            &&& after.search(asked, p, name) == Ok::<Seq<Value>, crate::error::Error>(
                db.tables[t].brought(row, asked),
            )
        }),
{
    let t = db.position(name).unwrap();
    lemma_no_position(db.names(), name);
    let table = db.tables[t];
    assert(table.wf());
    let after = db.insert(row, name).unwrap();
    let n = row.len();
    lemma_insert_keeps_schema(table, row, n);
    assert(after.names() =~= db.names());
    assert(after.position(name) == Some(t));
    let later = after.tables[t];
    assert(later == table.insert(row));
    assert(later.names() == table.names());
    assert forall|k: int| 0 <= k < asked.len() implies (match #[trigger] later.position(asked[k]) {
        Some(c) => 0 <= p < later.rows[c].len(),
        None => true,
    }) by {
        if table.position(asked[k]) is Some {
            lemma_asked_cell(table, row, p, asked[k]);
            let c = table.position(asked[k]).unwrap();
            lemma_no_position(table.names(), asked[k]);
            assert(table.rows[c].len() == p);
        }
    }
    lemma_read_inserted(table, row, p, asked, asked.len() as int);
}

/// Reading back, in the order of the row. Reading row `p` by the names of
/// the inserted row itself gives the values of the row in their order.
pub proof fn law_insert_then_search_same(db: DatabaseView, row: RowView, name: Seq<char>, p: int)
    requires
        db.wf(),
        db.insert(row, name) is Ok,
        db.converts(row, name),
        row.once(),
        db.tables[db.position(name).unwrap()].full_to(row, p),
    ensures
        ({
            let t = db.position(name).unwrap();
            let after = db.insert(row, name).unwrap();
            let asked = row.names.take(row.len());
            &&& after.holds(asked, p, name)
            &&& after.search(asked, p, name) == Ok::<Seq<Value>, crate::error::Error>(
                Seq::new(row.len() as nat, |i: int| db.tables[t].cell(row, i).unwrap()),
            )
        }),
{
    let t = db.position(name).unwrap();
    lemma_no_position(db.names(), name);
    let table = db.tables[t];
    let asked = row.names.take(row.len());
    assert forall|k: int|
        0 <= k < asked.len() && (#[trigger] table.position(asked[k])) is Some implies row.pair_of(
        asked[k],
    ) is Some by {
        lemma_pair_of_own(row, k);
    }
    law_insert_then_search(db, row, name, p, asked);
    lemma_brought_own(table, row, row.len());
}

/// In a row that names no column twice, pair `i` is the pair of its name.
proof fn lemma_pair_of_own(row: RowView, i: int)
    requires
        row.once(),
        0 <= i < row.len(),
    ensures
        row.pair_of(row.names[i]) == Some(i),
{
    let names = row.names.take(row.len());
    assert(names[i] == row.names[i]);
    assert forall|j: int| 0 <= j < i implies names[j] != row.names[i] by {
        assert(names[j] == row.names[j]);
    }
    lemma_first_position(names, row.names[i], i);
}

/// Asked by its own names, a row brought its values in their order.
proof fn lemma_brought_own(table: TableView, row: RowView, k: int)
    requires
        table.knows(row),
        row.once(),
        0 <= k <= row.len(),
    ensures
        table.brought_first(row, row.names.take(row.len()), k) == Seq::new(
            k as nat,
            |i: int| table.cell(row, i).unwrap(),
        ),
    decreases k,
{
    let asked = row.names.take(row.len());
    let wanted = Seq::new(k as nat, |i: int| table.cell(row, i).unwrap());
    if k > 0 {
        lemma_brought_own(table, row, k - 1);
        assert(asked[k - 1] == row.names[k - 1]);
        assert(table.position(row.names[k - 1]) is Some);
        lemma_pair_of_own(row, k - 1);
        assert(table.brought_first(row, asked, k) =~= wanted);
    } else {
        assert(table.brought_first(row, asked, k) =~= wanted);
    }
}

/// After a row was inserted as in `law_insert_then_search`, the value that
/// it brought for the column `name` stands at row `p` of that column.
proof fn lemma_asked_cell(table: TableView, row: RowView, p: int, name: Seq<char>)
    requires
        table.rows.len() == table.cols.len(),
        table.knows(row),
        row.once(),
        table.full_to(row, p),
        table.position(name) is Some,
        row.pair_of(name) is Some,
    ensures
        ({
            let c = table.position(name).unwrap();
            let i = row.pair_of(name).unwrap();
            let after = table.insert(row);
            &&& 0 <= i < row.len()
            &&& 0 <= c < after.rows.len()
            &&& after.rows[c].len() == p + 1
            &&& after.rows[c][p] == table.cell(row, i).unwrap()
        }),
{
    let i = row.pair_of(name).unwrap();
    lemma_no_position(row.names.take(row.len()), name);
    assert(row.names.take(row.len())[i] == row.names[i]);
    lemma_inserted_cell(table, row, p, row.len(), i);
}

/// Reading row `p` by the first `k` of the names asked gives the values
/// that the inserted row brought for them.
proof fn lemma_read_inserted(table: TableView, row: RowView, p: int, asked: Seq<Seq<char>>, k: int)
    requires
        table.rows.len() == table.cols.len(),
        table.knows(row),
        row.once(),
        table.full_to(row, p),
        table.brings(row, asked),
        0 <= k <= asked.len(),
    ensures
        table.insert(row).read_first(asked, p, k) == table.brought_first(row, asked, k),
    decreases k,
{
    lemma_insert_keeps_schema(table, row, row.len());
    if k > 0 {
        lemma_read_inserted(table, row, p, asked, k - 1);
        if table.position(asked[k - 1]) is Some {
            lemma_asked_cell(table, row, p, asked[k - 1]);
        }
    }
}

/// Registration. Once a table is registered its name is taken: the table
/// stands last, under its name, and registering any table of that name again
/// is refused.
pub proof fn law_registered_name_is_taken(db: DatabaseView, table: TableView, again: TableView)
    requires
        db.insert_table(table) is Ok,
        again.name == table.name,
    ensures
        ({
            let after = db.insert_table(table).unwrap();
            &&& after.tables == db.tables.push(table)
            &&& after.position(table.name) == Some(db.tables.len() as int)
            &&& after.insert_table(again) == Err::<DatabaseView, crate::error::Error>(
                crate::error::Error::TableAlreadyExists,
            )
        }),
{
    let after = db.insert_table(table).unwrap();
    lemma_no_position(db.names(), table.name);
    assert forall|t: int| 0 <= t < db.tables.len() implies after.names()[t] != table.name by {
        assert(after.names()[t] == db.names()[t]);
    }
    assert(after.names()[db.tables.len() as int] == table.name);
    lemma_first_position(after.names(), table.name, db.tables.len() as int);
}

/// Index. In a well-formed table the index of a column finds, for the text
/// of a key, the last row of the column that holds that key, and finds
/// nothing for a key that the column does not hold. So where the keys of a
/// column are all distinct, each key is found at the row at which it was
/// inserted; and where a key was inserted again, it is found at the newest
/// of its rows.
pub proof fn law_index_finds_last_row(table: TableView, c: int, key: Seq<char>)
    requires
        table.wf(),
        0 <= c < table.cols.len(),
        table.cols[c].index.key_of(key) is Some,
    ensures
        ({
            let value = table.cols[c].index.key_of(key).unwrap();
            &&& !table.cols[c].index.refuses(key)
            &&& forall|p: int|
                is_last(table.rows[c], value, p) <==> table.cols[c].index.find(key) == Some(p as usize)
                    && 0 <= p <= usize::MAX
            &&& table.cols[c].index.find(key) is None <==> forall|p: int|
                0 <= p < table.rows[c].len() ==> table.rows[c][p] != value
        }),
{
    let index = table.cols[c].index;
    let value = index.key_of(key).unwrap();
    let held = table.rows[c];
    assert(table.cols[c].wf());
    assert(!(index is NoIndex));
    assert(index.entries() == last_positions(held));
    assert(held.len() <= usize::MAX);
    assert forall|p: int| is_last(held, value, p) implies index.find(key) == Some(p as usize) by {
        lemma_last_position(held, value, p);
    }
    assert forall|p: int| index.find(key) == Some(p as usize) && 0 <= p <= usize::MAX implies is_last(
        held,
        value,
        p,
    ) by {
        let q = choose|q: int| is_last(held, value, q);
        lemma_last_position(held, value, q);
    }
    if forall|p: int| 0 <= p < held.len() ==> held[p] != value {
        if index.find(key) is Some {
            let q = choose|q: int| is_last(held, value, q);
            assert(held[q] == value);
        }
    }
    if index.find(key) is None {
        assert forall|p: int| 0 <= p < held.len() implies held[p] != value by {
            if held[p] == value {
                crate::table::lemma_has_last(held, p);
            }
        }
    }
}

/// Index, step by step. Appending a value to an indexed column makes the new
/// row the one that the index finds for it, whatever row it found before,
/// and leaves what the index finds for every other key.
pub proof fn law_append_indexes_newest(table: TableView, c: int, value: Value, key: Seq<char>)
    requires
        table.wf(),
        0 <= c < table.cols.len(),
        value.kind() == Some(table.cols[c].kind),
        table.rows[c].len() < usize::MAX,
        table.cols[c].index.key_of(key) is Some,
    ensures
        ({
            let after = table.append(c, value).cols[c].index;
            if table.cols[c].index.key_of(key) == Some(value) {
                after.find(key) == Some(table.rows[c].len() as usize)
            } else {
                after.find(key) == table.cols[c].index.find(key)
            }
        }),
{
    let index = table.cols[c].index;
    assert(table.cols[c].wf());
    crate::index::lemma_record_entries(index, value, table.rows[c].len() as usize);
}

} // verus!
