//! A table: an ordered schema of columns and, for each column, its data.

use vstd::prelude::*;
use crate::column::{Column, ColumnData, ColumnView};
use crate::index::{lemma_holds_all, lemma_record_entries, lemma_same_entries, Index, IndexView};
use crate::number::{parse_i32, parse_int};
use crate::text::{distinct, first_position, lemma_first_position, lemma_no_position, same};
use crate::value::{DataType, ResultDT, Value};

verus! {

/// A named table. `rows[c]` holds the data of the column `cols[c]`.
pub struct Table {
    pub name: String,
    pub cols: Vec<Column>,
    pub rows: Vec<ColumnData>,
}

/// The mathematical content of a table.
pub struct TableView {
    pub name: Seq<char>,
    pub cols: Seq<ColumnView>,
    pub rows: Seq<Seq<Value>>,
}

/// The values handed to an insertion: `names[i]` is the column that
/// `texts[i]` goes to, and `floats[i]` is the floating-point number that the
/// caller read from `texts[i]`, as its bit pattern, if it read one.
pub struct RowView {
    pub names: Seq<Seq<char>>,
    pub texts: Seq<Seq<char>>,
    pub floats: Seq<Option<u64>>,
}

impl RowView {
    /// The number of pairs of a name and a text.
    pub open spec fn len(self) -> int {
        if self.names.len() <= self.texts.len() {
            self.names.len() as int
        } else {
            self.texts.len() as int
        }
    }

    /// The floating-point number read from text `i`, if one was handed in.
    pub open spec fn float(self, i: int) -> Option<u64> {
        if 0 <= i < self.floats.len() {
            self.floats[i]
        } else {
            None
        }
    }
}

/// Whether `p` is the last position at which `value` stands in `values`.
pub open spec fn is_last(values: Seq<Value>, value: Value, p: int) -> bool {
    &&& 0 <= p < values.len()
    &&& values[p] == value
    &&& forall|q: int| p < q < values.len() ==> values[q] != value
}

/// The map from each value that stands in `values` to the last position at
/// which it stands.
pub open spec fn last_positions(values: Seq<Value>) -> Map<Value, usize> {
    Map::new(
        |v: Value| exists|p: int| is_last(values, v, p),
        |v: Value| (choose|p: int| is_last(values, v, p)) as usize,
    )
}

/// The value that a column of type `kind` takes from `text`: the `i32` that
/// the text denotes, the floating-point number that came with it, or the text
/// itself. `None` where the text denotes no `i32` or no number came with it.
pub open spec fn convert(kind: DataType, text: Seq<char>, float: Option<u64>) -> Option<Value> {
    match kind {
        DataType::Int => match parse_i32(text) {
            Some(n) => Some(Value::Int(n)),
            None => None,
        },
        DataType::Float => match float {
            Some(bits) => Some(Value::Float(bits)),
            None => None,
        },
        DataType::Str => Some(Value::Str(text)),
    }
}

impl TableView {
    /// The names of the columns, in the order of the schema.
    pub open spec fn names(self) -> Seq<Seq<char>> {
        Seq::new(self.cols.len(), |c: int| self.cols[c].name)
    }

    /// The position of the column named `name`.
    pub open spec fn position(self, name: Seq<char>) -> Option<int> {
        first_position(self.names(), name)
    }

    /// Whether every value of every column is of the column's type.
    pub open spec fn typed(self) -> bool {
        forall|c: int, p: int|
            0 <= c < self.rows.len() && 0 <= p < self.rows[c].len() ==> (#[trigger] self.rows[c][p]).kind()
                == Some(self.cols[c].kind)
    }

    /// Whether every index maps each value of its column to the last row that
    /// holds it, and nothing else.
    pub open spec fn indexed(self) -> bool {
        forall|c: int|
            0 <= c < self.cols.len() && !((#[trigger] self.cols[c]).index is NoIndex)
                ==> self.cols[c].index.entries() == last_positions(self.rows[c])
    }

    /// Whether the table is well formed: each column has its data, no name
    /// occurs twice, each column carries the index that its schema calls for,
    /// the data are of the columns' types, and the indices agree with the
    /// data.
    pub open spec fn wf(self) -> bool {
        &&& self.rows.len() == self.cols.len()
        &&& distinct(self.names())
        &&& forall|c: int| 0 <= c < self.cols.len() ==> (#[trigger] self.cols[c]).wf()
        &&& forall|c: int| 0 <= c < self.rows.len() ==> (#[trigger] self.rows[c]).len() <= usize::MAX
        &&& self.typed()
        &&& self.indexed()
    }

    /// Whether all columns hold the same number of rows.
    pub open spec fn aligned(self) -> bool {
        forall|c: int, d: int|
            0 <= c < self.rows.len() && 0 <= d < self.rows.len() ==> (#[trigger] self.rows[c]).len() == (
            #[trigger] self.rows[d]).len()
    }

    /// The table after `value` was appended to column `c`: the column's data
    /// grow by the value, and the column's index records it at the new row.
    pub open spec fn append(self, c: int, value: Value) -> TableView {
        TableView {
            name: self.name,
            cols: self.cols.update(
                c,
                ColumnView {
                    index: self.cols[c].index.record(value, self.rows[c].len() as usize),
                    ..self.cols[c]
                },
            ),
            rows: self.rows.update(c, self.rows[c].push(value)),
        }
    }

    /// Whether each of the names of `row` is the name of a column.
    pub open spec fn knows(self, row: RowView) -> bool {
        forall|i: int| 0 <= i < row.len() ==> (#[trigger] self.position(row.names[i])) is Some
    }

    /// The value that pair `i` of `row` brings to its column.
    pub open spec fn cell(self, row: RowView, i: int) -> Option<Value> {
        match self.position(row.names[i]) {
            Some(c) => convert(self.cols[c].kind, row.texts[i], row.float(i)),
            None => None,
        }
    }

    /// Whether each text of `row` converts to the type of its column.
    pub open spec fn converts(self, row: RowView) -> bool {
        forall|i: int| 0 <= i < row.len() ==> (#[trigger] self.cell(row, i)) is Some
    }

    /// The table after the first `n` pairs of `row` were appended, in order.
    pub open spec fn insert_first(self, row: RowView, n: int) -> TableView
        decreases n,
    {
        if n <= 0 {
            self
        } else {
            self.insert_first(row, n - 1).append(
                self.position(row.names[n - 1]).unwrap(),
                self.cell(row, n - 1).unwrap(),
            )
        }
    }

    /// The table after all pairs of `row` were appended, in order.
    pub open spec fn insert(self, row: RowView) -> TableView {
        self.insert_first(row, row.len())
    }

    /// The values of row `p` in the columns that the first `n` of `names`
    /// name, in the order of the names; a name that is no column's adds
    /// nothing.
    pub open spec fn read_first(self, names: Seq<Seq<char>>, p: int, n: int) -> Seq<Value>
        decreases n,
    {
        if n <= 0 {
            Seq::empty()
        } else {
            match self.position(names[n - 1]) {
                Some(c) => self.read_first(names, p, n - 1).push(self.rows[c][p]),
                None => self.read_first(names, p, n - 1),
            }
        }
    }

    /// The values of row `p` in the columns that `names` name.
    pub open spec fn read(self, names: Seq<Seq<char>>, p: int) -> Seq<Value> {
        self.read_first(names, p, names.len() as int)
    }

    /// Whether each column that `names` name holds a row `p`.
    pub open spec fn holds(self, names: Seq<Seq<char>>, p: int) -> bool {
        forall|i: int|
            0 <= i < names.len() ==> (match #[trigger] self.position(names[i]) {
                Some(c) => 0 <= p < self.rows[c].len(),
                None => true,
            })
    }
}

/// The last position of a value is the position that `last_positions` holds
/// for it.
pub proof fn lemma_last_position(values: Seq<Value>, value: Value, p: int)
    requires
        is_last(values, value, p),
        values.len() <= usize::MAX,
    ensures
        last_positions(values).contains_key(value),
        last_positions(values)[value] == p,
{
    let q = choose|q: int| is_last(values, value, q);
    if q < p {
        assert(values[p] != value);
    } else if p < q {
        assert(values[q] != value);
    }
}

/// Each value that stands in `values` has a last position.
pub proof fn lemma_has_last(values: Seq<Value>, p: int)
    requires
        0 <= p < values.len(),
    ensures
        exists|q: int| p <= q && is_last(values, values[p], q),
    decreases values.len() - p,
{
    if exists|q: int| p < q < values.len() && values[q] == values[p] {
        let q = choose|q: int| p < q < values.len() && values[q] == values[p];
        lemma_has_last(values, q);
        let l = choose|l: int| q <= l && is_last(values, values[q], l);
        assert(p <= l && is_last(values, values[p], l));
    } else {
        assert(is_last(values, values[p], p));
    }
}

/// Appending a value makes the new row its last position and leaves the last
/// positions of all other values as they were.
pub proof fn lemma_last_positions_push(values: Seq<Value>, value: Value)
    requires
        values.len() < usize::MAX,
    ensures
        last_positions(values.push(value)) == last_positions(values).insert(
            value,
            values.len() as usize,
        ),
{
    let longer = values.push(value);
    let target = last_positions(values).insert(value, values.len() as usize);
    assert(is_last(longer, value, values.len() as int));
    lemma_last_position(longer, value, values.len() as int);
    assert forall|v: Value| #[trigger] last_positions(longer).contains_key(v) == target.contains_key(v) by {
        if v != value {
            if last_positions(longer).contains_key(v) {
                let p = choose|p: int| is_last(longer, v, p);
                assert(longer[p] == values[p]);
                assert forall|q: int| p < q < values.len() implies values[q] != v by {
                    assert(longer[q] == values[q]);
                }
                assert(is_last(values, v, p));
            }
            if last_positions(values).contains_key(v) {
                let p = choose|p: int| is_last(values, v, p);
                assert(longer[p] == values[p]);
                assert forall|q: int| p < q < longer.len() implies longer[q] != v by {
                    if q < values.len() {
                        assert(longer[q] == values[q]);
                    }
                }
                assert(is_last(longer, v, p));
            }
        }
    }
    assert forall|v: Value| #[trigger] last_positions(longer).contains_key(v) implies last_positions(
        longer,
    )[v] == target[v] by {
        if v != value {
            let p = choose|p: int| is_last(values, v, p);
            assert(longer[p] == values[p]);
            assert forall|q: int| p < q < longer.len() implies longer[q] != v by {
                if q < values.len() {
                    assert(longer[q] == values[q]);
                }
            }
            assert(is_last(longer, v, p));
            lemma_last_position(longer, v, p);
            lemma_last_position(values, v, p);
        }
    }
    assert(last_positions(longer) =~= target);
}

/// Appending a value of a column's type to a well-formed table leaves it
/// well formed, with the same schema but for the index of that column.
pub proof fn lemma_append_wf(table: TableView, c: int, value: Value)
    requires
        table.wf(),
        0 <= c < table.cols.len(),
        value.kind() == Some(table.cols[c].kind),
        table.rows[c].len() < usize::MAX,
    ensures
        table.append(c, value).wf(),
        table.append(c, value).names() == table.names(),
        table.append(c, value).name == table.name,
        table.append(c, value).cols.len() == table.cols.len(),
        forall|d: int|
            0 <= d < table.cols.len() ==> (#[trigger] table.append(c, value).cols[d]).kind
                == table.cols[d].kind,
{
    let after = table.append(c, value);
    assert(after.names() =~= table.names());
    assert forall|d: int| 0 <= d < after.cols.len() implies (#[trigger] after.cols[d]).wf() by {
        assert(table.cols[d].wf());
    }
    assert forall|d: int| 0 <= d < after.rows.len() implies (#[trigger] after.rows[d]).len()
        <= usize::MAX by {
        assert(table.rows[d].len() <= usize::MAX);
    }
    assert forall|d: int, p: int| 0 <= d < after.rows.len() && 0 <= p < after.rows[d].len() implies (
    #[trigger] after.rows[d][p]).kind() == Some(after.cols[d].kind) by {
        if d != c || p < table.rows[c].len() {
            assert(table.rows[d][p].kind() == Some(table.cols[d].kind));
        }
    }
    assert forall|d: int|
        0 <= d < after.cols.len() && !((#[trigger] after.cols[d]).index is NoIndex) implies after.cols[d].index.entries()
            == last_positions(after.rows[d]) by {
        assert(table.cols[d].wf());
        assert(!(table.cols[d].index is NoIndex));
        assert(table.cols[d].index.entries() == last_positions(table.rows[d]));
        if d == c {
            lemma_record_entries(table.cols[c].index, value, table.rows[c].len() as usize);
            lemma_last_positions_push(table.rows[c], value);
        }
    }
}

impl View for Table {
    type V = TableView;

    open spec fn view(&self) -> TableView {
        TableView {
            name: self.name@,
            cols: Seq::new(self.cols@.len(), |c: int| self.cols@[c]@),
            rows: Seq::new(self.rows@.len(), |c: int| self.rows@[c]@),
        }
    }
}

impl Table {
    /// Whether the table is well formed: its content is, each column's data
    /// are of the column's type, and each index is well formed.
    pub open spec fn wf(&self) -> bool {
        &&& self@.wf()
        &&& forall|c: int|
            0 <= c < self.cols@.len() ==> (#[trigger] self.cols@[c]).index.wf() && self.rows@[c].kind()
                == self.cols@[c].kind
    }

    /// Whether `cols` can be the schema of a new table: no name occurs twice,
    /// and each column is well formed and has an empty index.
    pub open spec fn fresh(cols: Seq<Column>) -> bool {
        &&& distinct(Seq::new(cols.len(), |c: int| cols[c].name@))
        &&& forall|c: int| 0 <= c < cols.len() ==> (#[trigger] cols[c]).wf() && cols[c]@.index.is_empty()
    }

    /// A table named `name` with the schema `cols` and no rows. The table is
    /// well formed exactly where `cols` is fresh.
    pub fn new(name: &str, cols: Vec<Column>) -> (table: Table)
        ensures
            table.name@ == name@,
            table.cols == cols,
            table.rows@.len() == cols@.len(),
            forall|c: int|
                0 <= c < cols@.len() ==> (#[trigger] table.rows@[c])@ == Seq::<Value>::empty()
                    && table.rows@[c].kind() == cols@[c].kind,
            table@.aligned(),
            table.wf() == Table::fresh(cols@),
    {
        let mut rows: Vec<ColumnData> = Vec::new();
        let mut c: usize = 0;
        while c < cols.len()
            invariant
                c <= cols@.len(),
                rows@.len() == c,
                forall|d: int|
                    0 <= d < c ==> (#[trigger] rows@[d])@ == Seq::<Value>::empty() && rows@[d].kind()
                        == cols@[d].kind,
            decreases cols@.len() - c,
        {
            rows.push(ColumnData::new(cols[c].kind));
            c += 1;
        }
        let table = Table { name: name.to_owned(), cols, rows };
        proof {
            let view = table@;
            assert(view.names() =~= Seq::new(cols@.len(), |c: int| cols@[c].name@));
            assert forall|d: int| 0 <= d < view.cols.len() implies view.cols[d] == cols@[d]@ by {}
            assert forall|d: int| 0 <= d < view.rows.len() implies (#[trigger] view.rows[d])
                == Seq::<Value>::empty() by {
                assert(table.rows@[d]@ == Seq::<Value>::empty());
            }
            if Table::fresh(cols@) {
                assert forall|d: int|
                    0 <= d < view.cols.len() && !((#[trigger] view.cols[d]).index is NoIndex) implies view.cols[d].index.entries()
                        == last_positions(view.rows[d]) by {
                    assert(cols@[d].wf() && cols@[d]@.index.is_empty());
                    assert(view.cols[d].index.entries() =~= last_positions(view.rows[d]));
                }
                assert forall|d: int| 0 <= d < view.cols.len() implies (#[trigger] view.cols[d]).wf() by {
                    assert(cols@[d].wf());
                }
                assert(table.wf());
            }
            if table.wf() {
                assert forall|d: int| 0 <= d < cols@.len() implies (#[trigger] cols@[d]).wf()
                    && cols@[d]@.index.is_empty() by {
                    assert(view.cols[d].wf());
                    assert(table.cols@[d].index.wf());
                    if !(view.cols[d].index is NoIndex) {
                        assert(view.cols[d].index.entries() == last_positions(view.rows[d]));
                        lemma_no_entries(view.cols[d].index);
                    }
                }
                assert(Table::fresh(cols@));
            }
        }
        table
    }

    /// The names under which `rows` hold data.
    pub open spec fn data_names(rows: Seq<(String, ColumnData)>) -> Seq<Seq<char>> {
        Seq::new(rows.len(), |j: int| rows[j].0@)
    }

    /// Whether the named data `rows` fit the schema `cols`: there are as
    /// many data as columns, no two columns have the same name, and there
    /// are data under the name of each column. Then no data are left over.
    pub open spec fn fits(cols: Seq<Column>, rows: Seq<(String, ColumnData)>) -> bool {
        &&& rows.len() == cols.len()
        &&& distinct(Seq::new(cols.len(), |c: int| cols[c].name@))
        &&& forall|c: int|
            0 <= c < cols.len() ==> first_position(Table::data_names(rows), (#[trigger] cols[c]).name@) is Some
    }

    /// The first position at which `rows` hold data under the name `name`.
    fn data_position(rows: &Vec<(String, ColumnData)>, name: &str) -> (r: Option<usize>)
        ensures
            match r {
                Some(j) => first_position(Table::data_names(rows@), name@) == Some(j as int) && j
                    < rows@.len(),
                None => first_position(Table::data_names(rows@), name@) is None,
            },
    {
        let mut j: usize = 0;
        while j < rows.len()
            invariant
                j <= rows@.len(),
                forall|k: int| 0 <= k < j ==> Table::data_names(rows@)[k] != name@,
            decreases rows@.len() - j,
        {
            if same(rows[j].0.as_str(), name) {
                proof {
                    assert(Table::data_names(rows@)[j as int] == name@);
                    lemma_first_position(Table::data_names(rows@), name@, j as int);
                }
                return Some(j);
            }
            j += 1;
        }
        proof {
            lemma_no_position(Table::data_names(rows@), name@);
        }
        None
    }

    /// A table named `name` with the schema `cols` and, for each column, the
    /// data that `rows` hold under the column's name; `None` where the data
    /// do not fit the schema.
    #[verifier::loop_isolation(false)]
    pub fn from_named(name: &str, cols: Vec<Column>, rows: Vec<(String, ColumnData)>) -> (r: Option<
        Table,
    >)
        ensures
            match r {
                Some(table) => {
                    &&& Table::fits(cols@, rows@)
                    &&& table.name@ == name@
                    &&& table.cols == cols
                    &&& table.rows@.len() == cols@.len()
                    &&& forall|c: int|
                        0 <= c < cols@.len() ==> #[trigger] table.rows@[c] == rows@[first_position(
                            Table::data_names(rows@),
                            cols@[c].name@,
                        ).unwrap()].1
                },
                None => !Table::fits(cols@, rows@),
            },
    {
        let ghost given = rows@;
        let ghost names = Seq::new(cols@.len(), |c: int| cols@[c].name@);
        let mut rows = rows;
        let n = cols.len();
        if rows.len() != n {
            return None;
        }
        let mut c: usize = 0;
        while c < n
            invariant
                c <= n,
                forall|d: int, e: int| 0 <= d < e < c ==> names[d] != names[e],
            decreases n - c,
        {
            let mut d: usize = 0;
            while d < c
                invariant
                    d <= c,
                    c < n,
                    forall|e: int| 0 <= e < d ==> names[e] != names[c as int],
                decreases c - d,
            {
                if same(cols[d].name.as_str(), cols[c].name.as_str()) {
                    assert(names[d as int] == names[c as int]);
                    return None;
                }
                d += 1;
            }
            c += 1;
        }
        assert(distinct(names));
        let mut data: Vec<ColumnData> = Vec::new();
        let mut c: usize = 0;
        while c < n
            invariant
                c <= n,
                rows@.len() == n,
                data@.len() == c,
                Table::data_names(rows@) == Table::data_names(given),
                forall|d: int|
                    0 <= d < c ==> first_position(Table::data_names(given), (#[trigger] cols@[d]).name@) is Some
                        && data@[d] == given[first_position(
                        Table::data_names(given),
                        cols@[d].name@,
                    ).unwrap()].1,
                forall|j: int|
                    0 <= j < n && (forall|d: int|
                        0 <= d < c ==> first_position(
                            Table::data_names(given),
                            (#[trigger] cols@[d]).name@,
                        ) != Some(j)) ==> (#[trigger] rows@[j]).1 == given[j].1,
            decreases n - c,
        {
            let j = match Table::data_position(&rows, cols[c].name.as_str()) {
                Some(j) => j,
                None => {
                    return None;
                },
            };
            proof {
                assert forall|d: int| 0 <= d < c implies first_position(
                    Table::data_names(given),
                    (#[trigger] cols@[d]).name@,
                ) != Some(j as int) by {
                    lemma_no_position(Table::data_names(given), cols@[d].name@);
                    lemma_no_position(Table::data_names(given), cols@[c as int].name@);
                    assert(names[d] != names[c as int]);
                }
            }
            let ghost earlier = rows@;
            let mut taken = ColumnData::Int(Vec::new());
            std::mem::swap(&mut rows[j].1, &mut taken);
            assert(taken == given[j as int].1);
            data.push(taken);
            proof {
                assert(Table::data_names(rows@) =~= Table::data_names(earlier));
            }
            c += 1;
        }
        Some(Table { name: name.to_owned(), cols, rows: data })
    }

    /// Whether `index` maps each value of `data` to the last row that holds
    /// it, and nothing else.
    pub fn agrees(index: &Index, data: &ColumnData) -> (ok: bool)
        requires
            index.wf(),
            index@ is Int ==> data.kind() == DataType::Int,
            index@ is Str ==> data.kind() == DataType::Str,
            !(index@ is NoIndex),
        ensures
            ok == (index@.entries() == last_positions(data@)),
    {
        let n = data.size();
        let mut rebuilt = index.fresh();
        proof {
            data.lemma_typed();
            lemma_no_last(rebuilt@);
            assert(data@.take(0) =~= Seq::<Value>::empty());
        }
        let mut p: usize = 0;
        while p < n
            invariant
                n == data@.len(),
                p <= n,
                rebuilt.wf(),
                rebuilt@.like(index@),
                !(index@ is NoIndex),
                index@ is Int ==> data.kind() == DataType::Int,
                index@ is Str ==> data.kind() == DataType::Str,
                rebuilt@.entries() == last_positions(data@.take(p as int)),
            decreases n - p,
        {
            let key = data.get_from_idx(p);
            let ghost earlier = rebuilt@;
            rebuilt.insert(key, p);
            proof {
                data.lemma_typed();
                assert(data@[p as int].kind() == Some(data.kind()));
                lemma_record_entries(earlier, data@[p as int], p);
                lemma_last_positions_push(data@.take(p as int), data@[p as int]);
                assert(data@.take(p + 1) =~= data@.take(p as int).push(data@[p as int]));
            }
            p += 1;
        }
        assert(data@.take(n as int) =~= data@);
        if index.len() != rebuilt.len() {
            proof {
                if index@.entries() == last_positions(data@) {
                    lemma_same_entries(index@, rebuilt@);
                }
            }
            return false;
        }
        let mut p: usize = 0;
        while p < n
            invariant
                n == data@.len(),
                p <= n,
                index.wf(),
                rebuilt.wf(),
                rebuilt@.entries() == last_positions(data@),
                forall|q: int|
                    0 <= q < p ==> index@.entries().contains_key(#[trigger] data@[q])
                        == rebuilt@.entries().contains_key(data@[q]) && (index@.entries().contains_key(
                        data@[q],
                    ) ==> index@.entries()[data@[q]] == rebuilt@.entries()[data@[q]]),
            decreases n - p,
        {
            let key = data.get_from_idx(p);
            let held = index.position_of(&key);
            let wanted = rebuilt.position_of(&key);
            let alike = match held {
                Some(a) => match wanted {
                    Some(b) => a == b,
                    None => false,
                },
                None => wanted.is_none(),
            };
            if !alike {
                return false;
            }
            p += 1;
        }
        proof {
            assert forall|v: Value| #[trigger]
                rebuilt@.entries().contains_key(v) implies index@.entries().contains_key(v)
                && index@.entries()[v] == rebuilt@.entries()[v] by {
                let q = choose|q: int| is_last(data@, v, q);
                assert(data@[q] == v);
            }
            lemma_holds_all(index@, rebuilt@);
        }
        true
    }

    /// Whether the table is well formed.
    pub fn check(&self) -> (ok: bool)
        ensures
            ok == self.wf(),
    {
        if self.rows.len() != self.cols.len() {
            return false;
        }
        let n = self.cols.len();
        let mut c: usize = 0;
        while c < n
            invariant
                n == self.cols@.len(),
                n == self.rows@.len(),
                c <= n,
                forall|d: int|
                    0 <= d < c ==> (#[trigger] self.cols@[d]).wf() && self.rows@[d].kind()
                        == self.cols@[d].kind,
                forall|d: int|
                    0 <= d < c && !(self.cols@[d]@.index is NoIndex) ==> (#[trigger] self.cols@[d])@.index.entries()
                        == last_positions(self.rows@[d]@),
                forall|d: int, e: int|
                    0 <= d < e < c ==> (#[trigger] self.cols@[d]).name@ != (#[trigger] self.cols@[e]).name@,
            decreases n - c,
        {
            if !self.cols[c].check() {
                assert(!self@.cols[c as int].wf() || !self.cols@[c as int].index.wf());
                return false;
            }
            if self.rows[c].data_type() != self.cols[c].kind {
                return false;
            }
            let agreed = match self.cols[c].index {
                Index::NoIndex => true,
                _ => Table::agrees(&self.cols[c].index, &self.rows[c]),
            };
            if !agreed {
                assert(self@.cols[c as int].index.entries() != last_positions(self@.rows[c as int]));
                return false;
            }
            let mut d: usize = 0;
            while d < c
                invariant
                    c < n,
                    n == self.cols@.len(),
                    d <= c,
                    forall|e: int| 0 <= e < d ==> (#[trigger] self.cols@[e]).name@ != self.cols@[c as int].name@,
                decreases c - d,
            {
                if same(self.cols[d].name.as_str(), self.cols[c].name.as_str()) {
                    assert(self@.names()[d as int] == self@.names()[c as int]);
                    return false;
                }
                d += 1;
            }
            c += 1;
        }
        proof {
            let view = self@;
            assert forall|d: int| 0 <= d < view.cols.len() implies (#[trigger] view.cols[d]).wf() by {
                assert(self.cols@[d].wf());
            }
            assert forall|d: int| 0 <= d < view.rows.len() implies (#[trigger] view.rows[d]).len()
                <= usize::MAX by {
                self.rows@[d].lemma_typed();
            }
            assert forall|d: int, p: int|
                0 <= d < view.rows.len() && 0 <= p < view.rows[d].len() implies (#[trigger] view.rows[d][p]).kind()
                    == Some(view.cols[d].kind) by {
                self.rows@[d].lemma_typed();
                assert(self.cols@[d].wf());
            }
            assert forall|d: int|
                0 <= d < view.cols.len() && !((#[trigger] view.cols[d]).index is NoIndex) implies view.cols[d].index.entries()
                    == last_positions(view.rows[d]) by {
                assert(self.cols@[d]@.index.entries() == last_positions(self.rows@[d]@));
            }
            assert forall|d: int, e: int| 0 <= d < e < view.names().len() implies view.names()[d]
                != view.names()[e] by {
                assert(self.cols@[d].name@ != self.cols@[e].name@);
            }
            assert forall|d: int| 0 <= d < self.cols@.len() implies (#[trigger] self.cols@[d]).index.wf()
                && self.rows@[d].kind() == self.cols@[d].kind by {
                assert(self.cols@[d].wf());
            }
        }
        true
    }

    /// The position of the column named `name`, if the schema has one.
    pub fn column_position(&self, name: &str) -> (r: Option<usize>)
        ensures
            match r {
                Some(c) => self@.position(name@) == Some(c as int) && c < self.cols@.len(),
                None => self@.position(name@) is None,
            },
    {
        let mut c: usize = 0;
        while c < self.cols.len()
            invariant
                c <= self.cols@.len(),
                forall|d: int| 0 <= d < c ==> self@.names()[d] != name@,
            decreases self.cols@.len() - c,
        {
            if same(self.cols[c].name.as_str(), name) {
                proof {
                    assert(self@.names()[c as int] == name@);
                    lemma_first_position(self@.names(), name@, c as int);
                }
                return Some(c);
            }
            c += 1;
        }
        proof {
            lemma_no_position(self@.names(), name@);
        }
        None
    }

    /// Converts `text` to a value of a column of type `kind`; `float` is the
    /// floating-point number that the caller read from the text, if it read
    /// one.
    pub fn read_cell(kind: DataType, text: &str, float: Option<u64>) -> (r: Option<ResultDT>)
        ensures
            match convert(kind, text@, float) {
                Some(value) => r matches Some(cell) && cell@ == value,
                None => r is None,
            },
    {
        match kind {
            DataType::Int => match parse_int(text) {
                Some(n) => Some(ResultDT::Int(n)),
                None => None,
            },
            DataType::Float => match float {
                Some(bits) => Some(ResultDT::Float(bits)),
                None => None,
            },
            DataType::Str => Some(ResultDT::Str(text.to_owned())),
        }
    }

    /// Whether `text` converts to a value of a column of type `kind`.
    pub fn reads_cell(kind: DataType, text: &str, float: Option<u64>) -> (ok: bool)
        ensures
            ok == convert(kind, text@, float) is Some,
    {
        match kind {
            DataType::Int => parse_int(text).is_some(),
            DataType::Float => float.is_some(),
            DataType::Str => true,
        }
    }

    /// Appends `value` to column `c` and records it in the column's index at
    /// the new row.
    pub fn append(&mut self, c: usize, value: ResultDT)
        requires
            old(self).wf(),
            c < old(self).cols@.len(),
            value@.kind() == Some(old(self).cols@[c as int].kind),
        ensures
            final(self).wf(),
            final(self)@ == old(self)@.append(c as int, value@),
    {
        let position = self.rows[c].size();
        let key = match self.cols[c].index {
            Index::NoIndex => ResultDT::Null,
            _ => match &value {
                ResultDT::Int(n) => ResultDT::Int(*n),
                ResultDT::Str(text) => ResultDT::Str(text.clone()),
                _ => ResultDT::Null,
            },
        };
        assert(old(self)@.rows[c as int] == old(self).rows@[c as int]@);
        assert(old(self)@.cols[c as int] == old(self).cols@[c as int]@);
        self.rows[c].push(value);
        self.cols[c].index.insert(key, position);
        proof {
            let before = old(self)@;
            assert(position < usize::MAX) by {
                self.rows@[c as int].lemma_typed();
            }
            assert(before.cols[c as int].wf());
            assert(self@.cols =~= before.append(c as int, value@).cols);
            assert(self@.rows =~= before.append(c as int, value@).rows);
            lemma_append_wf(before, c as int, value@);
        }
    }
}

/// An index without entries agrees with empty data.
proof fn lemma_no_last(index: IndexView)
    requires
        index.is_empty(),
    ensures
        index.entries() == last_positions(Seq::<Value>::empty()),
{
    assert(index.entries() =~= last_positions(Seq::<Value>::empty()));
}

/// An index that agrees with empty data has no entries.
proof fn lemma_no_entries(index: IndexView)
    requires
        index.entries() == last_positions(Seq::<Value>::empty()),
    ensures
        index.is_empty(),
{
    match index {
        IndexView::Int(m) => {
            assert forall|n: i32| !m.contains_key(n) by {
                assert(!last_positions(Seq::<Value>::empty()).contains_key(Value::Int(n)));
                assert(index.entries().contains_key(Value::Int(n)) == m.contains_key(n));
            }
            assert(m =~= Map::<i32, usize>::empty());
        },
        IndexView::Str(m) => {
            assert forall|s: Seq<char>| !m.contains_key(s) by {
                assert(!last_positions(Seq::<Value>::empty()).contains_key(Value::Str(s)));
                assert(index.entries().contains_key(Value::Str(s)) == m.contains_key(s));
            }
            assert(m =~= Map::<Seq<char>, usize>::empty());
        },
        IndexView::NoIndex => {},
    }
}

} // verus!
