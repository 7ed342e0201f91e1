//! The database: an ordered list of tables, each with a name of its own.

use vstd::prelude::*;
use crate::error::Error;
use crate::table::{RowView, Table, TableView};
use crate::text::{distinct, first_position, lemma_first_position, lemma_no_position, same, texts};
use crate::value::{values, DataType, ResultDT, Value};

verus! {

/// A set of tables, in the order in which they were registered.
pub struct Database {
    pub tables: Vec<Table>,
}

/// The mathematical content of a database.
pub struct DatabaseView {
    pub tables: Seq<TableView>,
}

impl DatabaseView {
    /// The names of the tables, in their order.
    pub open spec fn names(self) -> Seq<Seq<char>> {
        Seq::new(self.tables.len(), |t: int| self.tables[t].name)
    }

    /// The position of the table named `name`.
    pub open spec fn position(self, name: Seq<char>) -> Option<int> {
        first_position(self.names(), name)
    }

    /// Whether the database is well formed: each table is, and no two tables
    /// have the same name.
    pub open spec fn wf(self) -> bool {
        &&& distinct(self.names())
        &&& forall|t: int| 0 <= t < self.tables.len() ==> (#[trigger] self.tables[t]).wf()
    }

    /// Registering `table`: refused where a table of that name exists, else
    /// the table becomes the last one.
    pub open spec fn insert_table(self, table: TableView) -> Result<DatabaseView, Error> {
        if self.position(table.name) is Some {
            Err(Error::TableAlreadyExists)
        } else {
            Ok(DatabaseView { tables: self.tables.push(table) })
        }
    }

    /// Inserting `row` into the table named `table`: refused where there is
    /// no such table or one of the row's names is no column of it; else each
    /// text is appended to its column, in order, and nothing else changes.
    /// What is appended is the text converted to the type of the column, so
    /// the result has a meaning only for a row that `converts`.
    pub open spec fn insert(self, row: RowView, table: Seq<char>) -> Result<DatabaseView, Error> {
        match self.position(table) {
            None => Err(Error::InvalidTable),
            Some(t) => if self.tables[t].knows(row) {
                Ok(DatabaseView { tables: self.tables.update(t, self.tables[t].insert(row)) })
            } else {
                Err(Error::InvalidColumn)
            },
        }
    }

    /// Whether, where `row` names a table and columns that exist, each of its
    /// texts converts to the type of its column.
    pub open spec fn converts(self, row: RowView, table: Seq<char>) -> bool {
        match self.position(table) {
            Some(t) => self.tables[t].knows(row) ==> self.tables[t].converts(row),
            None => true,
        }
    }

    /// Reading row `p` of the table named `table`: refused where there is no
    /// such table; else the values of that row in the columns that `names`
    /// name, in the order of the names, skipping what is no column's name.
    pub open spec fn search(self, names: Seq<Seq<char>>, p: int, table: Seq<char>) -> Result<
        Seq<Value>,
        Error,
    > {
        match self.position(table) {
            None => Err(Error::InvalidTable),
            Some(t) => Ok(self.tables[t].read(names, p)),
        }
    }

    /// Whether, where `table` names a table, each of its columns that `names`
    /// name holds a row `p`.
    pub open spec fn holds(self, names: Seq<Seq<char>>, p: int, table: Seq<char>) -> bool {
        match self.position(table) {
            Some(t) => self.tables[t].holds(names, p),
            None => true,
        }
    }
}

impl View for Database {
    type V = DatabaseView;

    open spec fn view(&self) -> DatabaseView {
        DatabaseView { tables: Seq::new(self.tables@.len(), |t: int| self.tables@[t]@) }
    }
}

impl Database {
    /// Whether the database is well formed: its content is, and so is each
    /// table.
    pub open spec fn wf(&self) -> bool {
        &&& self@.wf()
        &&& forall|t: int| 0 <= t < self.tables@.len() ==> (#[trigger] self.tables@[t]).wf()
    }

    /// A database of the tables `tables`, in their order, where they make a
    /// well-formed database; else `None`.
    pub fn new(tables: Vec<Table>) -> (r: Option<Database>)
        ensures
            match r {
                Some(db) => db.wf() && db.tables == tables,
                None => !(Database { tables }).wf(),
            },
    {
        let db = Database { tables };
        if db.check() {
            Some(db)
        } else {
            None
        }
    }

    /// Whether the database is well formed.
    pub fn check(&self) -> (ok: bool)
        ensures
            ok == self.wf(),
    {
        let n = self.tables.len();
        let mut t: usize = 0;
        while t < n
            invariant
                n == self.tables@.len(),
                t <= n,
                forall|u: int| 0 <= u < t ==> (#[trigger] self.tables@[u]).wf(),
                forall|u: int, v: int|
                    0 <= u < v < t ==> (#[trigger] self.tables@[u]).name@ != (#[trigger] self.tables@[v]).name@,
            decreases n - t,
        {
            if !self.tables[t].check() {
                assert(!self.tables@[t as int].wf());
                return false;
            }
            let mut u: usize = 0;
            while u < t
                invariant
                    t < n,
                    n == self.tables@.len(),
                    u <= t,
                    forall|v: int|
                        0 <= v < u ==> (#[trigger] self.tables@[v]).name@ != self.tables@[t as int].name@,
                decreases t - u,
            {
                if same(self.tables[u].name.as_str(), self.tables[t].name.as_str()) {
                    assert(self@.names()[u as int] == self@.names()[t as int]);
                    return false;
                }
                u += 1;
            }
            t += 1;
        }
        proof {
            assert forall|u: int, v: int| 0 <= u < v < self@.names().len() implies self@.names()[u]
                != self@.names()[v] by {
                assert(self.tables@[u].name@ != self.tables@[v].name@);
            }
            assert forall|u: int| 0 <= u < self@.tables.len() implies (#[trigger] self@.tables[u]).wf() by {
                assert(self.tables@[u].wf());
            }
        }
        true
    }

    /// The position of the table named `name`, if there is one.
    pub fn table_position(&self, name: &str) -> (r: Option<usize>)
        ensures
            match r {
                Some(t) => self@.position(name@) == Some(t as int) && t < self.tables@.len(),
                None => self@.position(name@) is None,
            },
    {
        let mut t: usize = 0;
        while t < self.tables.len()
            invariant
                t <= self.tables@.len(),
                forall|u: int| 0 <= u < t ==> self@.names()[u] != name@,
            decreases self.tables@.len() - t,
        {
            if same(self.tables[t].name.as_str(), name) {
                proof {
                    assert(self@.names()[t as int] == name@);
                    lemma_first_position(self@.names(), name@, t as int);
                }
                return Some(t);
            }
            t += 1;
        }
        proof {
            lemma_no_position(self@.names(), name@);
        }
        None
    }

    /// The table named `table`, if there is one.
    pub fn get_table(&self, table: &str) -> (r: Option<&Table>)
        ensures
            match self@.position(table@) {
                Some(t) => r == Some(&self.tables@[t]),
                None => r is None,
            },
    {
        match self.table_position(table) {
            Some(t) => Some(&self.tables[t]),
            None => None,
        }
    }

    /// The table named `table`, if there is one, to be changed in place: the
    /// database then holds the table as the caller leaves it, and all its
    /// other tables as they were.
    pub fn get_table_mut(&mut self, table: &str) -> (r: Option<&mut Table>)
        ensures
            match old(self)@.position(table@) {
                Some(t) => r matches Some(found) && *found == old(self).tables@[t]
                    && final(self).tables@ == old(self).tables@.update(t, *final(found)),
                None => r is None && *final(self) == *old(self),
            },
    {
        match self.table_position(table) {
            Some(t) => Some(&mut self.tables[t]),
            None => None,
        }
    }

    /// Registers `table` as the last table, unless a table of its name is
    /// registered already: then it fails with `TableAlreadyExists` and
    /// changes nothing.
    pub fn insert_table(&mut self, table: Table) -> (r: Result<(), Error>)
        requires
            old(self).wf(),
            table.wf(),
        ensures
            final(self).wf(),
            match old(self)@.insert_table(table@) {
                Ok(after) => r is Ok && final(self)@ == after
                    && final(self).tables@ == old(self).tables@.push(table),
                Err(e) => r == Err::<(), Error>(e) && *final(self) == *old(self),
            },
    {
        if let Some(_) = self.get_table(table.name.as_str()) {
            return Err(Error::TableAlreadyExists);
        }
        proof {
            lemma_no_position(self@.names(), table@.name);
        }
        self.tables.push(table);
        proof {
            assert(self@.tables =~= old(self)@.tables.push(table@));
            assert forall|i: int, j: int| 0 <= i < j < self@.names().len() implies self@.names()[i]
                != self@.names()[j] by {
                assert(self@.names()[i] == old(self)@.names()[i]);
                if j < old(self)@.names().len() {
                    assert(self@.names()[j] == old(self)@.names()[j]);
                }
            }
        }
        Ok(())
    }

    /// Appends each of `values` to the column that `cols` names for it, in
    /// the table named `table`, and records it in the column's index. The
    /// `i`-th value goes to the `i`-th column; `floats[i]` is the
    /// floating-point number that the caller read from `values[i]`, as its
    /// bit pattern, and is what a floating-point column takes.
    ///
    /// Fails with `InvalidTable` where there is no such table, and with
    /// `InvalidColumn` where one of the names is no column of it; a call
    /// that fails changes nothing.
    #[verifier::loop_isolation(false)]
    pub fn insert(
        &mut self,
        cols: Vec<&str>,
        values: Vec<&str>,
        floats: Vec<Option<u64>>,
        table: &str,
    ) -> (r: Result<(), Error>)
        requires
            old(self).wf(),
            old(self)@.converts(
                (RowView { names: texts(cols@), texts: texts(values@), floats: floats@ }),
                table@,
            ),
        ensures
            final(self).wf(),
            match old(self)@.insert(
                (RowView { names: texts(cols@), texts: texts(values@), floats: floats@ }),
                table@,
            ) {
                Ok(after) => r is Ok && final(self)@ == after,
                Err(e) => r == Err::<(), Error>(e) && *final(self) == *old(self),
            },
    {
        let ghost row = RowView { names: texts(cols@), texts: texts(values@), floats: floats@ };
        let ghost before = *self;
        let t = match self.table_position(table) {
            Some(t) => t,
            None => {
                return Err(Error::InvalidTable);
            },
        };
        let ghost start = before.tables@[t as int]@;
        assert(before@.tables[t as int] == start);
        let n = if cols.len() <= values.len() {
            cols.len()
        } else {
            values.len()
        };
        let mut places: Vec<usize> = Vec::new();
        let mut i: usize = 0;
        while i < n
            invariant
                *self == before,
                t < self.tables@.len(),
                start == self.tables@[t as int]@,
                n == row.len(),
                row.names == texts(cols@),
                i <= n,
                places@.len() == i,
                forall|k: int|
                    0 <= k < i ==> start.position(row.names[k]) == Some(#[trigger] places@[k] as int)
                        && places@[k] < start.cols.len(),
            decreases n - i,
        {
            match self.tables[t].column_position(cols[i]) {
                Some(c) => {
                    places.push(c);
                },
                None => {
                    assert(start.position(row.names[i as int]) is None);
                    return Err(Error::InvalidColumn);
                },
            }
            i += 1;
        }
        assert forall|k: int| 0 <= k < row.len() implies (#[trigger] start.position(
            row.names[k],
        )) is Some by {
            assert(places@[k] < start.cols.len());
        }
        let mut i: usize = 0;
        while i < n
            invariant
                t < self.tables@.len(),
                self.tables@.len() == before.tables@.len(),
                forall|u: int| 0 <= u < self.tables@.len() && u != t ==> self.tables@[u] == before.tables@[u],
                start == before.tables@[t as int]@,
                before.wf(),
                self.tables@[t as int].wf(),
                self.tables@[t as int]@ == start.insert_first(row, i as int),
                self.tables@[t as int]@.cols.len() == start.cols.len(),
                forall|d: int|
                    0 <= d < start.cols.len() ==> (#[trigger] self.tables@[t as int]@.cols[d]).kind
                        == start.cols[d].kind,
                n == row.len(),
                n <= cols@.len(),
                n <= values@.len(),
                row == (RowView { names: texts(cols@), texts: texts(values@), floats: floats@ }),
                start.knows(row),
                start.converts(row),
                i <= n,
                places@.len() == n,
                forall|k: int|
                    0 <= k < n ==> start.position(row.names[k]) == Some(#[trigger] places@[k] as int)
                        && places@[k] < start.cols.len(),
            decreases n - i,
        {
            let c = places[i];
            let float = if i < floats.len() {
                floats[i]
            } else {
                None
            };
            assert(float == row.float(i as int));
            assert(start.cell(row, i as int) is Some);
            assert(self.tables@[t as int]@.cols[c as int].kind == start.cols[c as int].kind);
            let kind = self.tables[t].cols[c].kind;
            let cell = Table::read_cell(kind, values[i], float);
            let value = cell.unwrap();
            let ghost earlier = self.tables@[t as int]@;
            self.tables[t].append(c, value);
            proof {
                let later = self.tables@[t as int]@;
                assert(later == earlier.append(c as int, value@));
                assert forall|d: int| 0 <= d < start.cols.len() implies (#[trigger] later.cols[d]).kind
                    == start.cols[d].kind by {
                    assert(earlier.cols[d].kind == start.cols[d].kind);
                }
            }
            i += 1;
        }
        proof {
            let after = DatabaseView { tables: before@.tables.update(t as int, start.insert(row)) };
            assert(self@.tables =~= after.tables);
            assert(self@.names() =~= before@.names()) by {
                lemma_insert_first_name(start, row, n as int);
            }
            assert forall|u: int| 0 <= u < self.tables@.len() implies (#[trigger] self.tables@[u]).wf() by {
                if u != t {
                    assert(before.tables@[u].wf());
                }
            }
            assert forall|u: int| 0 <= u < self@.tables.len() implies (#[trigger] self@.tables[u]).wf() by {
                assert(self.tables@[u].wf());
            }
        }
        Ok(())
    }

    /// Whether `insert` can take these arguments: where they name a table
    /// and columns that exist, whether each value converts to the type of
    /// its column.
    #[verifier::loop_isolation(false)]
    pub fn can_insert(
        &self,
        cols: &Vec<&str>,
        values: &Vec<&str>,
        floats: &Vec<Option<u64>>,
        table: &str,
    ) -> (ok: bool)
        requires
            self.wf(),
        ensures
            ok == self@.converts(
                (RowView { names: texts(cols@), texts: texts(values@), floats: floats@ }),
                table@,
            ),
    {
        let ghost row = RowView { names: texts(cols@), texts: texts(values@), floats: floats@ };
        let found = match self.get_table(table) {
            Some(found) => found,
            None => {
                return true;
            },
        };
        let n = if cols.len() <= values.len() {
            cols.len()
        } else {
            values.len()
        };
        let mut kinds: Vec<DataType> = Vec::new();
        let mut i: usize = 0;
        while i < n
            invariant
                found.wf(),
                n == row.len(),
                row.names == texts(cols@),
                i <= n,
                kinds@.len() == i,
                forall|k: int|
                    0 <= k < i ==> (match #[trigger] found@.position(row.names[k]) {
                        Some(c) => 0 <= c < found@.cols.len() && found@.cols[c].kind == kinds@[k],
                        None => false,
                    }),
            decreases n - i,
        {
            match found.column_position(cols[i]) {
                Some(c) => {
                    kinds.push(found.cols[c].kind);
                },
                None => {
                    assert(found@.position(row.names[i as int]) is None);
                    return true;
                },
            }
            i += 1;
        }
        assert(found@.knows(row));
        let mut i: usize = 0;
        while i < n
            invariant
                n == row.len(),
                n <= values@.len(),
                row == (RowView { names: texts(cols@), texts: texts(values@), floats: floats@ }),
                i <= n,
                kinds@.len() == n,
                forall|k: int|
                    0 <= k < n ==> (match #[trigger] found@.position(row.names[k]) {
                        Some(c) => 0 <= c < found@.cols.len() && found@.cols[c].kind == kinds@[k],
                        None => false,
                    }),
                forall|k: int| 0 <= k < i ==> (#[trigger] found@.cell(row, k)) is Some,
            decreases n - i,
        {
            let float = if i < floats.len() {
                floats[i]
            } else {
                None
            };
            assert(float == row.float(i as int));
            assert(found@.position(row.names[i as int]) is Some);
            if !Table::reads_cell(kinds[i], values[i], float) {
                assert(found@.cell(row, i as int) is None);
                return false;
            }
            i += 1;
        }
        true
    }

    /// Inserts as `insert` does where each value converts to the type of its
    /// column, and gives back what `insert` gave; else changes nothing and
    /// gives back `None`.
    pub fn try_insert(
        &mut self,
        cols: Vec<&str>,
        values: Vec<&str>,
        floats: Vec<Option<u64>>,
        table: &str,
    ) -> (r: Option<Result<(), Error>>)
        requires
            old(self).wf(),
        ensures
            final(self).wf(),
            ({
                let row = RowView { names: texts(cols@), texts: texts(values@), floats: floats@ };
                if old(self)@.converts(row, table@) {
                    match old(self)@.insert(row, table@) {
                        Ok(after) => r matches Some(Ok(_)) && final(self)@ == after,
                        Err(e) => r == Some(Err::<(), Error>(e)) && *final(self) == *old(self),
                    }
                } else {
                    r is None && *final(self) == *old(self)
                }
            }),
    {
        if self.can_insert(&cols, &values, &floats, table) {
            Some(self.insert(cols, values, floats, table))
        } else {
            None
        }
    }

    /// Whether `search_idx` can take these arguments: where `table` names a
    /// table, whether each of its columns that `s_col` names holds a row
    /// `idx`.
    #[verifier::loop_isolation(false)]
    pub fn has_row(&self, s_col: &Vec<&str>, idx: usize, table: &str) -> (ok: bool)
        requires
            self.wf(),
        ensures
            ok == self@.holds(texts(s_col@), idx as int, table@),
    {
        let found = match self.get_table(table) {
            Some(found) => found,
            None => {
                return true;
            },
        };
        let ghost names = texts(s_col@);
        let mut i: usize = 0;
        while i < s_col.len()
            invariant
                found.wf(),
                names == texts(s_col@),
                i <= s_col@.len(),
                forall|k: int|
                    0 <= k < i ==> (match #[trigger] found@.position(names[k]) {
                        Some(c) => 0 <= idx < found@.rows[c].len(),
                        None => true,
                    }),
            decreases s_col@.len() - i,
        {
            match found.column_position(s_col[i]) {
                Some(c) => {
                    assert(found@.position(names[i as int]) == Some(c as int));
                    assert(found@.rows[c as int] == found.rows@[c as int]@);
                    if idx >= found.rows[c].size() {
                        return false;
                    }
                },
                None => {},
            }
            i += 1;
        }
        true
    }

    /// Reads as `search_idx` does where each named column holds a row `idx`,
    /// and gives back what `search_idx` gave; else gives back `None`.
    pub fn try_search_idx(&self, s_col: Vec<&str>, idx: &usize, table: &str) -> (r: Option<
        Result<Vec<ResultDT>, Error>,
    >)
        requires
            self.wf(),
        ensures
            if self@.holds(texts(s_col@), *idx as int, table@) {
                match self@.search(texts(s_col@), *idx as int, table@) {
                    Ok(row) => r matches Some(Ok(found)) && values(found@) == row,
                    Err(e) => r == Some(Err::<Vec<ResultDT>, Error>(e)),
                }
            } else {
                r is None
            },
    {
        if self.has_row(&s_col, *idx, table) {
            Some(self.search_idx(s_col, idx, table))
        } else {
            None
        }
    }

    /// Reads row `idx` of the table named `table`: the values of that row in
    /// the columns that `s_col` names, in the order of the names. A name that
    /// is no column's adds nothing. Fails with `InvalidTable` where there is
    /// no such table.
    pub fn search_idx(&self, s_col: Vec<&str>, idx: &usize, table: &str) -> (r: Result<
        Vec<ResultDT>,
        Error,
    >)
        requires
            self.wf(),
            self@.holds(texts(s_col@), *idx as int, table@),
        ensures
            match self@.search(texts(s_col@), *idx as int, table@) {
                Ok(row) => r matches Ok(found) && values(found@) == row,
                Err(e) => r == Err::<Vec<ResultDT>, Error>(e),
            },
    {
        let found = match self.get_table(table) {
            Some(found) => found,
            None => {
                return Err(Error::InvalidTable);
            },
        };
        let ghost names = texts(s_col@);
        let mut data: Vec<ResultDT> = Vec::new();
        let mut i: usize = 0;
        while i < s_col.len()
            invariant
                found.wf(),
                names == texts(s_col@),
                found@.holds(names, *idx as int),
                i <= s_col@.len(),
                values(data@) == found@.read_first(names, *idx as int, i as int),
            decreases s_col@.len() - i,
        {
            let ghost earlier = values(data@);
            match found.column_position(s_col[i]) {
                Some(c) => {
                    assert(found@.position(names[i as int]) == Some(c as int));
                    assert(found@.rows[c as int] == found.rows@[c as int]@);
                    data.push(found.rows[c].get_from_idx(*idx));
                    assert(values(data@) =~= earlier.push(found@.rows[c as int][*idx as int]));
                },
                None => {},
            }
            i += 1;
        }
        Ok(data)
    }
}

/// Appending pairs of a row leaves the name of the table as it was.
pub proof fn lemma_insert_first_name(table: TableView, row: RowView, n: int)
    ensures
        table.insert_first(row, n).name == table.name,
    decreases n,
{
    if n > 0 {
        lemma_insert_first_name(table, row, n - 1);
    }
}

} // verus!
