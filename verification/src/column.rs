//! A column: its schema with the index that goes with it, and its data.

use vstd::prelude::*;
use std::collections::BTreeMap;
use crate::index::{Index, IndexView};
use crate::text_index::TextIndex;
use crate::value::{DataType, ResultDT, Value};

verus! {

/// The schema of a column: its name, its type, and its index.
pub struct Column {
    pub name: String,
    pub kind: DataType,
    pub index: Index,
    pub is_indexed: bool,
}

/// The mathematical content of a column's schema.
pub struct ColumnView {
    pub name: Seq<char>,
    pub kind: DataType,
    pub index: IndexView,
    pub is_indexed: bool,
}

/// The index that a column of type `kind` starts with: an empty index of the
/// column's type where one was asked for and the type has one, else none.
pub open spec fn fresh_index(kind: DataType, is_indexed: bool) -> IndexView {
    if is_indexed && kind == DataType::Int {
        IndexView::Int(Map::empty())
    } else if is_indexed && kind == DataType::Str {
        IndexView::Str(Map::empty())
    } else {
        IndexView::NoIndex
    }
}

impl ColumnView {
    /// Whether the index is the one that the column's type and its
    /// `is_indexed` flag call for: an integer index on an indexed integer
    /// column, a text index on an indexed text column, and none on any other.
    pub open spec fn wf(self) -> bool {
        match self.index {
            IndexView::Int(_) => self.is_indexed && self.kind == DataType::Int,
            IndexView::Str(_) => self.is_indexed && self.kind == DataType::Str,
            IndexView::NoIndex => !self.is_indexed || self.kind == DataType::Float,
        }
    }
}

impl View for Column {
    type V = ColumnView;

    open spec fn view(&self) -> ColumnView {
        ColumnView {
            name: self.name@,
            kind: self.kind,
            index: self.index@,
            is_indexed: self.is_indexed,
        }
    }
}

impl Column {
    /// Whether the column is well formed.
    pub open spec fn wf(&self) -> bool {
        self@.wf() && self.index.wf()
    }

    /// A column named `name` of type `kind`, with an empty index where
    /// `is_indexed` asks for one and the type has one.
    pub fn new(name: &str, kind: DataType, is_indexed: bool) -> (column: Column)
        ensures
            column.wf(),
            column@ == (ColumnView {
                name: name@,
                kind,
                index: fresh_index(kind, is_indexed),
                is_indexed,
            }),
    {
        let index = if is_indexed {
            match kind {
                DataType::Int => Index::Int(BTreeMap::new()),
                DataType::Str => Index::Str(TextIndex::new()),
                DataType::Float => Index::NoIndex,
            }
        } else {
            Index::NoIndex
        };
        Column { name: name.to_owned(), kind, index, is_indexed }
    }

    /// Whether the column is well formed.
    pub fn check(&self) -> (ok: bool)
        ensures
            ok == self.wf(),
    {
        let fits = match self.index {
            Index::Int(_) => self.is_indexed && self.kind == DataType::Int,
            Index::Str(_) => self.is_indexed && self.kind == DataType::Str,
            Index::NoIndex => !self.is_indexed || self.kind == DataType::Float,
        };
        fits && self.index.check()
    }

    /// The index of the column.
    pub fn get_index(&self) -> (index: &Index)
        ensures
            *index == self.index,
    {
        &self.index
    }

    /// The index of the column, to be changed in place: the column keeps
    /// its name, type and flag, and holds the index as the caller leaves it.
    pub fn get_index_mut(&mut self) -> (index: &mut Index)
        ensures
            *index == old(self).index,
            final(self).name == old(self).name,
            final(self).kind == old(self).kind,
            final(self).is_indexed == old(self).is_indexed,
            final(self).index == *final(index),
    {
        &mut self.index
    }
}

/// The data of a column: one value per row, all of the column's type.
pub enum ColumnData {
    Int(Vec<i32>),
    Float(Vec<u64>),
    Str(Vec<String>),
}

impl View for ColumnData {
    type V = Seq<Value>;

    open spec fn view(&self) -> Seq<Value> {
        match self {
            ColumnData::Int(v) => Seq::new(v@.len(), |i: int| Value::Int(v@[i])),
            ColumnData::Float(v) => Seq::new(v@.len(), |i: int| Value::Float(v@[i])),
            ColumnData::Str(v) => Seq::new(v@.len(), |i: int| Value::Str(v@[i]@)),
        }
    }
}

impl ColumnData {
    /// The type of the values held.
    pub open spec fn kind(&self) -> DataType {
        match self {
            ColumnData::Int(_) => DataType::Int,
            ColumnData::Float(_) => DataType::Float,
            ColumnData::Str(_) => DataType::Str,
        }
    }

    /// Every value held is of the column's type, and there are no more of
    /// them than a `usize` counts.
    pub proof fn lemma_typed(&self)
        ensures
            self@.len() <= usize::MAX,
            forall|i: int| 0 <= i < self@.len() ==> (#[trigger] self@[i]).kind() == Some(self.kind()),
    {
        match self {
            ColumnData::Int(v) => {
                assert(v.len() == v@.len());
            },
            ColumnData::Float(v) => {
                assert(v.len() == v@.len());
            },
            ColumnData::Str(v) => {
                assert(v.len() == v@.len());
            },
        }
    }

    /// Empty data for a column of type `kind`.
    pub fn new(kind: DataType) -> (data: ColumnData)
        ensures
            data.kind() == kind,
            data@ == Seq::<Value>::empty(),
    {
        let data = match kind {
            DataType::Int => ColumnData::Int(Vec::new()),
            DataType::Float => ColumnData::Float(Vec::new()),
            DataType::Str => ColumnData::Str(Vec::new()),
        };
        assert(data@ =~= Seq::<Value>::empty());
        data
    }

    /// The type of the values held.
    pub fn data_type(&self) -> (kind: DataType)
        ensures
            kind == self.kind(),
    {
        match self {
            ColumnData::Int(_) => DataType::Int,
            ColumnData::Float(_) => DataType::Float,
            ColumnData::Str(_) => DataType::Str,
        }
    }

    /// The number of rows.
    pub fn size(&self) -> (n: usize)
        ensures
            n == self@.len(),
    {
        match self {
            ColumnData::Int(v) => v.len(),
            ColumnData::Float(v) => v.len(),
            ColumnData::Str(v) => v.len(),
        }
    }

    /// The value of row `idx`.
    pub fn get_from_idx(&self, idx: usize) -> (value: ResultDT)
        requires
            idx < self@.len(),
        ensures
            value@ == self@[idx as int],
    {
        match self {
            ColumnData::Int(v) => ResultDT::Int(v[idx]),
            ColumnData::Float(v) => ResultDT::Float(v[idx]),
            ColumnData::Str(v) => ResultDT::Str(v[idx].clone()),
        }
    }

    /// Appends `value` as a new last row.
    pub fn push(&mut self, value: ResultDT)
        requires
            value@.kind() == Some(old(self).kind()),
        ensures
            final(self).kind() == old(self).kind(),
            final(self)@ == old(self)@.push(value@),
    {
        match self {
            ColumnData::Int(v) => {
                if let ResultDT::Int(n) = value {
                    v.push(n);
                }
            },
            ColumnData::Float(v) => {
                if let ResultDT::Float(bits) = value {
                    v.push(bits);
                }
            },
            ColumnData::Str(v) => {
                if let ResultDT::Str(text) = value {
                    v.push(text);
                }
            },
        }
        assert(self@ =~= old(self)@.push(value@));
    }
}

} // verus!
