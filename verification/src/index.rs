//! The index of a column: an ordered map from the values of the column to row
//! positions.

use vstd::prelude::*;
use std::collections::BTreeMap;
use crate::error::Error;
use crate::number::{parse_i32, parse_int};
use crate::text_index::TextIndex;
use crate::value::{ResultDT, Value};

verus! {

/// The index of a column. An integer column is indexed by `Int`, a text
/// column by `Str`; a column without an index carries `NoIndex`.
pub enum Index {
    Int(BTreeMap<i32, usize>),
    Str(TextIndex),
    NoIndex,
}

/// The mathematical content of an index.
pub enum IndexView {
    Int(Map<i32, usize>),
    Str(Map<Seq<char>, usize>),
    NoIndex,
}

impl IndexView {
    /// The entries of the index as one map from values to positions.
    pub open spec fn entries(self) -> Map<Value, usize> {
        match self {
            IndexView::Int(m) => Map::new(
                |v: Value| v is Int && m.contains_key(v->Int_0),
                |v: Value| m[v->Int_0],
            ),
            IndexView::Str(m) => Map::new(
                |v: Value| v is Str && m.contains_key(v->Str_0),
                |v: Value| m[v->Str_0],
            ),
            IndexView::NoIndex => Map::empty(),
        }
    }

    /// The key that the text `key` names in this index: in an integer index
    /// the number it denotes, if it denotes one; in a text index the text
    /// itself. Without an index no text names a key.
    pub open spec fn key_of(self, key: Seq<char>) -> Option<Value> {
        match self {
            IndexView::Int(_) => match parse_i32(key) {
                Some(n) => Some(Value::Int(n)),
                None => None,
            },
            IndexView::Str(_) => Some(Value::Str(key)),
            IndexView::NoIndex => None,
        }
    }

    /// Whether a lookup by the text `key` is refused: only an integer index
    /// refuses, and only a text that denotes no `i32`.
    pub open spec fn refuses(self, key: Seq<char>) -> bool {
        self is Int && parse_i32(key) is None
    }

    /// The position found for the text `key`, where the lookup is not refused.
    pub open spec fn find(self, key: Seq<char>) -> Option<usize> {
        match self.key_of(key) {
            Some(v) => if self.entries().contains_key(v) {
                Some(self.entries()[v])
            } else {
                None
            },
            None => None,
        }
    }

    /// The index after `value` was recorded at `position`: an entry for
    /// `value` is added or overwritten where the index holds values of that
    /// type, and nothing changes otherwise.
    pub open spec fn record(self, value: Value, position: usize) -> IndexView {
        match (self, value) {
            (IndexView::Int(m), Value::Int(n)) => IndexView::Int(m.insert(n, position)),
            (IndexView::Str(m), Value::Str(s)) => IndexView::Str(m.insert(s, position)),
            _ => self,
        }
    }

    /// The number of keys.
    pub open spec fn len(self) -> nat {
        match self {
            IndexView::Int(m) => m.len(),
            IndexView::Str(m) => m.len(),
            IndexView::NoIndex => 0,
        }
    }

    /// Whether the index has finitely many keys.
    pub open spec fn finite(self) -> bool {
        match self {
            IndexView::Int(m) => m.dom().finite(),
            IndexView::Str(m) => m.dom().finite(),
            IndexView::NoIndex => true,
        }
    }

    /// Whether this index and `other` hold keys of the same type.
    pub open spec fn like(self, other: IndexView) -> bool {
        match self {
            IndexView::Int(_) => other is Int,
            IndexView::Str(_) => other is Str,
            IndexView::NoIndex => other is NoIndex,
        }
    }

    /// Whether the index holds no entry.
    pub open spec fn is_empty(self) -> bool {
        match self {
            IndexView::Int(m) => m == Map::<i32, usize>::empty(),
            IndexView::Str(m) => m == Map::<Seq<char>, usize>::empty(),
            IndexView::NoIndex => true,
        }
    }
}

impl View for Index {
    type V = IndexView;

    open spec fn view(&self) -> IndexView {
        match self {
            Index::Int(m) => IndexView::Int(m@),
            Index::Str(t) => IndexView::Str(t@),
            Index::NoIndex => IndexView::NoIndex,
        }
    }
}

impl Index {
    /// Whether the index is well formed.
    pub open spec fn wf(&self) -> bool {
        match self {
            Index::Str(t) => t.wf(),
            _ => true,
        }
    }

    /// Whether the index is well formed.
    pub fn check(&self) -> (ok: bool)
        ensures
            ok == self.wf(),
    {
        match self {
            Index::Str(index) => index.check(),
            _ => true,
        }
    }

    /// An index without entries for keys of the same type as this one's.
    pub fn fresh(&self) -> (index: Index)
        ensures
            index.wf(),
            index@.like(self@),
            index@.is_empty(),
    {
        match self {
            Index::Int(_) => Index::Int(BTreeMap::new()),
            Index::Str(_) => Index::Str(TextIndex::new()),
            Index::NoIndex => Index::NoIndex,
        }
    }

    /// The number of keys.
    pub fn len(&self) -> (n: usize)
        requires
            self.wf(),
        ensures
            n == self@.len(),
            self@.finite(),
    {
        match self {
            Index::Int(index) => index.len(),
            Index::Str(index) => index.len(),
            Index::NoIndex => 0,
        }
    }

    /// The row position held for the key `key`, if there is one.
    pub fn position_of(&self, key: &ResultDT) -> (r: Option<usize>)
        requires
            self.wf(),
        ensures
            r == (if self@.entries().contains_key(key@) {
                Some(self@.entries()[key@])
            } else {
                None
            }),
    {
        match self {
            Index::Int(index) => match key {
                ResultDT::Int(n) => match index.get(n) {
                    Some(position) => Some(*position),
                    None => None,
                },
                _ => None,
            },
            Index::Str(index) => match key {
                ResultDT::Str(text) => match index.get(text.as_str()) {
                    Some(position) => Some(*position),
                    None => None,
                },
                _ => None,
            },
            Index::NoIndex => None,
        }
    }

    /// Looks up the row position held for the key that the text `val` names.
    /// An integer index fails with `InvalidIndex` where `val` denotes no
    /// `i32`; no other lookup fails.
    pub fn get(&self, val: &str) -> (r: Result<Option<&usize>, Error>)
        requires
            self.wf(),
        ensures
            self@.refuses(val@) ==> r == Err::<Option<&usize>, Error>(Error::InvalidIndex),
            !self@.refuses(val@) ==> match self@.find(val@) {
                Some(position) => r == Ok::<Option<&usize>, Error>(Some(&position)),
                None => r == Ok::<Option<&usize>, Error>(None),
            },
    {
        match self {
            Index::Int(index) => match parse_int(val) {
                Some(key) => Ok(index.get(&key)),
                None => Err(Error::InvalidIndex),
            },
            Index::Str(index) => Ok(index.get(val)),
            Index::NoIndex => Ok(None),
        }
    }

    /// Records `key` at `position`, overwriting what the index held for it.
    /// An index that does not hold values of the type of `key` stays as it is.
    pub fn insert(&mut self, key: ResultDT, position: usize)
        requires
            old(self).wf(),
        ensures
            final(self).wf(),
            final(self)@ == old(self)@.record(key@, position),
    {
        match self {
            Index::Int(index) => {
                if let ResultDT::Int(n) = key {
                    index.insert(n, position);
                }
            },
            Index::Str(index) => {
                if let ResultDT::Str(text) = key {
                    index.insert(text, position);
                }
            },
            Index::NoIndex => {},
        }
    }
}

/// Recording a value of the type that the index holds adds one entry.
pub proof fn lemma_record_entries(index: IndexView, value: Value, position: usize)
    requires
        index is Int ==> value is Int,
        index is Str ==> value is Str,
        !(index is NoIndex),
    ensures
        index.record(value, position).entries() == index.entries().insert(value, position),
{
    assert(index.record(value, position).entries() =~= index.entries().insert(value, position));
}

/// Two indices for keys of the same type that have the same entries are the
/// same index.
pub proof fn lemma_same_entries(a: IndexView, b: IndexView)
    requires
        a.like(b),
        a.entries() == b.entries(),
    ensures
        a == b,
{
    match (a, b) {
        (IndexView::Int(x), IndexView::Int(y)) => {
            assert forall|k: i32| x.contains_key(k) == y.contains_key(k) by {
                assert(a.entries().contains_key(Value::Int(k)) == x.contains_key(k));
                assert(b.entries().contains_key(Value::Int(k)) == y.contains_key(k));
            }
            assert forall|k: i32| x.contains_key(k) implies x[k] == y[k] by {
                assert(a.entries()[Value::Int(k)] == x[k]);
                assert(b.entries()[Value::Int(k)] == y[k]);
            }
            assert(x =~= y);
        },
        (IndexView::Str(x), IndexView::Str(y)) => {
            assert forall|k: Seq<char>| x.contains_key(k) == y.contains_key(k) by {
                assert(a.entries().contains_key(Value::Str(k)) == x.contains_key(k));
                assert(b.entries().contains_key(Value::Str(k)) == y.contains_key(k));
            }
            assert forall|k: Seq<char>| x.contains_key(k) implies x[k] == y[k] by {
                assert(a.entries()[Value::Str(k)] == x[k]);
                assert(b.entries()[Value::Str(k)] == y[k]);
            }
            assert(x =~= y);
        },
        _ => {},
    }
}

/// An index that has as many keys as another, and holds every entry of the
/// other, has the same entries.
pub proof fn lemma_holds_all(a: IndexView, b: IndexView)
    requires
        a.like(b),
        a.finite(),
        b.finite(),
        a.len() == b.len(),
        forall|v: Value| #[trigger]
            b.entries().contains_key(v) ==> a.entries().contains_key(v) && a.entries()[v]
                == b.entries()[v],
    ensures
        a.entries() == b.entries(),
{
    match (a, b) {
        (IndexView::Int(x), IndexView::Int(y)) => {
            assert forall|k: i32| y.dom().contains(k) implies x.dom().contains(k) by {
                assert(b.entries().contains_key(Value::Int(k)));
                assert(a.entries().contains_key(Value::Int(k)));
            }
            vstd::set_lib::lemma_subset_equality(y.dom(), x.dom());
            assert forall|k: i32| x.contains_key(k) implies x[k] == y[k] by {
                assert(y.dom().contains(k));
                assert(b.entries().contains_key(Value::Int(k)));
                assert(a.entries()[Value::Int(k)] == x[k]);
                assert(b.entries()[Value::Int(k)] == y[k]);
            }
            assert(x =~= y);
        },
        (IndexView::Str(x), IndexView::Str(y)) => {
            assert forall|k: Seq<char>| y.dom().contains(k) implies x.dom().contains(k) by {
                assert(b.entries().contains_key(Value::Str(k)));
                assert(a.entries().contains_key(Value::Str(k)));
            }
            vstd::set_lib::lemma_subset_equality(y.dom(), x.dom());
            assert forall|k: Seq<char>| x.contains_key(k) implies x[k] == y[k] by {
                assert(y.dom().contains(k));
                assert(b.entries().contains_key(Value::Str(k)));
                assert(a.entries()[Value::Str(k)] == x[k]);
                assert(b.entries()[Value::Str(k)] == y[k]);
            }
            assert(x =~= y);
        },
        _ => {},
    }
}

} // verus!
