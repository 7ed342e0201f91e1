//! An ordered map from a text to a row position, kept as a vector of entries
//! in the order of their keys.

use vstd::prelude::*;
use crate::text::{compare, lemma_bytes_before_transitive, lemma_text_order_total, text_before, Place};
use vstd::utf8::encode_utf8;

verus! {

/// An ordered map from texts to row positions. Each key occurs once, and the
/// entries stand in the order of their keys.
pub struct TextIndex {
    entries: Vec<(String, usize)>,
}

/// Whether the keys of `entries` stand in strictly rising order.
pub open spec fn rising(entries: Seq<(String, usize)>) -> bool {
    forall|i: int, j: int|
        0 <= i < j < entries.len() ==> text_before(
            (#[trigger] entries[i]).0@,
            (#[trigger] entries[j]).0@,
        )
}

/// Whether some entry of `entries` has the key `key`.
pub open spec fn has_key(entries: Seq<(String, usize)>, key: Seq<char>) -> bool {
    exists|i: int| 0 <= i < entries.len() && (#[trigger] entries[i]).0@ == key
}

/// The position that `entries` holds for `key`.
pub open spec fn position_of(entries: Seq<(String, usize)>, key: Seq<char>) -> usize {
    let i = choose|i: int| 0 <= i < entries.len() && (#[trigger] entries[i]).0@ == key;
    entries[i].1
}

/// The map that a vector of entries stands for.
pub open spec fn entries_map(entries: Seq<(String, usize)>) -> Map<Seq<char>, usize> {
    Map::new(|key: Seq<char>| has_key(entries, key), |key: Seq<char>| position_of(entries, key))
}

/// In a rising vector the entry at `i` is the only one with its key.
proof fn lemma_rising_entry(entries: Seq<(String, usize)>, i: int)
    requires
        rising(entries),
        0 <= i < entries.len(),
    ensures
        has_key(entries, entries[i].0@),
        position_of(entries, entries[i].0@) == entries[i].1,
        entries_map(entries).contains_key(entries[i].0@),
        entries_map(entries)[entries[i].0@] == entries[i].1,
{
    let key = entries[i].0@;
    let j = choose|j: int| 0 <= j < entries.len() && (#[trigger] entries[j]).0@ == key;
    lemma_text_order_total(key, key);
    if j < i {
        assert(text_before(entries[j].0@, entries[i].0@));
    } else if i < j {
        assert(text_before(entries[i].0@, entries[j].0@));
    }
}

impl View for TextIndex {
    type V = Map<Seq<char>, usize>;

    closed spec fn view(&self) -> Map<Seq<char>, usize> {
        entries_map(self.entries@)
    }
}

impl TextIndex {
    /// Whether the entries stand in the order of their keys, so that each
    /// key occurs once.
    pub closed spec fn wf(&self) -> bool {
        rising(self.entries@)
    }

    /// An index without entries.
    pub fn new() -> (index: TextIndex)
        ensures
            index.wf(),
            index@ == Map::<Seq<char>, usize>::empty(),
    {
        let index = TextIndex { entries: Vec::new() };
        assert(index@ =~= Map::<Seq<char>, usize>::empty());
        index
    }

    /// Whether the index is well formed.
    pub fn check(&self) -> (ok: bool)
        ensures
            ok == self.wf(),
    {
        let mut i: usize = 1;
        while i < self.entries.len()
            invariant
                1 <= i,
                forall|a: int, b: int|
                    0 <= a < b < i && b < self.entries@.len() ==> text_before(
                        (#[trigger] self.entries@[a]).0@,
                        (#[trigger] self.entries@[b]).0@,
                    ),
            decreases self.entries@.len() - i,
        {
            let earlier = self.entries[i - 1].0.as_str();
            let later = self.entries[i].0.as_str();
            if compare(earlier, later) != Place::Before {
                assert(!text_before(self.entries@[i - 1].0@, self.entries@[i as int].0@));
                return false;
            }
            assert forall|a: int, b: int| 0 <= a < b < i + 1 && b < self.entries@.len() implies text_before(
                (#[trigger] self.entries@[a]).0@,
                (#[trigger] self.entries@[b]).0@,
            ) by {
                if b == i && a < i - 1 {
                    assert(text_before(self.entries@[a].0@, self.entries@[i - 1].0@));
                    lemma_bytes_before_transitive(
                        encode_utf8(self.entries@[a].0@),
                        encode_utf8(earlier@),
                        encode_utf8(later@),
                    );
                }
            }
            i += 1;
        }
        true
    }

    /// The entries of the index, in the order of their keys.
    pub fn entries(&self) -> (list: Vec<(String, usize)>)
        requires
            self.wf(),
        ensures
            rising(list@),
            entries_map(list@) == self@,
    {
        let mut list: Vec<(String, usize)> = Vec::new();
        let mut i: usize = 0;
        while i < self.entries.len()
            invariant
                i <= self.entries@.len(),
                list@.len() == i,
                forall|k: int| 0 <= k < i ==> list@[k] == self.entries@[k],
            decreases self.entries@.len() - i,
        {
            list.push((self.entries[i].0.clone(), self.entries[i].1));
            i += 1;
        }
        assert(list@ =~= self.entries@);
        list
    }

    /// The number of keys.
    pub fn len(&self) -> (n: usize)
        requires
            self.wf(),
        ensures
            n == self@.len(),
            self@.dom().finite(),
    {
        proof {
            lemma_entries_count(self.entries@);
        }
        self.entries.len()
    }

    /// Finds the entry of `key`, or the place where it would stand: the
    /// result is `(true, i)` where entry `i` has the key, and `(false, i)`
    /// where no entry has it and `i` entries stand before it.
    fn locate(&self, key: &str) -> (r: (bool, usize))
        requires
            self.wf(),
        ensures
            r.1 <= self.entries@.len(),
            r.0 ==> r.1 < self.entries@.len() && self.entries@[r.1 as int].0@ == key@,
            !r.0 ==> forall|i: int| 0 <= i < r.1 ==> text_before((#[trigger] self.entries@[i]).0@, key@),
            !r.0 ==> forall|i: int|
                r.1 <= i < self.entries@.len() ==> text_before(key@, (#[trigger] self.entries@[i]).0@),
    {
        let mut low: usize = 0;
        let mut high: usize = self.entries.len();
        while low < high
            invariant
                low <= high <= self.entries@.len(),
                rising(self.entries@),
                forall|i: int| 0 <= i < low ==> text_before((#[trigger] self.entries@[i]).0@, key@),
                forall|i: int|
                    high <= i < self.entries@.len() ==> text_before(key@, (#[trigger] self.entries@[i]).0@),
            decreases high - low,
        {
            let middle = low + (high - low) / 2;
            let here = self.entries[middle].0.as_str();
            match compare(here, key) {
                Place::Same => {
                    return (true, middle);
                },
                Place::Before => {
                    assert forall|i: int| 0 <= i < middle + 1 implies text_before(
                        (#[trigger] self.entries@[i]).0@,
                        key@,
                    ) by {
                        if i < middle {
                            assert(text_before(self.entries@[i].0@, self.entries@[middle as int].0@));
                            lemma_bytes_before_transitive(
                                encode_utf8(self.entries@[i].0@),
                                encode_utf8(here@),
                                encode_utf8(key@),
                            );
                        }
                    }
                    low = middle + 1;
                },
                Place::After => {
                    assert forall|i: int| middle <= i < self.entries@.len() implies text_before(
                        key@,
                        (#[trigger] self.entries@[i]).0@,
                    ) by {
                        if middle < i {
                            assert(text_before(self.entries@[middle as int].0@, self.entries@[i].0@));
                            lemma_bytes_before_transitive(
                                encode_utf8(key@),
                                encode_utf8(here@),
                                encode_utf8(self.entries@[i].0@),
                            );
                        }
                    }
                    high = middle;
                },
            }
        }
        (false, low)
    }

    /// The position held for `key`, if there is one.
    pub fn get(&self, key: &str) -> (r: Option<&usize>)
        requires
            self.wf(),
        ensures
            match r {
                Some(position) => self@.contains_key(key@) && *position == self@[key@],
                None => !self@.contains_key(key@),
            },
    {
        let (found, at) = self.locate(key);
        if found {
            proof {
                lemma_rising_entry(self.entries@, at as int);
            }
            Some(&self.entries[at].1)
        } else {
            proof {
                lemma_absent(self.entries@, key@, at as int);
            }
            None
        }
    }

    /// Sets the position held for `key`, whether or not it held one before.
    pub fn insert(&mut self, key: String, position: usize)
        requires
            old(self).wf(),
        ensures
            final(self).wf(),
            final(self)@ == old(self)@.insert(key@, position),
    {
        let (found, at) = self.locate(key.as_str());
        let ghost before = self.entries@;
        if found {
            self.entries[at].1 = position;
            proof {
                lemma_replaced(before, self.entries@, at as int, position);
            }
        } else {
            self.entries.insert(at, (key, position));
            proof {
                lemma_inserted(before, self.entries@, at as int, key@, position);
            }
        }
    }
}

/// A key that stands strictly between the entries before `at` and those from
/// `at` on is the key of none of them.
proof fn lemma_absent(entries: Seq<(String, usize)>, key: Seq<char>, at: int)
    requires
        0 <= at <= entries.len(),
        forall|i: int| 0 <= i < at ==> text_before((#[trigger] entries[i]).0@, key),
        forall|i: int| at <= i < entries.len() ==> text_before(key, (#[trigger] entries[i]).0@),
    ensures
        !has_key(entries, key),
        !entries_map(entries).contains_key(key),
{
    lemma_text_order_total(key, key);
}

/// Giving the entry at `at` a new position changes the map at its key only.
proof fn lemma_replaced(
    before: Seq<(String, usize)>,
    after: Seq<(String, usize)>,
    at: int,
    position: usize,
)
    requires
        rising(before),
        0 <= at < before.len(),
        after.len() == before.len(),
        after[at].0@ == before[at].0@,
        after[at].1 == position,
        forall|i: int| 0 <= i < before.len() && i != at ==> after[i] == before[i],
    ensures
        rising(after),
        entries_map(after) == entries_map(before).insert(before[at].0@, position),
{
    assert forall|i: int, j: int| 0 <= i < j < after.len() implies text_before(
        (#[trigger] after[i]).0@,
        (#[trigger] after[j]).0@,
    ) by {
        assert(text_before(before[i].0@, before[j].0@));
    }
    let target = entries_map(before).insert(before[at].0@, position);
    assert forall|key: Seq<char>| entries_map(after).contains_key(key) == target.contains_key(key) by {
        if has_key(after, key) {
            let i = choose|i: int| 0 <= i < after.len() && (#[trigger] after[i]).0@ == key;
            assert(before[i].0@ == key);
        }
        if has_key(before, key) {
            let i = choose|i: int| 0 <= i < before.len() && (#[trigger] before[i]).0@ == key;
            assert(after[i].0@ == key);
        }
        assert(after[at].0@ == before[at].0@);
    }
    assert forall|key: Seq<char>| entries_map(after).contains_key(key) implies entries_map(after)[key]
        == target[key] by {
        let i = choose|i: int| 0 <= i < after.len() && (#[trigger] after[i]).0@ == key;
        lemma_rising_entry(after, i);
        if i != at {
            lemma_rising_entry(before, i);
            lemma_rising_entry(before, at);
        }
    }
    assert(entries_map(after) =~= target);
}

/// Putting a new key where it belongs adds it to the map and keeps the rest.
proof fn lemma_inserted(
    before: Seq<(String, usize)>,
    after: Seq<(String, usize)>,
    at: int,
    key: Seq<char>,
    position: usize,
)
    requires
        rising(before),
        0 <= at <= before.len(),
        forall|i: int| 0 <= i < at ==> text_before((#[trigger] before[i]).0@, key),
        forall|i: int| at <= i < before.len() ==> text_before(key, (#[trigger] before[i]).0@),
        after.len() == before.len() + 1,
        after[at].0@ == key,
        after[at].1 == position,
        forall|i: int| 0 <= i < at ==> after[i] == before[i],
        forall|i: int| at < i < after.len() ==> after[i] == before[i - 1],
    ensures
        rising(after),
        entries_map(after) == entries_map(before).insert(key, position),
{
    assert forall|i: int, j: int| 0 <= i < j < after.len() implies text_before(
        (#[trigger] after[i]).0@,
        (#[trigger] after[j]).0@,
    ) by {
        if j < at {
            assert(text_before(before[i].0@, before[j].0@));
        } else if j == at {
            assert(text_before(before[i].0@, key));
        } else if i < at {
            assert(text_before(before[i].0@, before[j - 1].0@));
        } else if i == at {
            assert(text_before(key, before[j - 1].0@));
        } else {
            assert(text_before(before[i - 1].0@, before[j - 1].0@));
        }
    }
    let target = entries_map(before).insert(key, position);
    assert forall|k: Seq<char>| entries_map(after).contains_key(k) == target.contains_key(k) by {
        if has_key(after, k) {
            let i = choose|i: int| 0 <= i < after.len() && (#[trigger] after[i]).0@ == k;
            if i < at {
                assert(before[i].0@ == k);
            } else if i > at {
                assert(before[i - 1].0@ == k);
            }
        }
        if has_key(before, k) {
            let i = choose|i: int| 0 <= i < before.len() && (#[trigger] before[i]).0@ == k;
            if i < at {
                assert(after[i].0@ == k);
            } else {
                assert(after[i + 1].0@ == k);
            }
        }
        assert(after[at].0@ == key);
    }
    assert forall|k: Seq<char>| entries_map(after).contains_key(k) implies entries_map(after)[k]
        == target[k] by {
        let i = choose|i: int| 0 <= i < after.len() && (#[trigger] after[i]).0@ == k;
        lemma_rising_entry(after, i);
        if i < at {
            lemma_rising_entry(before, i);
            lemma_text_order_total(k, key);
        } else if i > at {
            lemma_rising_entry(before, i - 1);
            lemma_text_order_total(k, key);
        }
    }
    assert(entries_map(after) =~= target);
}

/// A rising vector stands for a map with as many keys as it has entries.
proof fn lemma_entries_count(entries: Seq<(String, usize)>)
    requires
        rising(entries),
    ensures
        entries_map(entries).dom().finite(),
        entries_map(entries).len() == entries.len(),
    decreases entries.len(),
{
    if entries.len() == 0 {
        assert(entries_map(entries) =~= Map::<Seq<char>, usize>::empty());
    } else {
        let front = entries.drop_last();
        let last = entries.last();
        assert forall|i: int, j: int| 0 <= i < j < front.len() implies text_before(
            (#[trigger] front[i]).0@,
            (#[trigger] front[j]).0@,
        ) by {
            assert(text_before(entries[i].0@, entries[j].0@));
        }
        lemma_entries_count(front);
        assert forall|i: int| 0 <= i < front.len() implies text_before(
            (#[trigger] front[i]).0@,
            last.0@,
        ) by {
            assert(text_before(entries[i].0@, entries[entries.len() - 1].0@));
        }
        lemma_absent(front, last.0@, front.len() as int);
        lemma_inserted(front, entries, front.len() as int, last.0@, last.1);
    }
}

} // verus!
