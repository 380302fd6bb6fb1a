//! Tables from text keys to values.
//!
//! A table holds each key at most once and keeps its entries in the order in which their keys came
//! in.
use vstd::prelude::*;

use crate::bytes;

verus! {

/// No two entries have the same key.
pub open spec fn is_unique<M>(table: Seq<(Seq<char>, M)>) -> bool {
    forall|i: int, j: int|
        0 <= i < table.len() && 0 <= j < table.len() && i != j ==> (#[trigger] table[i]).0 != (
        #[trigger] table[j]).0
}

/// Whether `key` stands in the table.
pub open spec fn has_key<M>(table: Seq<(Seq<char>, M)>, key: Seq<char>) -> bool {
    exists|i: int| 0 <= i < table.len() && (#[trigger] table[i]).0 == key
}

/// What the table holds under `key`.
pub open spec fn get<M>(table: Seq<(Seq<char>, M)>, key: Seq<char>) -> Option<M>
    decreases table.len(),
{
    if table.len() == 0 {
        None
    } else if table.last().0 == key {
        Some(table.last().1)
    } else {
        get(table.drop_last(), key)
    }
}

/// The table once it holds `value` under `key`: in the place of what it held, or at the end.
pub open spec fn put<M>(table: Seq<(Seq<char>, M)>, key: Seq<char>, value: M) -> Seq<
    (Seq<char>, M),
> {
    if has_key(table, key) {
        table.map_values(
            |entry: (Seq<char>, M)|
                if entry.0 == key {
                    (key, value)
                } else {
                    entry
                },
        )
    } else {
        table.push((key, value))
    }
}

/// Says of an entry that its key is not `key`.
pub open spec fn other_than<M>(key: Seq<char>) -> spec_fn((Seq<char>, M)) -> bool {
    |entry: (Seq<char>, M)| entry.0 != key
}

/// The table without `key`.
pub open spec fn without<M>(table: Seq<(Seq<char>, M)>, key: Seq<char>) -> Seq<(Seq<char>, M)> {
    table.filter(other_than(key))
}

/// In a table without repetitions, an entry is what is held under its key.
pub proof fn lemma_get<M>(table: Seq<(Seq<char>, M)>, i: int)
    requires
        is_unique(table),
        0 <= i < table.len(),
    ensures
        get(table, table[i].0) == Some(table[i].1),
    decreases table.len(),
{
    let last = table.len() - 1;
    if i < last {
        assert(table[i].0 != table[last].0);
        assert(is_unique(table.drop_last())) by {
            assert forall|a: int, b: int|
                0 <= a < last && 0 <= b < last && a != b implies (
            #[trigger] table.drop_last()[a]).0 != (#[trigger] table.drop_last()[b]).0 by {
                assert(table[a].0 != table[b].0);
            }
        }
        lemma_get(table.drop_last(), i);
    }
}

/// What is held under a key is an entry with that key; a key that does not stand in the table has
/// nothing held under it.
pub proof fn lemma_get_has<M>(table: Seq<(Seq<char>, M)>, key: Seq<char>)
    ensures
        get(table, key) is Some <==> has_key(table, key),
        get(table, key) matches Some(value) ==> table.contains((key, value)),
    decreases table.len(),
{
    if table.len() > 0 {
        let last = table.len() - 1;
        if table.last().0 == key {
            assert(table[last].0 == key);
            assert(table[last] == (key, table.last().1));
        } else {
            lemma_get_has(table.drop_last(), key);
            if has_key(table.drop_last(), key) {
                let i = choose|i: int|
                    0 <= i < table.drop_last().len() && (#[trigger] table.drop_last()[i]).0 == key;
                assert(table[i].0 == key);
            }
            if has_key(table, key) {
                let i = choose|i: int| 0 <= i < table.len() && (#[trigger] table[i]).0 == key;
                assert(table.drop_last()[i].0 == key);
            }
            if let Some(value) = get(table, key) {
                let i = choose|i: int|
                    0 <= i < table.drop_last().len() && table.drop_last()[i] == (key, value);
                assert(table[i] == (key, value));
            }
        }
    }
}

/// After a value is put under a key, the table holds it there, holds under every other key what it
/// held, and still holds no key twice.
pub proof fn lemma_put<M>(table: Seq<(Seq<char>, M)>, key: Seq<char>, value: M, other: Seq<char>)
    requires
        is_unique(table),
    ensures
        is_unique(put(table, key, value)),
        get(put(table, key, value), key) == Some(value),
        other != key ==> get(put(table, key, value), other) == get(table, other),
        has_key(put(table, key, value), other) == (other == key || has_key(table, other)),
{
    let after = put(table, key, value);
    assert forall|i: int| 0 <= i < table.len() implies (#[trigger] after[i]).0 == table[i].0 by {}
    assert forall|i: int, j: int|
        0 <= i < after.len() && 0 <= j < after.len() && i != j implies (#[trigger] after[i]).0 != (
    #[trigger] after[j]).0 by {
        if i < table.len() && j < table.len() {
            assert(table[i].0 != table[j].0);
        }
    }
    if has_key(table, key) {
        let i = choose|i: int| 0 <= i < table.len() && (#[trigger] table[i]).0 == key;
        assert(after[i] == (key, value));
        lemma_get(after, i);
    } else {
        assert(after.last() == (key, value));
    }
    lemma_get_has(table, other);
    lemma_get_has(after, other);
    if has_key(table, other) {
        let i = choose|i: int| 0 <= i < table.len() && (#[trigger] table[i]).0 == other;
        assert(after[i].0 == other);
        lemma_get(table, i);
        lemma_get(after, i);
    }
    if has_key(after, other) && other != key {
        let i = choose|i: int| 0 <= i < after.len() && (#[trigger] after[i]).0 == other;
        assert(table[i].0 == other);
    }
    if other == key {
        lemma_get_has(after, key);
    }
}

/// Entries that are dropped leave a table without repetitions, in which each kept entry is held as
/// before.
pub proof fn lemma_filter<M>(
    table: Seq<(Seq<char>, M)>,
    keep: spec_fn((Seq<char>, M)) -> bool,
    key: Seq<char>,
)
    requires
        is_unique(table),
    ensures
        is_unique(table.filter(keep)),
        get(table.filter(keep), key) == (match get(table, key) {
            Some(value) if keep((key, value)) => Some(value),
            _ => None,
        }),
    decreases table.len(),
{
    reveal(Seq::filter);
    if table.len() > 0 {
        let last = table.len() - 1;
        let rest = table.drop_last();
        assert(is_unique(rest)) by {
            assert forall|a: int, b: int|
                0 <= a < last && 0 <= b < last && a != b implies (#[trigger] rest[a]).0 != (
            #[trigger] rest[b]).0 by {
                assert(table[a].0 != table[b].0);
            }
        }
        lemma_filter(rest, keep, key);
        let kept = rest.filter(keep);
        assert forall|i: int| 0 <= i < kept.len() implies (#[trigger] kept[i]).0
            != table.last().0 by {
            rest.lemma_filter_contains_rev(keep, kept[i]);
            assert(rest.contains(kept[i])) by {
                assert(kept.contains(kept[i]));
            }
            let j = choose|j: int| 0 <= j < rest.len() && rest[j] == kept[i];
            assert(table[j].0 != table[last].0);
        }
        assert(is_unique(table.filter(keep)));
        if table.last().0 == key {
            lemma_get_has(rest, key);
            if has_key(rest, key) {
                let i = choose|i: int| 0 <= i < rest.len() && (#[trigger] rest[i]).0 == key;
                assert(table[i].0 != table[last].0);
            }
            assert(table.last() == (key, table.last().1));
        }
        if keep(table.last()) {
            assert(table.filter(keep).drop_last() =~= kept);
        }
    }
}

/// What is kept of a table are entries of it that were to be kept.
pub proof fn lemma_kept<M>(table: Seq<(Seq<char>, M)>, keep: spec_fn((Seq<char>, M)) -> bool)
    ensures
        table.filter(keep).len() <= table.len(),
        forall|i: int|
            0 <= i < table.filter(keep).len() ==> keep(#[trigger] table.filter(keep)[i])
                && table.contains(table.filter(keep)[i]),
{
    table.lemma_filter_len(keep);
    assert forall|i: int| 0 <= i < table.filter(keep).len() implies keep(
        #[trigger] table.filter(keep)[i],
    ) && table.contains(table.filter(keep)[i]) by {
        table.lemma_filter_pred(keep, i);
        assert(table.filter(keep).contains(table.filter(keep)[i]));
        table.lemma_filter_contains_rev(keep, table.filter(keep)[i]);
    }
}

/// Once a value is put under a key, each entry is that one or stood in the table before, and there
/// is at most one entry more.
pub proof fn lemma_put_entries<M>(table: Seq<(Seq<char>, M)>, key: Seq<char>, value: M)
    ensures
        put(table, key, value).len() == table.len() + (if has_key(table, key) {
            0int
        } else {
            1int
        }),
        forall|i: int|
            0 <= i < put(table, key, value).len() ==> {
                ||| #[trigger] put(table, key, value)[i] == (key, value)
                ||| i < table.len() && put(table, key, value)[i] == table[i] && table[i].0 != key
            },
{
    if !has_key(table, key) {
        assert forall|i: int| 0 <= i < table.len() implies (#[trigger] table[i]).0 != key by {}
    }
}

/// A table from text keys to values.
#[derive(Debug)]
pub struct Table<V> {
    entries: Vec<(String, V)>,
}

impl<V: View> View for Table<V> {
    type V = Seq<(Seq<char>, V::V)>;

    closed spec fn view(&self) -> Seq<(Seq<char>, V::V)> {
        self.entries@.map_values(|entry: (String, V)| (entry.0@, entry.1@))
    }
}

impl<V: View> Table<V> {
    /// The empty table.
    pub fn new() -> (table: Table<V>)
        ensures
            table@ == Seq::<(Seq<char>, V::V)>::empty(),
    {
        let table = Table { entries: Vec::new() };
        assert(table@ =~= Seq::<(Seq<char>, V::V)>::empty());
        table
    }

    /// The number of entries.
    pub fn len(&self) -> (len: usize)
        ensures
            len == self@.len(),
    {
        self.entries.len()
    }

    /// The key of the entry at `index`.
    pub fn key_at(&self, index: usize) -> (key: &str)
        requires
            index < self@.len(),
        ensures
            key@ == self@[index as int].0,
    {
        self.entries[index].0.as_str()
    }

    /// The value of the entry at `index`.
    pub fn value_at(&self, index: usize) -> (value: &V)
        requires
            index < self@.len(),
        ensures
            value@ == self@[index as int].1,
    {
        &self.entries[index].1
    }

    /// The place of `key`.
    fn find(&self, key: &str) -> (found: Option<usize>)
        ensures
            found matches Some(i) ==> i < self@.len() && self@[i as int].0 == key@,
            found is None ==> !has_key(self@, key@),
    {
        let mut i: usize = 0;
        while i < self.entries.len()
            invariant
                i <= self.entries@.len(),
                forall|j: int| 0 <= j < i ==> (#[trigger] self@[j]).0 != key@,
            decreases self.entries@.len() - i,
        {
            if bytes::text_equal(self.entries[i].0.as_str(), key) {
                return Some(i);
            }
            i += 1;
        }
        None
    }

    /// Whether `key` stands in the table.
    pub fn contains_key(&self, key: &str) -> (found: bool)
        ensures
            found == has_key(self@, key@),
    {
        match self.find(key) {
            Some(i) => {
                assert(self@[i as int].0 == key@);
                true
            },
            None => false,
        }
    }

    /// What the table holds under `key`.
    pub fn get(&self, key: &str) -> (found: Option<&V>)
        ensures
            found is Some <==> get(self@, key@) is Some,
            found matches Some(value) ==> get(self@, key@) == Some(value@),
    {
        let mut i: usize = self.entries.len();
        assert(self@.take(i as int) =~= self@);
        while i > 0
            invariant
                i <= self@.len(),
                self@.len() == self.entries@.len(),
                get(self@, key@) == get(self@.take(i as int), key@),
            decreases i,
        {
            i -= 1;
            assert(self@.take(i + 1).last() == self@[i as int]);
            if bytes::text_equal(self.entries[i].0.as_str(), key) {
                return Some(&self.entries[i].1);
            }
            assert(self@.take(i + 1).drop_last() =~= self@.take(i as int));
        }
        None
    }

    /// Puts `value` under `key`.
    pub fn insert(&mut self, key: &str, value: V)
        requires
            is_unique(old(self)@),
        ensures
            final(self)@ == put(old(self)@, key@, value@),
            is_unique(final(self)@),
    {
        let ghost before = self@;
        let entry = (key.to_owned(), value);
        proof {
            lemma_put(before, key@, value@, key@);
        }
        match self.find(key) {
            Some(i) => {
                assert(has_key(before, key@)) by {
                    assert(before[i as int].0 == key@);
                }
                self.entries.set(i, entry);
                assert forall|j: int| 0 <= j < before.len() && j != i implies (
                #[trigger] before[j]).0 != key@ by {
                    assert(before[i as int].0 == key@);
                }
                assert(self@ =~= put(before, key@, value@));
            },
            None => {
                self.entries.push(entry);
                assert(self@ =~= put(before, key@, value@));
            },
        }
    }

    /// Keeps the entries that are marked in `keep`, which are those of which `marked` holds.
    pub(crate) fn retain(
        &mut self,
        keep: &Vec<bool>,
        Ghost(marked): Ghost<spec_fn((Seq<char>, V::V)) -> bool>,
    )
        requires
            keep@.len() == old(self)@.len(),
            forall|i: int| 0 <= i < keep@.len() ==> #[trigger] keep@[i] == marked(old(self)@[i]),
        ensures
            final(self)@ == old(self)@.filter(marked),
    {
        let ghost before = self@;
        let ghost given = self.entries@;
        let mut entries: Vec<(String, V)> = Vec::new();
        std::mem::swap(&mut self.entries, &mut entries);
        let mut kept: Vec<(String, V)> = Vec::new();
        let ghost viewed = |entry: (String, V)| (entry.0@, entry.1@);
        let mut i: usize = 0;
        let total: usize = keep.len();
        assert(before.take(0) =~= Seq::<(Seq<char>, V::V)>::empty());
        assert(before.take(0).filter(marked) =~= Seq::<(Seq<char>, V::V)>::empty()) by {
            reveal(Seq::filter);
        }
        assert(kept@.map_values(viewed) =~= before.take(0).filter(marked));
        for entry in it: entries
            invariant
                it.seq() == given,
                i == it.index(),
                before == given.map_values(viewed),
                viewed == (|entry: (String, V)| (entry.0@, entry.1@)),
                keep@.len() == before.len(),
                total == keep@.len(),
                forall|j: int| 0 <= j < keep@.len() ==> #[trigger] keep@[j] == marked(before[j]),
                kept@.map_values(viewed) == before.take(it.index()).filter(marked),
        {
            let ghost earlier = kept@;
            proof {
                assert(before[i as int] == viewed(entry));
                assert(before.take(i + 1) =~= before.take(i as int).push(before[i as int]));
                before.take(i as int).lemma_filter_push(before[i as int], marked);
            }
            if keep[i] {
                kept.push(entry);
                assert(kept@.map_values(viewed) =~= earlier.map_values(viewed).push(viewed(entry)));
            }
            i += 1;
        }
        assert(before.take(before.len() as int) =~= before);
        self.entries = kept;
    }

    /// Drops `key`.
    pub fn remove(&mut self, key: &str)
        ensures
            final(self)@ == without(old(self)@, key@),
    {
        let mut keep: Vec<bool> = Vec::new();
        let mut i: usize = 0;
        while i < self.entries.len()
            invariant
                self@ == old(self)@,
                i <= self.entries@.len(),
                keep@.len() == i,
                forall|j: int| 0 <= j < i ==> #[trigger] keep@[j] == (self@[j].0 != key@),
            decreases self.entries@.len() - i,
        {
            keep.push(!bytes::text_equal(self.entries[i].0.as_str(), key));
            i += 1;
        }
        self.retain(&keep, Ghost(other_than::<V::V>(key@)));
    }
}

impl Table<String> {
    /// A copy of the table.
    pub fn copied(&self) -> (copy: Table<String>)
        ensures
            copy@ == self@,
    {
        let mut entries: Vec<(String, String)> = Vec::new();
        let mut i: usize = 0;
        while i < self.entries.len()
            invariant
                i <= self.entries@.len(),
                entries@.len() == i,
                forall|j: int|
                    0 <= j < i ==> (#[trigger] entries@[j]).0@ == self.entries@[j].0@
                        && entries@[j].1@ == self.entries@[j].1@,
            decreases self.entries@.len() - i,
        {
            entries.push((self.entries[i].0.clone(), self.entries[i].1.clone()));
            i += 1;
        }
        let copy = Table { entries };
        assert(copy@ =~= self@);
        copy
    }
}

} // verus!
