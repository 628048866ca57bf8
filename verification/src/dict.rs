//! A dictionary from texts to values.
use crate::text::same_text;
use vstd::prelude::*;

verus! {

/// A dictionary from texts to values.
#[derive(Debug)]
pub struct Dict<V> {
    entries: Vec<(String, V)>,
}

/// What a list of entries stands for: the last entry of a key counts.
pub closed spec fn meaning<V>(entries: Seq<(String, V)>) -> Map<Seq<char>, V>
    decreases entries.len(),
{
    if entries.len() == 0 {
        Map::empty()
    } else {
        meaning(entries.drop_last()).insert(entries.last().0@, entries.last().1)
    }
}

impl<V> View for Dict<V> {
    type V = Map<Seq<char>, V>;

    closed spec fn view(&self) -> Map<Seq<char>, V> {
        meaning(self.entries@)
    }
}

proof fn lemma_last_entry<V>(entries: Seq<(String, V)>, i: int)
    requires
        0 <= i < entries.len(),
        forall|j: int| i < j < entries.len() ==> entries[j].0@ != entries[i].0@,
    ensures
        meaning(entries).dom().contains(entries[i].0@),
        meaning(entries)[entries[i].0@] == entries[i].1,
        forall|value: V|
            #[trigger] meaning(entries.update(i, (entries[i].0, value))) == meaning(entries).insert(
                entries[i].0@,
                value,
            ),
    decreases entries.len(),
{
    let key = entries[i].0@;
    let init = entries.drop_last();
    if i < entries.len() - 1 {
        lemma_last_entry(init, i);
        assert forall|value: V|
            #[trigger] meaning(entries.update(i, (entries[i].0, value))) == meaning(entries).insert(
                key,
                value,
            ) by {
            let changed = entries.update(i, (entries[i].0, value));
            assert(changed.drop_last() =~= init.update(i, (init[i].0, value)));
            assert(meaning(init.update(i, (init[i].0, value))) == meaning(init).insert(key, value));
            assert(changed.last() == entries.last());
            assert(entries.last().0@ != key);
            assert(meaning(changed) =~= meaning(entries).insert(key, value));
        }
    } else {
        assert forall|value: V|
            #[trigger] meaning(entries.update(i, (entries[i].0, value))) == meaning(entries).insert(
                key,
                value,
            ) by {
            let changed = entries.update(i, (entries[i].0, value));
            assert(changed.drop_last() =~= init);
            assert(meaning(changed) =~= meaning(entries).insert(key, value));
        }
    }
}

proof fn lemma_no_entry<V>(entries: Seq<(String, V)>, key: Seq<char>)
    requires
        forall|j: int| 0 <= j < entries.len() ==> entries[j].0@ != key,
    ensures
        !meaning(entries).dom().contains(key),
    decreases entries.len(),
{
    if entries.len() > 0 {
        lemma_no_entry(entries.drop_last(), key);
    }
}

impl<V> Dict<V> {
    /// A dictionary that holds nothing.
    pub fn new() -> (dict: Self)
        ensures
            dict@ == Map::<Seq<char>, V>::empty(),
    {
        Dict { entries: Vec::new() }
    }

    fn position(&self, key: &str) -> (found: Option<usize>)
        ensures
            match found {
                Some(i) => {
                    &&& i < self.entries@.len()
                    &&& self.entries@[i as int].0@ == key@
                    &&& forall|j: int| i < j < self.entries@.len() ==> self.entries@[j].0@ != key@
                },
                None => forall|j: int|
                    0 <= j < self.entries@.len() ==> self.entries@[j].0@ != key@,
            },
    {
        let mut i: usize = self.entries.len();
        while i > 0
            invariant
                i <= self.entries@.len(),
                forall|j: int| i <= j < self.entries@.len() ==> self.entries@[j].0@ != key@,
            decreases i,
        {
            i = i - 1;
            if same_text(&self.entries[i].0, key) {
                return Some(i);
            }
        }
        None
    }

    /// The value of `key`.
    pub fn get(&self, key: &str) -> (found: Option<&V>)
        ensures
            match found {
                Some(value) => self@.dom().contains(key@) && self@[key@] == *value,
                None => !self@.dom().contains(key@),
            },
    {
        match self.position(key) {
            Some(i) => {
                proof {
                    lemma_last_entry(self.entries@, i as int);
                }
                Some(&self.entries[i].1)
            },
            None => {
                proof {
                    lemma_no_entry(self.entries@, key@);
                }
                None
            },
        }
    }

    /// Whether `key` has a value.
    pub fn contains_key(&self, key: &str) -> (found: bool)
        ensures
            found == self@.dom().contains(key@),
    {
        self.get(key).is_some()
    }

    /// Gives `key` the value `value`, whether it had one before or not.
    pub fn insert(&mut self, key: String, value: V)
        ensures
            final(self)@ == old(self)@.insert(key@, value),
    {
        match self.position(&key) {
            Some(i) => {
                let ghost before = self.entries@;
                proof {
                    lemma_last_entry(before, i as int);
                }
                let kept = self.entries[i].0.clone();
                self.entries.set(i, (kept, value));
                assert(self.entries@ == before.update(i as int, (before[i as int].0, value)));
            },
            None => {
                let ghost before = self.entries@;
                self.entries.push((key, value));
                assert(self.entries@.drop_last() =~= before);
            },
        }
    }
}

proof fn lemma_cloned_entries<V: Clone>(entries: Seq<(String, V)>, copies: Seq<(String, V)>)
    requires
        copies.len() == entries.len(),
        forall|i: int|
            0 <= i < entries.len() ==> (#[trigger] copies[i]).0@ == entries[i].0@ && cloned(
                entries[i].1,
                copies[i].1,
            ),
    ensures
        meaning(copies).dom() == meaning(entries).dom(),
        forall|key: Seq<char>| #[trigger]
            meaning(entries).dom().contains(key) ==> cloned(
                meaning(entries)[key],
                meaning(copies)[key],
            ),
    decreases entries.len(),
{
    if entries.len() > 0 {
        let before = entries.drop_last();
        let fewer = copies.drop_last();
        let n = entries.len() - 1;
        assert forall|i: int| 0 <= i < before.len() implies (#[trigger] fewer[i]).0@
            == before[i].0@ && cloned(before[i].1, fewer[i].1) by {
            assert(copies[i].0@ == entries[i].0@);
        }
        lemma_cloned_entries(before, fewer);
        assert(copies[n].0@ == entries[n].0@ && cloned(entries[n].1, copies[n].1));
    }
    assert(meaning(copies).dom() =~= meaning(entries).dom());
}

impl<V: Clone> Clone for Dict<V> {
    fn clone(&self) -> (copy: Self)
        ensures
            copy@.dom() == self@.dom(),
            forall|key: Seq<char>| #[trigger]
                self@.dom().contains(key) ==> cloned(self@[key], copy@[key]),
    {
        let mut entries: Vec<(String, V)> = Vec::new();
        let mut i: usize = 0;
        while i < self.entries.len()
            invariant
                i <= self.entries@.len(),
                entries@.len() == i,
                forall|j: int|
                    0 <= j < i ==> (#[trigger] entries@[j]).0@ == self.entries@[j].0@ && cloned(
                        self.entries@[j].1,
                        entries@[j].1,
                    ),
            decreases self.entries@.len() - i,
        {
            let key = self.entries[i].0.clone();
            let value = self.entries[i].1.clone();
            entries.push((key, value));
            i = i + 1;
        }
        proof {
            lemma_cloned_entries(self.entries@, entries@);
        }
        Dict { entries }
    }
}

} // verus!
