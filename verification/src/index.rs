use vstd::prelude::*;

verus! {

/// Where one record sits in the log text: `start` is the position of its
/// first character, `size` the number of characters before the terminator.
#[derive(Debug, Clone, Copy, PartialEq, Eq, Structural)]
pub struct CommandBuffer {
    pub start: usize,
    pub size: usize,
}

/// The mathematical form of a log position, free of machine bounds.
pub struct EntryView {
    pub start: nat,
    pub size: nat,
}

impl View for CommandBuffer {
    type V = EntryView;

    open spec fn view(&self) -> EntryView {
        EntryView { start: self.start as nat, size: self.size as nat }
    }
}

/// The mapping an entry list stands for; a later entry for a key overrides
/// an earlier one, though a well-formed index never holds two for one key.
pub open spec fn entries_map(s: Seq<(String, CommandBuffer)>) -> Map<Seq<char>, EntryView>
    decreases s.len(),
{
    if s.len() == 0 {
        Map::empty()
    } else {
        entries_map(s.drop_last()).insert(s.last().0@, s.last().1@)
    }
}

/// Holds when no key appears twice in the list.
pub open spec fn unique_keys(s: Seq<(String, CommandBuffer)>) -> bool {
    forall|a: int, b: int| 0 <= a < b < s.len() ==> s[a].0@ != s[b].0@
}

pub(crate) proof fn lemma_entries_map_absent(s: Seq<(String, CommandBuffer)>, k: Seq<char>)
    requires
        forall|i: int| 0 <= i < s.len() ==> s[i].0@ != k,
    ensures
        !entries_map(s).contains_key(k),
    decreases s.len(),
{
    if s.len() > 0 {
        assert(forall|i: int| 0 <= i < s.drop_last().len() ==> s.drop_last()[i].0@ != k);
        lemma_entries_map_absent(s.drop_last(), k);
        assert(s.last().0@ != k);
    }
}

pub(crate) proof fn lemma_entries_map_at(s: Seq<(String, CommandBuffer)>, i: int)
    requires
        0 <= i < s.len(),
        unique_keys(s),
    ensures
        entries_map(s).contains_key(s[i].0@),
        entries_map(s)[s[i].0@] == s[i].1@,
    decreases s.len(),
{
    if i == s.len() - 1 {
    } else {
        assert(unique_keys(s.drop_last()));
        assert(s.drop_last()[i] == s[i]);
        lemma_entries_map_at(s.drop_last(), i);
        assert(s[i].0@ != s.last().0@);
    }
}

pub(crate) proof fn lemma_entries_map_contains(s: Seq<(String, CommandBuffer)>, k: Seq<char>)
    requires
        entries_map(s).contains_key(k),
    ensures
        exists|i: int| 0 <= i < s.len() && s[i].0@ == k,
    decreases s.len(),
{
    if s.len() > 0 {
        if s.last().0@ == k {
            assert(s[s.len() - 1].0@ == k);
        } else {
            lemma_entries_map_contains(s.drop_last(), k);
            let i = choose|i: int| 0 <= i < s.drop_last().len() && s.drop_last()[i].0@ == k;
            assert(s[i].0@ == k);
        }
    }
}

proof fn lemma_entries_map_update(s: Seq<(String, CommandBuffer)>, i: int, p: (String, CommandBuffer))
    requires
        0 <= i < s.len(),
        unique_keys(s),
        s[i].0@ == p.0@,
    ensures
        entries_map(s.update(i, p)) == entries_map(s).insert(p.0@, p.1@),
    decreases s.len(),
{
    if i == s.len() - 1 {
        assert(s.update(i, p).drop_last() =~= s.drop_last());
        assert(s.update(i, p).last() == p);
        assert(entries_map(s.drop_last()).insert(s.last().0@, s.last().1@).insert(p.0@, p.1@)
            =~= entries_map(s.drop_last()).insert(p.0@, p.1@));
    } else {
        assert(unique_keys(s.drop_last()));
        assert(s.drop_last()[i] == s[i]);
        lemma_entries_map_update(s.drop_last(), i, p);
        assert(s.update(i, p).drop_last() =~= s.drop_last().update(i, p));
        assert(s.update(i, p).last() == s.last());
        assert(s[i].0@ != s.last().0@);
        assert(entries_map(s.drop_last()).insert(p.0@, p.1@).insert(s.last().0@, s.last().1@)
            =~= entries_map(s.drop_last()).insert(s.last().0@, s.last().1@).insert(p.0@, p.1@));
    }
}

proof fn lemma_entries_map_remove(s: Seq<(String, CommandBuffer)>, i: int)
    requires
        0 <= i < s.len(),
        unique_keys(s),
    ensures
        entries_map(s.remove(i)) == entries_map(s).remove(s[i].0@),
    decreases s.len(),
{
    let k = s[i].0@;
    if i == s.len() - 1 {
        assert(s.remove(i) =~= s.drop_last());
        assert(forall|j: int| 0 <= j < s.drop_last().len() ==> s.drop_last()[j].0@ != k);
        lemma_entries_map_absent(s.drop_last(), k);
        assert(entries_map(s.drop_last()).insert(k, s.last().1@).remove(k) =~= entries_map(
            s.drop_last(),
        ));
    } else {
        assert(unique_keys(s.drop_last()));
        assert(s.drop_last()[i] == s[i]);
        lemma_entries_map_remove(s.drop_last(), i);
        assert(s.remove(i).drop_last() =~= s.drop_last().remove(i));
        assert(s.remove(i).last() == s.last());
        assert(k != s.last().0@);
        assert(entries_map(s.drop_last()).remove(k).insert(s.last().0@, s.last().1@)
            =~= entries_map(s.drop_last()).insert(s.last().0@, s.last().1@).remove(k));
    }
}

/// The in-memory index: each live key, mapped to the position of its most
/// recent record in the log. Pure data; no I/O and no failure modes.
pub struct Index {
    entries: Vec<(String, CommandBuffer)>,
}

impl View for Index {
    type V = Map<Seq<char>, EntryView>;

    closed spec fn view(&self) -> Map<Seq<char>, EntryView> {
        entries_map(self.entries@)
    }
}

impl Index {
    /// A well-formed index holds at most one entry per key.
    pub closed spec fn wf(self) -> bool {
        unique_keys(self.entries@)
    }

    /// The entry list itself, for callers that walk the index.
    pub closed spec fn entries_seq(self) -> Seq<(String, CommandBuffer)> {
        self.entries@
    }

    /// Each listed pair is one binding of the mapping.
    pub proof fn lemma_entry_at(self, i: int)
        requires
            self.wf(),
            0 <= i < self.entries_seq().len(),
        ensures
            self@.contains_key(self.entries_seq()[i].0@),
            self@[self.entries_seq()[i].0@] == self.entries_seq()[i].1@,
    {
        lemma_entries_map_at(self.entries@, i);
    }

    /// Every key of the mapping is listed somewhere.
    pub proof fn lemma_contains(self, k: Seq<char>)
        requires
            self@.contains_key(k),
        ensures
            exists|i: int| 0 <= i < self.entries_seq().len() && self.entries_seq()[i].0@ == k,
    {
        lemma_entries_map_contains(self.entries@, k);
        let i = choose|i: int| 0 <= i < self.entries@.len() && self.entries@[i].0@ == k;
        assert(0 <= i < self.entries_seq().len() && self.entries_seq()[i].0@ == k);
    }

    /// A fresh, empty index.
    pub fn new() -> (idx: Index)
        ensures
            idx.wf(),
            idx@ == Map::<Seq<char>, EntryView>::empty(),
            idx.entries_seq().len() == 0,
    {
        Index { entries: Vec::new() }
    }

    /// How many keys are live.
    pub fn len(&self) -> (n: usize)
        ensures
            n == self.entries_seq().len(),
    {
        self.entries.len()
    }

    /// The key at one position of the list.
    pub fn key_at(&self, i: usize) -> (k: &String)
        requires
            i < self.entries_seq().len(),
        ensures
            k@ == self.entries_seq()[i as int].0@,
    {
        &self.entries[i].0
    }

    /// The entry at one position of the list.
    pub fn entry_at(&self, i: usize) -> (e: CommandBuffer)
        requires
            i < self.entries_seq().len(),
        ensures
            e == self.entries_seq()[i as int].1,
    {
        self.entries[i].1
    }

    /// Looks a key up.
    pub fn get(&self, key: &String) -> (res: Option<CommandBuffer>)
        requires
            self.wf(),
        ensures
            match res {
                Some(e) => self@.contains_key(key@) && self@[key@] == e@,
                None => !self@.contains_key(key@),
            },
    {
        let n = self.entries.len();
        let mut i: usize = 0;
        while i < n
            invariant
                i <= n,
                n == self.entries@.len(),
                unique_keys(self.entries@),
                forall|j: int| 0 <= j < i ==> self.entries@[j].0@ != key@,
            decreases n - i,
        {
            if self.entries[i].0 == *key {
                proof {
                    lemma_entries_map_at(self.entries@, i as int);
                }
                return Some(self.entries[i].1);
            }
            i = i + 1;
        }
        proof {
            lemma_entries_map_absent(self.entries@, key@);
        }
        None
    }

    /// Binds `key` to `entry`, overwriting any prior entry for `key`.
    pub fn insert(&mut self, key: String, entry: CommandBuffer)
        requires
            old(self).wf(),
        ensures
            final(self).wf(),
            final(self)@ == old(self)@.insert(key@, entry@),
    {
        let n = self.entries.len();
        let mut i: usize = 0;
        while i < n
            invariant
                i <= n,
                n == self.entries@.len(),
                self.entries@ == old(self).entries@,
                unique_keys(self.entries@),
                forall|j: int| 0 <= j < i ==> self.entries@[j].0@ != key@,
            decreases n - i,
        {
            if self.entries[i].0 == key {
                proof {
                    lemma_entries_map_update(self.entries@, i as int, (key, entry));
                }
                self.entries.set(i, (key, entry));
                assert(unique_keys(self.entries@));
                return ;
            }
            i = i + 1;
        }
        self.entries.push((key, entry));
        proof {
            assert(self.entries@.drop_last() =~= old(self).entries@);
            assert(unique_keys(self.entries@));
        }
    }

    /// Deletes the entry for `key`; absent keys are left alone.
    pub fn remove(&mut self, key: &String)
        requires
            old(self).wf(),
        ensures
            final(self).wf(),
            final(self)@ == old(self)@.remove(key@),
    {
        let n = self.entries.len();
        let mut i: usize = 0;
        while i < n
            invariant
                i <= n,
                n == self.entries@.len(),
                self.entries@ == old(self).entries@,
                unique_keys(self.entries@),
                forall|j: int| 0 <= j < i ==> self.entries@[j].0@ != key@,
            decreases n - i,
        {
            if self.entries[i].0 == *key {
                proof {
                    lemma_entries_map_remove(self.entries@, i as int);
                }
                self.entries.remove(i);
                proof {
                    assert forall|a: int, b: int|
                        0 <= a < b < self.entries@.len() implies self.entries@[a].0@
                        != self.entries@[b].0@ by {
                        assert(self.entries@[a] == if a < i as int {
                            old(self).entries@[a]
                        } else {
                            old(self).entries@[a + 1]
                        });
                        assert(self.entries@[b] == if b < i as int {
                            old(self).entries@[b]
                        } else {
                            old(self).entries@[b + 1]
                        });
                    }
                }
                return ;
            }
            i = i + 1;
        }
        proof {
            lemma_entries_map_absent(self.entries@, key@);
            assert(old(self)@.remove(key@) =~= old(self)@);
        }
    }
}

} // verus!
