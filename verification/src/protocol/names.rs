//! A table from names to text, for the prepared statements and the portals
//! of one connection.
use vstd::prelude::*;
use vstd::string::StringExecFns;

verus! {

/// A finite map from names to text. A name occurs at most once; binding a
/// name again replaces what it was bound to.
pub struct NameMap {
    entries: Vec<(String, String)>,
}

/// True if no two entries carry the same name.
pub open spec fn distinct_names(entries: Seq<(String, String)>) -> bool {
    forall|i: int, j: int|
        0 <= i < entries.len() && 0 <= j < entries.len() && i != j ==> entries[i].0@
            != entries[j].0@
}

/// True if some entry carries the name `name`.
pub open spec fn has_name(entries: Seq<(String, String)>, name: Seq<char>) -> bool {
    exists|i: int| 0 <= i < entries.len() && #[trigger] entries[i].0@ == name
}

/// The position of an entry that carries the name `name`.
pub open spec fn position_of(entries: Seq<(String, String)>, name: Seq<char>) -> int {
    choose|i: int| 0 <= i < entries.len() && #[trigger] entries[i].0@ == name
}

/// The map that a list of entries with distinct names stands for.
pub open spec fn entries_map(entries: Seq<(String, String)>) -> Map<Seq<char>, Seq<char>> {
    Map::new(
        |name: Seq<char>| has_name(entries, name),
        |name: Seq<char>| entries[position_of(entries, name)].1@,
    )
}

impl View for NameMap {
    type V = Map<Seq<char>, Seq<char>>;

    /// The map from each bound name to its text.
    closed spec fn view(&self) -> Map<Seq<char>, Seq<char>> {
        entries_map(self.entries@)
    }
}

impl NameMap {
    /// No name has two entries.
    #[verifier::type_invariant]
    spec fn well_formed(self) -> bool {
        distinct_names(self.entries@)
    }

    /// The empty table.
    pub fn new() -> (m: NameMap)
        ensures
            m@ == Map::<Seq<char>, Seq<char>>::empty(),
    {
        let m = NameMap { entries: Vec::new() };
        assert(m@ =~= Map::<Seq<char>, Seq<char>>::empty());
        m
    }

    /// The position of the entry for `name`, if there is one.
    fn find(&self, name: &String) -> (res: Option<usize>)
        ensures
            match res {
                Some(i) => i < self.entries@.len() && self.entries@[i as int].0@ == name@,
                None => !has_name(self.entries@, name@),
            },
    {
        let mut i: usize = 0;
        while i < self.entries.len()
            invariant
                i <= self.entries@.len(),
                forall|k: int| 0 <= k < i ==> self.entries@[k].0@ != name@,
            decreases self.entries@.len() - i,
        {
            if self.entries[i].0 == *name {
                return Some(i);
            }
            i = i + 1;
        }
        None
    }

    /// The text bound to `name`, if any.
    pub fn get(&self, name: &String) -> (res: Option<&String>)
        ensures
            match res {
                Some(text) => self@.contains_key(name@) && text@ == self@[name@],
                None => !self@.contains_key(name@),
            },
    {
        proof {
            use_type_invariant(self);
        }
        match self.find(name) {
            Some(i) => {
                assert(has_name(self.entries@, name@));
                Some(&self.entries[i].1)
            },
            None => None,
        }
    }

    /// True if `name` is bound.
    pub fn contains_key(&self, name: &str) -> (res: bool)
        ensures
            res == self@.contains_key(name@),
    {
        let key = String::from_str(name);
        self.get(&key).is_some()
    }

    /// The number of bound names.
    pub fn len(&self) -> (n: usize)
        ensures
            n == self@.len(),
            self@.dom().finite(),
    {
        proof {
            use_type_invariant(self);
            lemma_entries_map_len(self.entries@);
        }
        self.entries.len()
    }

    /// Binds `name` to `text`, replacing an earlier binding of `name`.
    pub fn insert(&mut self, name: String, text: String)
        ensures
            final(self)@ == old(self)@.insert(name@, text@),
    {
        proof {
            use_type_invariant(&*self);
        }
        let ghost before = self.entries@;
        let found = self.find(&name);
        let mut entries: Vec<(String, String)> = Vec::new();
        core::mem::swap(&mut self.entries, &mut entries);
        match found {
            Some(i) => {
                entries[i] = (name, text);
                proof {
                    let after = entries@;
                    assert(distinct_names(after));
                    assert forall|k: Seq<char>| has_name(after, k) == has_name(before, k) by {
                        if has_name(before, k) {
                            let p = position_of(before, k);
                            assert(after[p].0@ == k);
                        }
                        if has_name(after, k) {
                            let p = position_of(after, k);
                            assert(before[p].0@ == k);
                        }
                    }
                    assert(entries_map(after) =~= entries_map(before).insert(name@, text@));
                }
            },
            None => {
                entries.push((name, text));
                proof {
                    let after = entries@;
                    assert(distinct_names(after));
                    assert forall|k: Seq<char>|
                        has_name(after, k) == (has_name(before, k) || k == name@) by {
                        if has_name(before, k) {
                            let p = position_of(before, k);
                            assert(after[p].0@ == k);
                        }
                        if k == name@ {
                            assert(after[before.len() as int].0@ == k);
                        }
                        if has_name(after, k) && k != name@ {
                            let p = position_of(after, k);
                            assert(before[p].0@ == k);
                        }
                    }
                    assert(entries_map(after) =~= entries_map(before).insert(name@, text@));
                }
            },
        }
        core::mem::swap(&mut self.entries, &mut entries);
    }

    /// Removes the binding of `name`, if there is one.
    pub fn remove(&mut self, name: &String)
        ensures
            final(self)@ == old(self)@.remove(name@),
    {
        proof {
            use_type_invariant(&*self);
        }
        let ghost before = self.entries@;
        let found = self.find(name);
        let mut entries: Vec<(String, String)> = Vec::new();
        core::mem::swap(&mut self.entries, &mut entries);
        match found {
            Some(i) => {
                entries.remove(i);
                proof {
                    let after = entries@;
                    assert(forall|k: int| 0 <= k < i ==> after[k] == before[k]);
                    assert(forall|k: int| i <= k < after.len() ==> after[k] == before[k + 1]);
                    assert(distinct_names(after));
                    assert forall|k: Seq<char>|
                        has_name(after, k) == (has_name(before, k) && k != name@) by {
                        if has_name(before, k) && k != name@ {
                            let p = position_of(before, k);
                            if p < i {
                                assert(after[p].0@ == k);
                            } else {
                                assert(after[p - 1].0@ == k);
                            }
                        }
                        if has_name(after, k) {
                            let p = position_of(after, k);
                            if p < i {
                                assert(before[p].0@ == k);
                            } else {
                                assert(before[p + 1].0@ == k);
                            }
                        }
                    }
                    assert forall|k: Seq<char>| has_name(after, k) implies entries_map(after)[k]
                        == entries_map(before)[k] by {
                        let p = position_of(after, k);
                        let q = position_of(before, k);
                        if p < i {
                            assert(before[p].0@ == k);
                        } else {
                            assert(before[p + 1].0@ == k);
                        }
                    }
                    assert(entries_map(after) =~= entries_map(before).remove(name@));
                }
            },
            None => {
                assert(entries_map(before) =~= entries_map(before).remove(name@));
            },
        }
        core::mem::swap(&mut self.entries, &mut entries);
    }
}

/// A list of entries with distinct names stands for a map with as many keys
/// as the list has entries.
pub proof fn lemma_entries_map_len(entries: Seq<(String, String)>)
    requires
        distinct_names(entries),
    ensures
        entries_map(entries).dom().finite(),
        entries_map(entries).len() == entries.len(),
    decreases entries.len(),
{
    if entries.len() == 0 {
        assert(entries_map(entries) =~= Map::<Seq<char>, Seq<char>>::empty());
    } else {
        let front = entries.drop_last();
        let last = entries.last();
        lemma_entries_map_len(front);
        assert forall|k: Seq<char>|
            has_name(entries, k) == (has_name(front, k) || k == last.0@) by {
            if has_name(front, k) {
                let p = position_of(front, k);
                assert(entries[p].0@ == k);
            }
            if k == last.0@ {
                assert(entries[entries.len() - 1].0@ == k);
            }
            if has_name(entries, k) && k != last.0@ {
                let p = position_of(entries, k);
                assert(front[p].0@ == k);
            }
        }
        assert(!has_name(front, last.0@)) by {
            if has_name(front, last.0@) {
                let p = position_of(front, last.0@);
                assert(entries[p].0@ == entries[entries.len() - 1].0@);
            }
        }
        assert(entries_map(entries).dom() =~= entries_map(front).dom().insert(last.0@));
    }
}

} // verus!
