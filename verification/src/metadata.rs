//! Key-value pairs of text that travel with a frame.
use vstd::prelude::*;
use vstd::string::StringExecFns;

verus! {

/// A map from text to text. The pairs stand in the order in which their keys
/// were first inserted.
pub struct Metadata {
    entries: Vec<(String, String)>,
}

spec fn has_key(entries: Seq<(String, String)>, key: Seq<char>) -> bool {
    exists|i: int| 0 <= i < entries.len() && (#[trigger] entries[i]).0@ == key
}

spec fn place(entries: Seq<(String, String)>, key: Seq<char>) -> int {
    choose|i: int| 0 <= i < entries.len() && (#[trigger] entries[i]).0@ == key
}

/// Whether a list of pairs holds a key.
pub open spec fn lists(pairs: Seq<(Seq<char>, Seq<char>)>, key: Seq<char>) -> bool {
    exists|i: int| 0 <= i < pairs.len() && (#[trigger] pairs[i]).0 == key
}

/// A list of pairs after a value was set: a key that is there keeps its place, a
/// new one comes last.
pub open spec fn with_pair(
    pairs: Seq<(Seq<char>, Seq<char>)>,
    key: Seq<char>,
    value: Seq<char>,
) -> Seq<(Seq<char>, Seq<char>)> {
    if lists(pairs, key) {
        pairs.map_values(
            |p: (Seq<char>, Seq<char>)|
                if p.0 == key {
                    (key, value)
                } else {
                    p
                },
        )
    } else {
        pairs.push((key, value))
    }
}

impl Metadata {
    pub closed spec fn view(&self) -> Map<Seq<char>, Seq<char>> {
        Map::new(
            |key: Seq<char>| has_key(self.entries@, key),
            |key: Seq<char>| self.entries@[place(self.entries@, key)].1@,
        )
    }

    /// No key occurs twice.
    pub closed spec fn wf(&self) -> bool {
        forall|i: int, j: int|
            0 <= i < j < self.entries@.len() ==> (#[trigger] self.entries@[i]).0@ != (
            #[trigger] self.entries@[j]).0@
    }

    pub fn new() -> (res: Self)
        ensures
            res.wf(),
            res@ == Map::<Seq<char>, Seq<char>>::empty(),
            res.pairs() == Seq::<(Seq<char>, Seq<char>)>::empty(),
    {
        let res = Metadata { entries: Vec::new() };
        assert(res@ =~= Map::<Seq<char>, Seq<char>>::empty());
        assert(res.pairs() =~= Seq::<(Seq<char>, Seq<char>)>::empty());
        res
    }

    fn find(&self, key: &String) -> (res: Option<usize>)
        requires
            self.wf(),
        ensures
            match res {
                Some(i) => i < self.entries@.len() && self.entries@[i as int].0@ == key@,
                None => !has_key(self.entries@, key@),
            },
    {
        let mut i: usize = 0;
        while i < self.entries.len()
            invariant
                i <= self.entries@.len(),
                forall|j: int| 0 <= j < i ==> (#[trigger] self.entries@[j]).0@ != key@,
            decreases self.entries@.len() - i,
        {
            if self.entries[i].0 == *key {
                return Some(i);
            }
            i = i + 1;
        }
        None
    }

    /// Sets the value of a key.
    pub fn insert(&mut self, key: &str, value: String)
        requires
            old(self).wf(),
        ensures
            final(self).wf(),
            final(self)@ == old(self)@.insert(key@, value@),
            final(self).pairs() == with_pair(old(self).pairs(), key@, value@),
    {
        let key = String::from_str(key);
        let ghost before = self.entries@;
        let ghost after;
        match self.find(&key) {
            Some(i) => {
                proof {
                    after = before.update(i as int, (key, value));
                }
                self.entries.set(i, (key, value));
                proof {
                    assert forall|k: Seq<char>| has_key(before, k) implies has_key(after, k) by {
                        let j = place(before, k);
                        assert(after[j].0@ == k);
                    }
                    assert forall|k: Seq<char>| has_key(after, k) implies has_key(before, k) by {
                        let j = place(after, k);
                        assert(before[j].0@ == k);
                    }
                    assert(after[i as int].0@ == key@);
                    assert forall|k: Seq<char>| has_key(after, k) && k != key@ implies place(after, k)
                        == place(before, k) by {
                        let j = place(before, k);
                        assert(after[j].0@ == k);
                        let l = place(after, k);
                        assert(before[l].0@ == k);
                    }
                }
            },
            None => {
                proof {
                    after = before.push((key, value));
                }
                self.entries.push((key, value));
                proof {
                    assert(after[before.len() as int].0@ == key@);
                    assert forall|k: Seq<char>| has_key(before, k) implies has_key(after, k)
                        && place(after, k) == place(before, k) by {
                        let j = place(before, k);
                        assert(after[j].0@ == k);
                        let l = place(after, k);
                        assert(l < before.len());
                        assert(before[l].0@ == k);
                    }
                    assert forall|k: Seq<char>| has_key(after, k) && k != key@ implies has_key(
                        before,
                        k,
                    ) by {
                        let j = place(after, k);
                        assert(before[j].0@ == k);
                    }
                }
            },
        }
        proof {
            assert(self.entries@ =~= after);
            assert(self@ =~= old(self)@.insert(key@, value@));
            assert(has_key(before, key@) == lists(old(self).pairs(), key@)) by {
                if has_key(before, key@) {
                    assert(old(self).pairs()[place(before, key@)].0 == key@);
                }
                if lists(old(self).pairs(), key@) {
                    let i = choose|i: int|
                        0 <= i < old(self).pairs().len() && (#[trigger] old(self).pairs()[i]).0
                            == key@;
                    assert(before[i].0@ == key@);
                }
            }
            assert(self.pairs() =~= with_pair(old(self).pairs(), key@, value@));
        }
    }

    /// The value of a key.
    pub fn get(&self, key: &str) -> (res: Option<&String>)
        requires
            self.wf(),
        ensures
            match res {
                Some(value) => self@.contains_key(key@) && self@[key@] == value@,
                None => !self@.contains_key(key@),
            },
    {
        let key = String::from_str(key);
        match self.find(&key) {
            Some(i) => {
                assert(has_key(self.entries@, key@));
                Some(&self.entries[i].1)
            },
            None => None,
        }
    }

    /// The number of keys.
    pub fn len(&self) -> (n: usize)
        requires
            self.wf(),
        ensures
            n == self.pairs().len(),
    {
        self.entries.len()
    }

    /// The pairs in their order.
    pub closed spec fn pairs(&self) -> Seq<(Seq<char>, Seq<char>)> {
        Seq::new(self.entries@.len(), |i: int| (self.entries@[i].0@, self.entries@[i].1@))
    }

    /// The pair at a place.
    pub fn pair(&self, i: usize) -> (res: (&String, &String))
        requires
            self.wf(),
            i < self.pairs().len(),
        ensures
            (res.0@, res.1@) == self.pairs()[i as int],
            self@.contains_key(res.0@),
            self@[res.0@] == res.1@,
    {
        let entry = &self.entries[i];
        assert(has_key(self.entries@, entry.0@));
        (&entry.0, &entry.1)
    }

    /// The pairs list the map: each key stands in exactly one pair, with its value.
    pub proof fn pairs_list_the_map(&self)
        requires
            self.wf(),
        ensures
            forall|key: Seq<char>| #[trigger]
                self@.contains_key(key) <==> lists(self.pairs(), key),
            forall|i: int|
                0 <= i < self.pairs().len() ==> self@.contains_key(
                    (#[trigger] self.pairs()[i]).0,
                ) && self@[self.pairs()[i].0] == self.pairs()[i].1,
            forall|i: int, j: int|
                0 <= i < j < self.pairs().len() ==> (#[trigger] self.pairs()[i]).0 != (
                #[trigger] self.pairs()[j]).0,
    {
        let entries = self.entries@;
        assert forall|key: Seq<char>| #[trigger] self@.contains_key(key) <==> lists(
            self.pairs(),
            key,
        ) by {
            if has_key(entries, key) {
                assert(self.pairs()[place(entries, key)].0 == key);
            }
            if lists(self.pairs(), key) {
                let i = choose|i: int|
                    0 <= i < self.pairs().len() && (#[trigger] self.pairs()[i]).0 == key;
                assert(entries[i].0@ == key);
            }
        }
        assert forall|i: int| 0 <= i < self.pairs().len() implies self@.contains_key(
            (#[trigger] self.pairs()[i]).0,
        ) && self@[self.pairs()[i].0] == self.pairs()[i].1 by {
            let key = entries[i].0@;
            assert(has_key(entries, key));
            let k = place(entries, key);
            assert(entries[k].0@ == entries[i].0@);
        }
        assert forall|i: int, j: int| 0 <= i < j < self.pairs().len() implies (
        #[trigger] self.pairs()[i]).0 != (#[trigger] self.pairs()[j]).0 by {
            assert(entries[i].0@ != entries[j].0@);
        }
    }
}

/// Setting a key changes no other pair and no place: a key that is there keeps its place with
/// the new value, a new one comes last.
pub proof fn pairs_keep_their_places(
    pairs: Seq<(Seq<char>, Seq<char>)>,
    key: Seq<char>,
    value: Seq<char>,
    i: int,
)
    requires
        0 <= i < pairs.len(),
    ensures
        with_pair(pairs, key, value)[i].0 == pairs[i].0,
        pairs[i].0 != key ==> with_pair(pairs, key, value)[i].1 == pairs[i].1,
        pairs[i].0 == key ==> with_pair(pairs, key, value)[i].1 == value,
        pairs[i].0 == key ==> with_pair(pairs, key, value).len() == pairs.len(),
        (forall|j: int| 0 <= j < pairs.len() ==> (#[trigger] pairs[j]).0 != key) ==> with_pair(
            pairs,
            key,
            value,
        ).len() == pairs.len() + 1 && with_pair(pairs, key, value).last() == (key, value),
{
    if pairs[i].0 == key {
        assert(lists(pairs, key));
    }
}

} // verus!
