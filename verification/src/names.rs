//! A small map keyed by text.

use vstd::prelude::*;

verus! {

/// A map from names to values. There are few names, so look-up walks them.
#[derive(Debug)]
pub struct NameMap<V> {
    /// One entry per name, in the order in which the names came.
    pub entries: Vec<(String, V)>,
}

/// Whether some entry has the name.
pub open spec fn has_name<V>(entries: Seq<(String, V)>, name: Seq<char>) -> bool {
    exists|i: int| 0 <= i < entries.len() && (#[trigger] entries[i]).0@ == name
}

/// The entry with the name.
pub open spec fn entry_of<V>(entries: Seq<(String, V)>, name: Seq<char>) -> int {
    choose|i: int| 0 <= i < entries.len() && (#[trigger] entries[i]).0@ == name
}

impl<V> View for NameMap<V> {
    type V = Map<Seq<char>, V>;

    open spec fn view(&self) -> Map<Seq<char>, V> {
        Map::new(
            |name: Seq<char>| has_name(self.entries@, name),
            |name: Seq<char>| self.entries@[entry_of(self.entries@, name)].1,
        )
    }
}

impl<V> NameMap<V> {
    /// No name has two entries.
    pub open spec fn wf(&self) -> bool {
        forall|i: int, j: int|
            0 <= i < self.entries@.len() && 0 <= j < self.entries@.len() && (#[trigger] self.entries@[i]).0@ == (
            #[trigger] self.entries@[j]).0@ ==> i == j
    }

    pub fn new() -> (map: Self)
        ensures
            map.wf(),
            map@ == Map::<Seq<char>, V>::empty(),
    {
        let map = NameMap { entries: Vec::new() };
        proof {
            assert(map@ =~= Map::<Seq<char>, V>::empty());
        }
        map
    }

    /// The entry with a name, if there is one.
    pub fn find(&self, name: &String) -> (at: Option<usize>)
        requires
            self.wf(),
        ensures
            match at {
                Some(i) => i < self.entries@.len() && self.entries@[i as int].0@ == name@ && self@.contains_key(name@)
                    && self@[name@] == self.entries@[i as int].1,
                None => !self@.contains_key(name@),
            },
    {
        let mut i: usize = 0;
        while i < self.entries.len()
            invariant
                i <= self.entries@.len(),
                forall|j: int| 0 <= j < i ==> (#[trigger] self.entries@[j]).0@ != name@,
                self.wf(),
            decreases self.entries@.len() - i,
        {
            if self.entries[i].0 == *name {
                return Some(i);
            }
            i += 1;
        }
        None
    }

    pub fn get(&self, name: &String) -> (value: Option<&V>)
        requires
            self.wf(),
        ensures
            match value {
                Some(v) => self@.contains_key(name@) && *v == self@[name@],
                None => !self@.contains_key(name@),
            },
    {
        match self.find(name) {
            Some(i) => Some(&self.entries[i].1),
            None => None,
        }
    }

    /// Sets the value of a name.
    pub fn insert(&mut self, name: String, value: V)
        requires
            old(self).wf(),
        ensures
            final(self).wf(),
            final(self)@ == old(self)@.insert(name@, value),
            !old(self)@.contains_key(name@) ==> {
                &&& final(self).entries@.len() == old(self).entries@.len() + 1
                &&& final(self).entries@.last().0@ == name@
                &&& final(self).entries@.last().1 == value
            },
    {
        let ghost n = name@;
        match self.find(&name) {
            Some(i) => {
                self.entries.set(i, (name, value));
                proof {
                    lemma_same_names(old(self).entries@, self.entries@, i as int);
                    assert(self@ =~= old(self)@.insert(n, value));
                }
            },
            None => {
                self.entries.push((name, value));
                proof {
                    let was = old(self).entries@;
                    let now = self.entries@;
                    assert(now[was.len() as int].0@ == n);
                    assert forall|j: int| 0 <= j < was.len() implies #[trigger] now[j] == was[j] by {}
                    assert forall|j: int| 0 <= j < was.len() implies (#[trigger] was[j]).0@ != n by {
                        assert(!has_name(was, n));
                    }
                    assert forall|x: Seq<char>| has_name(now, x) <==> #[trigger] has_name(was, x) || x == n by {
                        if has_name(was, x) {
                            assert(now[entry_of(was, x)].0@ == x);
                        }
                        if has_name(now, x) && x != n {
                            assert(was[entry_of(now, x)].0@ == x);
                        }
                    }
                    assert forall|x: Seq<char>| has_name(now, x) implies #[trigger] self@[x] == old(self)@.insert(
                        n,
                        value,
                    )[x] by {
                        let j = entry_of(now, x);
                        if x != n {
                            assert(has_name(was, x));
                            assert(was[j].0@ == x);
                            assert(entry_of(was, x) == j);
                        }
                    }
                    assert(self@ =~= old(self)@.insert(n, value));
                }
            },
        }
    }
}

/// Changing the value of one entry is inserting under its name.
pub proof fn lemma_replaced<V>(was: NameMap<V>, now: NameMap<V>, i: int)
    requires
        was.wf(),
        0 <= i < was.entries@.len(),
        now.entries@.len() == was.entries@.len(),
        now.entries@[i].0@ == was.entries@[i].0@,
        forall|j: int| 0 <= j < was.entries@.len() && j != i ==> #[trigger] now.entries@[j] == was.entries@[j],
    ensures
        now.wf(),
        now@ == was@.insert(was.entries@[i].0@, now.entries@[i].1),
{
    let name = was.entries@[i].0@;
    lemma_same_names(was.entries@, now.entries@, i);
    assert(has_name(was.entries@, name));
    assert forall|x: Seq<char>| has_name(was.entries@, x) && x != name implies now.entries@[#[trigger] entry_of(
        was.entries@,
        x,
    )] == was.entries@[entry_of(was.entries@, x)] by {
        assert(entry_of(was.entries@, x) != i);
    }
    assert(now@ =~= was@.insert(name, now.entries@[i].1));
}

/// Changing one entry under its name leaves all names in place.
proof fn lemma_same_names<V>(was: Seq<(String, V)>, now: Seq<(String, V)>, i: int)
    requires
        0 <= i < was.len(),
        was.len() == now.len(),
        now[i].0@ == was[i].0@,
        forall|j: int| 0 <= j < was.len() && j != i ==> #[trigger] now[j] == was[j],
        forall|a: int, b: int|
            0 <= a < was.len() && 0 <= b < was.len() && (#[trigger] was[a]).0@ == (#[trigger] was[b]).0@ ==> a == b,
    ensures
        forall|a: int, b: int|
            0 <= a < now.len() && 0 <= b < now.len() && (#[trigger] now[a]).0@ == (#[trigger] now[b]).0@ ==> a == b,
        forall|x: Seq<char>| has_name(now, x) <==> #[trigger] has_name(was, x),
        forall|x: Seq<char>| #[trigger] has_name(was, x) ==> entry_of(now, x) == entry_of(was, x),
{
    assert forall|j: int| 0 <= j < now.len() implies (#[trigger] now[j]).0@ == was[j].0@ by {
        if j != i {
            assert(now[j] == was[j]);
        }
    }
    assert forall|a: int, b: int|
        0 <= a < now.len() && 0 <= b < now.len() && (#[trigger] now[a]).0@ == (#[trigger] now[b]).0@ implies a == b by {
        assert(was[a].0@ == was[b].0@);
    }
    assert forall|x: Seq<char>| has_name(now, x) <==> #[trigger] has_name(was, x) by {
        if has_name(was, x) {
            assert(now[entry_of(was, x)].0@ == x);
        }
        if has_name(now, x) {
            assert(was[entry_of(now, x)].0@ == x);
        }
    }
    assert forall|x: Seq<char>| #[trigger] has_name(was, x) implies entry_of(now, x) == entry_of(was, x) by {
        assert(now[entry_of(was, x)].0@ == x);
    }
}

} // verus!
