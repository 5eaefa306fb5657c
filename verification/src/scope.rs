use vstd::prelude::*;

use crate::atom::{Atom, Datum};

verus! {

/// The bindings of one scope, as a map from names to values.
pub type Bindings = Map<Seq<char>, Datum>;

/// The map that a list of name-value entries denotes: a later entry for a name replaces an
/// earlier one.
pub open spec fn entries_map(s: Seq<(String, Atom)>) -> Bindings
    decreases s.len(),
{
    if s.len() == 0 {
        Map::empty()
    } else {
        entries_map(s.drop_last()).insert(s.last().0@, s.last().1@)
    }
}

/// No name has two entries.
pub open spec fn distinct_names(s: Seq<(String, Atom)>) -> bool {
    forall|i: int, j: int| 0 <= i < j < s.len() ==> (#[trigger] s[i]).0@ != (#[trigger] s[j]).0@
}

/// With distinct names, the map binds exactly the names of the entries, each to the value
/// of its entry.
pub proof fn lemma_entries_map(s: Seq<(String, Atom)>)
    requires
        distinct_names(s),
    ensures
        forall|k: Seq<char>| #[trigger]
            entries_map(s).dom().contains(k) <==> exists|i: int| 0 <= i < s.len() && s[i].0@ == k,
        forall|i: int| 0 <= i < s.len() ==> #[trigger] entries_map(s)[s[i].0@] == s[i].1@,
    decreases s.len(),
{
    if s.len() > 0 {
        let t = s.drop_last();
        let n = s.len() - 1;
        assert(distinct_names(t)) by {
            assert forall|a: int, b: int| 0 <= a < b < t.len() implies (#[trigger] t[a]).0@ != (
            #[trigger] t[b]).0@ by {
                assert(t[a] == s[a] && t[b] == s[b]);
            }
        }
        lemma_entries_map(t);
        assert forall|k: Seq<char>| #[trigger]
            entries_map(s).dom().contains(k) <==> exists|i: int|
                0 <= i < s.len() && s[i].0@ == k by {
            if entries_map(s).dom().contains(k) {
                if k == s[n].0@ {
                    assert(s[n].0@ == k);
                } else {
                    assert(entries_map(t).dom().contains(k));
                    let i = choose|i: int| 0 <= i < t.len() && t[i].0@ == k;
                    assert(s[i] == t[i]);
                }
            }
            if exists|i: int| 0 <= i < s.len() && s[i].0@ == k {
                let i = choose|i: int| 0 <= i < s.len() && s[i].0@ == k;
                if i < n {
                    assert(s[i] == t[i]);
                    assert(t[i].0@ == k);
                    assert(entries_map(t).dom().contains(k));
                }
            }
        }
        assert forall|i: int| 0 <= i < s.len() implies #[trigger] entries_map(s)[s[i].0@] == s[i].1@ by {
            if i < n {
                assert(s[i] == t[i]);
                assert(s[i].0@ != s[n].0@);
                assert(entries_map(t)[t[i].0@] == t[i].1@);
            }
        }
    }
}

/// Replacing entry `i` by one for the same name replaces the value of that name in the map.
pub proof fn lemma_entries_map_update(s: Seq<(String, Atom)>, i: int, e: (String, Atom))
    requires
        distinct_names(s),
        0 <= i < s.len(),
        e.0@ == s[i].0@,
    ensures
        distinct_names(s.update(i, e)),
        entries_map(s.update(i, e)) == entries_map(s).insert(s[i].0@, e.1@),
{
    let v = e.1;
    let u = s.update(i, e);
    assert(distinct_names(u)) by {
        assert forall|a: int, b: int| 0 <= a < b < u.len() implies (#[trigger] u[a]).0@ != (
        #[trigger] u[b]).0@ by {
            assert(u[a].0@ == s[a].0@ && u[b].0@ == s[b].0@);
        }
    }
    lemma_entries_map(s);
    lemma_entries_map(u);
    assert(entries_map(u) =~= entries_map(s).insert(s[i].0@, v@)) by {
        assert forall|k: Seq<char>| #[trigger] entries_map(u).dom().contains(k) <==> entries_map(
            s,
        ).insert(s[i].0@, v@).dom().contains(k) by {
            if exists|j: int| 0 <= j < u.len() && u[j].0@ == k {
                let j = choose|j: int| 0 <= j < u.len() && u[j].0@ == k;
                assert(s[j].0@ == u[j].0@);
            }
            if exists|j: int| 0 <= j < s.len() && s[j].0@ == k {
                let j = choose|j: int| 0 <= j < s.len() && s[j].0@ == k;
                assert(s[j].0@ == u[j].0@);
            }
        }
        assert forall|k: Seq<char>| #[trigger] entries_map(u).dom().contains(k) implies entries_map(
            u,
        )[k] == entries_map(s).insert(s[i].0@, v@)[k] by {
            let j = choose|j: int| 0 <= j < u.len() && u[j].0@ == k;
            assert(s[j].0@ == u[j].0@);
            if j != i {
                assert(u[j] == s[j]);
            }
        }
    }
}

/// One scope: names bound to values, each name at most once.
pub struct Scope {
    entries: Vec<(String, Atom)>,
}

impl View for Scope {
    type V = Bindings;

    closed spec fn view(&self) -> Bindings {
        entries_map(self.entries@)
    }
}

impl Scope {
    /// No name is bound twice.
    pub closed spec fn wf(&self) -> bool {
        distinct_names(self.entries@)
    }

    /// A scope with no bindings.
    pub fn new() -> (s: Self)
        ensures
            s.wf(),
            s@ == Map::<Seq<char>, Datum>::empty(),
    {
        Scope { entries: Vec::new() }
    }

    /// Where `name` is bound, if it is.
    fn find(&self, name: &String) -> (r: Option<usize>)
        requires
            self.wf(),
        ensures
            r is Some <==> self@.dom().contains(name@),
            r matches Some(i) ==> i < self.entries@.len() && self.entries@[i as int].0@ == name@,
    {
        proof {
            lemma_entries_map(self.entries@);
        }
        let mut i: usize = 0;
        while i < self.entries.len()
            invariant
                self.wf(),
                i <= self.entries@.len(),
                forall|j: int| 0 <= j < i ==> self.entries@[j].0@ != name@,
            decreases self.entries@.len() - i,
        {
            if self.entries[i].0 == *name {
                proof {
                    lemma_entries_map(self.entries@);
                }
                return Some(i);
            }
            i = i + 1;
        }
        None
    }

    /// The value bound to `name`, if any.
    pub fn get(&self, name: &String) -> (r: Option<&Atom>)
        requires
            self.wf(),
        ensures
            r is Some <==> self@.dom().contains(name@),
            r matches Some(v) ==> v@ == self@[name@],
    {
        proof {
            lemma_entries_map(self.entries@);
        }
        match self.find(name) {
            Some(i) => Some(&self.entries[i].1),
            None => None,
        }
    }

    /// Binds `name` to `value`, replacing an earlier binding of `name`.
    pub fn insert(&mut self, name: String, value: Atom)
        requires
            old(self).wf(),
        ensures
            final(self).wf(),
            final(self)@ == old(self)@.insert(name@, value@),
    {
        match self.find(&name) {
            Some(i) => {
                proof {
                    lemma_entries_map_update(self.entries@, i as int, (name, value));
                }
                self.entries.set(i, (name, value));
            },
            None => {
                proof {
                    lemma_entries_map(self.entries@);
                }
                self.entries.push((name, value));
                proof {
                    assert(self.entries@.drop_last() =~= old(self).entries@);
                }
            },
        }
    }

    /// Rebinds `name`, where it is bound, to `value`; false when `name` is not bound.
    pub fn replace(&mut self, name: &String, value: Atom) -> (found: bool)
        requires
            old(self).wf(),
        ensures
            final(self).wf(),
            found == old(self)@.dom().contains(name@),
            found ==> final(self)@ == old(self)@.insert(name@, value@),
            !found ==> final(self)@ == old(self)@,
    {
        match self.find(name) {
            Some(i) => {
                let n = self.entries[i].0.clone();
                proof {
                    lemma_entries_map_update(self.entries@, i as int, (n, value));
                }
                self.entries.set(i, (n, value));
                true
            },
            None => false,
        }
    }
}

} // verus!
