//! A map from names to values that remembers the order in which the names came.
use vstd::prelude::*;

use crate::strings::same;

verus! {

/// Values by name. No name occurs twice; a name keeps the place where it first came.
#[derive(Debug)]
pub struct NameMap<V> {
    entries: Vec<(String, V)>,
}

/// The index of a name among the entries, or the number of entries.
pub open spec fn index_of<T>(s: Seq<(Seq<char>, T)>, name: Seq<char>) -> int
    decreases s.len(),
{
    if s.len() == 0 {
        0
    } else if index_of(s.drop_last(), name) < s.len() - 1 {
        index_of(s.drop_last(), name)
    } else if s.last().0 == name {
        s.len() - 1
    } else {
        s.len() as int
    }
}

pub open spec fn has_name<T>(s: Seq<(Seq<char>, T)>, name: Seq<char>) -> bool {
    index_of(s, name) < s.len()
}

/// The value of a name.
pub open spec fn value_of<T>(s: Seq<(Seq<char>, T)>, name: Seq<char>) -> Option<T> {
    if has_name(s, name) {
        Some(s[index_of(s, name)].1)
    } else {
        None
    }
}

/// The entries after a name was given a value.
pub open spec fn with_value<T>(s: Seq<(Seq<char>, T)>, name: Seq<char>, value: T) -> Seq<
    (Seq<char>, T),
> {
    if has_name(s, name) {
        s.update(index_of(s, name), (name, value))
    } else {
        s.push((name, value))
    }
}

/// No name occurs twice.
pub open spec fn names_once<T>(s: Seq<(Seq<char>, T)>) -> bool {
    forall|i: int, j: int| 0 <= i < j < s.len() ==> (#[trigger] s[i]).0 != (#[trigger] s[j]).0
}

/// The index found is the first one that holds the name.
pub proof fn index_of_first<T>(s: Seq<(Seq<char>, T)>, name: Seq<char>)
    ensures
        0 <= index_of(s, name) <= s.len(),
        index_of(s, name) < s.len() ==> s[index_of(s, name)].0 == name,
        forall|i: int| 0 <= i < index_of(s, name) ==> (#[trigger] s[i]).0 != name,
    decreases s.len(),
{
    if s.len() > 0 {
        let t = s.drop_last();
        index_of_first(t, name);
        assert(forall|i: int| 0 <= i < t.len() ==> t[i] == s[i]);
    }
}

proof fn index_of_is<T>(s: Seq<(Seq<char>, T)>, name: Seq<char>, k: int)
    requires
        0 <= k < s.len(),
        s[k].0 == name,
        forall|i: int| 0 <= i < k ==> (#[trigger] s[i]).0 != name,
    ensures
        index_of(s, name) == k,
{
    index_of_first(s, name);
}

impl<V> NameMap<V> {
    #[verifier::type_invariant]
    spec fn keeps_names_once(self) -> bool {
        forall|i: int, j: int|
            0 <= i < j < self.entries@.len() ==> (#[trigger] self.entries@[i]).0@ != (
            #[trigger] self.entries@[j]).0@
    }
}

impl<V: Clone> Clone for NameMap<V> {
    fn clone(&self) -> (r: Self) {
        proof {
            use_type_invariant(self);
        }
        let mut entries: Vec<(String, V)> = Vec::new();
        let mut i: usize = 0;
        while i < self.entries.len()
            invariant
                i <= self.entries@.len(),
                entries@.len() == i,
                forall|j: int| 0 <= j < i ==> (#[trigger] entries@[j]).0@ == self.entries@[j].0@,
            decreases self.entries@.len() - i,
        {
            entries.push((self.entries[i].0.clone(), self.entries[i].1.clone()));
            i = i + 1;
        }
        NameMap { entries }
    }
}

impl<V: View> View for NameMap<V> {
    type V = Seq<(Seq<char>, V::V)>;

    closed spec fn view(&self) -> Seq<(Seq<char>, V::V)> {
        Seq::new(
            self.entries@.len(),
            |i: int| (self.entries@[i].0@, self.entries@[i].1@),
        )
    }
}

/// After a name was given a value, it has that value, and every other name has
/// the value it had.
pub proof fn value_after_insert<T>(s: Seq<(Seq<char>, T)>, name: Seq<char>, value: T, other: Seq<char>)
    ensures
        value_of(with_value(s, name, value), other) == (if other == name {
            Some(value)
        } else {
            value_of(s, other)
        }),
        names_once(s) ==> names_once(with_value(s, name, value)),
{
    let t = with_value(s, name, value);
    index_of_first(s, name);
    index_of_first(s, other);
    index_of_first(t, other);
    if has_name(s, name) {
        let k = index_of(s, name);
        assert(forall|i: int| 0 <= i < s.len() ==> (#[trigger] t[i]).0 == s[i].0);
        if has_name(s, other) {
            index_of_is(t, other, index_of(s, other));
        }
        if has_name(t, other) {
            index_of_is(s, other, index_of(t, other));
        }
    } else {
        assert(forall|i: int| 0 <= i < s.len() ==> #[trigger] t[i] == s[i]);
        if other == name {
            index_of_is(t, other, s.len() as int);
        } else if has_name(s, other) {
            index_of_is(t, other, index_of(s, other));
        }
    }
}

impl<V: View> NameMap<V> {
    pub fn new() -> (r: Self)
        ensures
            r@ == Seq::<(Seq<char>, V::V)>::empty(),
    {
        let r = NameMap { entries: Vec::new() };
        assert(r@ =~= Seq::<(Seq<char>, V::V)>::empty());
        r
    }

    /// The number of names, of which none occurs twice.
    pub fn len(&self) -> (r: usize)
        ensures
            r == self@.len(),
            names_once(self@),
    {
        proof {
            use_type_invariant(self);
            assert forall|i: int, j: int| 0 <= i < j < self@.len() implies (#[trigger] self@[i]).0
                != (#[trigger] self@[j]).0 by {
                assert(self.entries@[i].0@ != self.entries@[j].0@);
            }
        }
        self.entries.len()
    }

    pub fn is_empty(&self) -> (r: bool)
        ensures
            r == (self@.len() == 0),
    {
        self.entries.len() == 0
    }

    fn find(&self, name: &str) -> (r: usize)
        ensures
            r == index_of(self@, name@),
            r <= self.entries@.len(),
    {
        let mut i: usize = 0;
        while i < self.entries.len()
            invariant
                i <= self.entries@.len(),
                forall|j: int| 0 <= j < i ==> (#[trigger] self@[j]).0 != name@,
            decreases self.entries@.len() - i,
        {
            if same(&self.entries[i].0, name) {
                proof {
                    assert(self@[i as int].0 == name@);
                    index_of_is(self@, name@, i as int);
                }
                return i;
            }
            i = i + 1;
        }
        proof {
            index_of_first(self@, name@);
        }
        i
    }

    pub fn get(&self, name: &str) -> (r: Option<&V>)
        ensures
            match r {
                Some(v) => value_of(self@, name@) == Some(v@),
                None => value_of(self@, name@) is None,
            },
    {
        let i = self.find(name);
        if i < self.entries.len() {
            Some(&self.entries[i].1)
        } else {
            None
        }
    }

    pub fn contains_key(&self, name: &str) -> (r: bool)
        ensures
            r == has_name(self@, name@),
    {
        self.find(name) < self.entries.len()
    }

    pub fn insert(&mut self, name: &str, value: V)
        ensures
            final(self)@ == with_value(old(self)@, name@, value@),
            names_once(final(self)@),
    {
        let i = self.find(name);
        let ghost before = self@;
        proof {
            use_type_invariant(&*self);
            index_of_first(before, name@);
            assert forall|j: int, k: int| 0 <= j < k < before.len() implies (#[trigger] before[j]).0
                != (#[trigger] before[k]).0 by {
                assert(self.entries@[j].0@ != self.entries@[k].0@);
            }
        }
        let mut whole = NameMap { entries: Vec::new() };
        core::mem::swap(self, &mut whole);
        let mut entries = whole.entries;
        if i < entries.len() {
            entries.set(i, (name.to_owned(), value));
        } else {
            entries.push((name.to_owned(), value));
        }
        assert forall|j: int, k: int| 0 <= j < k < entries@.len() implies (
        #[trigger] entries@[j]).0@ != (#[trigger] entries@[k]).0@ by {
            if k < before.len() {
                assert(before[j].0 != before[k].0);
            } else {
                assert(before[j].0 != name@);
            }
        }
        *self = NameMap { entries };
        assert(self@ =~= with_value(before, name@, value@));
        proof {
            use_type_invariant(&*self);
        }
    }

    /// The name of the `i`-th entry.
    pub fn name_at(&self, i: usize) -> (r: &str)
        requires
            i < self@.len(),
        ensures
            r@ == self@[i as int].0,
    {
        self.entries[i].0.as_str()
    }

    /// The value of the `i`-th entry.
    pub fn value_at(&self, i: usize) -> (r: &V)
        requires
            i < self@.len(),
        ensures
            r@ == self@[i as int].1,
    {
        &self.entries[i].1
    }
}

} // verus!
