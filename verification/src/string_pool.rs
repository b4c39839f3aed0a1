//! A pool of strings, each of which is there once.
use crate::error::OutOfMemory;
use crate::intern::{KeyEq, NameMapIntern, TryClone, TryCow, TryToOwned};
use crate::text;
use vstd::prelude::*;

verus! {

/// The place of a string in a [`StringPool`].
#[derive(Clone, Copy, Debug, PartialEq, Eq, PartialOrd, Ord, Hash)]
pub struct Atom {
    index: usize,
}

impl View for Atom {
    type V = int;

    closed spec fn view(&self) -> int {
        self.index as int
    }
}

impl TryClone for Atom {
    open spec fn never_fails() -> bool {
        true
    }

    fn try_clone(&self) -> (r: Result<Atom, OutOfMemory>) {
        Ok(*self)
    }
}

impl TryToOwned for Atom {
    type Owned = Atom;

    open spec fn never_fails() -> bool {
        true
    }

    fn try_to_owned(&self) -> (r: Result<Atom, OutOfMemory>) {
        Ok(*self)
    }
}

impl KeyEq<Atom> for Atom {
    fn key_eq(&self, other: &Atom) -> (r: bool) {
        self.index == other.index
    }
}

/// A pool of strings. A string keeps its place once it is there.
#[derive(Debug)]
pub struct StringPool {
    strings: Vec<String>,
}

impl View for StringPool {
    type V = Seq<Seq<char>>;

    closed spec fn view(&self) -> Seq<Seq<char>> {
        Seq::new(self.strings@.len(), |i: int| self.strings@[i]@)
    }
}

impl StringPool {
    /// Creates an empty pool.
    pub fn new() -> (r: StringPool)
        ensures
            r@ == Seq::<Seq<char>>::empty(),
    {
        let pool = StringPool { strings: Vec::new() };
        assert(pool@ =~= Seq::empty());
        pool
    }

    /// The place of `string`, if it is in the pool.
    pub fn get_atom(&self, string: &str) -> (r: Option<Atom>)
        ensures
            match r {
                Some(atom) => self@.index_of_first(string@) == Some(atom@),
                None => self@.index_of_first(string@) is None,
            },
    {
        proof {
            self@.index_of_first_ensures(string@);
        }
        let mut i: usize = 0;
        while i < self.strings.len()
            invariant
                i <= self.strings@.len(),
                forall|j: int| 0 <= j < i ==> self@[j] != string@,
            decreases self.strings@.len() - i,
        {
            if text::str_eq(self.strings[i].as_str(), string) {
                proof {
                    self@.index_of_first_ensures(string@);
                    assert(self@[i as int] == string@);
                }
                return Some(Atom { index: i });
            }
            i += 1;
        }
        None
    }

    /// The place of `string`, which is put at the end of the pool if it is not
    /// there yet.
    pub fn insert(&mut self, string: &str) -> (r: Result<Atom, OutOfMemory>)
        ensures
            r is Ok,
            final(self)@ == if old(self)@.contains(string@) {
                old(self)@
            } else {
                old(self)@.push(string@)
            },
            final(self)@.index_of_first(string@) == Some(r->Ok_0@),
    {
        proof {
            self@.index_of_first_ensures(string@);
        }
        if let Some(atom) = self.get_atom(string) {
            return Ok(atom);
        }
        let atom = Atom { index: self.strings.len() };
        self.strings.push(string.to_owned());
        proof {
            assert(self@ =~= old(self)@.push(string@));
            assert(self@[atom@] == string@);
            self@.index_of_first_ensures(string@);
            assert forall|j: int| 0 <= j < atom@ implies self@[j] != string@ by {
                assert(self@[j] == old(self)@[j]);
            }
        }
        Ok(atom)
    }
}

impl NameMapIntern for StringPool {
    type Key = Atom;

    type BorrowedKey = Atom;

    open spec fn key_of(&self, s: Seq<char>) -> Option<int> {
        self@.index_of_first(s)
    }

    open spec fn never_fails() -> bool {
        true
    }

    proof fn keys_are_distinct(&self, s: Seq<char>, t: Seq<char>) {
        self@.index_of_first_ensures(s);
        self@.index_of_first_ensures(t);
    }

    fn intern(&mut self, string: &str) -> (r: Result<Atom, OutOfMemory>) {
        let r = self.insert(string);
        proof {
            assert forall|t: Seq<char>|
                t != string@ || old(self).key_of(t) is Some implies #[trigger] self.key_of(t) == old(
                self,
            ).key_of(t) by {
                old(self)@.index_of_first_ensures(t);
                self@.index_of_first_ensures(t);
                if let Some(i) = old(self).key_of(t) {
                    assert(self@[i] == t);
                }
                if let Some(j) = self.key_of(t) {
                    if j < old(self)@.len() {
                        assert(old(self)@[j] == t);
                    }
                }
            }
        }
        r
    }

    fn lookup<'a>(&'a self, string: &'a str) -> (r: Option<TryCow<'a, Atom>>) {
        match self.get_atom(string) {
            Some(atom) => Some(TryCow::Owned(atom)),
            None => None,
        }
    }
}

} // verus!
