//! Keys of a name map, and the contexts that turn names into keys.
use crate::error::OutOfMemory;
use crate::text;
use vstd::prelude::*;

verus! {

/// Clones that may fail for want of memory.
pub trait TryClone: View + Sized {
    /// Whether there is always enough memory.
    spec fn never_fails() -> bool;

    /// Clones `self`.
    fn try_clone(&self) -> (r: Result<Self, OutOfMemory>)
        ensures
            r matches Ok(clone) ==> clone@ == self@,
            Self::never_fails() ==> r is Ok,
    ;
}

/// Comparison of a key with a key in the same or in another form.
pub trait KeyEq<Rhs: ?Sized + View<V = <Self as View>::V>>: View {
    /// Whether `self` and `other` are the same key.
    fn key_eq(&self, other: &Rhs) -> (r: bool)
        ensures
            r == (self@ == other@),
    ;
}

/// The borrowed form of a key, from which the owned form can be made.
pub trait TryToOwned: View {
    /// The owned form.
    type Owned: View<V = <Self as View>::V>;

    /// Whether there is always enough memory.
    spec fn never_fails() -> bool;

    /// Makes the owned form.
    fn try_to_owned(&self) -> (r: Result<Self::Owned, OutOfMemory>)
        ensures
            r matches Ok(owned) ==> owned@ == self@,
            Self::never_fails() ==> r is Ok,
    ;
}

/// A key in its borrowed or in its owned form.
pub enum TryCow<'a, B: ?Sized + TryToOwned> {
    /// The borrowed form.
    Borrowed(&'a B),
    /// The owned form.
    Owned(B::Owned),
}

impl<'a, B: ?Sized + TryToOwned> View for TryCow<'a, B> {
    type V = <B as View>::V;

    open spec fn view(&self) -> <B as View>::V {
        match self {
            TryCow::Borrowed(b) => b@,
            TryCow::Owned(o) => o@,
        }
    }
}

/// A helper trait used in conjunction with [`NameMap`](crate::name_map::NameMap)
/// to optionally intern keys to non-strings.
pub trait NameMapIntern {
    /// The key that this interning context generates.
    type Key: TryClone + KeyEq<Self::Key>;

    /// The borrowed version of the key type.
    type BorrowedKey: ?Sized
        + View<V = <Self::Key as View>::V>
        + TryToOwned<Owned = Self::Key>
        + KeyEq<Self::Key>;

    /// The key of `s`, if `s` is present.
    spec fn key_of(&self, s: Seq<char>) -> Option<<Self::Key as View>::V>;

    /// Whether there is always enough memory to intern a string.
    spec fn never_fails() -> bool;

    /// No two strings have the same key.
    proof fn keys_are_distinct(&self, s: Seq<char>, t: Seq<char>)
        requires
            self.key_of(s) is Some,
            self.key_of(s) == self.key_of(t),
        ensures
            s == t,
    ;

    /// Inserts `s` into `self` and returns the intern'd key `Self::Key`. The
    /// strings that are present keep their keys, and no other string is
    /// inserted.
    fn intern(&mut self, s: &str) -> (r: Result<Self::Key, OutOfMemory>)
        ensures
            r matches Ok(key) ==> final(self).key_of(s@) == Some(key@),
            old(self).key_of(s@) is Some ==> final(self).key_of(s@) == old(self).key_of(s@),
            forall|t: Seq<char>|
                t != s@ ==> #[trigger] final(self).key_of(t) == old(self).key_of(t),
            Self::never_fails() ==> r is Ok,
    ;

    /// Looks up `s` in `self` returning `Some` if it was found or `None` if
    /// it's not present.
    fn lookup<'a>(&'a self, s: &'a str) -> (r: Option<TryCow<'a, Self::BorrowedKey>>)
        ensures
            match r {
                Some(key) => self.key_of(s@) == Some(key@),
                None => self.key_of(s@) is None,
            },
    ;
}

impl<A: TryClone, B: TryClone> TryClone for (A, B) {
    open spec fn never_fails() -> bool {
        A::never_fails() && B::never_fails()
    }

    fn try_clone(&self) -> (r: Result<(A, B), OutOfMemory>) {
        match (self.0.try_clone(), self.1.try_clone()) {
            (Ok(a), Ok(b)) => Ok((a, b)),
            _ => Err(OutOfMemory),
        }
    }
}

impl TryClone for String {
    open spec fn never_fails() -> bool {
        true
    }

    fn try_clone(&self) -> (r: Result<String, OutOfMemory>) {
        Ok(self.clone())
    }
}

impl TryToOwned for str {
    type Owned = String;

    open spec fn never_fails() -> bool {
        true
    }

    fn try_to_owned(&self) -> (r: Result<String, OutOfMemory>) {
        Ok(self.to_owned())
    }
}

impl KeyEq<String> for String {
    fn key_eq(&self, other: &String) -> (r: bool) {
        *self == *other
    }
}

impl KeyEq<String> for str {
    fn key_eq(&self, other: &String) -> (r: bool) {
        text::str_eq(self, other.as_str())
    }
}

/// For use with [`NameMap`](crate::name_map::NameMap) when no interning should
/// happen and instead string keys are copied as-is.
#[derive(Debug)]
pub struct NameMapNoIntern;

impl NameMapIntern for NameMapNoIntern {
    type Key = String;

    type BorrowedKey = str;

    open spec fn key_of(&self, s: Seq<char>) -> Option<Seq<char>> {
        Some(s)
    }

    open spec fn never_fails() -> bool {
        true
    }

    proof fn keys_are_distinct(&self, s: Seq<char>, t: Seq<char>) {
    }

    fn intern(&mut self, s: &str) -> (r: Result<String, OutOfMemory>) {
        Ok(s.to_owned())
    }

    fn lookup<'a>(&'a self, s: &'a str) -> (r: Option<TryCow<'a, str>>) {
        Some(TryCow::Borrowed(s))
    }
}

} // verus!
