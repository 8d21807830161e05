//! A single-writer guard over references to a value that carries one flag.
//!
//! The flag says whether an exclusive view of the value is outstanding. An
//! exclusive view ([`WeakMut`]) can be made only while the flag is clear, and
//! sets it; giving the view up for the reference inside clears it again, once.
//! A shared view ([`Weak`]) can be made only while the flag is clear, and
//! becomes invalid the next time it is looked through if the flag was set in
//! the meantime.

use vstd::prelude::*;

verus! {

/// A value that carries the flag of the guard.
pub trait Weakable: Sized {
    /// Whether an exclusive view of this value is outstanding.
    spec fn writer_flag(&self) -> bool;

    /// This value with its flag set to `flag`, and nothing else changed.
    spec fn with_writer_flag(self, flag: bool) -> Self;

    /// The flag is what it was last set to, setting it to what it is changes
    /// nothing, and only the last setting counts.
    proof fn lemma_writer_flag(self, first: bool, second: bool)
        ensures
            self.with_writer_flag(first).writer_flag() == first,
            self.with_writer_flag(self.writer_flag()) == self,
            self.with_writer_flag(first).with_writer_flag(second) == self.with_writer_flag(
                second,
            ),
    ;

    fn weak_exists(&self) -> (exists: bool)
        ensures
            exists == self.writer_flag(),
    ;

    fn set_weak_exists(&mut self)
        ensures
            *final(self) == (*old(self)).with_writer_flag(true),
    ;

    fn reset_weak_exists(&mut self)
        ensures
            *final(self) == (*old(self)).with_writer_flag(false),
    ;
}

/// A shared view of a value, valid as long as no exclusive view is found
/// outstanding.
pub struct Weak<'a, T: Weakable> {
    weak: Option<&'a T>,
}

/// An exclusive view of a value, good for one use.
pub struct WeakMut<'a, T: Weakable> {
    weak: Option<&'a mut T>,
}

impl<'a, T: Weakable> Default for Weak<'a, T> {
    /// The invalid view.
    fn default() -> (view: Self)
        ensures
            view.referent().is_none(),
    {
        Weak { weak: None }
    }
}

impl<'a, T: Weakable> Weak<'a, T> {
    /// The value that the view shows, if the view is valid.
    pub closed spec fn referent(self) -> Option<T> {
        match self.weak {
            Some(r) => Some(*r),
            None => None,
        }
    }

    /// A shared view of `r`, of which no exclusive view is outstanding.
    pub fn from(r: &'a T) -> (view: Self)
        requires
            !r.writer_flag(),
        ensures
            view.referent() == Some(*r),
    {
        Weak { weak: Some(r) }
    }

    /// Whether the view still shows a value. A view that has not been looked
    /// through since the flag of its value was set still counts as valid.
    pub fn is_valid(&self) -> (valid: bool)
        ensures
            valid == self.referent().is_some(),
    {
        self.weak.is_some()
    }

    /// Makes the view invalid.
    pub fn invalidate(&mut self)
        ensures
            final(self).referent().is_none(),
    {
        self.weak = None;
    }

    /// Looks through the view. A view of a value whose flag is found set
    /// becomes invalid; an invalid view shows nothing.
    pub fn get_ref(&mut self) -> (r: Option<&'a T>)
        ensures
            final(self).referent() == match old(self).referent() {
                Some(value) if !value.writer_flag() => Some(value),
                _ => None,
            },
            r.is_some() == final(self).referent().is_some(),
            r matches Some(value) ==> final(self).referent() == Some(*value),
    {
        let stale: bool = match &self.weak {
            Some(r) => r.weak_exists(),
            None => false,
        };
        if stale {
            self.invalidate();
        }
        self.weak
    }
}

impl<'a, T: Weakable> Default for WeakMut<'a, T> {
    /// The invalid view.
    fn default() -> (view: Self)
        ensures
            view.slot().is_none(),
    {
        WeakMut { weak: None }
    }
}

impl<'a, T: Weakable> WeakMut<'a, T> {
    /// The reference that the view holds, if the view is valid.
    pub closed spec fn slot(self) -> Option<&'a mut T> {
        self.weak
    }

    /// An exclusive view of `r`, of which none is outstanding. The flag of
    /// the value is set, and stays set until the view is used.
    pub fn from(r: &'a mut T) -> (view: Self)
        requires
            !old(r).writer_flag(),
        ensures
            view.slot() matches Some(held) && *held == (*old(r)).with_writer_flag(true)
                && *final(held) == *final(r),
    {
        r.set_weak_exists();
        WeakMut { weak: Some(r) }
    }

    /// Uses the view up: clears the flag and hands out the reference. An
    /// invalid view hands out nothing.
    pub fn get_ref_mut(self) -> (r: Option<&'a mut T>)
        ensures
            match self.slot() {
                Some(held) => r matches Some(given) && *given == (*held).with_writer_flag(false)
                    && *final(given) == *final(held),
                None => r.is_none(),
            },
    {
        match self.weak {
            Some(r) => {
                r.reset_weak_exists();
                Some(r)
            },
            None => None,
        }
    }

    /// Uses the view up for a shared view of the same value.
    pub fn downgrade(self) -> (view: Weak<'a, T>)
        ensures
            match self.slot() {
                Some(held) => view.referent() == Some((*held).with_writer_flag(false))
                    && *final(held) == (*held).with_writer_flag(false),
                None => view.referent().is_none(),
            },
    {
        proof {
            if let Some(held) = self.slot() {
                (*held).lemma_writer_flag(false, false);
            }
        }
        match self.get_ref_mut() {
            Some(r) => Weak::from(&*r),
            None => Weak::default(),
        }
    }
}

/// Taking an exclusive view of a value that has none outstanding sets its
/// flag, so that no second view can be taken of it; using the view clears the
/// flag and leaves the value as it was, so that a new view can be taken.
pub proof fn lemma_exclusive_view_is_single<T: Weakable>(value: T)
    requires
        !value.writer_flag(),
    ensures
        value.with_writer_flag(true).writer_flag(),
        value.with_writer_flag(true).with_writer_flag(false) == value,
        !value.with_writer_flag(true).with_writer_flag(false).writer_flag(),
{
    value.lemma_writer_flag(true, false);
    value.lemma_writer_flag(false, false);
}

} // verus!
