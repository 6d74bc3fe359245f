//! Append/insert/index-addressed store; owns all tree nodes by stable position.
//!
//! A position is a dense, zero-based index; the index layer uses the
//! convention `position = inode - 1`. There is no deletion and no resizing
//! below the current length, so positions are stable identities for the life
//! of the store. Out-of-range access yields `None`, never undefined behavior.

use vstd::prelude::*;

verus! {

#[derive(Debug)]
pub struct ArenaTree<T> {
    arena: Vec<T>,
}

impl<T> View for ArenaTree<T> {
    type V = Seq<T>;

    closed spec fn view(&self) -> Seq<T> {
        self.arena@
    }
}

impl<T> ArenaTree<T> {
    pub fn new() -> (r: Self)
        ensures
            r@ =~= Seq::<T>::empty(),
    {
        ArenaTree { arena: Vec::new() }
    }

    pub fn insert(&mut self, val: T, index: usize)
        requires
            index <= old(self)@.len(),
        ensures
            final(self)@ =~= old(self)@.insert(index as int, val),
    {
        self.arena.insert(index, val);
    }

    pub fn push(&mut self, val: T) -> (r: usize)
        ensures
            r == old(self)@.len(),
            final(self)@ =~= old(self)@.push(val),
    {
        let r: usize = self.arena.len();
        self.arena.push(val);
        r
    }

    pub fn set(&mut self, index: usize, val: T)
        requires
            index < old(self)@.len(),
        ensures
            final(self)@ =~= old(self)@.update(index as int, val),
    {
        self.arena.set(index, val);
    }

    pub fn get_mut(&mut self, index: usize) -> (r: Option<&mut T>)
        ensures
            match r {
                Some(m) => {
                    &&& index < old(self)@.len()
                    &&& *m == old(self)@[index as int]
                    &&& final(self)@ =~= old(self)@.update(index as int, *final(m))
                },
                None => {
                    &&& index >= old(self)@.len()
                    &&& final(self)@ =~= old(self)@
                },
            },
    {
        if index < self.arena.len() {
            Some(&mut self.arena[index])
        } else {
            None
        }
    }

    pub fn get(&self, index: usize) -> (r: Option<&T>)
        ensures
            match r {
                Some(v) => index < self@.len() && *v == self@[index as int],
                None => index >= self@.len(),
            },
    {
        if index < self.arena.len() {
            Some(&self.arena[index])
        } else {
            None
        }
    }

    pub fn len(&self) -> (r: usize)
        ensures
            r == self@.len(),
    {
        self.arena.len()
    }
}

} // verus!
