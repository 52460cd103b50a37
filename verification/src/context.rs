//! A stack of contexts, pushed on entering a scope and popped on leaving it.

use vstd::prelude::*;

verus! {

/// Supplies the fresh value that [`Context::enter`] pushes.
pub trait ContextDefault: Sized {
    /// The value that a freshly entered context holds.
    spec fn spec_default() -> Self;

    /// Produces the fresh value.
    fn default_value() -> (r: Self)
        ensures
            r == Self::spec_default(),
    ;
}

/// A stack of values of type `T`, one per entered scope.
///
/// The top of the stack is the scope currently being visited; the bottom
/// (the "tail") is the outermost scope.
#[derive(Debug)]
pub struct Context<T> {
    pub stack: Vec<T>,
}

impl<T: ContextDefault> Context<T> {
    /// Pushes a fresh default context.
    pub fn enter(&mut self)
        ensures
            final(self).stack@ == old(self).stack@.push(T::spec_default()),
    {
        self.enter_with(T::default_value());
    }
}

impl<T> Context<T> {
    /// Creates an empty context stack.
    pub fn new() -> (r: Context<T>)
        ensures
            r.stack@ == Seq::<T>::empty(),
    {
        Context { stack: Vec::new() }
    }

    /// Pushes the given value as the new current context.
    pub fn enter_with(&mut self, value: T)
        ensures
            final(self).stack@ == old(self).stack@.push(value),
    {
        self.stack.push(value);
    }

    /// Pops and returns the current context.  The stack must not be empty.
    pub fn exit(&mut self) -> (r: T)
        requires
            old(self).stack@.len() > 0,
        ensures
            r == old(self).stack@.last(),
            final(self).stack@ == old(self).stack@.drop_last(),
    {
        let r = self.exit_safe();
        match r {
            Option::Some(v) => v,
            Option::None => vstd::pervasive::unreached(),
        }
    }

    /// Pops and returns the current context, or `None` when the stack is
    /// empty.
    pub fn exit_safe(&mut self) -> (r: Option<T>)
        ensures
            old(self).stack@.len() == 0 ==> {
                &&& r is None
                &&& final(self).stack@ == old(self).stack@
            },
            old(self).stack@.len() > 0 ==> {
                &&& r == Some(old(self).stack@.last())
                &&& final(self).stack@ == old(self).stack@.drop_last()
            },
    {
        self.stack.pop()
    }

    /// Borrows the current context.  The stack must not be empty.
    pub fn get(&self) -> (r: &T)
        requires
            self.stack@.len() > 0,
        ensures
            *r == self.stack@.last(),
    {
        let r = self.get_safe();
        match r {
            Option::Some(v) => v,
            Option::None => vstd::pervasive::unreached(),
        }
    }

    /// Borrows the current context, or `None` when the stack is empty.
    pub fn get_safe(&self) -> (r: Option<&T>)
        ensures
            self.stack@.len() == 0 ==> r is None,
            self.stack@.len() > 0 ==> {
                &&& r is Some
                &&& *r->Some_0 == self.stack@.last()
            },
    {
        self.stack.last()
    }

    /// Mutably borrows the current context.  The stack must not be empty.
    pub fn get_mut(&mut self) -> (r: &mut T)
        requires
            old(self).stack@.len() > 0,
        ensures
            *r == old(self).stack@.last(),
            final(self).stack@ == old(self).stack@.update(
                old(self).stack@.len() - 1,
                *final(r),
            ),
    {
        let i = self.stack.len() - 1;
        vstd::std_specs::vec::vec_index_mut(&mut self.stack, i)
    }

    /// Borrows the outermost context.  The stack must not be empty.
    pub fn tail(&self) -> (r: &T)
        requires
            self.stack@.len() > 0,
        ensures
            *r == self.stack@[0],
    {
        let r = self.tail_safe();
        match r {
            Option::Some(v) => v,
            Option::None => vstd::pervasive::unreached(),
        }
    }

    /// Borrows the outermost context, or `None` when the stack is empty.
    pub fn tail_safe(&self) -> (r: Option<&T>)
        ensures
            self.stack@.len() == 0 ==> r is None,
            self.stack@.len() > 0 ==> {
                &&& r is Some
                &&& *r->Some_0 == self.stack@[0]
            },
    {
        self.stack.first()
    }

    /// Mutably borrows the outermost context.  The stack must not be empty.
    pub fn tail_mut(&mut self) -> (r: &mut T)
        requires
            old(self).stack@.len() > 0,
        ensures
            *r == old(self).stack@[0],
            final(self).stack@ == old(self).stack@.update(0, *final(r)),
    {
        vstd::std_specs::vec::vec_index_mut(&mut self.stack, 0)
    }

    /// The number of contexts on the stack.
    pub fn size(&self) -> (r: usize)
        ensures
            r == self.stack@.len(),
    {
        self.stack.len()
    }

    /// Whether the stack holds no context.
    pub fn is_empty(&self) -> (r: bool)
        ensures
            r == (self.stack@.len() == 0),
    {
        self.stack.is_empty()
    }

    /// Whether the stack holds at least one context.
    pub fn not_empty(&self) -> (r: bool)
        ensures
            r == (self.stack@.len() > 0),
    {
        !self.is_empty()
    }

    /// Removes every context.
    pub fn reset(&mut self)
        ensures
            final(self).stack@ == Seq::<T>::empty(),
    {
        self.stack.clear();
    }

    /// Removes and returns every context, outermost first.
    pub fn drain(&mut self) -> (r: Vec<T>)
        ensures
            r@ == old(self).stack@,
            final(self).stack@ == Seq::<T>::empty(),
    {
        let r = self.stack.split_off(0);
        proof {
            assert(old(self).stack@.subrange(0, old(self).stack@.len() as int)
                =~= old(self).stack@);
            assert(final(self).stack@ =~= Seq::<T>::empty());
        }
        r
    }
}

} // verus!
