//! An optional value that is set at most once.
use vstd::prelude::*;

verus! {

#[derive(PartialEq, Eq, Clone, Copy, Debug, Structural)]
enum State {
    /// No item is set
    Empty,
    /// Item is being set
    Contested,
    /// Item is set
    Filled,
}

/// Atomically set optional: it starts empty or filled, and once filled it stays so.
pub struct AtomicOption<T> {
    state: State,
    item: Option<T>,
}

impl<T> View for AtomicOption<T> {
    type V = Option<T>;

    closed spec fn view(&self) -> Option<T> {
        self.item
    }
}

impl<T> AtomicOption<T> {
    /// Between calls the state is `Filled` exactly when an item is set, and never `Contested`.
    pub closed spec fn wf(&self) -> bool {
        &&& self.state != State::Contested
        &&& (self.state == State::Filled <==> self.item is Some)
    }

    pub fn new() -> (o: Self)
        ensures
            o.wf(),
            o@ == None::<T>,
    {
        Self { state: State::Empty, item: None }
    }

    pub fn new_fill(value: T) -> (o: Self)
        ensures
            o.wf(),
            o@ == Some(value),
    {
        Self { state: State::Filled, item: Some(value) }
    }

    pub fn is_some(&self) -> (b: bool)
        requires
            self.wf(),
        ensures
            b == self@ is Some,
    {
        match self.state {
            State::Filled => true,
            _ => false,
        }
    }

    pub fn is_none(&self) -> (b: bool)
        requires
            self.wf(),
        ensures
            b == self@ is None,
    {
        !self.is_some()
    }

    pub fn as_ref(&self) -> (r: Option<&T>)
        requires
            self.wf(),
        ensures
            match r {
                Some(x) => self@ == Some(*x),
                None => self@ is None,
            },
    {
        match self.state {
            State::Empty => None,
            State::Contested => None,
            State::Filled => self.item.as_ref(),
        }
    }

    pub fn as_mut(&mut self) -> (r: Option<&mut T>)
        requires
            old(self).wf(),
        ensures
            r is Some <==> old(self)@ is Some,
            r matches Some(x) ==> old(self)@ == Some(*x) && final(self)@ == Some(*final(x)),
            r is None ==> final(self)@ == old(self)@,
            final(self).wf(),
    {
        match self.state {
            State::Empty => None,
            State::Contested => None,
            State::Filled => self.item.as_mut(),
        }
    }

    /// The item; when none is set, sets the one that `f` makes first.
    pub fn as_ref_or_insert_with<F>(&mut self, f: F) -> (r: &T) where F: FnOnce() -> T
        requires
            old(self).wf(),
            old(self)@ is None ==> f.requires(()),
        ensures
            final(self).wf(),
            final(self)@ == Some(*r),
            old(self)@ matches Some(v) ==> *r == v,
            old(self)@ is None ==> f.ensures((), *r),
    {
        let state = self.claim();
        match state {
            State::Empty => {
                // let's go
                let value = f();
                let state = self.write(value);
                assert(state == State::Contested);
            },
            State::Contested => self.wait_for_fill(),
            State::Filled => {},
        }
        self.as_ref().unwrap()
    }

    /// Moves the state from `Empty` to `Contested`; returns the state before.
    fn claim(&mut self) -> (state: State)
        requires
            old(self).wf(),
        ensures
            state == old(self).state,
            final(self).item == old(self).item,
            state == State::Empty ==> final(self).state == State::Contested,
            state != State::Empty ==> final(self).state == old(self).state,
    {
        let state = self.state;
        if let State::Empty = state {
            self.state = State::Contested;
        }
        state
    }

    /// Sets the item and marks it filled; returns the last state.
    fn write(&mut self, value: T) -> (state: State)
        ensures
            state == old(self).state,
            final(self).state == (if old(self).state == State::Contested {
                State::Filled
            } else {
                old(self).state
            }),
            final(self).item == Some(value),
    {
        self.item = Some(value);
        let state = self.state;
        if let State::Contested = state {
            self.state = State::Filled;
        }
        state
    }

    /// Waits until no other writer is setting the item.
    fn wait_for_fill(&self)
        requires
            self.wf(),
    {
        loop
            invariant
                self.wf(),
            decreases 0nat,
        {
            let state = self.state;
            if state != State::Contested {
                break ;
            }
        }
    }

    /// Returns if the `set` was successful.
    /// If it's false then another value was set before this one could be.
    ///
    /// However after calling `set` the value will always be filled.
    pub fn set(&mut self, value: T) -> (set: bool)
        requires
            old(self).wf(),
        ensures
            final(self).wf(),
            set == old(self)@ is None,
            final(self)@ is Some,
            final(self)@ == (if set {
                Some(value)
            } else {
                old(self)@
            }),
    {
        let state = self.claim();
        match state {
            State::Empty => {
                // let's go
                let state = self.write(value);
                assert(state == State::Contested);
                true
            },
            State::Contested => {
                // another writer is setting the value: wait for it to finish
                self.wait_for_fill();
                false
            },
            // this link is already filled
            State::Filled => false,
        }
    }
}

impl<T> Default for AtomicOption<T> {
    fn default() -> (o: Self)
        ensures
            o.wf(),
            o@ == None::<T>,
    {
        Self::new()
    }
}

} // verus!
