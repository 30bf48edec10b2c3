//! Results of running bytecode, and the operand stack of the virtual machine.

use vstd::prelude::*;

verus! {

/// How a run of the virtual machine ended.
#[derive(Debug, Clone, Copy, PartialEq, Eq, Structural)]
pub enum InterpretResult {
    Success,
    CompileError,
    RuntimeError,
}

/// The most values the operand stack holds.
pub const STACK_MAX: usize = 256;

/// The operand stack of the virtual machine. Slots above the top keep the
/// values last stored there; `last_popped` remembers the last value taken off.
pub struct Stack<T> {
    data: Vec<T>,
    top: usize,
    last_popped: T,
}

impl<T: Clone> Stack<T> {
    /// The values on the stack, bottom first.
    pub closed spec fn live(&self) -> Seq<T> {
        self.data@.take(self.top as int)
    }

    /// Every slot ever stored, including those above the top.
    pub closed spec fn slots(&self) -> Seq<T> {
        self.data@
    }

    /// The value last popped (or stored as such).
    pub closed spec fn spec_last_popped(&self) -> T {
        self.last_popped
    }

    /// The stack's invariant: the top lies within the stored slots, which fit
    /// the stack's capacity.
    pub closed spec fn well_formed(&self) -> bool {
        self.top <= self.data@.len() <= STACK_MAX
    }

    /// The number of values on the stack.
    pub closed spec fn depth(&self) -> nat {
        self.top as nat
    }

    /// Creates an empty stack whose last popped value is `nil`.
    pub fn new(nil: T) -> (stack: Self)
        ensures
            stack.well_formed(),
            stack.depth() == 0,
            stack.live() == Seq::<T>::empty(),
            stack.spec_last_popped() == nil,
    {
        Stack { data: Vec::new(), top: 0, last_popped: nil }
    }

    /// Push a value onto the stack.
    pub fn push(&mut self, value: T)
        requires
            old(self).well_formed(),
            old(self).depth() < STACK_MAX,
        ensures
            final(self).well_formed(),
            final(self).live() == old(self).live().push(value),
            final(self).depth() == old(self).depth() + 1,
            final(self).spec_last_popped() == old(self).spec_last_popped(),
            final(self).slots().len() >= old(self).slots().len(),
            forall|k: int|
                final(self).depth() <= k < old(self).slots().len() ==> #[trigger] final(self).slots()[k]
                    == old(self).slots()[k],
    {
        let ghost before = self.live();
        if self.top < self.data.len() {
            self.data.set(self.top, value);
        } else {
            self.data.push(value);
        }
        self.top = self.top + 1;
        assert(self.live() =~= before.push(value));
    }

    /// Pop a value from the stack and return (a clone of) it; it also becomes
    /// the last popped value.
    pub fn pop(&mut self) -> (value: T)
        requires
            old(self).well_formed(),
            old(self).depth() > 0,
        ensures
            final(self).well_formed(),
            final(self).live() == old(self).live().drop_last(),
            final(self).depth() == old(self).depth() - 1,
            final(self).slots() == old(self).slots(),
            cloned(old(self).live().last(), final(self).spec_last_popped()),
            cloned(final(self).spec_last_popped(), value),
    {
        let ghost before = self.live();
        self.top = self.top - 1;
        self.last_popped = self.data[self.top].clone();
        assert(self.live() =~= before.drop_last());
        self.last_popped.clone()
    }

    /// Peek at a value on the stack without removing it.
    /// Distance 0 = top of stack, 1 = second from top, etc.
    pub fn peek(&self, distance: usize) -> (value: &T)
        requires
            self.well_formed(),
            distance < self.depth(),
        ensures
            *value == self.live()[self.depth() - 1 - distance],
    {
        &self.data[self.top - 1 - distance]
    }

    /// Get (a clone of) the last popped value.
    pub fn last_popped(&self) -> (value: T)
        ensures
            cloned(self.spec_last_popped(), value),
    {
        self.last_popped.clone()
    }

    /// (A clone of) the top of the stack, or `None` when it is empty.
    pub fn peek_top(&self) -> (value: Option<T>)
        requires
            self.well_formed(),
        ensures
            self.depth() == 0 ==> value is None,
            self.depth() > 0 ==> (value matches Some(v) && cloned(self.live().last(), v)),
    {
        if self.top > 0 {
            Some(self.data[self.top - 1].clone())
        } else {
            None
        }
    }

    /// Get the current stack top index.
    pub fn top(&self) -> (top: usize)
        ensures
            top == self.depth(),
    {
        self.top
    }

    /// Set the stack top index (used for frame management); only stored
    /// slots can come back into view.
    pub fn set_top(&mut self, top: usize)
        requires
            old(self).well_formed(),
            top <= old(self).slots().len(),
        ensures
            final(self).well_formed(),
            final(self).depth() == top,
            final(self).slots() == old(self).slots(),
            final(self).live() == old(self).slots().take(top as int),
            final(self).spec_last_popped() == old(self).spec_last_popped(),
    {
        self.top = top;
    }

    /// Get a reference to a specific stack slot.
    pub fn get(&self, index: usize) -> (value: &T)
        requires
            index < self.slots().len(),
        ensures
            *value == self.slots()[index as int],
    {
        &self.data[index]
    }

    /// Set a specific stack slot to a value.
    pub fn set(&mut self, index: usize, value: T)
        requires
            old(self).well_formed(),
            index < old(self).slots().len(),
        ensures
            final(self).well_formed(),
            final(self).slots() == old(self).slots().update(index as int, value),
            final(self).depth() == old(self).depth(),
            final(self).spec_last_popped() == old(self).spec_last_popped(),
    {
        self.data.set(index, value);
    }

    /// Swap two values on the stack.
    pub fn swap(&mut self, a: usize, b: usize)
        requires
            old(self).well_formed(),
            a < old(self).slots().len(),
            b < old(self).slots().len(),
        ensures
            final(self).well_formed(),
            final(self).slots() == old(self).slots().update(a as int, old(self).slots()[b as int]).update(
                b as int,
                old(self).slots()[a as int],
            ),
            final(self).depth() == old(self).depth(),
            final(self).spec_last_popped() == old(self).spec_last_popped(),
    {
        if a == b {
            return ;
        }
        let ghost s = self.data@;
        let (lo, hi) = if a < b {
            (a, b)
        } else {
            (b, a)
        };
        let high = self.data.remove(hi);
        let low = self.data.remove(lo);
        self.data.insert(lo, high);
        self.data.insert(hi, low);
        assert(self.data@ =~= s.update(a as int, s[b as int]).update(b as int, s[a as int]));
    }

    /// Inserts `value` at position `index` of the stack, moving the values
    /// from there up by one slot (used to pass a receiver as the first
    /// argument of a call). Stored slots above the new top keep their values.
    pub fn insert(&mut self, index: usize, value: T)
        requires
            old(self).well_formed(),
            index <= old(self).depth(),
            old(self).depth() < STACK_MAX,
        ensures
            final(self).well_formed(),
            final(self).live() == old(self).live().insert(index as int, value),
            final(self).depth() == old(self).depth() + 1,
            final(self).slots().len() >= old(self).slots().len(),
            forall|k: int|
                final(self).depth() <= k < old(self).slots().len() ==> #[trigger] final(self).slots()[k]
                    == old(self).slots()[k],
            final(self).spec_last_popped() == old(self).spec_last_popped(),
    {
        let ghost live0 = self.live();
        let ghost slots0 = self.slots();
        let n = self.top;
        self.push(value);
        let mut j = n;
        proof {
            assert(self.live() =~= live0.subrange(0, j as int) + seq![value] + live0.subrange(
                j as int,
                n as int,
            ));
        }
        while j > index
            invariant
                self.well_formed(),
                index <= j <= n,
                self.depth() == n + 1,
                n == live0.len(),
                self.live() == live0.subrange(0, j as int) + seq![value] + live0.subrange(
                    j as int,
                    n as int,
                ),
                self.slots().len() >= slots0.len(),
                forall|k: int| n + 1 <= k < slots0.len() ==> #[trigger] self.slots()[k] == slots0[k],
                self.spec_last_popped() == old(self).spec_last_popped(),
            decreases j,
        {
            let ghost before = self.live();
            self.swap(j - 1, j);
            proof {
                assert(self.live() =~= before.update(j - 1, before[j as int]).update(
                    j as int,
                    before[j - 1],
                ));
                assert(self.live() =~= live0.subrange(0, j - 1) + seq![value] + live0.subrange(
                    j - 1,
                    n as int,
                ));
            }
            j = j - 1;
        }
        proof {
            assert(self.live() =~= live0.insert(index as int, value));
        }
    }

    /// Reset the stack to its initial state, with `nil` as the last popped value.
    pub fn reset(&mut self, nil: T)
        requires
            old(self).well_formed(),
        ensures
            final(self).well_formed(),
            final(self).depth() == 0,
            final(self).live() == Seq::<T>::empty(),
            final(self).slots() == old(self).slots(),
            final(self).spec_last_popped() == nil,
    {
        self.top = 0;
        self.last_popped = nil;
        assert(self.live() =~= Seq::<T>::empty());
    }

    /// Set the last popped value (used when a function returns).
    pub fn set_last_popped(&mut self, value: T)
        ensures
            final(self).spec_last_popped() == value,
            final(self).live() == old(self).live(),
            final(self).slots() == old(self).slots(),
            final(self).depth() == old(self).depth(),
            final(self).well_formed() == old(self).well_formed(),
    {
        self.last_popped = value;
    }
}

/// The stack is last-in first-out: after pushing a value, the value on top
/// is that value (which is what a pop hands back a clone of), and popping it
/// leaves the values that were there before.
pub proof fn lemma_push_pop_restores<T>(before: Seq<T>, value: T)
    ensures
        before.push(value).drop_last() == before,
        before.push(value).last() == value,
{
    assert(before.push(value).drop_last() =~= before);
}

} // verus!
