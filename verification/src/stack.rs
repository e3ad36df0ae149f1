//! The operand stack of the code that is being translated, as a stack of
//! values, with a floor for the control region in which the code stands.

use crate::ir::{substitute, substitute_in, Value};
use vstd::prelude::*;

verus! {

/// A defect of the translation: the code asks for an operand that its
/// control region does not have.
#[derive(Clone, Copy, Debug, PartialEq, Eq, Structural)]
pub enum StackError {
    /// The region holds fewer operands than the instruction needs.
    StackUnderflow,
}

/// The operands that are on the stack at one point of the code.
#[derive(Debug)]
pub struct OperandStack {
    values: Vec<Value>,
    floor: usize,
}

impl View for OperandStack {
    type V = Seq<Value>;

    closed spec fn view(&self) -> Seq<Value> {
        self.values@
    }
}

impl OperandStack {
    /// The height below which the current control region may not take
    /// operands: they belong to the regions around it.
    pub closed spec fn spec_floor(&self) -> nat {
        self.floor as nat
    }

    /// The number of operands that the current control region may take.
    pub open spec fn available(&self) -> int {
        if self@.len() >= self.spec_floor() {
            self@.len() - self.spec_floor()
        } else {
            0
        }
    }

    /// The number of operands that the current control region may take.
    pub fn count_available(&self) -> (n: usize)
        ensures
            n == self.available(),
    {
        if self.values.len() >= self.floor {
            self.values.len() - self.floor
        } else {
            0
        }
    }

    /// The empty stack, with the floor at the bottom.
    pub fn new() -> (s: Self)
        ensures
            s@ == Seq::<Value>::empty(),
            s.spec_floor() == 0,
    {
        OperandStack { values: Vec::new(), floor: 0 }
    }

    /// The number of operands on the stack.
    pub fn height(&self) -> (n: usize)
        ensures
            n == self@.len(),
    {
        self.values.len()
    }

    /// The floor of the current control region.
    pub fn floor(&self) -> (n: usize)
        ensures
            n == self.spec_floor(),
    {
        self.floor
    }

    /// Moves the floor to `height`, as the code enters or leaves a control region.
    pub fn set_floor(&mut self, height: usize)
        ensures
            final(self)@ == old(self)@,
            final(self).spec_floor() == height,
    {
        self.floor = height;
    }

    /// Puts `v` on top of the stack.
    pub fn push(&mut self, v: Value)
        ensures
            final(self)@ == old(self)@.push(v),
            final(self).spec_floor() == old(self).spec_floor(),
    {
        self.values.push(v);
    }

    /// Takes the top operand off the stack, unless the current control
    /// region has none: then the stack stays as it is.
    pub fn pop(&mut self) -> (r: Result<Value, StackError>)
        ensures
            final(self).spec_floor() == old(self).spec_floor(),
            match r {
                Ok(v) => old(self).available() > 0 && v == old(self)@.last() && final(self)@ == old(
                    self,
                )@.drop_last(),
                Err(e) => old(self).available() == 0 && e == StackError::StackUnderflow && *final(self)
                    == *old(self),
            },
    {
        if self.values.len() <= self.floor {
            return Err(StackError::StackUnderflow);
        }
        let n = self.values.len();
        let v = self.values[n - 1];
        self.values.truncate(n - 1);
        proof {
            assert(self@ =~= old(self)@.drop_last());
        }
        Ok(v)
    }

    /// The operand that is `depth` places below the top, unless the current
    /// control region has no such operand.
    pub fn peek(&self, depth: usize) -> (r: Result<Value, StackError>)
        ensures
            match r {
                Ok(v) => depth < self.available() && v == self@[self@.len() - 1 - depth],
                Err(e) => depth >= self.available() && e == StackError::StackUnderflow,
            },
    {
        let n = self.values.len();
        if n <= self.floor || depth >= n - self.floor {
            return Err(StackError::StackUnderflow);
        }
        Ok(self.values[n - 1 - depth])
    }

    /// The top `count` operands, the topmost last, unless the current
    /// control region has fewer.
    pub fn peek_top(&self, count: usize) -> (r: Result<Vec<Value>, StackError>)
        ensures
            match r {
                Ok(top) => count <= self.available() && top@ == self@.subrange(
                    self@.len() - count,
                    self@.len() as int,
                ),
                Err(e) => count > self.available() && e == StackError::StackUnderflow,
            },
    {
        let n = self.values.len();
        if count > 0 && (n <= self.floor || count > n - self.floor) {
            return Err(StackError::StackUnderflow);
        }
        let mut top: Vec<Value> = Vec::new();
        let mut i: usize = n - count;
        while i < n
            invariant
                n == self@.len(),
                count <= n,
                n - count <= i <= n,
                top@ == self@.subrange(n - count, i as int),
            decreases n - i,
        {
            top.push(self.values[i]);
            i += 1;
            proof {
                assert(top@ =~= self@.subrange(n - count, i as int));
            }
        }
        Ok(top)
    }

    /// Cuts the stack down to `height` operands. A stack that is no higher
    /// stays as it is.
    pub fn truncate_to(&mut self, height: usize)
        ensures
            final(self).spec_floor() == old(self).spec_floor(),
            final(self)@ == (if height <= old(self)@.len() {
                old(self)@.take(height as int)
            } else {
                old(self)@
            }),
    {
        if height <= self.values.len() {
            self.values.truncate(height);
            proof {
                assert(self@ =~= old(self)@.take(height as int));
            }
        }
    }

    /// Puts `v` in every place of the stack where `p` stands.
    pub fn replace(&mut self, p: Value, v: Value)
        ensures
            final(self).spec_floor() == old(self).spec_floor(),
            final(self)@ == substitute(old(self)@, p, v),
    {
        substitute_in(&mut self.values, p, v);
    }
}

} // verus!
