//! A set of registers.

use vstd::prelude::*;
use crate::ir::Register;

verus! {

/// A finite set of registers, held as a list without repetitions.
pub struct RegisterSet {
    members: Vec<Register>,
}

impl View for RegisterSet {
    type V = Set<Register>;

    closed spec fn view(&self) -> Set<Register> {
        Set::new(|register: Register| self.members@.contains(register))
    }
}

impl RegisterSet {
    /// The empty set.
    pub fn new() -> (set: RegisterSet)
        ensures
            set@ == Set::<Register>::empty(),
    {
        let set = RegisterSet { members: Vec::new() };
        assert(set@ =~= Set::<Register>::empty());
        set
    }

    /// Whether a register is in the set.
    pub fn contains(&self, register: Register) -> (found: bool)
        ensures
            found == self@.contains(register),
    {
        let mut i: usize = 0;
        while i < self.members.len()
            invariant
                i <= self.members.len(),
                forall|j: int| 0 <= j < i ==> self.members@[j] != register,
            decreases self.members.len() - i,
        {
            if self.members[i].0 == register.0 {
                return true;
            }
            i += 1;
        }
        false
    }

    /// Adds a register to the set.
    pub fn insert(&mut self, register: Register)
        ensures
            final(self)@ == old(self)@.insert(register),
    {
        if !self.contains(register) {
            self.members.push(register);
            assert forall|other: Register|
                self@.contains(other) == old(self)@.insert(register).contains(other) by {
                if old(self).members@.contains(other) {
                    let j = choose|j: int|
                        0 <= j < old(self).members@.len() && old(self).members@[j] == other;
                    assert(self.members@[j] == other);
                }
                if other == register {
                    assert(self.members@[self.members@.len() - 1] == other);
                }
            }
        }
        assert(self@ =~= old(self)@.insert(register));
    }

    /// Adds every register of a list to the set.
    pub fn insert_all(&mut self, registers: &Vec<Register>)
        ensures
            final(self)@ == old(self)@.union(registers@.to_set()),
    {
        let mut i: usize = 0;
        while i < registers.len()
            invariant
                i <= registers.len(),
                self@ == old(self)@.union(registers@.take(i as int).to_set()),
            decreases registers.len() - i,
        {
            self.insert(registers[i]);
            proof {
                let earlier = registers@.take(i as int);
                let now = registers@.take(i + 1);
                assert(now =~= earlier.push(registers@[i as int]));
                assert forall|other: Register|
                    now.to_set().contains(other) == earlier.to_set().insert(
                        registers@[i as int],
                    ).contains(other) by {
                    if earlier.contains(other) {
                        let j = choose|j: int| 0 <= j < earlier.len() && earlier[j] == other;
                        assert(now[j] == other);
                    }
                    if other == registers@[i as int] {
                        assert(now[i as int] == other);
                    }
                }
                assert(now.to_set() =~= earlier.to_set().insert(registers@[i as int]));
                assert(self@ =~= old(self)@.union(now.to_set()));
            }
            i += 1;
        }
        assert(registers@.take(registers@.len() as int) =~= registers@);
    }

    /// Adds every register of another set to the set.
    pub fn absorb(&mut self, other: &RegisterSet)
        ensures
            final(self)@ == old(self)@.union(other@),
    {
        self.insert_all(&other.members);
        assert(other.members@.to_set() =~= other@);
    }

    /// A copy of the set.
    pub fn duplicate(&self) -> (copy: RegisterSet)
        ensures
            copy@ == self@,
    {
        let mut copy = RegisterSet::new();
        copy.absorb(self);
        assert(copy@ =~= self@);
        copy
    }
}

} // verus!
